use aurora_layout::text_position::{
    char_offset_at_advance, fragment_text_hit, glyphs_walkable, topmost_text_hit, Glyph, GlyphStore,
    StackingContent, TextGlyphs, TextHit,
};

fn glyph(advance: i32, text: &str) -> Glyph {
    Glyph { advance, is_word_separator: false, chars: text.chars().collect() }
}

fn separator(advance: i32) -> Glyph {
    Glyph { advance, is_word_separator: true, chars: vec![' '] }
}

fn store(glyphs: Vec<Glyph>) -> GlyphStore {
    let total_advance = glyphs.iter().map(|g| g.advance).sum();
    let total_word_separators = glyphs.iter().filter(|g| g.is_word_separator).count();
    let total_utf16_len = glyphs.iter().flat_map(|g| g.chars.iter()).map(|c| c.len_utf16()).sum();
    GlyphStore { glyphs, total_advance, total_word_separators, total_utf16_len }
}

fn fragment(runs: Vec<GlyphStore>, justification: i32) -> TextGlyphs {
    TextGlyphs { glyphs: runs, justification_adjustment: justification }
}

#[test]
fn halves_of_a_glyph() {
    let f = fragment(vec![store(vec![glyph(600, "a"), glyph(600, "b"), glyph(600, "c")])], 0);
    assert_eq!(char_offset_at_advance(&f, 0), 0);
    assert_eq!(char_offset_at_advance(&f, 300), 0);
    // Just past the midpoint snaps to the next character.
    assert_eq!(char_offset_at_advance(&f, 301), 1);
    assert_eq!(char_offset_at_advance(&f, 600), 1);
    assert_eq!(char_offset_at_advance(&f, 1500), 2);
    assert_eq!(char_offset_at_advance(&f, 1799), 3);
    // Past every glyph: the end of the fragment.
    assert_eq!(char_offset_at_advance(&f, 1800), 3);
    assert_eq!(char_offset_at_advance(&f, 100000), 3);
    assert_eq!(char_offset_at_advance(&f, -50), 0);
}

#[test]
fn clusters_cover_several_characters() {
    let f = fragment(vec![store(vec![glyph(600, "fi"), glyph(600, "x")])], 0);
    assert_eq!(char_offset_at_advance(&f, 400), 2);
    assert_eq!(char_offset_at_advance(&f, 700), 2);
    assert_eq!(char_offset_at_advance(&f, 1000), 3);
}

#[test]
fn whole_runs_are_skipped() {
    let f = fragment(
        vec![store(vec![glyph(300, "a"), glyph(300, "b")]), store(vec![glyph(600, "c")]), store(vec![])],
        0,
    );
    assert_eq!(char_offset_at_advance(&f, 700), 2);
    assert_eq!(char_offset_at_advance(&f, 1000), 3);
    assert_eq!(char_offset_at_advance(&f, 5000), 3);
}

#[test]
fn justification_widens_separators() {
    let f = fragment(vec![store(vec![glyph(600, "a"), separator(300), glyph(600, "b")])], 300);
    // The separator spans 600..1200 once justified.
    assert_eq!(char_offset_at_advance(&f, 800), 1);
    assert_eq!(char_offset_at_advance(&f, 1000), 2);
    assert_eq!(char_offset_at_advance(&f, 1300), 2);
}

#[test]
fn fast_forward_uses_the_store_totals() {
    // The run's totals claim 7 characters: the fast-forward counts what the
    // store says, the glyph walk what the glyphs say.
    let run = GlyphStore {
        glyphs: vec![separator(100), separator(100), separator(100)],
        total_advance: 300,
        total_word_separators: 3,
        total_utf16_len: 7,
    };
    let f = fragment(vec![run], 50);
    // Justified run width is 300 + 3 * 50 = 450: 400 falls on the third glyph.
    assert_eq!(char_offset_at_advance(&f, 400), 3);
    // Past 450 the whole run is skipped.
    assert_eq!(char_offset_at_advance(&f, 451), 7);
}

#[test]
fn advances_are_clamped() {
    let max_au = (1 << 30) - 1;
    let f = fragment(vec![store(vec![glyph(max_au, "a"), glyph(max_au, "b")])], 0);
    assert_eq!(char_offset_at_advance(&f, max_au - 1), 1);
    // The second glyph's end is clamped to MAX_AU, where it starts: a target
    // at MAX_AU lies past both glyphs.
    assert_eq!(char_offset_at_advance(&f, max_au), 2);
}

#[test]
fn topmost_fragment_wins() {
    let a = TextHit { node: 1, char_offset: 4 };
    let b = TextHit { node: 2, char_offset: 0 };
    let contents = vec![
        StackingContent::Fragment(Some(a)),
        StackingContent::Fragment(Some(b)),
        StackingContent::AtomicInlineStackingContainer,
        StackingContent::Fragment(None),
    ];
    assert_eq!(topmost_text_hit(&contents), Some(b));
    assert_eq!(topmost_text_hit(&vec![StackingContent::Fragment(Some(a))]), Some(a));
    assert_eq!(topmost_text_hit(&vec![StackingContent::Fragment(None)]), None);
    assert_eq!(topmost_text_hit(&vec![]), None);
}

#[test]
fn nested_stacking_contexts_are_searched() {
    let a = TextHit { node: 1, char_offset: 4 };
    let b = TextHit { node: 2, char_offset: 7 };
    let c = TextHit { node: 3, char_offset: 1 };
    // A nested context painted above `a` holds the topmost hit.
    let contents = vec![
        StackingContent::Fragment(Some(a)),
        StackingContent::StackingContext(vec![
            StackingContent::Fragment(Some(b)),
            StackingContent::StackingContext(vec![StackingContent::Fragment(Some(c))]),
            StackingContent::Fragment(None),
        ]),
    ];
    assert_eq!(topmost_text_hit(&contents), Some(c));
    // A nested context without a hit lets the search go on below it.
    let contents = vec![
        StackingContent::Fragment(Some(a)),
        StackingContent::StackingContext(vec![StackingContent::Fragment(None), StackingContent::StackingContext(vec![])]),
        StackingContent::AtomicInlineStackingContainer,
    ];
    assert_eq!(topmost_text_hit(&contents), Some(a));
    // A fragment painted above a nested context wins over it.
    let contents = vec![
        StackingContent::StackingContext(vec![StackingContent::Fragment(Some(b))]),
        StackingContent::Fragment(Some(a)),
    ];
    assert_eq!(topmost_text_hit(&contents), Some(a));
}

#[test]
fn fragment_hits() {
    let f = fragment(vec![store(vec![glyph(600, "a"), glyph(600, "b")])], 0);
    assert_eq!(fragment_text_hit(false, Some(3), &f, 700), None);
    assert_eq!(fragment_text_hit(true, None, &f, 700), None);
    assert_eq!(fragment_text_hit(true, Some(3), &f, 700), Some(TextHit { node: 3, char_offset: 1 }));
    assert_eq!(fragment_text_hit(true, Some(3), &f, 1000), Some(TextHit { node: 3, char_offset: 2 }));
}

#[test]
fn offsets_count_utf16_code_units() {
    // An astral character takes two UTF-16 code units.
    let f = fragment(vec![store(vec![glyph(600, "\u{1F600}"), glyph(600, "a")])], 0);
    assert_eq!(char_offset_at_advance(&f, 100), 0);
    assert_eq!(char_offset_at_advance(&f, 400), 2);
    assert_eq!(char_offset_at_advance(&f, 1000), 3);
    assert_eq!(char_offset_at_advance(&f, 5000), 3);
}

#[test]
fn offsets_grow_with_the_target() {
    let f = fragment(
        vec![store(vec![glyph(600, "a"), separator(100)]), store(vec![glyph(300, "\u{1F600}")])],
        60,
    );
    let mut last = 0;
    for x in -100..1500 {
        let o = char_offset_at_advance(&f, x);
        assert!(o >= last);
        if x < 0 {
            assert_eq!(o, 0);
        }
        last = o;
    }
    assert_eq!(last, 4);
}

#[test]
fn walkable_fragments() {
    let f = fragment(vec![store(vec![glyph(600, "a")])], 0);
    assert!(glyphs_walkable(&f));
    let too_wide = fragment(vec![store(vec![glyph(1 << 30, "a")])], 0);
    assert!(!glyphs_walkable(&too_wide));
    let bad_justification = fragment(vec![store(vec![glyph(600, "a")])], -(1 << 30));
    assert!(!glyphs_walkable(&bad_justification));
    let too_many = fragment(vec![GlyphStore { glyphs: vec![], total_advance: 0, total_word_separators: 0, total_utf16_len: usize::MAX }, store(vec![glyph(600, "a")])], 0);
    assert!(!glyphs_walkable(&too_many));
}

#[test]
fn negative_justification_narrows_separators() {
    let f = fragment(
        vec![store(vec![glyph(600, "a"), separator(300)]), store(vec![glyph(600, "b")])],
        -100,
    );
    // The separator spans 600..800 and the last glyph 800..1400.
    assert_eq!(char_offset_at_advance(&f, 700), 1);
    assert_eq!(char_offset_at_advance(&f, 750), 2);
    assert_eq!(char_offset_at_advance(&f, 900), 2);
    assert_eq!(char_offset_at_advance(&f, 1200), 3);
    assert_eq!(char_offset_at_advance(&f, 1400), 3);
    let mut last = 0;
    for x in -50..1500 {
        let o = char_offset_at_advance(&f, x);
        assert!(o >= last);
        if x < 0 {
            assert_eq!(o, 0);
        }
        last = o;
    }
    assert_eq!(last, 3);
}
