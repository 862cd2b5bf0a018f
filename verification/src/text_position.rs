//! Pixel to text-position resolution for body-text selection: which
//! character of a text fragment lies under a horizontal position, and which
//! fragment of a stacking-context tree is the topmost hit.

use vstd::prelude::*;
use crate::au::{au_add, au_div, au_mul, au_valid, clamp_au, max_au, trunc_div};

verus! {

/// One shaped glyph: its advance in app units, whether it is a word
/// separator (which justification widens), and the characters it covers.
#[derive(Clone, Debug)]
pub struct Glyph {
    pub advance: i32,
    pub is_word_separator: bool,
    pub chars: Vec<char>,
}

/// A run of shaped glyphs with the totals that its store keeps.
#[derive(Clone, Debug)]
pub struct GlyphStore {
    pub glyphs: Vec<Glyph>,
    pub total_advance: i32,
    pub total_word_separators: usize,
    /// The UTF-16 code units of the characters the run covers.
    pub total_utf16_len: usize,
}

/// The glyph runs of a text fragment and its justification adjustment.
#[derive(Clone, Debug)]
pub struct TextGlyphs {
    pub glyphs: Vec<GlyphStore>,
    pub justification_adjustment: i32,
}

/// The result of a successful pixel to text-position lookup.
#[derive(Clone, Copy, Debug, PartialEq, Eq, Structural)]
pub struct TextHit {
    /// The DOM node owning the hit text fragment.
    pub node: usize,
    /// Zero-based UTF-16 code-unit offset of the character whose glyph the
    /// cursor is over, usable as the offset of a DOM `Range` endpoint in a
    /// text node.
    pub char_offset: usize,
}

/// The UTF-16 code units that a character takes.
pub open spec fn char_utf16_len(c: char) -> nat {
    if (c as u32) >= 0x10000 {
        2
    } else {
        1
    }
}

/// The UTF-16 code units that a sequence of characters takes.
pub open spec fn utf16_len(cs: Seq<char>) -> nat
    decreases cs.len(),
{
    if cs.len() == 0 {
        0
    } else {
        utf16_len(cs.drop_last()) + char_utf16_len(cs.last())
    }
}

/// The UTF-16 code units of the characters a glyph covers.
pub open spec fn glyph_units(g: Glyph) -> nat {
    utf16_len(g.chars@)
}

/// A prefix takes no more UTF-16 code units than the whole.
proof fn lemma_utf16_prefix(cs: Seq<char>, i: int)
    requires
        0 <= i <= cs.len(),
    ensures
        utf16_len(cs.take(i)) <= utf16_len(cs),
    decreases cs.len(),
{
    if i < cs.len() {
        assert(cs.drop_last().take(i) =~= cs.take(i));
        lemma_utf16_prefix(cs.drop_last(), i);
    } else {
        assert(cs.take(i) =~= cs);
    }
}

/// The UTF-16 code units of `cs`, or `None` when they exceed `usize`.
fn utf16_len_checked(cs: &Vec<char>) -> (r: Option<usize>)
    ensures
        match r {
            Some(n) => n == utf16_len(cs@),
            None => utf16_len(cs@) > usize::MAX,
        },
{
    let mut n: usize = 0;
    let mut i: usize = 0;
    while i < cs.len()
        invariant
            i <= cs.len(),
            n == utf16_len(cs@.take(i as int)),
        decreases cs.len() - i,
    {
        let u: usize = if (cs[i] as u32) >= 0x10000 { 2 } else { 1 };
        assert(cs@.take(i + 1).drop_last() =~= cs@.take(i as int));
        match n.checked_add(u) {
            Some(m) => n = m,
            None => {
                proof {
                    lemma_utf16_prefix(cs@, i + 1);
                }
                return None;
            },
        }
        i = i + 1;
    }
    assert(cs@.take(cs.len() as int) =~= cs@);
    Some(n)
}

/// The UTF-16 code units of the characters a glyph covers.
fn glyph_utf16_len(g: &Glyph) -> (n: usize)
    requires
        glyph_units(*g) <= usize::MAX,
    ensures
        n == glyph_units(*g),
{
    match utf16_len_checked(&g.chars) {
        Some(n) => n,
        None => 0,
    }
}

/// A glyph's advance with justification applied to word separators.
pub open spec fn glyph_width(g: Glyph, justification: int) -> int {
    if g.is_word_separator {
        clamp_au(g.advance + justification)
    } else {
        g.advance as int
    }
}

/// The total advance of a run with justification, as the fast-forward computes it.
pub open spec fn run_total(run: GlyphStore, justification: int) -> int {
    clamp_au(run.total_advance + clamp_au(justification * (run.total_word_separators as i32)))
}

/// The glyph walk within one run from glyph `k`, at advance `adv` and
/// character index `idx`: `(true, _, i)` when the target falls on a glyph and
/// `i` is the resulting index, else `(false, a, i)` with the advance and index
/// at the run's end.
pub open spec fn glyph_walk(gs: Seq<Glyph>, justification: int, target: int, k: int, adv: int, idx: int) -> (
    bool,
    int,
    int,
)
    decreases gs.len() - k,
{
    if k < 0 || k >= gs.len() {
        (false, adv, idx)
    } else {
        let g = gs[k];
        let w = glyph_width(g, justification);
        let end = clamp_au(adv + w);
        if target < end {
            let mid = clamp_au(adv + trunc_div(w, 2));
            (true, 0, if target <= mid { idx } else { idx + glyph_units(g) })
        } else {
            glyph_walk(gs, justification, target, k + 1, end, idx + glyph_units(g))
        }
    }
}

/// The character index that the walk over runs `r..` returns, starting at
/// advance `adv` and index `idx`; a run that ends before the target is skipped whole.
pub open spec fn run_walk(runs: Seq<GlyphStore>, justification: int, target: int, r: int, adv: int, idx: int) -> int
    decreases runs.len() - r, 1int,
{
    if r < 0 || r >= runs.len() {
        idx
    } else {
        let run = runs[r];
        let skip_to = clamp_au(adv + run_total(run, justification));
        if skip_to < target {
            run_walk(runs, justification, target, r + 1, skip_to, idx + run.total_utf16_len)
        } else {
            after_run(runs, justification, target, r, glyph_walk(run.glyphs@, justification, target, 0, adv, idx))
        }
    }
}

/// Finish the walk after run `r`'s glyph walk ended with `res`.
pub open spec fn after_run(runs: Seq<GlyphStore>, justification: int, target: int, r: int, res: (bool, int, int)) -> int
    decreases runs.len() - r, 0int,
{
    if res.0 {
        res.2
    } else if r < 0 || r >= runs.len() {
        res.2
    } else {
        run_walk(runs, justification, target, r + 1, res.1, res.2)
    }
}

/// The characters that glyphs `k..` of a run cover.
pub open spec fn glyph_chars(gs: Seq<Glyph>, k: int) -> int
    decreases gs.len() - k,
{
    if k < 0 || k >= gs.len() {
        0
    } else {
        glyph_units(gs[k]) + glyph_chars(gs, k + 1)
    }
}

/// Every character count that the walk over runs `r..` may add up.
pub open spec fn run_capacity(runs: Seq<GlyphStore>, r: int) -> int
    decreases runs.len() - r,
{
    if r < 0 || r >= runs.len() {
        0
    } else {
        runs[r].total_utf16_len + glyph_chars(runs[r].glyphs@, 0) + run_capacity(runs, r + 1)
    }
}

/// All app-unit lengths of the fragment lie in `MIN_AU..=MAX_AU`.
pub open spec fn glyphs_valid(t: TextGlyphs) -> bool {
    &&& au_valid(t.justification_adjustment as int)
    &&& forall|r: int| 0 <= r < t.glyphs@.len() ==> au_valid(#[trigger] t.glyphs@[r].total_advance as int)
    &&& forall|r: int, k: int|
        0 <= r < t.glyphs@.len() && 0 <= k < t.glyphs@[r].glyphs@.len() ==> au_valid(
            #[trigger] t.glyphs@[r].glyphs@[k].advance as int,
        )
}

/// The character index under `target_x`, as `char_offset_at_advance` computes it.
pub open spec fn char_offset_spec(t: TextGlyphs, target_x: i32) -> int {
    run_walk(t.glyphs@, t.justification_adjustment as int, target_x as int, 0, 0, 0)
}

proof fn lemma_glyph_chars_nonneg(gs: Seq<Glyph>, k: int)
    ensures
        glyph_chars(gs, k) >= 0,
    decreases gs.len() - k,
{
    if 0 <= k < gs.len() {
        lemma_glyph_chars_nonneg(gs, k + 1);
    }
}

proof fn lemma_run_capacity_nonneg(runs: Seq<GlyphStore>, r: int)
    ensures
        run_capacity(runs, r) >= 0,
    decreases runs.len() - r,
{
    if 0 <= r < runs.len() {
        lemma_glyph_chars_nonneg(runs[r].glyphs@, 0);
        lemma_run_capacity_nonneg(runs, r + 1);
    }
}

/// Walk the fragment's glyph stores accumulating the advance until it
/// crosses `target_x`, then return the UTF-16 offset reached: the offset
/// before the glyph under the target, or after it when the target is past
/// the glyph's midpoint; the end of the fragment when the target lies past
/// every glyph. Runs that end before the target are skipped whole.
pub fn char_offset_at_advance(fragment: &TextGlyphs, target_x: i32) -> (r: usize)
    requires
        glyphs_valid(*fragment),
        run_capacity(fragment.glyphs@, 0) <= usize::MAX,
    ensures
        r == char_offset_spec(*fragment, target_x),
        widths_add_up(*fragment) ==> r == plain_runs(
            fragment.glyphs@,
            fragment.justification_adjustment as int,
            target_x as int,
            0,
            0,
            0,
        ),
{
    proof {
        if widths_add_up(*fragment) {
            law_fast_forward_is_plain_walk(*fragment, target_x);
        }
    }
    let justification_adjustment = fragment.justification_adjustment;
    let ghost runs = fragment.glyphs@;
    let ghost j = justification_adjustment as int;
    let ghost t = target_x as int;
    let mut current_character_index: usize = 0;
    let mut current_advance: i32 = 0;
    let mut r: usize = 0;
    while r < fragment.glyphs.len()
        invariant
            runs == fragment.glyphs@,
            j == justification_adjustment as int,
            justification_adjustment == fragment.justification_adjustment,
            t == target_x as int,
            glyphs_valid(*fragment),
            r <= runs.len(),
            au_valid(current_advance as int),
            current_character_index + run_capacity(runs, r as int) <= usize::MAX,
            widths_add_up(*fragment) ==> char_offset_spec(*fragment, target_x) == plain_runs(
                fragment.glyphs@,
                fragment.justification_adjustment as int,
                target_x as int,
                0,
                0,
                0,
            ),
            char_offset_spec(*fragment, target_x) == run_walk(
                runs,
                j,
                t,
                r as int,
                current_advance as int,
                current_character_index as int,
            ),
        decreases runs.len() - r,
    {
        let glyph_store = &fragment.glyphs[r];
        proof {
            lemma_glyph_chars_nonneg(glyph_store.glyphs@, 0);
            lemma_run_capacity_nonneg(runs, r + 1);
            assert(au_valid(fragment.glyphs@[r as int].total_advance as int));
        }
        let separators = au_mul(justification_adjustment, glyph_store.total_word_separators as i32);
        let run_total = au_add(glyph_store.total_advance, separators);
        // Cheap fast-forward: if the entire run ends before target_x, skip it whole.
        if au_add(current_advance, run_total) < target_x {
            current_advance = au_add(current_advance, run_total);
            current_character_index = current_character_index + glyph_store.total_utf16_len;
            r = r + 1;
            continue;
        }
        let ghost adv0 = current_advance as int;
        let ghost idx0 = current_character_index as int;
        let ghost gs = glyph_store.glyphs@;
        let mut k: usize = 0;
        while k < glyph_store.glyphs.len()
            invariant
                runs == fragment.glyphs@,
                gs == glyph_store.glyphs@,
                glyph_store == fragment.glyphs@[r as int],
                r < runs.len(),
                j == justification_adjustment as int,
                justification_adjustment == fragment.justification_adjustment,
                t == target_x as int,
                glyphs_valid(*fragment),
                k <= gs.len(),
                au_valid(current_advance as int),
                current_character_index + glyph_chars(gs, k as int) + run_capacity(runs, r + 1) <= usize::MAX,
                widths_add_up(*fragment) ==> char_offset_spec(*fragment, target_x) == plain_runs(
                    fragment.glyphs@,
                    fragment.justification_adjustment as int,
                    target_x as int,
                    0,
                    0,
                    0,
                ),
                char_offset_spec(*fragment, target_x) == after_run(
                    runs,
                    j,
                    t,
                    r as int,
                    glyph_walk(gs, j, t, k as int, current_advance as int, current_character_index as int),
                ),
            decreases gs.len() - k,
        {
            let glyph = &glyph_store.glyphs[k];
            proof {
                lemma_glyph_chars_nonneg(gs, k + 1);
                lemma_run_capacity_nonneg(runs, r + 1);
                assert(au_valid(fragment.glyphs@[r as int].glyphs@[k as int].advance as int));
                assert(au_valid(justification_adjustment as int));
            }
            let mut glyph_advance = glyph.advance;
            if glyph.is_word_separator {
                glyph_advance = au_add(glyph_advance, justification_adjustment);
            }
            // If this glyph's pixel range straddles target_x, the cursor is on
            // this glyph; the right half snaps to the next character.
            let glyph_end = au_add(current_advance, glyph_advance);
            if target_x < glyph_end {
                let glyph_mid = au_add(current_advance, au_div(glyph_advance, 2));
                let chars_in_glyph = glyph_utf16_len(glyph);
                if target_x <= glyph_mid {
                    return current_character_index;
                } else {
                    return current_character_index + chars_in_glyph;
                }
            }
            current_advance = glyph_end;
            current_character_index = current_character_index + glyph_utf16_len(glyph);
            k = k + 1;
        }
        r = r + 1;
    }
    // Cursor is past the end of all glyphs: return end-of-fragment.
    current_character_index
}

/// The advance of glyphs `k..` of a run, justification included.
pub open spec fn run_width(gs: Seq<Glyph>, justification: int, k: int) -> int
    decreases gs.len() - k,
{
    if k < 0 || k >= gs.len() {
        0
    } else {
        gs[k].advance + (if gs[k].is_word_separator { justification } else { 0 }) + run_width(gs, justification, k + 1)
    }
}

/// The advance of glyphs `k..` of a run, without justification.
pub open spec fn sum_advances(gs: Seq<Glyph>, k: int) -> int
    decreases gs.len() - k,
{
    if k < 0 || k >= gs.len() {
        0
    } else {
        gs[k].advance + sum_advances(gs, k + 1)
    }
}

/// The word separators among glyphs `k..` of a run.
pub open spec fn count_separators(gs: Seq<Glyph>, k: int) -> int
    decreases gs.len() - k,
{
    if k < 0 || k >= gs.len() {
        0
    } else {
        (if gs[k].is_word_separator { 1int } else { 0int }) + count_separators(gs, k + 1)
    }
}

/// The advance of runs `r..`, justification included.
pub open spec fn runs_width(runs: Seq<GlyphStore>, justification: int, r: int) -> int
    decreases runs.len() - r,
{
    if r < 0 || r >= runs.len() {
        0
    } else {
        run_width(runs[r].glyphs@, justification, 0) + runs_width(runs, justification, r + 1)
    }
}

/// A store's totals agree with its glyphs.
pub open spec fn store_consistent(run: GlyphStore) -> bool {
    &&& run.total_advance == sum_advances(run.glyphs@, 0)
    &&& run.total_word_separators == count_separators(run.glyphs@, 0)
    &&& run.total_utf16_len == glyph_chars(run.glyphs@, 0)
}

/// A glyph's advance with the justification that a word separator takes.
pub open spec fn adjusted_advance(g: Glyph, justification: int) -> int {
    g.advance + (if g.is_word_separator { justification } else { 0 })
}

/// Every glyph of a run keeps a non-negative width once justified.
pub open spec fn widths_nonneg(gs: Seq<Glyph>, justification: int) -> bool {
    forall|i: int| 0 <= i < gs.len() ==> adjusted_advance(#[trigger] gs[i], justification) >= 0
}

/// Every glyph of every run keeps a non-negative width once justified.
pub open spec fn runs_widths_nonneg(runs: Seq<GlyphStore>, justification: int) -> bool {
    forall|q: int| 0 <= q < runs.len() ==> widths_nonneg(#[trigger] runs[q].glyphs@, justification)
}

/// A fragment whose widths add up: valid lengths, stores whose totals agree
/// with their glyphs and whose added justification stays within the
/// app-unit range, non-negative justified glyph widths, and a justified total
/// within `MAX_AU`.
pub open spec fn widths_add_up(t: TextGlyphs) -> bool {
    &&& glyphs_valid(t)
    &&& forall|r: int| 0 <= r < t.glyphs@.len() ==> store_consistent(#[trigger] t.glyphs@[r])
    &&& forall|r: int|
        0 <= r < t.glyphs@.len() ==> au_valid(
            t.justification_adjustment * (#[trigger] t.glyphs@[r]).total_word_separators,
        )
    &&& runs_widths_nonneg(t.glyphs@, t.justification_adjustment as int)
    &&& runs_width(t.glyphs@, t.justification_adjustment as int, 0) <= max_au()
}

/// The glyph walk of one run without fast-forward or clamping: glyph by
/// glyph, the target falls on the first glyph whose end lies beyond it.
pub open spec fn plain_glyphs(gs: Seq<Glyph>, justification: int, target: int, k: int, adv: int, idx: int) -> (
    bool,
    int,
    int,
)
    decreases gs.len() - k,
{
    if k < 0 || k >= gs.len() {
        (false, adv, idx)
    } else {
        let g = gs[k];
        let w = g.advance + (if g.is_word_separator { justification } else { 0 });
        if target < adv + w {
            (true, 0, if target <= adv + w / 2 { idx } else { idx + glyph_units(g) })
        } else {
            plain_glyphs(gs, justification, target, k + 1, adv + w, idx + glyph_units(g))
        }
    }
}

/// Every glyph of every run walked in order, without fast-forward or
/// clamping: the index before the glyph under the target, or after it past
/// its midpoint; the total number of characters past the last glyph.
pub open spec fn plain_runs(runs: Seq<GlyphStore>, justification: int, target: int, r: int, adv: int, idx: int) -> int
    decreases runs.len() - r,
{
    if r < 0 || r >= runs.len() {
        idx
    } else {
        let res = plain_glyphs(runs[r].glyphs@, justification, target, 0, adv, idx);
        if res.0 {
            res.2
        } else {
            plain_runs(runs, justification, target, r + 1, res.1, res.2)
        }
    }
}

proof fn lemma_plain_glyphs_end(gs: Seq<Glyph>, justification: int, target: int, k: int, adv: int, idx: int)
    requires
        0 <= k,
    ensures
        !plain_glyphs(gs, justification, target, k, adv, idx).0 ==> {
            &&& plain_glyphs(gs, justification, target, k, adv, idx).1 == adv + run_width(gs, justification, k)
            &&& plain_glyphs(gs, justification, target, k, adv, idx).2 == idx + glyph_chars(gs, k)
        },
    decreases gs.len() - k,
{
    if k < gs.len() {
        let g = gs[k];
        let w = g.advance + (if g.is_word_separator { justification } else { 0 });
        lemma_plain_glyphs_end(gs, justification, target, k + 1, adv + w, idx + glyph_units(g));
    }
}

proof fn lemma_run_width_nonneg(gs: Seq<Glyph>, justification: int, k: int)
    requires
        widths_nonneg(gs, justification),
    ensures
        run_width(gs, justification, k) >= 0,
        0 <= k < gs.len() ==> run_width(gs, justification, k) >= gs[k].advance + (if gs[k].is_word_separator {
            justification
        } else {
            0
        }),
    decreases gs.len() - k,
{
    if 0 <= k < gs.len() {
        lemma_run_width_nonneg(gs, justification, k + 1);
    }
}

proof fn lemma_run_width_split(gs: Seq<Glyph>, justification: int, k: int)
    requires
        0 <= k,
    ensures
        run_width(gs, justification, k) == sum_advances(gs, k) + justification * count_separators(gs, k),
        count_separators(gs, k) >= 0,
    decreases gs.len() - k,
{
    if k < gs.len() {
        lemma_run_width_split(gs, justification, k + 1);
        let c = count_separators(gs, k + 1);
        assert(justification * (c + 1) == justification * c + justification) by (nonlinear_arith);
    }
}

proof fn lemma_runs_width_nonneg(runs: Seq<GlyphStore>, justification: int, r: int)
    requires
        runs_widths_nonneg(runs, justification),
    ensures
        runs_width(runs, justification, r) >= 0,
    decreases runs.len() - r,
{
    if 0 <= r < runs.len() {
        assert(widths_nonneg(runs[r].glyphs@, justification));
        lemma_run_width_nonneg(runs[r].glyphs@, justification, 0);
        lemma_runs_width_nonneg(runs, justification, r + 1);
    }
}

/// A run that ends before the target is walked through without a hit.
proof fn lemma_plain_glyphs_skip(gs: Seq<Glyph>, justification: int, target: int, k: int, adv: int, idx: int)
    requires
        0 <= k,
        widths_nonneg(gs, justification),
        adv + run_width(gs, justification, k) <= target,
    ensures
        !plain_glyphs(gs, justification, target, k, adv, idx).0,
    decreases gs.len() - k,
{
    if k < gs.len() {
        let g = gs[k];
        let w = g.advance + (if g.is_word_separator { justification } else { 0 });
        lemma_run_width_nonneg(gs, justification, k + 1);
        lemma_plain_glyphs_skip(gs, justification, target, k + 1, adv + w, idx + glyph_units(g));
    }
}

/// Within the app-unit range, the clamped glyph walk is the plain one.
proof fn lemma_glyph_walk_plain(gs: Seq<Glyph>, justification: int, target: int, k: int, adv: int, idx: int)
    requires
        0 <= k,
        0 <= adv,
        widths_nonneg(gs, justification),
        adv + run_width(gs, justification, k) <= max_au(),
    ensures
        glyph_walk(gs, justification, target, k, adv, idx) == plain_glyphs(gs, justification, target, k, adv, idx),
    decreases gs.len() - k,
{
    if k < gs.len() {
        let g = gs[k];
        let w = g.advance + (if g.is_word_separator { justification } else { 0 });
        lemma_run_width_nonneg(gs, justification, k + 1);
        assert(glyph_width(g, justification) == w);
        assert(trunc_div(w, 2) == w / 2);
        lemma_glyph_walk_plain(gs, justification, target, k + 1, adv + w, idx + glyph_units(g));
    }
}

/// Within the app-unit range and with consistent stores, the walk with
/// fast-forward and clamped arithmetic is the plain walk.
proof fn lemma_run_walk_plain(runs: Seq<GlyphStore>, justification: int, target: int, r: int, adv: int, idx: int)
    requires
        0 <= r,
        0 <= adv,
        forall|q: int| 0 <= q < runs.len() ==> store_consistent(#[trigger] runs[q]),
        forall|q: int| 0 <= q < runs.len() ==> au_valid(justification * (#[trigger] runs[q]).total_word_separators),
        runs_widths_nonneg(runs, justification),
        adv + runs_width(runs, justification, r) <= max_au(),
    ensures
        run_walk(runs, justification, target, r, adv, idx) == plain_runs(runs, justification, target, r, adv, idx),
    decreases runs.len() - r,
{
    if r < runs.len() {
        let run = runs[r];
        let gs = run.glyphs@;
        assert(store_consistent(runs[r]));
        assert(au_valid(justification * runs[r].total_word_separators));
        assert(widths_nonneg(gs, justification));
        lemma_run_width_nonneg(gs, justification, 0);
        lemma_runs_width_nonneg(runs, justification, r + 1);
        lemma_run_width_split(gs, justification, 0);
        let width = run_width(gs, justification, 0);
        let seps = run.total_word_separators;
        let product = justification * seps;
        if justification != 0 {
            assert(seps <= if product < 0 { -product } else { product }) by (nonlinear_arith)
                requires
                    justification != 0,
                    seps >= 0,
                    product == justification * seps,
            ;
            assert((seps as i32) as int == seps as int);
        } else {
            let c = (seps as i32) as int;
            assert(justification * c == 0) by (nonlinear_arith)
                requires
                    justification == 0,
            ;
        }
        assert(clamp_au(justification * ((seps as i32) as int)) == product);
        assert(run_total(run, justification) == width);
        lemma_plain_glyphs_end(gs, justification, target, 0, adv, idx);
        assert(clamp_au(adv + run_total(run, justification)) == adv + width);
        if adv + width < target {
            lemma_plain_glyphs_skip(gs, justification, target, 0, adv, idx);
            lemma_run_walk_plain(runs, justification, target, r + 1, adv + width, idx + run.total_utf16_len);
            assert(run_walk(runs, justification, target, r, adv, idx) == run_walk(runs, justification, target, r + 1, adv + width, idx + run.total_utf16_len));
            assert(plain_runs(runs, justification, target, r, adv, idx) == plain_runs(runs, justification, target, r + 1, adv + width, idx + run.total_utf16_len));
        } else {
            lemma_glyph_walk_plain(gs, justification, target, 0, adv, idx);
            let res = plain_glyphs(gs, justification, target, 0, adv, idx);
            assert(run_walk(runs, justification, target, r, adv, idx) == after_run(runs, justification, target, r, res));
            if !res.0 {
                lemma_run_walk_plain(runs, justification, target, r + 1, res.1, res.2);
            }
        }
    }
}

/// For a fragment whose widths add up (consistent stores, non-negative
/// justified widths, total within range), the character index that
/// `char_offset_at_advance` returns is that of the plain glyph-by-glyph walk:
/// skipping whole runs that end before the target never changes the answer.
pub proof fn law_fast_forward_is_plain_walk(t: TextGlyphs, target_x: i32)
    requires
        widths_add_up(t),
    ensures
        char_offset_spec(t, target_x) == plain_runs(t.glyphs@, t.justification_adjustment as int, target_x as int, 0, 0, 0),
{
    lemma_run_walk_plain(t.glyphs@, t.justification_adjustment as int, target_x as int, 0, 0, 0);
}

/// One item of a stacking context's contents, as the position search sees it.
#[derive(Debug)]
pub enum StackingContent {
    /// A fragment, with the hit that it gives for the searched point, if any.
    Fragment(Option<TextHit>),
    /// An atomic inline (image, iframe): it carries no text.
    AtomicInlineStackingContainer,
    /// A nested stacking context, painted as a whole at this point of its
    /// parent's order, with its own contents in paint order.
    StackingContext(Vec<StackingContent>),
}

/// The hit of the topmost fragment that gives one, in the stacking-context
/// tree: contents paint in order, so the last hitting item wins, and a
/// nested stacking context hits where its own topmost fragment does.
pub open spec fn topmost_hit(contents: Seq<StackingContent>) -> Option<TextHit>
    decreases contents,
{
    if contents.len() == 0 {
        None
    } else {
        let below = topmost_hit(contents.drop_last());
        match contents.last() {
            StackingContent::Fragment(Some(hit)) => Some(hit),
            StackingContent::StackingContext(inner) => {
                proof {
                    assert(decreases_to!(contents => contents[contents.len() - 1]));
                }
                match topmost_hit(inner@) {
                    Some(hit) => Some(hit),
                    None => below,
                }
            },
            _ => below,
        }
    }
}

/// Walk a stacking context's contents from the topmost down, into nested
/// stacking contexts, and return the first text hit.
pub fn topmost_text_hit(contents: &Vec<StackingContent>) -> (r: Option<TextHit>)
    ensures
        r == topmost_hit(contents@),
    decreases contents@,
{
    let mut i: usize = contents.len();
    assert(contents@.take(i as int) =~= contents@);
    while i > 0
        invariant
            i <= contents.len(),
            topmost_hit(contents@) == topmost_hit(contents@.take(i as int)),
        decreases i,
    {
        assert(contents@.take(i as int).drop_last() =~= contents@.take(i - 1));
        assert(contents@.take(i as int).last() == contents@[i - 1]);
        match &contents[i - 1] {
            StackingContent::Fragment(hit) => {
                if hit.is_some() {
                    return *hit;
                }
            },
            StackingContent::AtomicInlineStackingContainer => {},
            StackingContent::StackingContext(inner) => {
                proof {
                    assert(decreases_to!(contents@ => contents@[i - 1]));
                }
                let hit = topmost_text_hit(inner);
                if hit.is_some() {
                    return hit;
                }
            },
        }
        i = i - 1;
    }
    None
}

/// The hit a text fragment gives: none when the point lies outside its
/// rectangle or the fragment has no node; otherwise its node and the
/// character offset under `target_x`, the point's distance from the
/// fragment's left edge in app units.
pub fn fragment_text_hit(inside: bool, tag: Option<usize>, fragment: &TextGlyphs, target_x: i32) -> (r: Option<TextHit>)
    requires
        inside && tag is Some ==> glyphs_valid(*fragment) && run_capacity(fragment.glyphs@, 0) <= usize::MAX,
    ensures
        !inside ==> r is None,
        inside ==> match tag {
            None => r is None,
            Some(node) => r == Some(TextHit { node: node, char_offset: char_offset_spec(*fragment, target_x) as usize }),
        },
{
    if !inside {
        return None;
    }
    let node = match tag {
        Some(node) => node,
        None => return None,
    };
    let char_offset = char_offset_at_advance(fragment, target_x);
    Some(TextHit { node, char_offset })
}

/// The characters of runs `r..`.
pub open spec fn runs_chars(runs: Seq<GlyphStore>, r: int) -> int
    decreases runs.len() - r,
{
    if r < 0 || r >= runs.len() {
        0
    } else {
        glyph_chars(runs[r].glyphs@, 0) + runs_chars(runs, r + 1)
    }
}

proof fn lemma_plain_glyphs_bound(gs: Seq<Glyph>, justification: int, target: int, k: int, adv: int, idx: int)
    requires
        0 <= k,
    ensures
        idx <= plain_glyphs(gs, justification, target, k, adv, idx).2 <= idx + glyph_chars(gs, k),
    decreases gs.len() - k,
{
    lemma_glyph_chars_nonneg(gs, k);
    if k < gs.len() {
        let g = gs[k];
        let w = g.advance + (if g.is_word_separator { justification } else { 0 });
        lemma_glyph_chars_nonneg(gs, k + 1);
        lemma_plain_glyphs_bound(gs, justification, target, k + 1, adv + w, idx + glyph_units(g));
    }
}

proof fn lemma_plain_runs_bound(runs: Seq<GlyphStore>, justification: int, target: int, r: int, adv: int, idx: int)
    requires
        0 <= r,
        runs_widths_nonneg(runs, justification),
    ensures
        idx <= plain_runs(runs, justification, target, r, adv, idx) <= idx + runs_chars(runs, r),
        adv + runs_width(runs, justification, r) <= target ==> plain_runs(runs, justification, target, r, adv, idx)
            == idx + runs_chars(runs, r),
    decreases runs.len() - r,
{
    if r < runs.len() {
        let gs = runs[r].glyphs@;
        assert(widths_nonneg(gs, justification));
        lemma_plain_glyphs_bound(gs, justification, target, 0, adv, idx);
        lemma_plain_glyphs_end(gs, justification, target, 0, adv, idx);
        lemma_runs_width_nonneg(runs, justification, r + 1);
        lemma_run_width_nonneg(gs, justification, 0);
        let res = plain_glyphs(gs, justification, target, 0, adv, idx);
        if adv + runs_width(runs, justification, r) <= target {
            lemma_plain_glyphs_skip(gs, justification, target, 0, adv, idx);
        }
        if !res.0 {
            lemma_plain_runs_bound(runs, justification, target, r + 1, res.1, res.2);
        } else {
            lemma_runs_chars_nonneg(runs, r + 1);
        }
    }
}

proof fn lemma_runs_chars_nonneg(runs: Seq<GlyphStore>, r: int)
    ensures
        runs_chars(runs, r) >= 0,
    decreases runs.len() - r,
{
    if 0 <= r < runs.len() {
        lemma_glyph_chars_nonneg(runs[r].glyphs@, 0);
        lemma_runs_chars_nonneg(runs, r + 1);
    }
}

/// For a fragment whose widths add up, the character offset lies within the fragment,
/// and a target at or past the fragment's end gives the end of the fragment.
pub proof fn law_offset_within_fragment(t: TextGlyphs, target_x: i32)
    requires
        widths_add_up(t),
    ensures
        0 <= char_offset_spec(t, target_x) <= runs_chars(t.glyphs@, 0),
        runs_width(t.glyphs@, t.justification_adjustment as int, 0) <= target_x ==> char_offset_spec(t, target_x)
            == runs_chars(t.glyphs@, 0),
{
    law_fast_forward_is_plain_walk(t, target_x);
    lemma_plain_runs_bound(t.glyphs@, t.justification_adjustment as int, target_x as int, 0, 0, 0);
}

proof fn lemma_glyph_chars_suffix(gs: Seq<Glyph>, k: int)
    requires
        0 <= k,
    ensures
        glyph_chars(gs, k) <= glyph_chars(gs, 0),
    decreases k,
{
    if k > 0 {
        lemma_glyph_chars_suffix(gs, k - 1);
        if k - 1 < gs.len() {
            lemma_glyph_chars_nonneg(gs, k);
        } else {
            lemma_glyph_chars_nonneg(gs, k);
        }
    }
}

proof fn lemma_run_capacity_suffix(runs: Seq<GlyphStore>, r: int)
    requires
        0 <= r,
    ensures
        run_capacity(runs, r) <= run_capacity(runs, 0),
    decreases r,
{
    if r > 0 {
        lemma_run_capacity_suffix(runs, r - 1);
        lemma_run_capacity_nonneg(runs, r);
        if r - 1 < runs.len() {
            lemma_glyph_chars_nonneg(runs[r - 1].glyphs@, 0);
        }
    }
}

/// Whether `char_offset_at_advance` can walk the fragment: every length in
/// the app-unit range, and every UTF-16 count the walk may add within `usize`.
pub fn glyphs_walkable(t: &TextGlyphs) -> (b: bool)
    ensures
        b == (glyphs_valid(*t) && run_capacity(t.glyphs@, 0) <= usize::MAX),
{
    let max: i32 = 1073741823;
    if t.justification_adjustment < -max || t.justification_adjustment > max {
        return false;
    }
    let ghost runs = t.glyphs@;
    // Lengths, run by run.
    let mut r: usize = 0;
    while r < t.glyphs.len()
        invariant
            runs == t.glyphs@,
            max == max_au(),
            r <= runs.len(),
            au_valid(t.justification_adjustment as int),
            forall|q: int| 0 <= q < r ==> au_valid(#[trigger] runs[q].total_advance as int),
            forall|q: int, k: int|
                0 <= q < r && 0 <= k < runs[q].glyphs@.len() ==> au_valid(#[trigger] runs[q].glyphs@[k].advance as int),
        decreases runs.len() - r,
    {
        let store = &t.glyphs[r];
        if store.total_advance < -max || store.total_advance > max {
            return false;
        }
        let mut k: usize = 0;
        while k < store.glyphs.len()
            invariant
                runs == t.glyphs@,
                store == runs[r as int],
                r < runs.len(),
                max == max_au(),
                k <= store.glyphs.len(),
                forall|i: int| 0 <= i < k ==> au_valid(#[trigger] store.glyphs@[i].advance as int),
            decreases store.glyphs.len() - k,
        {
            let a = store.glyphs[k].advance;
            if a < -max || a > max {
                assert(!au_valid(runs[r as int].glyphs@[k as int].advance as int));
                return false;
            }
            k = k + 1;
        }
        r = r + 1;
    }
    // UTF-16 counts, summed from the last run back.
    let mut acc: usize = 0;
    let mut r: usize = t.glyphs.len();
    while r > 0
        invariant
            runs == t.glyphs@,
            glyphs_valid(*t),
            r <= runs.len(),
            acc == run_capacity(runs, r as int),
        decreases r,
    {
        let store = &t.glyphs[r - 1];
        let ghost gs = store.glyphs@;
        let mut g: usize = 0;
        let mut k: usize = store.glyphs.len();
        while k > 0
            invariant
                runs == t.glyphs@,
                store == runs[r - 1],
                gs == store.glyphs@,
                0 < r <= runs.len(),
                k <= gs.len(),
                g == glyph_chars(gs, k as int),
            decreases k,
        {
            match utf16_len_checked(&store.glyphs[k - 1].chars) {
                Some(u) => match g.checked_add(u) {
                    Some(v) => g = v,
                    None => {
                        proof {
                            assert(glyph_chars(gs, k - 1) == glyph_units(gs[k - 1]) + glyph_chars(gs, k as int));
                            assert(run_capacity(runs, r - 1) == runs[r - 1].total_utf16_len + glyph_chars(gs, 0)
                                + run_capacity(runs, r as int));
                            lemma_glyph_chars_suffix(gs, k - 1);
                            lemma_run_capacity_suffix(runs, r - 1);
                            lemma_run_capacity_nonneg(runs, r as int);
                        }
                        return false;
                    },
                },
                None => {
                    proof {
                        assert(glyph_chars(gs, k - 1) == glyph_units(gs[k - 1]) + glyph_chars(gs, k as int));
                        assert(run_capacity(runs, r - 1) == runs[r - 1].total_utf16_len + glyph_chars(gs, 0)
                            + run_capacity(runs, r as int));
                        lemma_glyph_chars_nonneg(gs, k as int);
                        lemma_glyph_chars_suffix(gs, k - 1);
                        lemma_run_capacity_suffix(runs, r - 1);
                        lemma_run_capacity_nonneg(runs, r as int);
                    }
                    return false;
                },
            }
            k = k - 1;
        }
        let term = match store.total_utf16_len.checked_add(g) {
            Some(v) => v,
            None => {
                proof {
                    lemma_run_capacity_suffix(runs, r - 1);
                    lemma_run_capacity_nonneg(runs, r as int);
                }
                return false;
            },
        };
        match term.checked_add(acc) {
            Some(v) => acc = v,
            None => {
                proof {
                    lemma_run_capacity_suffix(runs, r - 1);
                }
                return false;
            },
        }
        r = r - 1;
    }
    true
}

proof fn lemma_plain_glyphs_mono(gs: Seq<Glyph>, justification: int, t1: int, t2: int, k: int, adv: int, idx: int)
    requires
        0 <= k,
        t1 <= t2,
        widths_nonneg(gs, justification),
    ensures
        plain_glyphs(gs, justification, t2, k, adv, idx).0 ==> plain_glyphs(gs, justification, t1, k, adv, idx).0,
        plain_glyphs(gs, justification, t1, k, adv, idx).2 <= plain_glyphs(gs, justification, t2, k, adv, idx).2,
    decreases gs.len() - k,
{
    if k < gs.len() {
        let g = gs[k];
        let w = g.advance + (if g.is_word_separator { justification } else { 0 });
        lemma_plain_glyphs_mono(gs, justification, t1, t2, k + 1, adv + w, idx + glyph_units(g));
        lemma_plain_glyphs_bound(gs, justification, t2, k + 1, adv + w, idx + glyph_units(g));
    }
}

proof fn lemma_plain_runs_mono(runs: Seq<GlyphStore>, justification: int, t1: int, t2: int, r: int, adv: int, idx: int)
    requires
        0 <= r,
        t1 <= t2,
        runs_widths_nonneg(runs, justification),
    ensures
        plain_runs(runs, justification, t1, r, adv, idx) <= plain_runs(runs, justification, t2, r, adv, idx),
    decreases runs.len() - r,
{
    if r < runs.len() {
        let gs = runs[r].glyphs@;
        assert(widths_nonneg(gs, justification));
        lemma_plain_glyphs_mono(gs, justification, t1, t2, 0, adv, idx);
        lemma_plain_glyphs_end(gs, justification, t1, 0, adv, idx);
        lemma_plain_glyphs_end(gs, justification, t2, 0, adv, idx);
        let g1 = plain_glyphs(gs, justification, t1, 0, adv, idx);
        let g2 = plain_glyphs(gs, justification, t2, 0, adv, idx);
        if !g1.0 {
            lemma_plain_runs_mono(runs, justification, t1, t2, r + 1, g1.1, g1.2);
        } else if !g2.0 {
            lemma_plain_runs_bound(runs, justification, t2, r + 1, g2.1, g2.2);
        }
    }
}

proof fn lemma_plain_glyphs_before(gs: Seq<Glyph>, justification: int, target: int, k: int, adv: int, idx: int)
    requires
        0 <= k,
        target < adv,
        widths_nonneg(gs, justification),
    ensures
        plain_glyphs(gs, justification, target, k, adv, idx).2 == idx,
        plain_glyphs(gs, justification, target, k, adv, idx).0 || plain_glyphs(gs, justification, target, k, adv, idx).1 == adv,
{
}

proof fn lemma_plain_runs_before(runs: Seq<GlyphStore>, justification: int, target: int, r: int, adv: int, idx: int)
    requires
        0 <= r,
        target < adv,
        runs_widths_nonneg(runs, justification),
    ensures
        plain_runs(runs, justification, target, r, adv, idx) == idx,
    decreases runs.len() - r,
{
    if r < runs.len() {
        let gs = runs[r].glyphs@;
        assert(widths_nonneg(gs, justification));
        lemma_plain_glyphs_before(gs, justification, target, 0, adv, idx);
        let g = plain_glyphs(gs, justification, target, 0, adv, idx);
        if !g.0 {
            lemma_plain_runs_before(runs, justification, target, r + 1, g.1, g.2);
        }
    }
}

/// For a fragment whose widths add up, the offset never decreases as the target moves
/// right, and a target left of the fragment gives offset 0.
pub proof fn law_offset_monotone(t: TextGlyphs, x1: i32, x2: i32)
    requires
        widths_add_up(t),
        x1 <= x2,
    ensures
        char_offset_spec(t, x1) <= char_offset_spec(t, x2),
        x1 < 0 ==> char_offset_spec(t, x1) == 0,
{
    law_fast_forward_is_plain_walk(t, x1);
    law_fast_forward_is_plain_walk(t, x2);
    lemma_plain_runs_mono(t.glyphs@, t.justification_adjustment as int, x1 as int, x2 as int, 0, 0, 0);
    if x1 < 0 {
        lemma_plain_runs_before(t.glyphs@, t.justification_adjustment as int, x1 as int, 0, 0, 0);
    }
}

} // verus!
