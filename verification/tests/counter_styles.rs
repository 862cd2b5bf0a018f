use aurora_layout::counter_style::{
    generate_counter_representation, generate_counter_value, marker_fallback, marker_plan, marker_string,
    symbol_to_string, CounterStyle, MarkerContent, MarkerImage, MarkerPlan, Symbol, SymbolsType,
};

fn name(n: &str) -> CounterStyle {
    CounterStyle::Name(n.to_string())
}

fn symbols(ty: SymbolsType, syms: &[&str]) -> CounterStyle {
    CounterStyle::Symbols { ty, symbols: syms.iter().map(|s| Symbol::String(s.to_string())).collect() }
}

#[test]
fn symbol_text() {
    assert_eq!(symbol_to_string(&Symbol::String("*".to_string())), "*");
    assert_eq!(symbol_to_string(&Symbol::Ident("x".to_string())), "x");
}

#[test]
fn named_symbol_styles() {
    assert_eq!(generate_counter_value(3, &name("disc")), "\u{2022}");
    assert_eq!(generate_counter_value(3, &name("circle")), "\u{25E6}");
    assert_eq!(generate_counter_value(3, &name("square")), "\u{25AA}");
    assert_eq!(generate_counter_value(3, &name("disclosure-open")), "\u{25BE}");
    assert_eq!(generate_counter_value(3, &name("disclosure-closed")), "\u{25B8}");
    assert_eq!(generate_counter_value(3, &name("none")), "");
}

#[test]
fn named_numeric_styles() {
    assert_eq!(generate_counter_value(42, &name("decimal")), "42");
    assert_eq!(generate_counter_value(5, &name("decimal-leading-zero")), "05");
    assert_eq!(generate_counter_value(-5, &name("decimal-leading-zero")), "-05");
    assert_eq!(generate_counter_value(12, &name("decimal-leading-zero")), "12");
    assert_eq!(generate_counter_value(-12, &name("decimal-leading-zero")), "-12");
    assert_eq!(generate_counter_value(14, &name("lower-roman")), "xiv");
    assert_eq!(generate_counter_value(14, &name("upper-roman")), "XIV");
    assert_eq!(generate_counter_value(28, &name("lower-alpha")), "ab");
    assert_eq!(generate_counter_value(28, &name("lower-latin")), "ab");
    assert_eq!(generate_counter_value(28, &name("upper-alpha")), "AB");
    assert_eq!(generate_counter_value(28, &name("upper-latin")), "AB");
    assert_eq!(generate_counter_value(2, &name("lower-greek")), "\u{3b2}");
    assert_eq!(generate_counter_value(305, &name("arabic-indic")), "\u{663}\u{660}\u{665}");
    assert_eq!(generate_counter_value(19, &name("devanagari")), "\u{967}\u{96F}");
    assert_eq!(generate_counter_value(-2, &name("thai")), "-\u{E52}");
    assert_eq!(generate_counter_value(10, &name("persian")), "\u{6F1}\u{6F0}");
    assert_eq!(generate_counter_value(255, &name("lower-hexadecimal")), "ff");
    assert_eq!(generate_counter_value(-255, &name("lower-hexadecimal")), "-ff");
    assert_eq!(generate_counter_value(255, &name("upper-hexadecimal")), "FF");
    assert_eq!(generate_counter_value(8, &name("octal")), "10");
    assert_eq!(generate_counter_value(-5, &name("binary")), "-101");
    assert_eq!(generate_counter_value(7, &name("hebrew")), "7");
}

#[test]
fn smallest_value_in_every_style() {
    let min = i32::MIN;
    assert_eq!(generate_counter_value(min, &name("decimal")), "-2147483648");
    assert_eq!(generate_counter_value(min, &name("decimal-leading-zero")), "-2147483648");
    assert_eq!(generate_counter_value(min, &name("lower-hexadecimal")), "-80000000");
    assert_eq!(generate_counter_value(min, &name("upper-hexadecimal")), "-80000000");
    assert_eq!(generate_counter_value(min, &name("octal")), "-20000000000");
    assert_eq!(generate_counter_value(min, &name("binary")), format!("-1{}", "0".repeat(31)));
    assert_eq!(generate_counter_value(min, &symbols(SymbolsType::Fixed, &["x", "y"])), "-2147483648");
    assert_eq!(generate_counter_value(min, &symbols(SymbolsType::Symbolic, &["x"])), "-2147483648");
}

#[test]
fn cyclic_symbols() {
    let s = symbols(SymbolsType::Cyclic, &["a", "b", "c"]);
    assert_eq!(generate_counter_value(1, &s), "a");
    assert_eq!(generate_counter_value(3, &s), "c");
    assert_eq!(generate_counter_value(4, &s), "a");
    // The symbol at (value - 1) mod n, for every value.
    assert_eq!(generate_counter_value(0, &s), "c");
    assert_eq!(generate_counter_value(-1, &s), "b");
    assert_eq!(generate_counter_value(-4, &s), "b");
    assert_eq!(generate_counter_value(i32::MIN, &s), "a");
    // Values that differ by the number of symbols show the same symbol.
    for v in -20..20 {
        assert_eq!(generate_counter_value(v, &s), generate_counter_value(v + 3, &s));
    }
}

#[test]
fn numeric_symbols() {
    let s = symbols(SymbolsType::Numeric, &["0", "1"]);
    assert_eq!(generate_counter_value(5, &s), "101");
    assert_eq!(generate_counter_value(0, &s), "0");
    assert_eq!(generate_counter_value(-3, &s), "0");
    let one = symbols(SymbolsType::Numeric, &["x"]);
    assert_eq!(generate_counter_value(5, &one), "5");
    let words = symbols(SymbolsType::Numeric, &["zero", "one", "two"]);
    assert_eq!(generate_counter_value(5, &words), "onetwo");
}

#[test]
fn alphabetic_symbols() {
    let s = symbols(SymbolsType::Alphabetic, &["a", "b"]);
    assert_eq!(generate_counter_value(1, &s), "a");
    assert_eq!(generate_counter_value(2, &s), "b");
    assert_eq!(generate_counter_value(3, &s), "aa");
    assert_eq!(generate_counter_value(6, &s), "bb");
    assert_eq!(generate_counter_value(0, &s), "0");
    let single = symbols(SymbolsType::Alphabetic, &["*"]);
    assert_eq!(generate_counter_value(3, &single), "***");
}

#[test]
fn fixed_symbols() {
    let s = symbols(SymbolsType::Fixed, &["one", "two"]);
    assert_eq!(generate_counter_value(1, &s), "one");
    assert_eq!(generate_counter_value(2, &s), "two");
    assert_eq!(generate_counter_value(3, &s), "3");
    assert_eq!(generate_counter_value(0, &s), "0");
    assert_eq!(generate_counter_value(-1, &s), "-1");
}

#[test]
fn symbolic_symbols() {
    let s = symbols(SymbolsType::Symbolic, &["*", "+"]);
    assert_eq!(generate_counter_value(1, &s), "*");
    assert_eq!(generate_counter_value(2, &s), "+");
    assert_eq!(generate_counter_value(3, &s), "**");
    assert_eq!(generate_counter_value(6, &s), "+++");
    assert_eq!(generate_counter_value(0, &s), "0");
}

#[test]
fn empty_symbols_fall_back_to_decimal() {
    let s = CounterStyle::Symbols { ty: SymbolsType::Cyclic, symbols: vec![] };
    assert_eq!(generate_counter_value(9, &s), "9");
}

#[test]
fn representations() {
    assert_eq!(generate_counter_representation(&name("disc")), "\u{2022}");
    assert_eq!(generate_counter_representation(&name("decimal-leading-zero")), "00");
    assert_eq!(generate_counter_representation(&name("khmer")), "\u{17E0}");
    assert_eq!(generate_counter_representation(&name("japanese-informal")), "\u{3007}");
    assert_eq!(generate_counter_representation(&name("trad-chinese-formal")), "\u{96F6}");
    assert_eq!(generate_counter_representation(&name("decimal")), "0");
    assert_eq!(generate_counter_representation(&symbols(SymbolsType::Numeric, &["a", "b"])), "a");
    assert_eq!(generate_counter_representation(&symbols(SymbolsType::Cyclic, &["a", "b"])), "b");
    assert_eq!(generate_counter_representation(&symbols(SymbolsType::Fixed, &["a", "b"])), "0");
}

#[test]
fn marker_strings() {
    assert_eq!(marker_string(&CounterStyle::NoStyle), None);
    assert_eq!(marker_string(&CounterStyle::String("> ".to_string())), Some("> ".to_string()));
    assert_eq!(marker_string(&name("disc")), Some("\u{2022} ".to_string()));
    assert_eq!(marker_string(&name("decimal")), Some("0. ".to_string()));
    assert_eq!(marker_string(&name("cjk-decimal")), Some("\u{3007}\u{3001}".to_string()));
    assert_eq!(marker_string(&name("hiragana")), Some("0\u{3001}".to_string()));
    assert_eq!(marker_string(&name("korean-hangul-formal")), Some("\u{C601}, ".to_string()));
    assert_eq!(marker_string(&name("ethiopic-numeric")), Some("0/ ".to_string()));
    assert_eq!(marker_string(&symbols(SymbolsType::Cyclic, &["-", "+"])), Some("+ ".to_string()));
}

#[test]
fn marker_plans() {
    let disc = name("disc");
    assert!(matches!(marker_plan(MarkerContent::Items, MarkerImage::Url, &disc), MarkerPlan::GeneratedContent));
    assert!(matches!(marker_plan(MarkerContent::NoContent, MarkerImage::Url, &disc), MarkerPlan::NoMarker));
    match marker_plan(MarkerContent::Normal, MarkerImage::Url, &disc) {
        MarkerPlan::Image { suffix } => assert_eq!(suffix, " "),
        _ => panic!("expected an image marker"),
    }
    // An image marker needs no counter style that generates text: numeric
    // symbols() with no symbols has no representation.
    match marker_plan(MarkerContent::Normal, MarkerImage::Url, &symbols(SymbolsType::Numeric, &[])) {
        MarkerPlan::Image { suffix } => assert_eq!(suffix, " "),
        _ => panic!("expected an image marker"),
    }
    match marker_fallback(&disc) {
        MarkerPlan::Text(t) => assert_eq!(t, "\u{2022} "),
        _ => panic!("expected a text marker"),
    }
    assert!(matches!(marker_fallback(&CounterStyle::NoStyle), MarkerPlan::NoMarker));
    match marker_plan(MarkerContent::Normal, MarkerImage::Unsupported, &name("decimal")) {
        MarkerPlan::Text(t) => assert_eq!(t, "0. "),
        _ => panic!("expected a text marker"),
    }
    assert!(matches!(
        marker_plan(MarkerContent::Normal, MarkerImage::Unsupported, &CounterStyle::NoStyle),
        MarkerPlan::NoMarker
    ));
    match marker_plan(MarkerContent::Normal, MarkerImage::Url, &CounterStyle::NoStyle) {
        MarkerPlan::Image { suffix } => assert_eq!(suffix, " "),
        _ => panic!("expected an image marker"),
    }
}

#[test]
fn representation_is_the_text_of_zero() {
    for n in [
        "disc", "circle", "square", "disclosure-open", "disclosure-closed", "decimal",
        "decimal-leading-zero", "arabic-indic", "devanagari", "thai", "persian", "lower-roman",
        "upper-roman", "lower-alpha", "upper-alpha", "lower-greek", "lower-hexadecimal", "octal",
        "binary",
    ] {
        assert_eq!(generate_counter_representation(&name(n)), generate_counter_value(0, &name(n)), "{}", n);
    }
    for ty in [SymbolsType::Cyclic, SymbolsType::Numeric, SymbolsType::Alphabetic, SymbolsType::Symbolic, SymbolsType::Fixed] {
        let s = symbols(ty, &["x", "y", "z"]);
        assert_eq!(generate_counter_representation(&s), generate_counter_value(0, &s));
    }
}
