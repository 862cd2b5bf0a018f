//! Counter styles and the text they give a counter value or a list marker.

use vstd::prelude::*;
use vstd::arithmetic::div_mod::{
    lemma_div_plus_one, lemma_fundamental_div_mod, lemma_fundamental_div_mod_converse_div,
    lemma_fundamental_div_mod_converse_mod,
    lemma_mod_add_multiples_vanish,
};
use crate::numerals::{
    alpha_counter_text, bijective_digits, bijective_digits_of, decimal_string, decimal_text,
    digits_of, greek_counter_text, magnitude, int_to_alpha, int_to_digits, int_to_greek, int_to_roman,
    msd_digits, roman_counter_text, table_digits_text, unsigned_text, unsigned_to_text,
    alpha_text, ascii_lower, law_alpha_shortlex, law_greek_alphabet, law_roman_decodes, law_roman_table,
    lemma_bijective_round_trip, roman_decode, roman_table_text, digit_char, lemma_positional_round_trip,
};

verus! {

/// The `<symbols-type>` of a `symbols()` counter style.
#[derive(Clone, Copy, Debug, PartialEq, Eq, Structural)]
pub enum SymbolsType {
    Cyclic,
    Numeric,
    Alphabetic,
    Symbolic,
    Fixed,
}

/// One symbol of a `symbols()` counter style: a string or an identifier.
#[derive(Clone, Debug)]
pub enum Symbol {
    String(String),
    Ident(String),
}

/// A counter style as the value of `list-style-type` or of `counter()`.
/// `NoStyle` (the keyword `none`) and `String` only occur as list-style-type values.
#[derive(Clone, Debug)]
pub enum CounterStyle {
    NoStyle,
    String(String),
    Name(String),
    Symbols { ty: SymbolsType, symbols: Vec<Symbol> },
}

/// The text of a symbol.
pub open spec fn symbol_text(s: Symbol) -> Seq<char> {
    match s {
        Symbol::String(t) => t@,
        Symbol::Ident(t) => t@,
    }
}

/// The texts of a list of symbols.
pub open spec fn symbol_texts(symbols: Seq<Symbol>) -> Seq<Seq<char>> {
    symbols.map_values(|s: Symbol| symbol_text(s))
}

/// The text of a symbol.
pub fn symbol_to_string(symbol: &Symbol) -> (s: &str)
    ensures
        s@ == symbol_text(*symbol),
{
    match symbol {
        Symbol::String(string) => string.as_str(),
        Symbol::Ident(ident) => ident.as_str(),
    }
}

/// `text` written `count` times in a row.
pub open spec fn repeat_text(text: Seq<char>, count: nat) -> Seq<char>
    decreases count,
{
    if count == 0 {
        seq![]
    } else {
        repeat_text(text, (count - 1) as nat) + text
    }
}

/// The symbols picked by a digit sequence, written one after another.
pub open spec fn symbol_digits_text(digits: Seq<nat>, syms: Seq<Seq<char>>) -> Seq<char> {
    digits.map_values(|d: nat| syms[d as int]).flatten_alt()
}

/// The text of `value` in a `symbols()` style of the given type.
pub open spec fn symbols_counter_text(value: int, ty: SymbolsType, syms: Seq<Seq<char>>) -> Seq<char> {
    let n = syms.len();
    if n == 0 {
        decimal_text(value)
    } else {
        match ty {
            SymbolsType::Cyclic => syms[(value - 1) % (n as int)],
            SymbolsType::Numeric => if n < 2 {
                decimal_text(value)
            } else if value <= 0 {
                syms[0]
            } else {
                symbol_digits_text(msd_digits(value as nat, n), syms)
            },
            SymbolsType::Alphabetic => if value <= 0 {
                decimal_text(value)
            } else {
                symbol_digits_text(bijective_digits(value as nat, n), syms)
            },
            SymbolsType::Fixed => if 1 <= value && value - 1 < n {
                syms[value - 1]
            } else {
                decimal_text(value)
            },
            SymbolsType::Symbolic => if value <= 0 {
                decimal_text(value)
            } else {
                repeat_text(syms[(value - 1) % (n as int)], ((value - 1) / (n as int) + 1) as nat)
            },
        }
    }
}

proof fn lemma_symbol_digits_push(ds: Seq<nat>, x: nat, syms: Seq<Seq<char>>)
    ensures
        symbol_digits_text(ds.push(x), syms) == symbol_digits_text(ds, syms) + syms[x as int],
{
    let f = |d: nat| syms[d as int];
    assert(ds.push(x).map_values(f) =~= ds.map_values(f).push(syms[x as int]));
    assert(ds.map_values(f).push(syms[x as int]).drop_last() =~= ds.map_values(f));
}

/// A `cyclic` `symbols()` style shows the `value`-th symbol for 1 to `n`
/// and repeats with period `n` over all values.
pub proof fn law_cyclic_symbols(value: int, syms: Seq<Seq<char>>)
    requires
        syms.len() >= 1,
    ensures
        symbols_counter_text(value + syms.len(), SymbolsType::Cyclic, syms) == symbols_counter_text(
            value,
            SymbolsType::Cyclic,
            syms,
        ),
        1 <= value <= syms.len() ==> symbols_counter_text(value, SymbolsType::Cyclic, syms) == syms[value - 1],
{
    let n = syms.len() as int;
    lemma_mod_add_multiples_vanish(value - 1, n);
    assert(value + n - 1 == n + (value - 1));
    if 1 <= value <= n {
        lemma_fundamental_div_mod_converse_mod(value - 1, n, 0, value - 1);
    }
}

/// A `fixed` `symbols()` style shows the `value`-th symbol for 1 to `n` and
/// the decimal number anywhere else.
pub proof fn law_fixed_symbols(value: int, syms: Seq<Seq<char>>)
    requires
        syms.len() >= 1,
    ensures
        1 <= value <= syms.len() ==> symbols_counter_text(value, SymbolsType::Fixed, syms) == syms[value - 1],
        !(1 <= value <= syms.len()) ==> symbols_counter_text(value, SymbolsType::Fixed, syms) == decimal_text(value),
{
}

/// A `symbolic` `symbols()` style shows the `value`-th symbol for 1 to `n`;
/// `n` further on, the same symbol is written once more; values below 1 are
/// decimal.
pub proof fn law_symbolic_symbols(value: int, syms: Seq<Seq<char>>)
    requires
        syms.len() >= 1,
    ensures
        1 <= value <= syms.len() ==> symbols_counter_text(value, SymbolsType::Symbolic, syms) == syms[value - 1],
        value >= 1 ==> symbols_counter_text(value + syms.len(), SymbolsType::Symbolic, syms) == symbols_counter_text(
            value,
            SymbolsType::Symbolic,
            syms,
        ) + syms[(value - 1) % (syms.len() as int)],
        value <= 0 ==> symbols_counter_text(value, SymbolsType::Symbolic, syms) == decimal_text(value),
{
    let n = syms.len() as int;
    if value >= 1 {
        lemma_mod_add_multiples_vanish(value - 1, n);
        lemma_div_plus_one(value - 1, n);
        assert(value + n - 1 == n + (value - 1));
        let k = ((value - 1) / n + 1) as nat;
        lemma_fundamental_div_mod(value - 1, n);
        assert((value - 1) / n >= 0) by (nonlinear_arith)
            requires
                value - 1 >= 0,
                n > 0,
                value - 1 == n * ((value - 1) / n) + (value - 1) % n,
                (value - 1) % n < n,
        ;
        assert(repeat_text(syms[(value - 1) % n], k + 1) == repeat_text(syms[(value - 1) % n], k) + syms[(value - 1) % n]);
        if value <= n {
            lemma_fundamental_div_mod_converse_mod(value - 1, n, 0, value - 1);
            lemma_fundamental_div_mod_converse_div(value - 1, n, 0, value - 1);
            assert(repeat_text(syms[value - 1], 0) =~= seq![]);
            assert(repeat_text(syms[value - 1], 1) =~= syms[value - 1]);
        }
    }
}

/// An `alphabetic` `symbols()` style counts in bijective base `n`: the
/// values 1 to `n` are the symbols themselves, and `value * n + d` (`d` from
/// 1 to `n`) is the text of `value` followed by the `d`-th symbol; values
/// below 1 are decimal.
pub proof fn law_alphabetic_symbols(value: int, d: int, syms: Seq<Seq<char>>)
    requires
        syms.len() >= 1,
        1 <= d <= syms.len(),
    ensures
        symbols_counter_text(d, SymbolsType::Alphabetic, syms) == syms[d - 1],
        value >= 1 ==> symbols_counter_text(value * syms.len() + d, SymbolsType::Alphabetic, syms)
            == symbols_counter_text(value, SymbolsType::Alphabetic, syms) + syms[d - 1],
        value <= 0 ==> symbols_counter_text(value, SymbolsType::Alphabetic, syms) == decimal_text(value),
{
    let n = syms.len() as int;
    lemma_fundamental_div_mod_converse_div(d - 1, n, 0, d - 1);
    lemma_fundamental_div_mod_converse_mod(d - 1, n, 0, d - 1);
    assert(bijective_digits(d as nat, n as nat) == bijective_digits(0, n as nat).push((d - 1) as nat));
    assert(bijective_digits(0, n as nat) =~= seq![]);
    lemma_symbol_digits_push(seq![], (d - 1) as nat, syms);
    assert(symbol_digits_text(seq![], syms) =~= seq![]);
    if value >= 1 {
        let m = value * n + d;
        assert(m - 1 == value * n + (d - 1));
        assert(value * n > 0) by (nonlinear_arith)
            requires
                value >= 1,
                n >= 1,
        ;
        lemma_fundamental_div_mod_converse_div(m - 1, n, value, d - 1);
        lemma_fundamental_div_mod_converse_mod(m - 1, n, value, d - 1);
        assert(bijective_digits(m as nat, n as nat) == bijective_digits(value as nat, n as nat).push((d - 1) as nat));
        lemma_symbol_digits_push(bijective_digits(value as nat, n as nat), (d - 1) as nat, syms);
    }
}

/// A `numeric` `symbols()` style of at least two symbols counts in base
/// `n` with the symbols as digits: 0 is the first symbol, the values 1 to
/// `n - 1` are the symbols themselves, and `value * n + d` (`d` below `n`)
/// is the text of `value` followed by the digit `d`.
pub proof fn law_numeric_symbols(value: int, d: int, syms: Seq<Seq<char>>)
    requires
        syms.len() >= 2,
        0 <= d < syms.len(),
    ensures
        d >= 1 ==> symbols_counter_text(d, SymbolsType::Numeric, syms) == syms[d],
        value >= 1 ==> symbols_counter_text(value * syms.len() + d, SymbolsType::Numeric, syms)
            == symbols_counter_text(value, SymbolsType::Numeric, syms) + syms[d],
        value <= 0 ==> symbols_counter_text(value, SymbolsType::Numeric, syms) == syms[0],
{
    let n = syms.len() as int;
    if d >= 1 {
        lemma_fundamental_div_mod_converse_div(d, n, 0, d);
        lemma_fundamental_div_mod_converse_mod(d, n, 0, d);
        assert(msd_digits(d as nat, n as nat) == msd_digits(0, n as nat).push(d as nat));
        assert(msd_digits(0, n as nat) =~= seq![]);
        lemma_symbol_digits_push(seq![], d as nat, syms);
        assert(symbol_digits_text(seq![], syms) =~= seq![]);
    }
    if value >= 1 {
        let m = value * n + d;
        assert(value * n > 0) by (nonlinear_arith)
            requires
                value >= 1,
                n >= 1,
        ;
        lemma_fundamental_div_mod_converse_div(m, n, value, d);
        lemma_fundamental_div_mod_converse_mod(m, n, value, d);
        assert(msd_digits(m as nat, n as nat) == msd_digits(value as nat, n as nat).push(d as nat));
        lemma_symbol_digits_push(msd_digits(value as nat, n as nat), d as nat, syms);
    }
}

/// `value` in base `base` with the given letter case, with a leading `-`
/// for negative values.
pub open spec fn signed_radix_text(value: int, base: nat, upper: bool) -> Seq<char> {
    if value < 0 {
        seq!['-'] + unsigned_text((-value) as nat, base, upper)
    } else {
        unsigned_text(value as nat, base, upper)
    }
}

/// Decimal text padded with a zero to two digits (`-0` for negative single digits).
pub open spec fn leading_zero_text(value: int) -> Seq<char> {
    if -10 < value < 10 {
        if value < 0 {
            seq!['-', '0'] + decimal_text(-value)
        } else {
            seq!['0'] + decimal_text(value)
        }
    } else {
        decimal_text(value)
    }
}

/// Arabic-Indic digits 0 to 9.
pub open spec fn arabic_indic_digits() -> Seq<char> {
    Seq::new(10, |i: int| (0x660 + i) as char)
}

/// Devanagari digits 0 to 9.
pub open spec fn devanagari_digits() -> Seq<char> {
    Seq::new(10, |i: int| (0x966 + i) as char)
}

/// Thai digits 0 to 9.
pub open spec fn thai_digits() -> Seq<char> {
    Seq::new(10, |i: int| (0xe50 + i) as char)
}

/// Extended Arabic-Indic (Persian) digits 0 to 9.
pub open spec fn persian_digits() -> Seq<char> {
    Seq::new(10, |i: int| (0x6f0 + i) as char)
}

/// The text of `value` in the predefined counter style called `name`;
/// unknown names fall back to decimal.
pub open spec fn named_counter_text(value: int, name: Seq<char>) -> Seq<char> {
    if name == "disc"@ {
        seq!['\u{2022}']
    } else if name == "circle"@ {
        seq!['\u{25E6}']
    } else if name == "square"@ {
        seq!['\u{25AA}']
    } else if name == "disclosure-open"@ {
        seq!['\u{25BE}']
    } else if name == "disclosure-closed"@ {
        seq!['\u{25B8}']
    } else if name == "none"@ {
        seq![]
    } else if name == "decimal"@ {
        decimal_text(value)
    } else if name == "decimal-leading-zero"@ {
        leading_zero_text(value)
    } else if name == "lower-roman"@ {
        roman_counter_text(value, false)
    } else if name == "upper-roman"@ {
        roman_counter_text(value, true)
    } else if name == "lower-alpha"@ || name == "lower-latin"@ {
        alpha_counter_text(value, false)
    } else if name == "upper-alpha"@ || name == "upper-latin"@ {
        alpha_counter_text(value, true)
    } else if name == "lower-greek"@ {
        greek_counter_text(value)
    } else if name == "arabic-indic"@ {
        table_digits_text(value, arabic_indic_digits())
    } else if name == "devanagari"@ {
        table_digits_text(value, devanagari_digits())
    } else if name == "thai"@ {
        table_digits_text(value, thai_digits())
    } else if name == "persian"@ {
        table_digits_text(value, persian_digits())
    } else if name == "lower-hexadecimal"@ {
        signed_radix_text(value, 16, false)
    } else if name == "upper-hexadecimal"@ {
        signed_radix_text(value, 16, true)
    } else if name == "octal"@ {
        signed_radix_text(value, 8, false)
    } else if name == "binary"@ {
        signed_radix_text(value, 2, false)
    } else {
        decimal_text(value)
    }
}

/// The text that `style` gives the counter value `value`.
pub open spec fn counter_text(value: int, style: CounterStyle) -> Seq<char> {
    match style {
        CounterStyle::Name(name) => named_counter_text(value, name@),
        CounterStyle::Symbols { ty, symbols } => symbols_counter_text(value, ty, symbol_texts(symbols@)),
        _ => seq![],
    }
}

/// The inputs on which `generate_counter_value` gives a value: a name or
/// `symbols()` style (`none` and strings are list-style-type values only).
pub open spec fn counter_value_defined(value: i32, style: CounterStyle) -> bool {
    style is Name || style is Symbols
}

/// Whether `name` is the text `lit`.
pub fn is_named(name: &String, lit: &str) -> (b: bool)
    ensures
        b == (name@ == lit@),
{
    let owned = lit.to_owned();
    *name == owned
}

/// `text` as a new string.
fn text(lit: &str) -> (s: String)
    ensures
        s@ == lit@,
{
    lit.to_owned()
}

/// `value` in base `base`, with a leading `-` for negative values.
fn signed_radix_string(value: i32, base: u32, upper: bool) -> (s: String)
    requires
        2 <= base <= 36,
    ensures
        s@ == signed_radix_text(value as int, base as nat, upper),
{
    if value < 0 {
        let mut s = String::new();
        s.push('-');
        let digits = unsigned_to_text(magnitude(value), base, upper);
        s.append(digits.as_str());
        s
    } else {
        unsigned_to_text(value as u32, base, upper)
    }
}

/// Decimal text padded to two digits.
fn leading_zero_string(value: i32) -> (s: String)
    ensures
        s@ == leading_zero_text(value as int),
{
    let m = magnitude(value);
    if m < 10 {
        let mut s = String::new();
        if value < 0 {
            s.push('-');
            s.push('0');
            let d = unsigned_to_text(m, 10, false);
            s.append(d.as_str());
        } else {
            s.push('0');
            let d = decimal_string(value);
            s.append(d.as_str());
        }
        s
    } else {
        decimal_string(value)
    }
}

/// The symbols picked by `digits`, written one after another.
fn symbol_digits_string(digits: &Vec<usize>, syms: &Vec<&str>) -> (s: String)
    requires
        forall|i: int| 0 <= i < digits.len() ==> digits[i] < syms.len(),
    ensures
        s@ == symbol_digits_text(
            digits@.map_values(|d: usize| d as nat),
            syms@.map_values(|t: &str| t@),
        ),
{
    let ghost ds = digits@.map_values(|d: usize| d as nat);
    let ghost ts = syms@.map_values(|t: &str| t@);
    let ghost parts = ds.map_values(|d: nat| ts[d as int]);
    let mut s = String::new();
    let mut i: usize = 0;
    while i < digits.len()
        invariant
            forall|k: int| 0 <= k < digits.len() ==> digits[k] < syms.len(),
            ds == digits@.map_values(|d: usize| d as nat),
            ts == syms@.map_values(|t: &str| t@),
            parts == ds.map_values(|d: nat| ts[d as int]),
            i <= digits.len(),
            s@ =~= parts.take(i as int).flatten_alt(),
        decreases digits.len() - i,
    {
        let sym = syms[digits[i]];
        s.append(sym);
        assert(parts.take(i + 1).drop_last() =~= parts.take(i as int));
        assert(parts.take(i + 1).last() == sym@);
        i = i + 1;
    }
    assert(parts.take(digits.len() as int) =~= parts);
    s
}

/// `text` written `count` times in a row.
fn repeat_string(text: &str, count: usize) -> (s: String)
    ensures
        s@ == repeat_text(text@, count as nat),
{
    let mut s = String::new();
    let mut i: usize = 0;
    while i < count
        invariant
            i <= count,
            s@ == repeat_text(text@, i as nat),
        decreases count - i,
    {
        s.append(text);
        i = i + 1;
    }
    s
}

/// The symbols' texts, in order.
fn symbol_strs(symbols: &Vec<Symbol>) -> (syms: Vec<&str>)
    ensures
        syms@.map_values(|t: &str| t@) =~= symbol_texts(symbols@),
{
    let mut syms: Vec<&str> = Vec::new();
    let mut i: usize = 0;
    while i < symbols.len()
        invariant
            i <= symbols.len(),
            syms@.map_values(|t: &str| t@) =~= symbol_texts(symbols@.take(i as int)),
        decreases symbols.len() - i,
    {
        let ghost before = syms@;
        let t = symbol_to_string(&symbols[i]);
        syms.push(t);
        assert(symbols@.take(i + 1) =~= symbols@.take(i as int).push(symbols@[i as int]));
        assert(symbol_texts(symbols@.take(i + 1)) =~= symbol_texts(symbols@.take(i as int)).push(
            symbol_text(symbols@[i as int]),
        ));
        assert(syms@.map_values(|t: &str| t@) =~= before.map_values(|t: &str| t@).push(t@));
        i = i + 1;
    }
    assert(symbols@.take(symbols.len() as int) =~= symbols@);
    syms
}

/// `(value - 1) mod n`, the remainder taken non-negative.
fn cyclic_index(value: i32, n: usize) -> (idx: usize)
    requires
        n > 0,
    ensures
        idx < n,
        idx as int == (value - 1) % (n as int),
{
    if value > 0 {
        ((value - 1) as usize) % n
    } else {
        // value - 1 == -m with m >= 1
        let m: usize = (1 - (value as i64)) as usize;
        let r = m % n;
        proof {
            let q = (m / n) as int;
            assert(m as int == 1 - value);
            lemma_fundamental_div_mod(m as int, n as int);
            assert((n as int) * q == q * (n as int)) by (nonlinear_arith);
            assert((-q) * (n as int) == -(q * (n as int))) by (nonlinear_arith);
            assert((-q - 1) * (n as int) == -(q * (n as int)) - n) by (nonlinear_arith);
            if r == 0 {
                lemma_fundamental_div_mod_converse_mod(value - 1, n as int, -q, 0);
            } else {
                lemma_fundamental_div_mod_converse_mod(value - 1, n as int, -q - 1, n - r);
            }
        }
        if r == 0 {
            0
        } else {
            n - r
        }
    }
}

/// Generate counter representation for a specific integer value.
pub fn generate_counter_value(value: i32, counter_style: &CounterStyle) -> (s: String)
    requires
        counter_value_defined(value, *counter_style),
    ensures
        s@ == counter_text(value as int, *counter_style),
{
    match counter_style {
        CounterStyle::Name(name) => {
            if is_named(name, "disc") {
                proof { reveal_strlit("\u{2022}"); }
                text("\u{2022}")
            } else if is_named(name, "circle") {
                proof { reveal_strlit("\u{25E6}"); }
                text("\u{25E6}")
            } else if is_named(name, "square") {
                proof { reveal_strlit("\u{25AA}"); }
                text("\u{25AA}")
            } else if is_named(name, "disclosure-open") {
                proof { reveal_strlit("\u{25BE}"); }
                text("\u{25BE}")
            } else if is_named(name, "disclosure-closed") {
                proof { reveal_strlit("\u{25B8}"); }
                text("\u{25B8}")
            } else if is_named(name, "none") {
                String::new()
            } else if is_named(name, "decimal") {
                decimal_string(value)
            } else if is_named(name, "decimal-leading-zero") {
                leading_zero_string(value)
            } else if is_named(name, "lower-roman") {
                int_to_roman(value, false)
            } else if is_named(name, "upper-roman") {
                int_to_roman(value, true)
            } else if is_named(name, "lower-alpha") || is_named(name, "lower-latin") {
                int_to_alpha(value, false)
            } else if is_named(name, "upper-alpha") || is_named(name, "upper-latin") {
                int_to_alpha(value, true)
            } else if is_named(name, "lower-greek") {
                int_to_greek(value)
            } else if is_named(name, "arabic-indic") {
                proof {
                    reveal_strlit("\u{660}\u{661}\u{662}\u{663}\u{664}\u{665}\u{666}\u{667}\u{668}\u{669}");
                    assert("\u{660}\u{661}\u{662}\u{663}\u{664}\u{665}\u{666}\u{667}\u{668}\u{669}"@ =~= arabic_indic_digits());
                }
                int_to_digits(value, "\u{660}\u{661}\u{662}\u{663}\u{664}\u{665}\u{666}\u{667}\u{668}\u{669}")
            } else if is_named(name, "devanagari") {
                proof {
                    reveal_strlit("\u{966}\u{967}\u{968}\u{969}\u{96A}\u{96B}\u{96C}\u{96D}\u{96E}\u{96F}");
                    assert("\u{966}\u{967}\u{968}\u{969}\u{96A}\u{96B}\u{96C}\u{96D}\u{96E}\u{96F}"@ =~= devanagari_digits());
                }
                int_to_digits(value, "\u{966}\u{967}\u{968}\u{969}\u{96A}\u{96B}\u{96C}\u{96D}\u{96E}\u{96F}")
            } else if is_named(name, "thai") {
                proof {
                    reveal_strlit("\u{E50}\u{E51}\u{E52}\u{E53}\u{E54}\u{E55}\u{E56}\u{E57}\u{E58}\u{E59}");
                    assert("\u{E50}\u{E51}\u{E52}\u{E53}\u{E54}\u{E55}\u{E56}\u{E57}\u{E58}\u{E59}"@ =~= thai_digits());
                }
                int_to_digits(value, "\u{E50}\u{E51}\u{E52}\u{E53}\u{E54}\u{E55}\u{E56}\u{E57}\u{E58}\u{E59}")
            } else if is_named(name, "persian") {
                proof {
                    reveal_strlit("\u{6F0}\u{6F1}\u{6F2}\u{6F3}\u{6F4}\u{6F5}\u{6F6}\u{6F7}\u{6F8}\u{6F9}");
                    assert("\u{6F0}\u{6F1}\u{6F2}\u{6F3}\u{6F4}\u{6F5}\u{6F6}\u{6F7}\u{6F8}\u{6F9}"@ =~= persian_digits());
                }
                int_to_digits(value, "\u{6F0}\u{6F1}\u{6F2}\u{6F3}\u{6F4}\u{6F5}\u{6F6}\u{6F7}\u{6F8}\u{6F9}")
            } else if is_named(name, "lower-hexadecimal") {
                signed_radix_string(value, 16, false)
            } else if is_named(name, "upper-hexadecimal") {
                signed_radix_string(value, 16, true)
            } else if is_named(name, "octal") {
                signed_radix_string(value, 8, false)
            } else if is_named(name, "binary") {
                signed_radix_string(value, 2, false)
            } else {
                decimal_string(value)
            }
        },
        CounterStyle::Symbols { ty, symbols } => {
            let syms = symbol_strs(symbols);
            let ghost ts = syms@.map_values(|t: &str| t@);
            if syms.len() == 0 {
                return decimal_string(value);
            }
            match ty {
                SymbolsType::Cyclic => {
                    let n = syms.len();
                    let idx = cyclic_index(value, n);
                    assert(ts[idx as int] == syms[idx as int]@);
                    text(syms[idx])
                },
                SymbolsType::Numeric => {
                    let n = syms.len();
                    if n < 2 {
                        return decimal_string(value);
                    }
                    if value <= 0 {
                        assert(ts[0] == syms[0]@);
                        return text(syms[0]);
                    }
                    let ds = digits_of(value as u32, n);
                    symbol_digits_string(&ds, &syms)
                },
                SymbolsType::Alphabetic => {
                    if value <= 0 {
                        return decimal_string(value);
                    }
                    let ds = bijective_digits_of(value as u32, syms.len());
                    symbol_digits_string(&ds, &syms)
                },
                SymbolsType::Fixed => {
                    if value >= 1 && ((value - 1) as usize) < syms.len() {
                        let idx = (value - 1) as usize;
                        assert(ts[idx as int] == syms[idx as int]@);
                        text(syms[idx])
                    } else {
                        decimal_string(value)
                    }
                },
                SymbolsType::Symbolic => {
                    if value <= 0 {
                        return decimal_string(value);
                    }
                    let n = syms.len();
                    let steps = (value - 1) as usize;
                    let sym_idx = steps % n;
                    let repeat = steps / n + 1;
                    assert(ts[sym_idx as int] == syms[sym_idx as int]@);
                    repeat_string(syms[sym_idx], repeat)
                },
            }
        },
        _ => String::new(),
    }
}

/// The marker text that the predefined counter style called `name` shows
/// without a counter value; `0` for other names.
pub open spec fn named_representation(name: Seq<char>) -> Seq<char> {
    if name == "disc"@ {
        seq!['\u{2022}']
    } else if name == "circle"@ {
        seq!['\u{25E6}']
    } else if name == "square"@ {
        seq!['\u{25AA}']
    } else if name == "disclosure-open"@ {
        seq!['\u{25BE}']
    } else if name == "disclosure-closed"@ {
        seq!['\u{25B8}']
    } else if name == "decimal-leading-zero"@ {
        seq!['0', '0']
    } else if name == "arabic-indic"@ {
        seq!['\u{660}']
    } else if name == "bengali"@ {
        seq!['\u{9E6}']
    } else if name == "cambodian"@ || name == "khmer"@ {
        seq!['\u{17E0}']
    } else if name == "devanagari"@ {
        seq!['\u{966}']
    } else if name == "gujarati"@ {
        seq!['\u{AE6}']
    } else if name == "gurmukhi"@ {
        seq!['\u{A66}']
    } else if name == "kannada"@ {
        seq!['\u{CE6}']
    } else if name == "lao"@ {
        seq!['\u{ED0}']
    } else if name == "malayalam"@ {
        seq!['\u{D66}']
    } else if name == "mongolian"@ {
        seq!['\u{1810}']
    } else if name == "myanmar"@ {
        seq!['\u{1040}']
    } else if name == "oriya"@ {
        seq!['\u{B66}']
    } else if name == "persian"@ {
        seq!['\u{6F0}']
    } else if name == "tamil"@ {
        seq!['\u{BE6}']
    } else if name == "telugu"@ {
        seq!['\u{C66}']
    } else if name == "thai"@ {
        seq!['\u{E50}']
    } else if name == "tibetan"@ {
        seq!['\u{F20}']
    } else if name == "cjk-decimal"@ || name == "cjk-earthly-branch"@ || name == "cjk-heavenly-stem"@ || name == "japanese-informal"@ {
        seq!['\u{3007}']
    } else if name == "korean-hangul-formal"@ {
        seq!['\u{C601}']
    } else if name == "korean-hanja-informal"@ || name == "korean-hanja-formal"@ || name == "japanese-formal"@ || name == "simp-chinese-informal"@ || name == "simp-chinese-formal"@ || name == "trad-chinese-informal"@ || name == "trad-chinese-formal"@ || name == "cjk-ideographic"@ {
        seq!['\u{96F6}']
    } else {
        seq!['0']
    }
}

/// The counter representation that `style` gives a list marker.
pub open spec fn representation_text(style: CounterStyle) -> Seq<char> {
    match style {
        CounterStyle::Name(name) => named_representation(name@),
        CounterStyle::Symbols { ty, symbols } => match ty {
            SymbolsType::Numeric => symbol_text(symbols@[0]),
            SymbolsType::Cyclic => symbol_text(symbols@.last()),
            _ => seq!['0'],
        },
        _ => seq![],
    }
}

/// The inputs on which `generate_counter_representation` gives a value: a
/// name or `symbols()` style, with a symbol to show where the type needs one.
pub open spec fn representation_defined(style: CounterStyle) -> bool {
    match style {
        CounterStyle::Name(_) => true,
        CounterStyle::Symbols { ty, symbols } => (ty == SymbolsType::Numeric || ty == SymbolsType::Cyclic)
            ==> symbols.len() > 0,
        _ => false,
    }
}

/// Generate the counter representation of a list marker, without a counter value.
pub fn generate_counter_representation(counter_style: &CounterStyle) -> (s: &str)
    requires
        representation_defined(*counter_style),
    ensures
        s@ == representation_text(*counter_style),
{
    match counter_style {
        CounterStyle::Name(name) => {
            if is_named(name, "disc") {
                proof { reveal_strlit("\u{2022}"); }
                "\u{2022}"
            } else if is_named(name, "circle") {
                proof { reveal_strlit("\u{25E6}"); }
                "\u{25E6}"
            } else if is_named(name, "square") {
                proof { reveal_strlit("\u{25AA}"); }
                "\u{25AA}"
            } else if is_named(name, "disclosure-open") {
                proof { reveal_strlit("\u{25BE}"); }
                "\u{25BE}"
            } else if is_named(name, "disclosure-closed") {
                proof { reveal_strlit("\u{25B8}"); }
                "\u{25B8}"
            } else if is_named(name, "decimal-leading-zero") {
                proof { reveal_strlit("00"); }
                "00"
            } else if is_named(name, "arabic-indic") {
                proof { reveal_strlit("\u{660}"); }
                "\u{660}"
            } else if is_named(name, "bengali") {
                proof { reveal_strlit("\u{9E6}"); }
                "\u{9E6}"
            } else if is_named(name, "cambodian") || is_named(name, "khmer") {
                proof { reveal_strlit("\u{17E0}"); }
                "\u{17E0}"
            } else if is_named(name, "devanagari") {
                proof { reveal_strlit("\u{966}"); }
                "\u{966}"
            } else if is_named(name, "gujarati") {
                proof { reveal_strlit("\u{AE6}"); }
                "\u{AE6}"
            } else if is_named(name, "gurmukhi") {
                proof { reveal_strlit("\u{A66}"); }
                "\u{A66}"
            } else if is_named(name, "kannada") {
                proof { reveal_strlit("\u{CE6}"); }
                "\u{CE6}"
            } else if is_named(name, "lao") {
                proof { reveal_strlit("\u{ED0}"); }
                "\u{ED0}"
            } else if is_named(name, "malayalam") {
                proof { reveal_strlit("\u{D66}"); }
                "\u{D66}"
            } else if is_named(name, "mongolian") {
                proof { reveal_strlit("\u{1810}"); }
                "\u{1810}"
            } else if is_named(name, "myanmar") {
                proof { reveal_strlit("\u{1040}"); }
                "\u{1040}"
            } else if is_named(name, "oriya") {
                proof { reveal_strlit("\u{B66}"); }
                "\u{B66}"
            } else if is_named(name, "persian") {
                proof { reveal_strlit("\u{6F0}"); }
                "\u{6F0}"
            } else if is_named(name, "tamil") {
                proof { reveal_strlit("\u{BE6}"); }
                "\u{BE6}"
            } else if is_named(name, "telugu") {
                proof { reveal_strlit("\u{C66}"); }
                "\u{C66}"
            } else if is_named(name, "thai") {
                proof { reveal_strlit("\u{E50}"); }
                "\u{E50}"
            } else if is_named(name, "tibetan") {
                proof { reveal_strlit("\u{F20}"); }
                "\u{F20}"
            } else if is_named(name, "cjk-decimal") || is_named(name, "cjk-earthly-branch") || is_named(name, "cjk-heavenly-stem") || is_named(name, "japanese-informal") {
                proof { reveal_strlit("\u{3007}"); }
                "\u{3007}"
            } else if is_named(name, "korean-hangul-formal") {
                proof { reveal_strlit("\u{C601}"); }
                "\u{C601}"
            } else if is_named(name, "korean-hanja-informal") || is_named(name, "korean-hanja-formal") || is_named(name, "japanese-formal") || is_named(name, "simp-chinese-informal") || is_named(name, "simp-chinese-formal") || is_named(name, "trad-chinese-informal") || is_named(name, "trad-chinese-formal") || is_named(name, "cjk-ideographic") {
                proof { reveal_strlit("\u{96F6}"); }
                "\u{96F6}"
            } else {
                proof { reveal_strlit("0"); }
                "0"
            }
        },
        CounterStyle::Symbols { ty, symbols } => match ty {
            SymbolsType::Numeric => symbol_to_string(&symbols[0]),
            SymbolsType::Cyclic => symbol_to_string(&symbols[symbols.len() - 1]),
            _ => {
                proof { reveal_strlit("0"); }
                "0"
            },
        },
        _ => "",
    }
}

/// The separator written after the marker of the predefined style called `name`.
pub open spec fn named_marker_suffix(name: Seq<char>) -> Seq<char> {
    if name == "disc"@ || name == "circle"@ || name == "square"@ || name == "disclosure-open"@ || name == "disclosure-closed"@ {
        seq![' ']
    } else if name == "hiragana"@ || name == "hiragana-iroha"@ || name == "katakana"@ || name == "katakana-iroha"@ || name == "cjk-decimal"@ || name == "cjk-earthly-branch"@ || name == "cjk-heavenly-stem"@ || name == "japanese-informal"@ || name == "japanese-formal"@ || name == "simp-chinese-informal"@ || name == "simp-chinese-formal"@ || name == "trad-chinese-informal"@ || name == "trad-chinese-formal"@ || name == "cjk-ideographic"@ {
        seq!['\u{3001}']
    } else if name == "korean-hangul-formal"@ || name == "korean-hanja-informal"@ || name == "korean-hanja-formal"@ {
        seq![',', ' ']
    } else if name == "ethiopic-numeric"@ {
        seq!['/', ' ']
    } else {
        seq!['.', ' ']
    }
}

/// The marker string of a `list-style-type` value; `None` for `none`.
pub open spec fn marker_text(list_style_type: CounterStyle) -> Option<Seq<char>> {
    match list_style_type {
        CounterStyle::NoStyle => None,
        CounterStyle::String(s) => Some(s@),
        CounterStyle::Name(name) => Some(named_representation(name@) + named_marker_suffix(name@)),
        CounterStyle::Symbols { .. } => Some(representation_text(list_style_type) + seq![' ']),
    }
}

/// The bullet styles `disc`, `circle`, `square`, `disclosure-open` and
/// `disclosure-closed` mark a list item with their bullet glyph and exactly
/// one space, no period: whatever named style shows one of these bullets is
/// followed by a single space.
pub proof fn law_bullet_markers(name: String)
    ensures
        named_representation(name@).len() == 1 && (named_representation(name@)[0] == '\u{2022}' || named_representation(name@)[0] == '\u{25E6}' || named_representation(name@)[0] == '\u{25AA}' || named_representation(name@)[0] == '\u{25BE}' || named_representation(name@)[0] == '\u{25B8}') ==> marker_text(CounterStyle::Name(name)) == Some(
            named_representation(name@) + seq![' '],
        ),
        name@ == "disc"@ ==> marker_text(CounterStyle::Name(name)) == Some(seq!['\u{2022}', ' ']),
        name@ == "circle"@ ==> marker_text(CounterStyle::Name(name)) == Some(seq!['\u{25E6}', ' ']),
        name@ == "square"@ ==> marker_text(CounterStyle::Name(name)) == Some(seq!['\u{25AA}', ' ']),
        name@ == "disclosure-open"@ ==> marker_text(CounterStyle::Name(name)) == Some(seq!['\u{25BE}', ' ']),
        name@ == "disclosure-closed"@ ==> marker_text(CounterStyle::Name(name)) == Some(seq!['\u{25B8}', ' ']),
{
    reveal_strlit("disc");
    assert("disc"@ =~= seq!['d', 'i', 's', 'c']);
    reveal_strlit("circle");
    assert("circle"@ =~= seq!['c', 'i', 'r', 'c', 'l', 'e']);
    reveal_strlit("square");
    assert("square"@ =~= seq!['s', 'q', 'u', 'a', 'r', 'e']);
    reveal_strlit("disclosure-open");
    assert("disclosure-open"@ =~= seq!['d', 'i', 's', 'c', 'l', 'o', 's', 'u', 'r', 'e', '-', 'o', 'p', 'e', 'n']);
    reveal_strlit("disclosure-closed");
    assert("disclosure-closed"@ =~= seq!['d', 'i', 's', 'c', 'l', 'o', 's', 'u', 'r', 'e', '-', 'c', 'l', 'o', 's', 'e', 'd']);
}

/// Every native-digit counter style is represented by its own script's
/// digit zero, never by the ASCII `0`.
pub proof fn law_native_digit_zero(name: String)
    ensures
        name@ == "arabic-indic"@ ==> representation_text(CounterStyle::Name(name)) == seq!['\u{660}'],
        name@ == "bengali"@ ==> representation_text(CounterStyle::Name(name)) == seq!['\u{9E6}'],
        name@ == "cambodian"@ ==> representation_text(CounterStyle::Name(name)) == seq!['\u{17E0}'],
        name@ == "khmer"@ ==> representation_text(CounterStyle::Name(name)) == seq!['\u{17E0}'],
        name@ == "devanagari"@ ==> representation_text(CounterStyle::Name(name)) == seq!['\u{966}'],
        name@ == "gujarati"@ ==> representation_text(CounterStyle::Name(name)) == seq!['\u{AE6}'],
        name@ == "gurmukhi"@ ==> representation_text(CounterStyle::Name(name)) == seq!['\u{A66}'],
        name@ == "kannada"@ ==> representation_text(CounterStyle::Name(name)) == seq!['\u{CE6}'],
        name@ == "lao"@ ==> representation_text(CounterStyle::Name(name)) == seq!['\u{ED0}'],
        name@ == "malayalam"@ ==> representation_text(CounterStyle::Name(name)) == seq!['\u{D66}'],
        name@ == "mongolian"@ ==> representation_text(CounterStyle::Name(name)) == seq!['\u{1810}'],
        name@ == "myanmar"@ ==> representation_text(CounterStyle::Name(name)) == seq!['\u{1040}'],
        name@ == "oriya"@ ==> representation_text(CounterStyle::Name(name)) == seq!['\u{B66}'],
        name@ == "persian"@ ==> representation_text(CounterStyle::Name(name)) == seq!['\u{6F0}'],
        name@ == "tamil"@ ==> representation_text(CounterStyle::Name(name)) == seq!['\u{BE6}'],
        name@ == "telugu"@ ==> representation_text(CounterStyle::Name(name)) == seq!['\u{C66}'],
        name@ == "thai"@ ==> representation_text(CounterStyle::Name(name)) == seq!['\u{E50}'],
        name@ == "tibetan"@ ==> representation_text(CounterStyle::Name(name)) == seq!['\u{F20}'],
{
    reveal_strlit("disc");
    assert("disc"@ =~= seq!['d', 'i', 's', 'c']);
    reveal_strlit("circle");
    assert("circle"@ =~= seq!['c', 'i', 'r', 'c', 'l', 'e']);
    reveal_strlit("square");
    assert("square"@ =~= seq!['s', 'q', 'u', 'a', 'r', 'e']);
    reveal_strlit("disclosure-open");
    assert("disclosure-open"@ =~= seq!['d', 'i', 's', 'c', 'l', 'o', 's', 'u', 'r', 'e', '-', 'o', 'p', 'e', 'n']);
    reveal_strlit("disclosure-closed");
    assert("disclosure-closed"@ =~= seq!['d', 'i', 's', 'c', 'l', 'o', 's', 'u', 'r', 'e', '-', 'c', 'l', 'o', 's', 'e', 'd']);
    reveal_strlit("decimal-leading-zero");
    assert("decimal-leading-zero"@ =~= seq!['d', 'e', 'c', 'i', 'm', 'a', 'l', '-', 'l', 'e', 'a', 'd', 'i', 'n', 'g', '-', 'z', 'e', 'r', 'o']);
    reveal_strlit("arabic-indic");
    assert("arabic-indic"@ =~= seq!['a', 'r', 'a', 'b', 'i', 'c', '-', 'i', 'n', 'd', 'i', 'c']);
    reveal_strlit("bengali");
    assert("bengali"@ =~= seq!['b', 'e', 'n', 'g', 'a', 'l', 'i']);
    reveal_strlit("cambodian");
    assert("cambodian"@ =~= seq!['c', 'a', 'm', 'b', 'o', 'd', 'i', 'a', 'n']);
    reveal_strlit("khmer");
    assert("khmer"@ =~= seq!['k', 'h', 'm', 'e', 'r']);
    reveal_strlit("devanagari");
    assert("devanagari"@ =~= seq!['d', 'e', 'v', 'a', 'n', 'a', 'g', 'a', 'r', 'i']);
    reveal_strlit("gujarati");
    assert("gujarati"@ =~= seq!['g', 'u', 'j', 'a', 'r', 'a', 't', 'i']);
    reveal_strlit("gurmukhi");
    assert("gurmukhi"@ =~= seq!['g', 'u', 'r', 'm', 'u', 'k', 'h', 'i']);
    reveal_strlit("kannada");
    assert("kannada"@ =~= seq!['k', 'a', 'n', 'n', 'a', 'd', 'a']);
    reveal_strlit("lao");
    assert("lao"@ =~= seq!['l', 'a', 'o']);
    reveal_strlit("malayalam");
    assert("malayalam"@ =~= seq!['m', 'a', 'l', 'a', 'y', 'a', 'l', 'a', 'm']);
    reveal_strlit("mongolian");
    assert("mongolian"@ =~= seq!['m', 'o', 'n', 'g', 'o', 'l', 'i', 'a', 'n']);
    reveal_strlit("myanmar");
    assert("myanmar"@ =~= seq!['m', 'y', 'a', 'n', 'm', 'a', 'r']);
    reveal_strlit("oriya");
    assert("oriya"@ =~= seq!['o', 'r', 'i', 'y', 'a']);
    reveal_strlit("persian");
    assert("persian"@ =~= seq!['p', 'e', 'r', 's', 'i', 'a', 'n']);
    reveal_strlit("tamil");
    assert("tamil"@ =~= seq!['t', 'a', 'm', 'i', 'l']);
    reveal_strlit("telugu");
    assert("telugu"@ =~= seq!['t', 'e', 'l', 'u', 'g', 'u']);
    reveal_strlit("thai");
    assert("thai"@ =~= seq!['t', 'h', 'a', 'i']);
    reveal_strlit("tibetan");
    assert("tibetan"@ =~= seq!['t', 'i', 'b', 'e', 't', 'a', 'n']);
}

/// The inputs on which `marker_string` gives a value.
pub open spec fn marker_defined(list_style_type: CounterStyle) -> bool {
    match list_style_type {
        CounterStyle::Symbols { .. } => representation_defined(list_style_type),
        _ => true,
    }
}

/// The marker string of a `list-style-type` value: its counter
/// representation and separator, the string itself, or nothing for `none`.
pub fn marker_string(list_style_type: &CounterStyle) -> (r: Option<String>)
    requires
        marker_defined(*list_style_type),
    ensures
        match marker_text(*list_style_type) {
            None => r is None,
            Some(t) => r matches Some(s) && s@ == t,
        },
{
    let suffix: &str = match list_style_type {
        CounterStyle::NoStyle => return None,
        CounterStyle::String(string) => return Some(text(string.as_str())),
        CounterStyle::Name(name) => {
            if is_named(name, "disc") || is_named(name, "circle") || is_named(name, "square") || is_named(name, "disclosure-open") || is_named(name, "disclosure-closed") {
                proof { reveal_strlit(" "); }
                " "
            } else if is_named(name, "hiragana") || is_named(name, "hiragana-iroha") || is_named(name, "katakana") || is_named(name, "katakana-iroha") || is_named(name, "cjk-decimal") || is_named(name, "cjk-earthly-branch") || is_named(name, "cjk-heavenly-stem") || is_named(name, "japanese-informal") || is_named(name, "japanese-formal") || is_named(name, "simp-chinese-informal") || is_named(name, "simp-chinese-formal") || is_named(name, "trad-chinese-informal") || is_named(name, "trad-chinese-formal") || is_named(name, "cjk-ideographic") {
                proof { reveal_strlit("\u{3001}"); }
                "\u{3001}"
            } else if is_named(name, "korean-hangul-formal") || is_named(name, "korean-hanja-informal") || is_named(name, "korean-hanja-formal") {
                proof { reveal_strlit(", "); }
                ", "
            } else if is_named(name, "ethiopic-numeric") {
                proof { reveal_strlit("/ "); }
                "/ "
            } else {
                proof { reveal_strlit(". "); }
                ". "
            }
        },
        CounterStyle::Symbols { .. } => {
            proof { reveal_strlit(" "); }
            " "
        },
    };
    let mut s = text(generate_counter_representation(list_style_type));
    s.append(suffix);
    Some(s)
}

/// The `content` of a `::marker` pseudo-element, as far as the marker needs it.
#[derive(Clone, Copy, Debug, PartialEq, Eq, Structural)]
pub enum MarkerContent {
    /// `content: normal`: the marker shows its image or its counter.
    Normal,
    /// `content: none`: there is no marker.
    NoContent,
    /// A list of content items, generated like any pseudo-element's.
    Items,
}

/// The `list-style-image` of a list item, as far as the marker needs it.
#[derive(Clone, Copy, Debug, PartialEq, Eq, Structural)]
pub enum MarkerImage {
    /// A `url()` image.
    Url,
    /// `none` or an image type that markers do not draw.
    Unsupported,
    /// `light-dark()`, which is disabled for this property.
    LightDark,
}

/// What the `::marker` of a list item is made of.
#[derive(Clone, Debug)]
pub enum MarkerPlan {
    /// The item has no marker.
    NoMarker,
    /// The marker's `content` items are generated as for any pseudo-element.
    GeneratedContent,
    /// The marker is the list-style image followed by `suffix`; where the
    /// image cannot be loaded, `marker_fallback` says what it is instead.
    Image { suffix: String },
    /// The marker is this text.
    Text(String),
}

/// The marker text, or no marker at all where the list-style type is `none`.
pub open spec fn text_plan_matches(plan: MarkerPlan, list_style_type: CounterStyle) -> bool {
    match marker_text(list_style_type) {
        None => plan is NoMarker,
        Some(t) => plan matches MarkerPlan::Text(s) && s@ == t,
    }
}

/// Decide what the `::marker` of a list item shows. The marker text is
/// only worked out where no image is tried.
pub fn marker_plan(content: MarkerContent, image: MarkerImage, list_style_type: &CounterStyle) -> (plan: MarkerPlan)
    requires
        content == MarkerContent::Normal ==> image != MarkerImage::LightDark,
        content == MarkerContent::Normal && image == MarkerImage::Unsupported ==> marker_defined(*list_style_type),
    ensures
        content == MarkerContent::Items ==> plan is GeneratedContent,
        content == MarkerContent::NoContent ==> plan is NoMarker,
        content == MarkerContent::Normal && image == MarkerImage::Url ==> (plan matches MarkerPlan::Image { suffix }
            && suffix@ == seq![' ']),
        content == MarkerContent::Normal && image == MarkerImage::Unsupported ==> text_plan_matches(
            plan,
            *list_style_type,
        ),
{
    match content {
        MarkerContent::Items => MarkerPlan::GeneratedContent,
        MarkerContent::NoContent => MarkerPlan::NoMarker,
        MarkerContent::Normal => match image {
            MarkerImage::Url => {
                proof { reveal_strlit(" "); }
                MarkerPlan::Image { suffix: text(" ") }
            },
            _ => marker_fallback(list_style_type),
        },
    }
}

/// What the marker is when no image is drawn: the marker string of the
/// list-style type, or no marker for `none`.
pub fn marker_fallback(list_style_type: &CounterStyle) -> (plan: MarkerPlan)
    requires
        marker_defined(*list_style_type),
    ensures
        text_plan_matches(plan, *list_style_type),
{
    match marker_string(list_style_type) {
        Some(t) => MarkerPlan::Text(t),
        None => MarkerPlan::NoMarker,
    }
}


/// The spelling of the predefined counter style names.
proof fn lemma_style_names()
    ensures
        "disc"@ == seq!['d', 'i', 's', 'c'],
        "circle"@ == seq!['c', 'i', 'r', 'c', 'l', 'e'],
        "square"@ == seq!['s', 'q', 'u', 'a', 'r', 'e'],
        "disclosure-open"@ == seq!['d', 'i', 's', 'c', 'l', 'o', 's', 'u', 'r', 'e', '-', 'o', 'p', 'e', 'n'],
        "disclosure-closed"@ == seq!['d', 'i', 's', 'c', 'l', 'o', 's', 'u', 'r', 'e', '-', 'c', 'l', 'o', 's', 'e', 'd'],
        "none"@ == seq!['n', 'o', 'n', 'e'],
        "decimal"@ == seq!['d', 'e', 'c', 'i', 'm', 'a', 'l'],
        "decimal-leading-zero"@ == seq!['d', 'e', 'c', 'i', 'm', 'a', 'l', '-', 'l', 'e', 'a', 'd', 'i', 'n', 'g', '-', 'z', 'e', 'r', 'o'],
        "lower-roman"@ == seq!['l', 'o', 'w', 'e', 'r', '-', 'r', 'o', 'm', 'a', 'n'],
        "upper-roman"@ == seq!['u', 'p', 'p', 'e', 'r', '-', 'r', 'o', 'm', 'a', 'n'],
        "lower-alpha"@ == seq!['l', 'o', 'w', 'e', 'r', '-', 'a', 'l', 'p', 'h', 'a'],
        "lower-latin"@ == seq!['l', 'o', 'w', 'e', 'r', '-', 'l', 'a', 't', 'i', 'n'],
        "upper-alpha"@ == seq!['u', 'p', 'p', 'e', 'r', '-', 'a', 'l', 'p', 'h', 'a'],
        "upper-latin"@ == seq!['u', 'p', 'p', 'e', 'r', '-', 'l', 'a', 't', 'i', 'n'],
        "lower-greek"@ == seq!['l', 'o', 'w', 'e', 'r', '-', 'g', 'r', 'e', 'e', 'k'],
        "arabic-indic"@ == seq!['a', 'r', 'a', 'b', 'i', 'c', '-', 'i', 'n', 'd', 'i', 'c'],
        "devanagari"@ == seq!['d', 'e', 'v', 'a', 'n', 'a', 'g', 'a', 'r', 'i'],
        "thai"@ == seq!['t', 'h', 'a', 'i'],
        "persian"@ == seq!['p', 'e', 'r', 's', 'i', 'a', 'n'],
        "lower-hexadecimal"@ == seq!['l', 'o', 'w', 'e', 'r', '-', 'h', 'e', 'x', 'a', 'd', 'e', 'c', 'i', 'm', 'a', 'l'],
        "upper-hexadecimal"@ == seq!['u', 'p', 'p', 'e', 'r', '-', 'h', 'e', 'x', 'a', 'd', 'e', 'c', 'i', 'm', 'a', 'l'],
        "octal"@ == seq!['o', 'c', 't', 'a', 'l'],
        "binary"@ == seq!['b', 'i', 'n', 'a', 'r', 'y'],
        "disc"@.len() == 4,
        "circle"@.len() == 6,
        "square"@.len() == 6,
        "disclosure-open"@.len() == 15,
        "disclosure-closed"@.len() == 17,
        "none"@.len() == 4,
        "decimal"@.len() == 7,
        "decimal-leading-zero"@.len() == 20,
        "lower-roman"@.len() == 11,
        "upper-roman"@.len() == 11,
        "lower-alpha"@.len() == 11,
        "lower-latin"@.len() == 11,
        "upper-alpha"@.len() == 11,
        "upper-latin"@.len() == 11,
        "lower-greek"@.len() == 11,
        "arabic-indic"@.len() == 12,
        "devanagari"@.len() == 10,
        "thai"@.len() == 4,
        "persian"@.len() == 7,
        "lower-hexadecimal"@.len() == 17,
        "upper-hexadecimal"@.len() == 17,
        "octal"@.len() == 5,
        "binary"@.len() == 6,
{
    reveal_strlit("disc");
    assert("disc"@ =~= seq!['d', 'i', 's', 'c']);
    reveal_strlit("circle");
    assert("circle"@ =~= seq!['c', 'i', 'r', 'c', 'l', 'e']);
    reveal_strlit("square");
    assert("square"@ =~= seq!['s', 'q', 'u', 'a', 'r', 'e']);
    reveal_strlit("disclosure-open");
    assert("disclosure-open"@ =~= seq!['d', 'i', 's', 'c', 'l', 'o', 's', 'u', 'r', 'e', '-', 'o', 'p', 'e', 'n']);
    reveal_strlit("disclosure-closed");
    assert("disclosure-closed"@ =~= seq!['d', 'i', 's', 'c', 'l', 'o', 's', 'u', 'r', 'e', '-', 'c', 'l', 'o', 's', 'e', 'd']);
    reveal_strlit("none");
    assert("none"@ =~= seq!['n', 'o', 'n', 'e']);
    reveal_strlit("decimal");
    assert("decimal"@ =~= seq!['d', 'e', 'c', 'i', 'm', 'a', 'l']);
    reveal_strlit("decimal-leading-zero");
    assert("decimal-leading-zero"@ =~= seq!['d', 'e', 'c', 'i', 'm', 'a', 'l', '-', 'l', 'e', 'a', 'd', 'i', 'n', 'g', '-', 'z', 'e', 'r', 'o']);
    reveal_strlit("lower-roman");
    assert("lower-roman"@ =~= seq!['l', 'o', 'w', 'e', 'r', '-', 'r', 'o', 'm', 'a', 'n']);
    reveal_strlit("upper-roman");
    assert("upper-roman"@ =~= seq!['u', 'p', 'p', 'e', 'r', '-', 'r', 'o', 'm', 'a', 'n']);
    reveal_strlit("lower-alpha");
    assert("lower-alpha"@ =~= seq!['l', 'o', 'w', 'e', 'r', '-', 'a', 'l', 'p', 'h', 'a']);
    reveal_strlit("lower-latin");
    assert("lower-latin"@ =~= seq!['l', 'o', 'w', 'e', 'r', '-', 'l', 'a', 't', 'i', 'n']);
    reveal_strlit("upper-alpha");
    assert("upper-alpha"@ =~= seq!['u', 'p', 'p', 'e', 'r', '-', 'a', 'l', 'p', 'h', 'a']);
    reveal_strlit("upper-latin");
    assert("upper-latin"@ =~= seq!['u', 'p', 'p', 'e', 'r', '-', 'l', 'a', 't', 'i', 'n']);
    reveal_strlit("lower-greek");
    assert("lower-greek"@ =~= seq!['l', 'o', 'w', 'e', 'r', '-', 'g', 'r', 'e', 'e', 'k']);
    reveal_strlit("arabic-indic");
    assert("arabic-indic"@ =~= seq!['a', 'r', 'a', 'b', 'i', 'c', '-', 'i', 'n', 'd', 'i', 'c']);
    reveal_strlit("devanagari");
    assert("devanagari"@ =~= seq!['d', 'e', 'v', 'a', 'n', 'a', 'g', 'a', 'r', 'i']);
    reveal_strlit("thai");
    assert("thai"@ =~= seq!['t', 'h', 'a', 'i']);
    reveal_strlit("persian");
    assert("persian"@ =~= seq!['p', 'e', 'r', 's', 'i', 'a', 'n']);
    reveal_strlit("lower-hexadecimal");
    assert("lower-hexadecimal"@ =~= seq!['l', 'o', 'w', 'e', 'r', '-', 'h', 'e', 'x', 'a', 'd', 'e', 'c', 'i', 'm', 'a', 'l']);
    reveal_strlit("upper-hexadecimal");
    assert("upper-hexadecimal"@ =~= seq!['u', 'p', 'p', 'e', 'r', '-', 'h', 'e', 'x', 'a', 'd', 'e', 'c', 'i', 'm', 'a', 'l']);
    reveal_strlit("octal");
    assert("octal"@ =~= seq!['o', 'c', 't', 'a', 'l']);
    reveal_strlit("binary");
    assert("binary"@ =~= seq!['b', 'i', 'n', 'a', 'r', 'y']);
}

/// `lower-alpha` and `upper-alpha` (and their `latin` aliases) count in
/// bijective base 26: 1 to 26 are the letters `a`..`z` (`A`..`Z`) in turn,
/// and `v * 26 + d` is the text of `v` followed by the `d`-th letter; values
/// below 1 are decimal.
pub proof fn law_alpha_styles(v: int, d: int)
    requires
        1 <= d <= 26,
    ensures
        named_counter_text(d, "lower-alpha"@) == seq![(96 + d) as char],
        named_counter_text(d, "upper-alpha"@) == seq![(64 + d) as char],
        v >= 1 ==> named_counter_text(v * 26 + d, "lower-alpha"@) == named_counter_text(v, "lower-alpha"@).push(
            (96 + d) as char,
        ),
        v >= 1 ==> named_counter_text(v * 26 + d, "upper-alpha"@) == named_counter_text(v, "upper-alpha"@).push(
            (64 + d) as char,
        ),
        v <= 0 ==> named_counter_text(v, "lower-alpha"@) == decimal_text(v) && named_counter_text(v, "upper-alpha"@)
            == decimal_text(v),
        named_counter_text(v, "lower-latin"@) == named_counter_text(v, "lower-alpha"@),
        named_counter_text(v, "upper-latin"@) == named_counter_text(v, "upper-alpha"@),
{
    lemma_style_names();
    lemma_fundamental_div_mod_converse_div(d - 1, 26, 0, d - 1);
    lemma_fundamental_div_mod_converse_mod(d - 1, 26, 0, d - 1);
    assert(bijective_digits(d as nat, 26) == bijective_digits(0, 26).push((d - 1) as nat));
    assert(bijective_digits(0, 26) =~= seq![]);
    assert(alpha_text(d as nat, false) =~= seq![(96 + d) as char]);
    assert(alpha_text(d as nat, true) =~= seq![(64 + d) as char]);
    if v >= 1 {
        let m = v * 26 + d;
        assert(v * 26 > 0) by (nonlinear_arith)
            requires
                v >= 1,
        ;
        lemma_fundamental_div_mod_converse_div(m - 1, 26, v, d - 1);
        lemma_fundamental_div_mod_converse_mod(m - 1, 26, v, d - 1);
        let ds = bijective_digits(v as nat, 26);
        assert(bijective_digits(m as nat, 26) == ds.push((d - 1) as nat));
        assert(alpha_text(m as nat, false) =~= alpha_text(v as nat, false).push((96 + d) as char));
        assert(alpha_text(m as nat, true) =~= alpha_text(v as nat, true).push((64 + d) as char));
    }
}

/// `upper-roman` writes 1 to 3999 as the Roman numeral looked up by decimal
/// place, which reads back as the value, and `lower-roman` writes the same
/// letters in lower case; other values are decimal.
pub proof fn law_roman_styles(v: int)
    ensures
        1 <= v <= 3999 ==> named_counter_text(v, "upper-roman"@) == roman_table_text(v as nat),
        1 <= v <= 3999 ==> roman_decode(named_counter_text(v, "upper-roman"@)) == v,
        1 <= v <= 3999 ==> named_counter_text(v, "lower-roman"@) == named_counter_text(v, "upper-roman"@).map_values(
            |c: char| ascii_lower(c),
        ),
        !(1 <= v <= 3999) ==> named_counter_text(v, "upper-roman"@) == decimal_text(v) && named_counter_text(
            v,
            "lower-roman"@,
        ) == decimal_text(v),
{
    lemma_style_names();
    if 1 <= v <= 3999 {
        law_roman_table(v as nat);
        law_roman_decodes(v as nat);
    }
}

/// `lower-greek` writes 1 to 24 as one letter each, from alpha (U+03B1) to
/// omega (U+03C9) without final sigma (U+03C2), strictly increasing.
pub proof fn law_greek_style(n: int, m: int)
    requires
        1 <= n <= 24,
    ensures
        named_counter_text(n, "lower-greek"@).len() == 1,
        0x3b1 <= (named_counter_text(n, "lower-greek"@)[0] as int) <= 0x3c9,
        (named_counter_text(n, "lower-greek"@)[0] as int) != 0x3c2,
        n < m <= 24 ==> (named_counter_text(n, "lower-greek"@)[0] as int) < (named_counter_text(
            m,
            "lower-greek"@,
        )[0] as int),
{
    lemma_style_names();
    law_greek_alphabet(n, m);
}

/// The bullet styles show their bullet whatever the value.
pub proof fn law_bullet_values(v: int)
    ensures
        named_counter_text(v, "disc"@) == seq!['\u{2022}'],
        named_counter_text(v, "circle"@) == seq!['\u{25E6}'],
        named_counter_text(v, "square"@) == seq!['\u{25AA}'],
        named_counter_text(v, "disclosure-open"@) == seq!['\u{25BE}'],
        named_counter_text(v, "disclosure-closed"@) == seq!['\u{25B8}'],
        named_counter_text(v, "none"@) == Seq::<char>::empty(),
{
    lemma_style_names();
}


proof fn lemma_unsigned_push(v: int, d: int, base: int, upper: bool)
    requires
        base >= 2,
        0 <= d < base,
    ensures
        d >= 1 ==> unsigned_text(d as nat, base as nat, upper) == seq![digit_char(d as nat, upper)],
        v >= 1 ==> unsigned_text((v * base + d) as nat, base as nat, upper) == unsigned_text(
            v as nat,
            base as nat,
            upper,
        ).push(digit_char(d as nat, upper)),
{
    if d >= 1 {
        lemma_fundamental_div_mod_converse_div(d, base, 0, d);
        lemma_fundamental_div_mod_converse_mod(d, base, 0, d);
        assert(msd_digits(d as nat, base as nat) == msd_digits(0, base as nat).push(d as nat));
        assert(msd_digits(0, base as nat) =~= seq![]);
        assert(unsigned_text(d as nat, base as nat, upper) =~= seq![digit_char(d as nat, upper)]);
    }
    if v >= 1 {
        let m = v * base + d;
        assert(v * base > 0) by (nonlinear_arith)
            requires
                v >= 1,
                base >= 2,
        ;
        lemma_fundamental_div_mod_converse_div(m, base, v, d);
        lemma_fundamental_div_mod_converse_mod(m, base, v, d);
        assert(msd_digits(m as nat, base as nat) == msd_digits(v as nat, base as nat).push(d as nat));
        assert(unsigned_text(m as nat, base as nat, upper) =~= unsigned_text(v as nat, base as nat, upper).push(
            digit_char(d as nat, upper),
        ));
    }
}

/// `decimal` writes 0 to 9 as the digits `0`..`9`, `10 * v + d` as the text
/// of `v` followed by the digit `d`, and a negative value as `-` and the
/// text of its magnitude.
pub proof fn law_decimal_style(v: int, d: int)
    requires
        0 <= d < 10,
    ensures
        named_counter_text(d, "decimal"@) == seq![(48 + d) as char],
        v >= 1 ==> named_counter_text(10 * v + d, "decimal"@) == named_counter_text(v, "decimal"@).push(
            (48 + d) as char,
        ),
        v >= 1 ==> named_counter_text(-v, "decimal"@) == seq!['-'] + named_counter_text(v, "decimal"@),
{
    lemma_style_names();
    lemma_unsigned_push(v, d, 10, false);
    assert(v * 10 == 10 * v);
}

/// `decimal-leading-zero` pads the values -9 to 9 to two digits (`05`,
/// `-05`) and writes any other value in decimal.
pub proof fn law_leading_zero_style(v: int)
    ensures
        0 <= v < 10 ==> named_counter_text(v, "decimal-leading-zero"@) == seq!['0', (48 + v) as char],
        -10 < v < 0 ==> named_counter_text(v, "decimal-leading-zero"@) == seq!['-', '0', (48 - v) as char],
        !(-10 < v < 10) ==> named_counter_text(v, "decimal-leading-zero"@) == named_counter_text(v, "decimal"@),
{
    lemma_style_names();
    if 0 < v < 10 {
        lemma_unsigned_push(0, v, 10, false);
    } else if -10 < v < 0 {
        lemma_unsigned_push(0, -v, 10, false);
    }
}

/// The hexadecimal, octal and binary styles count in base 16, 8 and 2: one
/// digit (`0`..`9` then `a`..`f`, or `A`..`F` for `upper-hexadecimal`) for
/// each value below the base, the digit `d` appended for `base * v + d`, and
/// `-` before the magnitude of a negative value.
pub proof fn law_radix_styles(v: int, d: int)
    requires
        0 <= d < 16,
    ensures
        named_counter_text(d, "lower-hexadecimal"@) == seq![(if d < 10 { 48 + d } else { 87 + d }) as char],
        named_counter_text(d, "upper-hexadecimal"@) == seq![(if d < 10 { 48 + d } else { 55 + d }) as char],
        d < 8 ==> named_counter_text(d, "octal"@) == seq![(48 + d) as char],
        d < 2 ==> named_counter_text(d, "binary"@) == seq![(48 + d) as char],
        v >= 1 ==> named_counter_text(16 * v + d, "lower-hexadecimal"@) == named_counter_text(v, "lower-hexadecimal"@).push(
            (if d < 10 { 48 + d } else { 87 + d }) as char,
        ),
        v >= 1 ==> named_counter_text(16 * v + d, "upper-hexadecimal"@) == named_counter_text(v, "upper-hexadecimal"@).push(
            (if d < 10 { 48 + d } else { 55 + d }) as char,
        ),
        v >= 1 && d < 8 ==> named_counter_text(8 * v + d, "octal"@) == named_counter_text(v, "octal"@).push(
            (48 + d) as char,
        ),
        v >= 1 && d < 2 ==> named_counter_text(2 * v + d, "binary"@) == named_counter_text(v, "binary"@).push(
            (48 + d) as char,
        ),
        v >= 1 ==> named_counter_text(-v, "lower-hexadecimal"@) == seq!['-'] + named_counter_text(v, "lower-hexadecimal"@),
        v >= 1 ==> named_counter_text(-v, "octal"@) == seq!['-'] + named_counter_text(v, "octal"@),
        v >= 1 ==> named_counter_text(-v, "binary"@) == seq!['-'] + named_counter_text(v, "binary"@),
{
    lemma_style_names();
    lemma_unsigned_push(v, d, 16, false);
    lemma_unsigned_push(v, d, 16, true);
    assert(v * 16 == 16 * v);
    if d < 8 {
        lemma_unsigned_push(v, d, 8, false);
        assert(v * 8 == 8 * v);
    }
    if d < 2 {
        lemma_unsigned_push(v, d, 2, false);
        assert(v * 2 == 2 * v);
    }
}


/// `text` with each ASCII digit replaced by the digit of the same value in
/// the script whose zero is `zero`; other characters are kept.
pub open spec fn in_script_digits(text: Seq<char>, zero: int) -> Seq<char> {
    text.map_values(|c: char| if '0' <= c <= '9' { ((c as int) - 48 + zero) as char } else { c })
}

proof fn lemma_table_is_shifted_decimal(v: int, zero: int)
    requires
        0 <= zero,
        zero + 9 < 0xd800,
    ensures
        table_digits_text(v, Seq::new(10, |i: int| (zero + i) as char)) == in_script_digits(decimal_text(v), zero),
{
    let table = Seq::new(10, |i: int| (zero + i) as char);
    let mag: nat = if v < 0 { (-v) as nat } else { v as nat };
    if v == 0 {
        assert(in_script_digits(seq!['0'], zero) =~= seq![table[0]]);
    } else {
        lemma_positional_round_trip(mag, 10);
        let ds = msd_digits(mag, 10);
        let digits = ds.map_values(|d: nat| digit_char(d, false));
        let shifted = ds.map_values(|d: nat| table[d as int]);
        assert(in_script_digits(digits, zero) =~= shifted) by {
            assert forall|i: int| 0 <= i < ds.len() implies #[trigger] in_script_digits(digits, zero)[i] == shifted[i] by {
                assert(ds[i] < 10);
            }
        }
        assert(unsigned_text(mag, 10, false) == digits);
        if v < 0 {
            assert(in_script_digits(seq!['-'] + digits, zero) =~= seq!['-'] + in_script_digits(digits, zero));
        } else {
            assert((seq![] + shifted) =~= shifted);
        }
    }
}

/// The native-digit styles write a value as `decimal` does, with each
/// digit replaced by that script's digit of the same value: Arabic-Indic
/// from U+0660, Devanagari from U+0966, Thai from U+0E50 and Persian from
/// U+06F0.
pub proof fn law_native_digit_styles(v: int)
    ensures
        named_counter_text(v, "arabic-indic"@) == in_script_digits(named_counter_text(v, "decimal"@), 0x660),
        named_counter_text(v, "devanagari"@) == in_script_digits(named_counter_text(v, "decimal"@), 0x966),
        named_counter_text(v, "thai"@) == in_script_digits(named_counter_text(v, "decimal"@), 0xe50),
        named_counter_text(v, "persian"@) == in_script_digits(named_counter_text(v, "decimal"@), 0x6f0),
{
    lemma_style_names();
    lemma_table_is_shifted_decimal(v, 0x660);
    lemma_table_is_shifted_decimal(v, 0x966);
    lemma_table_is_shifted_decimal(v, 0xe50);
    lemma_table_is_shifted_decimal(v, 0x6f0);
    assert(arabic_indic_digits() =~= Seq::new(10, |i: int| (0x660 + i) as char));
    assert(devanagari_digits() =~= Seq::new(10, |i: int| (0x966 + i) as char));
    assert(thai_digits() =~= Seq::new(10, |i: int| (0xe50 + i) as char));
    assert(persian_digits() =~= Seq::new(10, |i: int| (0x6f0 + i) as char));
}


/// The separator after a list marker: a period and a space for numbered
/// styles (`decimal` through `lower-greek` and the native-digit styles), the
/// ideographic comma for Chinese and Japanese styles, a comma and a space
/// for Korean styles, a slash and a space for `ethiopic-numeric`; a string
/// marker is the string itself, and `none` has no marker.
pub proof fn law_marker_separators(name: String, text: String)
    ensures
        name@ == "decimal"@ ==> marker_text(CounterStyle::Name(name)) == Some(seq!['0', '.', ' ']),
        name@ == "decimal-leading-zero"@ ==> marker_text(CounterStyle::Name(name)) == Some(seq!['0', '0', '.', ' ']),
        name@ == "lower-roman"@ ==> marker_text(CounterStyle::Name(name)) == Some(seq!['0', '.', ' ']),
        name@ == "upper-alpha"@ ==> marker_text(CounterStyle::Name(name)) == Some(seq!['0', '.', ' ']),
        name@ == "lower-greek"@ ==> marker_text(CounterStyle::Name(name)) == Some(seq!['0', '.', ' ']),
        name@ == "arabic-indic"@ ==> marker_text(CounterStyle::Name(name)) == Some(seq!['\u{660}', '.', ' ']),
        name@ == "thai"@ ==> marker_text(CounterStyle::Name(name)) == Some(seq!['\u{E50}', '.', ' ']),
        name@ == "cjk-decimal"@ ==> marker_text(CounterStyle::Name(name)) == Some(seq!['\u{3007}', '\u{3001}']),
        name@ == "hiragana"@ ==> marker_text(CounterStyle::Name(name)) == Some(seq!['0', '\u{3001}']),
        name@ == "trad-chinese-formal"@ ==> marker_text(CounterStyle::Name(name)) == Some(seq!['\u{96F6}', '\u{3001}']),
        name@ == "korean-hangul-formal"@ ==> marker_text(CounterStyle::Name(name)) == Some(seq!['\u{C601}', ',', ' ']),
        name@ == "korean-hanja-formal"@ ==> marker_text(CounterStyle::Name(name)) == Some(seq!['\u{96F6}', ',', ' ']),
        name@ == "ethiopic-numeric"@ ==> marker_text(CounterStyle::Name(name)) == Some(seq!['0', '/', ' ']),
        marker_text(CounterStyle::String(text)) == Some(text@),
        marker_text(CounterStyle::NoStyle) is None,
{
    reveal_strlit("decimal");
    assert("decimal"@ =~= seq!['d', 'e', 'c', 'i', 'm', 'a', 'l']);
    assert("decimal"@.len() == 7);
    reveal_strlit("lower-roman");
    assert("lower-roman"@ =~= seq!['l', 'o', 'w', 'e', 'r', '-', 'r', 'o', 'm', 'a', 'n']);
    assert("lower-roman"@.len() == 11);
    reveal_strlit("upper-alpha");
    assert("upper-alpha"@ =~= seq!['u', 'p', 'p', 'e', 'r', '-', 'a', 'l', 'p', 'h', 'a']);
    assert("upper-alpha"@.len() == 11);
    reveal_strlit("lower-greek");
    assert("lower-greek"@ =~= seq!['l', 'o', 'w', 'e', 'r', '-', 'g', 'r', 'e', 'e', 'k']);
    assert("lower-greek"@.len() == 11);
    reveal_strlit("disc");
    assert("disc"@ =~= seq!['d', 'i', 's', 'c']);
    assert("disc"@.len() == 4);
    reveal_strlit("circle");
    assert("circle"@ =~= seq!['c', 'i', 'r', 'c', 'l', 'e']);
    assert("circle"@.len() == 6);
    reveal_strlit("square");
    assert("square"@ =~= seq!['s', 'q', 'u', 'a', 'r', 'e']);
    assert("square"@.len() == 6);
    reveal_strlit("disclosure-open");
    assert("disclosure-open"@ =~= seq!['d', 'i', 's', 'c', 'l', 'o', 's', 'u', 'r', 'e', '-', 'o', 'p', 'e', 'n']);
    assert("disclosure-open"@.len() == 15);
    reveal_strlit("disclosure-closed");
    assert("disclosure-closed"@ =~= seq!['d', 'i', 's', 'c', 'l', 'o', 's', 'u', 'r', 'e', '-', 'c', 'l', 'o', 's', 'e', 'd']);
    assert("disclosure-closed"@.len() == 17);
    reveal_strlit("decimal-leading-zero");
    assert("decimal-leading-zero"@ =~= seq!['d', 'e', 'c', 'i', 'm', 'a', 'l', '-', 'l', 'e', 'a', 'd', 'i', 'n', 'g', '-', 'z', 'e', 'r', 'o']);
    assert("decimal-leading-zero"@.len() == 20);
    reveal_strlit("arabic-indic");
    assert("arabic-indic"@ =~= seq!['a', 'r', 'a', 'b', 'i', 'c', '-', 'i', 'n', 'd', 'i', 'c']);
    assert("arabic-indic"@.len() == 12);
    reveal_strlit("bengali");
    assert("bengali"@ =~= seq!['b', 'e', 'n', 'g', 'a', 'l', 'i']);
    assert("bengali"@.len() == 7);
    reveal_strlit("cambodian");
    assert("cambodian"@ =~= seq!['c', 'a', 'm', 'b', 'o', 'd', 'i', 'a', 'n']);
    assert("cambodian"@.len() == 9);
    reveal_strlit("khmer");
    assert("khmer"@ =~= seq!['k', 'h', 'm', 'e', 'r']);
    assert("khmer"@.len() == 5);
    reveal_strlit("devanagari");
    assert("devanagari"@ =~= seq!['d', 'e', 'v', 'a', 'n', 'a', 'g', 'a', 'r', 'i']);
    assert("devanagari"@.len() == 10);
    reveal_strlit("gujarati");
    assert("gujarati"@ =~= seq!['g', 'u', 'j', 'a', 'r', 'a', 't', 'i']);
    assert("gujarati"@.len() == 8);
    reveal_strlit("gurmukhi");
    assert("gurmukhi"@ =~= seq!['g', 'u', 'r', 'm', 'u', 'k', 'h', 'i']);
    assert("gurmukhi"@.len() == 8);
    reveal_strlit("kannada");
    assert("kannada"@ =~= seq!['k', 'a', 'n', 'n', 'a', 'd', 'a']);
    assert("kannada"@.len() == 7);
    reveal_strlit("lao");
    assert("lao"@ =~= seq!['l', 'a', 'o']);
    assert("lao"@.len() == 3);
    reveal_strlit("malayalam");
    assert("malayalam"@ =~= seq!['m', 'a', 'l', 'a', 'y', 'a', 'l', 'a', 'm']);
    assert("malayalam"@.len() == 9);
    reveal_strlit("mongolian");
    assert("mongolian"@ =~= seq!['m', 'o', 'n', 'g', 'o', 'l', 'i', 'a', 'n']);
    assert("mongolian"@.len() == 9);
    reveal_strlit("myanmar");
    assert("myanmar"@ =~= seq!['m', 'y', 'a', 'n', 'm', 'a', 'r']);
    assert("myanmar"@.len() == 7);
    reveal_strlit("oriya");
    assert("oriya"@ =~= seq!['o', 'r', 'i', 'y', 'a']);
    assert("oriya"@.len() == 5);
    reveal_strlit("persian");
    assert("persian"@ =~= seq!['p', 'e', 'r', 's', 'i', 'a', 'n']);
    assert("persian"@.len() == 7);
    reveal_strlit("tamil");
    assert("tamil"@ =~= seq!['t', 'a', 'm', 'i', 'l']);
    assert("tamil"@.len() == 5);
    reveal_strlit("telugu");
    assert("telugu"@ =~= seq!['t', 'e', 'l', 'u', 'g', 'u']);
    assert("telugu"@.len() == 6);
    reveal_strlit("thai");
    assert("thai"@ =~= seq!['t', 'h', 'a', 'i']);
    assert("thai"@.len() == 4);
    reveal_strlit("tibetan");
    assert("tibetan"@ =~= seq!['t', 'i', 'b', 'e', 't', 'a', 'n']);
    assert("tibetan"@.len() == 7);
    reveal_strlit("cjk-decimal");
    assert("cjk-decimal"@ =~= seq!['c', 'j', 'k', '-', 'd', 'e', 'c', 'i', 'm', 'a', 'l']);
    assert("cjk-decimal"@.len() == 11);
    reveal_strlit("cjk-earthly-branch");
    assert("cjk-earthly-branch"@ =~= seq!['c', 'j', 'k', '-', 'e', 'a', 'r', 't', 'h', 'l', 'y', '-', 'b', 'r', 'a', 'n', 'c', 'h']);
    assert("cjk-earthly-branch"@.len() == 18);
    reveal_strlit("cjk-heavenly-stem");
    assert("cjk-heavenly-stem"@ =~= seq!['c', 'j', 'k', '-', 'h', 'e', 'a', 'v', 'e', 'n', 'l', 'y', '-', 's', 't', 'e', 'm']);
    assert("cjk-heavenly-stem"@.len() == 17);
    reveal_strlit("japanese-informal");
    assert("japanese-informal"@ =~= seq!['j', 'a', 'p', 'a', 'n', 'e', 's', 'e', '-', 'i', 'n', 'f', 'o', 'r', 'm', 'a', 'l']);
    assert("japanese-informal"@.len() == 17);
    reveal_strlit("korean-hangul-formal");
    assert("korean-hangul-formal"@ =~= seq!['k', 'o', 'r', 'e', 'a', 'n', '-', 'h', 'a', 'n', 'g', 'u', 'l', '-', 'f', 'o', 'r', 'm', 'a', 'l']);
    assert("korean-hangul-formal"@.len() == 20);
    reveal_strlit("korean-hanja-informal");
    assert("korean-hanja-informal"@ =~= seq!['k', 'o', 'r', 'e', 'a', 'n', '-', 'h', 'a', 'n', 'j', 'a', '-', 'i', 'n', 'f', 'o', 'r', 'm', 'a', 'l']);
    assert("korean-hanja-informal"@.len() == 21);
    reveal_strlit("korean-hanja-formal");
    assert("korean-hanja-formal"@ =~= seq!['k', 'o', 'r', 'e', 'a', 'n', '-', 'h', 'a', 'n', 'j', 'a', '-', 'f', 'o', 'r', 'm', 'a', 'l']);
    assert("korean-hanja-formal"@.len() == 19);
    reveal_strlit("japanese-formal");
    assert("japanese-formal"@ =~= seq!['j', 'a', 'p', 'a', 'n', 'e', 's', 'e', '-', 'f', 'o', 'r', 'm', 'a', 'l']);
    assert("japanese-formal"@.len() == 15);
    reveal_strlit("simp-chinese-informal");
    assert("simp-chinese-informal"@ =~= seq!['s', 'i', 'm', 'p', '-', 'c', 'h', 'i', 'n', 'e', 's', 'e', '-', 'i', 'n', 'f', 'o', 'r', 'm', 'a', 'l']);
    assert("simp-chinese-informal"@.len() == 21);
    reveal_strlit("simp-chinese-formal");
    assert("simp-chinese-formal"@ =~= seq!['s', 'i', 'm', 'p', '-', 'c', 'h', 'i', 'n', 'e', 's', 'e', '-', 'f', 'o', 'r', 'm', 'a', 'l']);
    assert("simp-chinese-formal"@.len() == 19);
    reveal_strlit("trad-chinese-informal");
    assert("trad-chinese-informal"@ =~= seq!['t', 'r', 'a', 'd', '-', 'c', 'h', 'i', 'n', 'e', 's', 'e', '-', 'i', 'n', 'f', 'o', 'r', 'm', 'a', 'l']);
    assert("trad-chinese-informal"@.len() == 21);
    reveal_strlit("trad-chinese-formal");
    assert("trad-chinese-formal"@ =~= seq!['t', 'r', 'a', 'd', '-', 'c', 'h', 'i', 'n', 'e', 's', 'e', '-', 'f', 'o', 'r', 'm', 'a', 'l']);
    assert("trad-chinese-formal"@.len() == 19);
    reveal_strlit("cjk-ideographic");
    assert("cjk-ideographic"@ =~= seq!['c', 'j', 'k', '-', 'i', 'd', 'e', 'o', 'g', 'r', 'a', 'p', 'h', 'i', 'c']);
    assert("cjk-ideographic"@.len() == 15);
    reveal_strlit("hiragana");
    assert("hiragana"@ =~= seq!['h', 'i', 'r', 'a', 'g', 'a', 'n', 'a']);
    assert("hiragana"@.len() == 8);
    reveal_strlit("hiragana-iroha");
    assert("hiragana-iroha"@ =~= seq!['h', 'i', 'r', 'a', 'g', 'a', 'n', 'a', '-', 'i', 'r', 'o', 'h', 'a']);
    assert("hiragana-iroha"@.len() == 14);
    reveal_strlit("katakana");
    assert("katakana"@ =~= seq!['k', 'a', 't', 'a', 'k', 'a', 'n', 'a']);
    assert("katakana"@.len() == 8);
    reveal_strlit("katakana-iroha");
    assert("katakana-iroha"@ =~= seq!['k', 'a', 't', 'a', 'k', 'a', 'n', 'a', '-', 'i', 'r', 'o', 'h', 'a']);
    assert("katakana-iroha"@.len() == 14);
    reveal_strlit("ethiopic-numeric");
    assert("ethiopic-numeric"@ =~= seq!['e', 't', 'h', 'i', 'o', 'p', 'i', 'c', '-', 'n', 'u', 'm', 'e', 'r', 'i', 'c']);
    assert("ethiopic-numeric"@.len() == 16);
}

} // verus!
