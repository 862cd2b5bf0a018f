//! Positional and additive numeral systems used by counter styles.

use vstd::prelude::*;
use vstd::arithmetic::div_mod::{
    lemma_fundamental_div_mod_converse_div, lemma_fundamental_div_mod_converse_mod, lemma_mod_mod,
    lemma_div_decreases, lemma_small_mod, lemma_basic_div, lemma_div_is_ordered, lemma_div_by_self, lemma_div_nonincreasing, lemma_fundamental_div_mod, lemma_mod_bound};
use vstd::string::StrSliceExecFns;

verus! {

/// Digits of `n` in base `base`, most significant first; empty for zero.
pub open spec fn msd_digits(n: nat, base: nat) -> Seq<nat>
    decreases n,
{
    if n == 0 || base < 2 {
        seq![]
    } else {
        proof {
            lemma_div_decreases(n as int, base as int);
        }
        msd_digits(n / base, base).push(n % base)
    }
}

/// The ASCII character for digit `d` (0-9, then letters), in the given case.
pub open spec fn digit_char(d: nat, upper: bool) -> char {
    if d < 10 {
        (48 + d) as char
    } else if upper {
        (55 + d) as char
    } else {
        (87 + d) as char
    }
}

/// What `{}`, `{:x}`, `{:X}`, `{:o}` and `{:b}` print for a non-negative number.
pub open spec fn unsigned_text(n: nat, base: nat, upper: bool) -> Seq<char> {
    if n == 0 {
        seq!['0']
    } else {
        msd_digits(n, base).map_values(|d: nat| digit_char(d, upper))
    }
}

/// What `i32::to_string` returns: an optional minus sign and the decimal digits.
pub open spec fn decimal_text(v: int) -> Seq<char> {
    if v < 0 {
        seq!['-'] + unsigned_text((-v) as nat, 10, false)
    } else {
        unsigned_text(v as nat, 10, false)
    }
}

fn digit_to_char(d: usize, upper: bool) -> (c: char)
    requires
        d < 36,
    ensures
        c == digit_char(d as nat, upper),
{
    if d < 10 {
        ((48 + d) as u8) as char
    } else if upper {
        ((55 + d) as u8) as char
    } else {
        ((87 + d) as u8) as char
    }
}

/// Digits of `n` in base `base`, most significant first.
pub fn digits_of(n: u32, base: usize) -> (ds: Vec<usize>)
    requires
        base >= 2,
    ensures
        ds@.map_values(|d: usize| d as nat) =~= msd_digits(n as nat, base as nat),
        forall|i: int| 0 <= i < ds.len() ==> ds[i] < base,
{
    let mut ds: Vec<usize> = Vec::new();
    let mut v: usize = n as usize;
    while v > 0
        invariant
            base >= 2,
            msd_digits(n as nat, base as nat) =~= msd_digits(v as nat, base as nat) + ds@.map_values(
                |d: usize| d as nat,
            ),
            forall|i: int| 0 <= i < ds.len() ==> ds[i] < base,
        decreases v,
    {
        let d = v % base;
        let ghost old_ds = ds@;
        ds.insert(0, d);
        assert(ds@.map_values(|d: usize| d as nat) =~= seq![d as nat] + old_ds.map_values(
            |d: usize| d as nat,
        ));
        assert(msd_digits(v as nat, base as nat) == msd_digits((v / base) as nat, base as nat).push(
            (v % base) as nat,
        ));
        v = v / base;
    }
    ds
}

/// `n` written in base `base` (at most 36), as the standard integer
/// formatting prints it.
pub fn unsigned_to_text(n: u32, base: u32, upper: bool) -> (s: String)
    requires
        2 <= base <= 36,
    ensures
        s@ == unsigned_text(n as nat, base as nat, upper),
{
    let mut s = String::new();
    if n == 0 {
        s.push('0');
        return s;
    }
    let ds = digits_of(n, base as usize);
    let ghost mds = msd_digits(n as nat, base as nat);
    let mut i: usize = 0;
    while i < ds.len()
        invariant
            2 <= base <= 36,
            ds@.map_values(|d: usize| d as nat) =~= mds,
            forall|k: int| 0 <= k < ds.len() ==> ds[k] < base,
            i <= ds.len(),
            s@ =~= mds.take(i as int).map_values(|d: nat| digit_char(d, upper)),
        decreases ds.len() - i,
    {
        let c = digit_to_char(ds[i], upper);
        s.push(c);
        assert(mds[i as int] == ds[i as int] as nat);
        assert(mds.take(i + 1) =~= mds.take(i as int).push(mds[i as int]));
        i = i + 1;
    }
    assert(mds.take(ds.len() as int) =~= mds);
    s
}

/// Magnitude of an `i32`, as a `u32`.
pub fn magnitude(value: i32) -> (m: u32)
    ensures
        m as int == if value < 0 { -value } else { value as int },
{
    if value < 0 {
        (-(value as i64)) as u32
    } else {
        value as u32
    }
}

/// `value` in decimal, as `i32::to_string` writes it.
pub fn decimal_string(value: i32) -> (s: String)
    ensures
        s@ == decimal_text(value as int),
{
    let m = magnitude(value);
    let digits = unsigned_to_text(m, 10, false);
    if value < 0 {
        let mut s = String::new();
        s.push('-');
        s.append(digits.as_str());
        s
    } else {
        digits
    }
}

/// Digits of `n` in bijective base `base` (digit values `0..base` standing
/// for `1..=base`), most significant first; empty for zero.
pub open spec fn bijective_digits(n: nat, base: nat) -> Seq<nat>
    decreases n,
{
    if n == 0 || base < 1 {
        seq![]
    } else {
        proof {
            lemma_div_nonincreasing(n - 1, base as int);
        }
        bijective_digits(((n - 1) / (base as int)) as nat, base).push(((n - 1) % (base as int)) as nat)
    }
}

/// The number that a most-significant-first digit sequence stands for.
pub open spec fn positional_value(ds: Seq<nat>, base: nat) -> nat
    decreases ds.len(),
{
    if ds.len() == 0 {
        0
    } else {
        positional_value(ds.drop_last(), base) * base + ds.last()
    }
}

/// The number that a bijective digit sequence stands for (digit `d` counts `d + 1`).
pub open spec fn bijective_value(ds: Seq<nat>, base: nat) -> nat
    decreases ds.len(),
{
    if ds.len() == 0 {
        0
    } else {
        bijective_value(ds.drop_last(), base) * base + ds.last() + 1
    }
}

/// Reading the positional digits of `n` back gives `n`, every digit is
/// below the base, and the leading digit of a positive number is not zero.
pub proof fn lemma_positional_round_trip(n: nat, base: nat)
    requires
        base >= 2,
    ensures
        positional_value(msd_digits(n, base), base) == n,
        forall|i: int| 0 <= i < msd_digits(n, base).len() ==> #[trigger] msd_digits(n, base)[i] < base,
        n > 0 ==> msd_digits(n, base).len() > 0 && msd_digits(n, base)[0] != 0,
    decreases n,
{
    if n > 0 {
        lemma_div_decreases(n as int, base as int);
        lemma_positional_round_trip(n / base, base);
        lemma_fundamental_div_mod(n as int, base as int);
        lemma_mod_bound(n as int, base as int);
        let ds = msd_digits(n, base);
        assert(ds.drop_last() =~= msd_digits(n / base, base));
        assert(base * (n / base) == (n / base) * base) by (nonlinear_arith);
        if n < base {
            lemma_small_mod(n, base);
            lemma_basic_div(n as int, base as int);
        } else {
            lemma_div_is_ordered(base as int, n as int, base as int);
            lemma_div_by_self(base as int);
        }
    }
}

/// Reading the bijective digits of `n` back gives `n`, and every digit is
/// below the base.
pub proof fn lemma_bijective_round_trip(n: nat, base: nat)
    requires
        base >= 1,
    ensures
        bijective_value(bijective_digits(n, base), base) == n,
        forall|i: int| 0 <= i < bijective_digits(n, base).len() ==> #[trigger] bijective_digits(n, base)[i] < base,
        bijective_digits(n, base).len() == 0 <==> n == 0,
    decreases n,
{
    if n > 0 {
        let q = ((n - 1) / (base as int)) as nat;
        lemma_div_nonincreasing(n - 1, base as int);
        lemma_bijective_round_trip(q, base);
        lemma_fundamental_div_mod(n - 1, base as int);
        lemma_mod_bound(n - 1, base as int);
        let ds = bijective_digits(n, base);
        assert(ds.drop_last() =~= bijective_digits(q, base));
        assert(base * q == q * base) by (nonlinear_arith);
    }
}

/// Digits of `n` in bijective base `base`, most significant first.
pub fn bijective_digits_of(n: u32, base: usize) -> (ds: Vec<usize>)
    requires
        base >= 1,
    ensures
        ds@.map_values(|d: usize| d as nat) =~= bijective_digits(n as nat, base as nat),
        forall|i: int| 0 <= i < ds.len() ==> ds[i] < base,
{
    let mut ds: Vec<usize> = Vec::new();
    let mut v: usize = n as usize;
    while v > 0
        invariant
            base >= 1,
            bijective_digits(n as nat, base as nat) =~= bijective_digits(v as nat, base as nat)
                + ds@.map_values(|d: usize| d as nat),
            forall|i: int| 0 <= i < ds.len() ==> ds[i] < base,
        decreases v,
    {
        v = v - 1;
        let d = v % base;
        let ghost old_ds = ds@;
        ds.insert(0, d);
        assert(ds@.map_values(|d: usize| d as nat) =~= seq![d as nat] + old_ds.map_values(
            |d: usize| d as nat,
        ));
        assert(bijective_digits((v + 1) as nat, base as nat) == bijective_digits(
            (v / base) as nat,
            base as nat,
        ).push((v % base) as nat));
        proof {
            lemma_div_nonincreasing(v as int, base as int);
        }
        v = v / base;
    }
    ds
}

/// The alphabetic counter text of a positive number: bijective base 26
/// over `a..z` (or `A..Z`).
pub open spec fn alpha_text(n: nat, upper: bool) -> Seq<char> {
    bijective_digits(n, 26).map_values(|d: nat| (if upper { 65 + d } else { 97 + d }) as char)
}

/// `int_to_alpha`'s result: the alphabetic text for positive values, the
/// decimal text otherwise.
pub open spec fn alpha_counter_text(value: int, upper: bool) -> Seq<char> {
    if value <= 0 {
        decimal_text(value)
    } else {
        alpha_text(value as nat, upper)
    }
}

/// Convert integer to alphabetic counter (a, b, c, ... z, aa, ab, ...).
pub fn int_to_alpha(value: i32, upper: bool) -> (s: String)
    ensures
        s@ == alpha_counter_text(value as int, upper),
{
    if value <= 0 {
        return decimal_string(value);
    }
    let base: u8 = if upper { 65 } else { 97 };
    let ds = bijective_digits_of(value as u32, 26);
    let ghost bds = bijective_digits(value as nat, 26);
    let mut s = String::new();
    let mut i: usize = 0;
    while i < ds.len()
        invariant
            ds@.map_values(|d: usize| d as nat) =~= bds,
            forall|k: int| 0 <= k < ds.len() ==> ds[k] < 26,
            i <= ds.len(),
            base == if upper { 65u8 } else { 97u8 },
            s@ =~= bds.take(i as int).map_values(|d: nat| (if upper { 65 + d } else { 97 + d }) as char),
        decreases ds.len() - i,
    {
        let c = (base + ds[i] as u8) as char;
        s.push(c);
        assert(bds[i as int] == ds[i as int] as nat);
        assert(bds.take(i + 1) =~= bds.take(i as int).push(bds[i as int]));
        i = i + 1;
    }
    assert(bds.take(ds.len() as int) =~= bds);
    s
}

/// The lowercase Greek alphabet without final sigma: alpha..rho, sigma..omega.
pub open spec fn greek_letter(i: nat) -> char {
    if i < 17 {
        (0x3b1 + i) as char
    } else {
        (0x3b2 + i) as char
    }
}

/// `int_to_greek`'s result: the `value`-th Greek letter for 1 to 24, the
/// decimal text otherwise.
pub open spec fn greek_counter_text(value: int) -> Seq<char> {
    if 1 <= value <= 24 {
        seq![greek_letter((value - 1) as nat)]
    } else {
        decimal_text(value)
    }
}

/// `lower-greek` gives the values 1 to 24 one lower-case letter each, all
/// from alpha (U+03B1) to omega (U+03C9) without final sigma (U+03C2), in
/// strictly increasing order: the 24 letters of the Greek alphabet in turn.
pub proof fn law_greek_alphabet(n: int, m: int)
    requires
        1 <= n <= 24,
    ensures
        greek_counter_text(n).len() == 1,
        0x3b1 <= (greek_counter_text(n)[0] as int) <= 0x3c9,
        (greek_counter_text(n)[0] as int) != 0x3c2,
        n < m <= 24 ==> (greek_counter_text(n)[0] as int) < (greek_counter_text(m)[0] as int),
{
}

fn greek_letter_at(i: u32) -> (c: char)
    requires
        i < 24,
    ensures
        c == greek_letter(i as nat),
{
    match i {
        0 => '\u{3b1}',
        1 => '\u{3b2}',
        2 => '\u{3b3}',
        3 => '\u{3b4}',
        4 => '\u{3b5}',
        5 => '\u{3b6}',
        6 => '\u{3b7}',
        7 => '\u{3b8}',
        8 => '\u{3b9}',
        9 => '\u{3ba}',
        10 => '\u{3bb}',
        11 => '\u{3bc}',
        12 => '\u{3bd}',
        13 => '\u{3be}',
        14 => '\u{3bf}',
        15 => '\u{3c0}',
        16 => '\u{3c1}',
        17 => '\u{3c3}',
        18 => '\u{3c4}',
        19 => '\u{3c5}',
        20 => '\u{3c6}',
        21 => '\u{3c7}',
        22 => '\u{3c8}',
        _ => '\u{3c9}',
    }
}

/// Convert integer to Greek lowercase (alpha, beta, gamma, ...).
pub fn int_to_greek(value: i32) -> (s: String)
    ensures
        s@ == greek_counter_text(value as int),
{
    if value <= 0 || value > 24 {
        return decimal_string(value);
    }
    let mut s = String::new();
    s.push(greek_letter_at((value - 1) as u32));
    s
}

/// Value of the `i`-th entry of the Roman numeral table, largest first.
pub open spec fn roman_value(i: nat) -> nat {
    if i == 0 {
        1000
    } else if i == 1 {
        900
    } else if i == 2 {
        500
    } else if i == 3 {
        400
    } else if i == 4 {
        100
    } else if i == 5 {
        90
    } else if i == 6 {
        50
    } else if i == 7 {
        40
    } else if i == 8 {
        10
    } else if i == 9 {
        9
    } else if i == 10 {
        5
    } else if i == 11 {
        4
    } else {
        1
    }
}

/// Upper-case symbol of the `i`-th entry of the Roman numeral table.
pub open spec fn roman_upper_symbol(i: nat) -> Seq<char> {
    if i == 0 {
        seq!['M']
    } else if i == 1 {
        seq!['C', 'M']
    } else if i == 2 {
        seq!['D']
    } else if i == 3 {
        seq!['C', 'D']
    } else if i == 4 {
        seq!['C']
    } else if i == 5 {
        seq!['X', 'C']
    } else if i == 6 {
        seq!['L']
    } else if i == 7 {
        seq!['X', 'L']
    } else if i == 8 {
        seq!['X']
    } else if i == 9 {
        seq!['I', 'X']
    } else if i == 10 {
        seq!['V']
    } else if i == 11 {
        seq!['I', 'V']
    } else {
        seq!['I']
    }
}

/// Symbol of the `i`-th Roman table entry in the requested case.
pub open spec fn roman_symbol(i: nat, upper: bool) -> Seq<char> {
    if upper {
        roman_upper_symbol(i)
    } else {
        roman_upper_symbol(i).map_values(|c: char| ((c as int) + 32) as char)
    }
}

/// Table entries that the greedy Roman conversion emits for `v`, starting at entry `i`.
pub open spec fn roman_tokens(v: nat, i: nat) -> Seq<nat>
    decreases v, 13 - i,
{
    if i >= 13 {
        seq![]
    } else if v >= roman_value(i) {
        seq![i] + roman_tokens((v - roman_value(i)) as nat, i)
    } else {
        roman_tokens(v, i + 1)
    }
}

/// The text of a sequence of Roman table entries.
pub open spec fn roman_join(ts: Seq<nat>, upper: bool) -> Seq<char>
    decreases ts.len(),
{
    if ts.len() == 0 {
        seq![]
    } else {
        roman_symbol(ts[0], upper) + roman_join(ts.drop_first(), upper)
    }
}

/// The sum of the values of a sequence of Roman table entries.
pub open spec fn roman_sum(ts: Seq<nat>) -> nat
    decreases ts.len(),
{
    if ts.len() == 0 {
        0
    } else {
        roman_value(ts[0]) + roman_sum(ts.drop_first())
    }
}

/// `int_to_roman`'s result: the Roman numeral for 1 to 3999, the decimal text otherwise.
pub open spec fn roman_counter_text(value: int, upper: bool) -> Seq<char> {
    if value <= 0 || value >= 4000 {
        decimal_text(value)
    } else {
        roman_join(roman_tokens(value as nat, 0), upper)
    }
}

/// The symbols that the Roman conversion emits add up to the number converted.
pub proof fn lemma_roman_sum(v: nat, i: nat)
    requires
        i <= 12,
    ensures
        roman_sum(roman_tokens(v, i)) == v,
    decreases v, 13 - i,
{
    if v >= roman_value(i) {
        lemma_roman_sum((v - roman_value(i)) as nat, i);
        assert((seq![i] + roman_tokens((v - roman_value(i)) as nat, i)).drop_first()
            =~= roman_tokens((v - roman_value(i)) as nat, i));
    } else if i < 12 {
        lemma_roman_sum(v, i + 1);
    } else {
        assert(roman_tokens(v, 13) =~= seq![]);
    }
}

fn roman_entry_value(i: usize) -> (n: u32)
    requires
        i < 13,
    ensures
        n == roman_value(i as nat),
{
    match i {
        0 => 1000,
        1 => 900,
        2 => 500,
        3 => 400,
        4 => 100,
        5 => 90,
        6 => 50,
        7 => 40,
        8 => 10,
        9 => 9,
        10 => 5,
        11 => 4,
        _ => 1,
    }
}

fn roman_entry_symbol(i: usize, upper: bool) -> (s: &'static str)
    requires
        i < 13,
    ensures
        s@ == roman_symbol(i as nat, upper),
{
    proof {
        reveal_strlit("M");
        reveal_strlit("m");
        reveal_strlit("CM");
        reveal_strlit("cm");
        reveal_strlit("D");
        reveal_strlit("d");
        reveal_strlit("CD");
        reveal_strlit("cd");
        reveal_strlit("C");
        reveal_strlit("c");
        reveal_strlit("XC");
        reveal_strlit("xc");
        reveal_strlit("L");
        reveal_strlit("l");
        reveal_strlit("XL");
        reveal_strlit("xl");
        reveal_strlit("X");
        reveal_strlit("x");
        reveal_strlit("IX");
        reveal_strlit("ix");
        reveal_strlit("V");
        reveal_strlit("v");
        reveal_strlit("IV");
        reveal_strlit("iv");
        reveal_strlit("I");
        reveal_strlit("i");
    }
    match i {
        0 => if upper { "M" } else { "m" },
        1 => if upper { "CM" } else { "cm" },
        2 => if upper { "D" } else { "d" },
        3 => if upper { "CD" } else { "cd" },
        4 => if upper { "C" } else { "c" },
        5 => if upper { "XC" } else { "xc" },
        6 => if upper { "L" } else { "l" },
        7 => if upper { "XL" } else { "xl" },
        8 => if upper { "X" } else { "x" },
        9 => if upper { "IX" } else { "ix" },
        10 => if upper { "V" } else { "v" },
        11 => if upper { "IV" } else { "iv" },
        _ => if upper { "I" } else { "i" },
    }
}

/// Convert integer to Roman numerals.
pub fn int_to_roman(value: i32, upper: bool) -> (s: String)
    ensures
        s@ == roman_counter_text(value as int, upper),
{
    if value <= 0 || value >= 4000 {
        return decimal_string(value);
    }
    let mut v: u32 = value as u32;
    let mut s = String::new();
    let mut i: usize = 0;
    while i < 13
        invariant
            i <= 13,
            roman_counter_text(value as int, upper) =~= s@ + roman_join(roman_tokens(v as nat, i as nat), upper),
        decreases 13 - i,
    {
        let n = roman_entry_value(i);
        let sym = roman_entry_symbol(i, upper);
        while v >= n
            invariant
                i < 13,
                n == roman_value(i as nat),
                sym@ == roman_symbol(i as nat, upper),
                roman_counter_text(value as int, upper) =~= s@ + roman_join(roman_tokens(v as nat, i as nat), upper),
            decreases v,
        {
            let ghost ts = roman_tokens((v - n) as nat, i as nat);
            assert((seq![i as nat] + ts).drop_first() =~= ts);
            s.append(sym);
            v = v - n;
        }
        i = i + 1;
    }
    s
}

/// `int_to_digits`'s result for a digit table: the table's own digits in base 10
/// with a leading `-` for negatives, or the decimal text if the table has fewer than ten digits.
pub open spec fn table_digits_text(value: int, table: Seq<char>) -> Seq<char> {
    if table.len() < 10 {
        decimal_text(value)
    } else if value == 0 {
        seq![table[0]]
    } else {
        let mag: nat = if value < 0 { (-value) as nat } else { value as nat };
        (if value < 0 { seq!['-'] } else { seq![] }) + msd_digits(mag, 10).map_values(|d: nat| table[d as int])
    }
}

/// Convert integer to digits using a custom digit string (like Arabic-Indic).
pub fn int_to_digits(value: i32, digit_chars: &str) -> (s: String)
    ensures
        s@ == table_digits_text(value as int, digit_chars@),
{
    let n = digit_chars.unicode_len();
    let mut digits: Vec<char> = Vec::new();
    let mut k: usize = 0;
    while k < n
        invariant
            n == digit_chars@.len(),
            k <= n,
            digits@ =~= digit_chars@.take(k as int),
        decreases n - k,
    {
        digits.push(digit_chars.get_char(k));
        k = k + 1;
    }
    assert(digit_chars@.take(n as int) =~= digit_chars@);
    if digits.len() < 10 {
        return decimal_string(value);
    }
    let mut s = String::new();
    if value == 0 {
        s.push(digits[0]);
        return s;
    }
    if value < 0 {
        s.push('-');
    }
    let ghost prefix = s@;
    let ds = digits_of(magnitude(value), 10);
    let ghost mds = msd_digits(if value < 0 { (-value) as nat } else { value as nat }, 10);
    let mut i: usize = 0;
    while i < ds.len()
        invariant
            digits@ == digit_chars@,
            digits.len() >= 10,
            ds@.map_values(|d: usize| d as nat) =~= mds,
            forall|j: int| 0 <= j < ds.len() ==> ds[j] < 10,
            i <= ds.len(),
            s@ =~= prefix + mds.take(i as int).map_values(|d: nat| digit_chars@[d as int]),
        decreases ds.len() - i,
    {
        let c = digits[ds[i]];
        s.push(c);
        assert(mds[i as int] == ds[i as int] as nat);
        assert(mds.take(i + 1) =~= mds.take(i as int).push(mds[i as int]));
        i = i + 1;
    }
    assert(mds.take(ds.len() as int) =~= mds);
    s
}

/// Table entry `t` written `k` times.
pub open spec fn repeat_token(t: nat, k: nat) -> Seq<nat>
    decreases k,
{
    if k == 0 {
        seq![]
    } else {
        seq![t] + repeat_token(t, (k - 1) as nat)
    }
}

/// The Roman form of one decimal digit `d`, in the decade whose table
/// entries start at `b` (nine, five, four, one of that decade): for hundreds
/// `CM`, `D`, `CD`, `C`; one to three ones, four, five and up to three
/// ones, or nine.
pub open spec fn digit_tokens(d: nat, b: nat) -> Seq<nat> {
    if d == 9 {
        seq![b]
    } else if d >= 5 {
        seq![b + 1] + repeat_token(b + 3, (d - 5) as nat)
    } else if d == 4 {
        seq![b + 2]
    } else {
        repeat_token(b + 3, d)
    }
}

/// The Roman numeral by decimal places: the thousands as `M`s, then the
/// hundreds, tens and units digits each in their own decade.
pub open spec fn place_tokens(v: nat) -> Seq<nat> {
    repeat_token(0, v / 1000) + digit_tokens((v % 1000) / 100, 1) + digit_tokens((v % 100) / 10, 5)
        + digit_tokens(v % 10, 9)
}

proof fn lemma_roman_ones(x: nat, i: nat, u: nat)
    requires
        i <= 12,
        u > 0,
        roman_value(i) == u,
    ensures
        roman_tokens(x, i) == repeat_token(i, x / u) + roman_tokens(x % u, i + 1),
    decreases x,
{
    lemma_fundamental_div_mod(x as int, u as int);
    lemma_mod_bound(x as int, u as int);
    if x >= u {
        let y = (x - u) as nat;
        lemma_roman_ones(y, i, u);
        lemma_fundamental_div_mod(y as int, u as int);
        lemma_mod_bound(y as int, u as int);
        assert((y / u + 1) * u == u * (y / u) + u) by (nonlinear_arith);
        lemma_fundamental_div_mod_converse_div(x as int, u as int, (y / u + 1) as int, (y % u) as int);
        lemma_fundamental_div_mod_converse_mod(x as int, u as int, (y / u + 1) as int, (y % u) as int);
        assert(repeat_token(i, x / u) =~= seq![i] + repeat_token(i, y / u));
        assert(roman_tokens(x, i) =~= seq![i] + roman_tokens(y, i));
    } else {
        lemma_fundamental_div_mod_converse_div(x as int, u as int, 0, x as int);
        lemma_fundamental_div_mod_converse_mod(x as int, u as int, 0, x as int);
        assert(repeat_token(i, 0) =~= seq![]);
    }
}

proof fn lemma_roman_decade(w: nat, b: nat, u: nat)
    requires
        b + 4 <= 13,
        u > 0,
        w < 10 * u,
        roman_value(b) == 9 * u,
        roman_value(b + 1) == 5 * u,
        roman_value(b + 2) == 4 * u,
        roman_value(b + 3) == u,
    ensures
        roman_tokens(w, b) == digit_tokens(w / u, b) + roman_tokens(w % u, b + 4),
{
    lemma_fundamental_div_mod(w as int, u as int);
    lemma_mod_bound(w as int, u as int);
    if w >= 9 * u {
        let r = (w - 9 * u) as nat;
        lemma_fundamental_div_mod_converse_div(w as int, u as int, 9, r as int);
        lemma_fundamental_div_mod_converse_mod(w as int, u as int, 9, r as int);
        assert(roman_tokens(r, b + 3) == roman_tokens(r, b + 4));
        assert(roman_tokens(r, b + 2) == roman_tokens(r, b + 3));
        assert(roman_tokens(r, b + 1) == roman_tokens(r, b + 2));
        assert(roman_tokens(r, b) == roman_tokens(r, b + 1));
        assert(roman_tokens(w, b) == seq![b] + roman_tokens(r, b));
    } else if w >= 5 * u {
        let r = (w - 5 * u) as nat;
        lemma_roman_ones(r, b + 3, u);
        lemma_fundamental_div_mod(r as int, u as int);
        lemma_mod_bound(r as int, u as int);
        assert((r / u + 5) * u == u * (r / u) + 5 * u) by (nonlinear_arith);
        lemma_fundamental_div_mod_converse_div(w as int, u as int, (r / u + 5) as int, (r % u) as int);
        lemma_fundamental_div_mod_converse_mod(w as int, u as int, (r / u + 5) as int, (r % u) as int);
        assert(roman_tokens(r, b + 2) == roman_tokens(r, b + 3));
        assert(roman_tokens(r, b + 1) == roman_tokens(r, b + 2));
        assert(roman_tokens(w, b + 1) == seq![b + 1] + roman_tokens(r, b + 1));
        assert(roman_tokens(w, b) == roman_tokens(w, b + 1));
    } else if w >= 4 * u {
        let r = (w - 4 * u) as nat;
        lemma_fundamental_div_mod_converse_div(w as int, u as int, 4, r as int);
        lemma_fundamental_div_mod_converse_mod(w as int, u as int, 4, r as int);
        assert(roman_tokens(r, b + 3) == roman_tokens(r, b + 4));
        assert(roman_tokens(r, b + 2) == roman_tokens(r, b + 3));
        assert(roman_tokens(w, b + 2) == seq![b + 2] + roman_tokens(r, b + 2));
        assert(roman_tokens(w, b + 1) == roman_tokens(w, b + 2));
        assert(roman_tokens(w, b) == roman_tokens(w, b + 1));
    } else {
        lemma_roman_ones(w, b + 3, u);
        assert(roman_tokens(w, b + 2) == roman_tokens(w, b + 3));
        assert(roman_tokens(w, b + 1) == roman_tokens(w, b + 2));
        assert(roman_tokens(w, b) == roman_tokens(w, b + 1));
        assert(w / u < 4) by (nonlinear_arith)
            requires
                w < 4 * u,
                w == u * (w / u) + w % u,
                w % u >= 0,
                u > 0,
        ;
    }
}

/// The Roman numeral of 1 to 3999 is written by decimal places: `M` for
/// each thousand, then the hundreds, tens and units digits, each as one to
/// three ones, four, five with up to three ones, or nine of its decade.
pub proof fn law_roman_by_places(v: nat, upper: bool)
    requires
        1 <= v <= 3999,
    ensures
        roman_tokens(v, 0) == place_tokens(v),
        roman_counter_text(v as int, upper) == roman_join(place_tokens(v), upper),
{
    lemma_roman_ones(v, 0, 1000);
    let h = v % 1000;
    lemma_mod_bound(v as int, 1000);
    lemma_roman_decade(h, 1, 100);
    let t = h % 100;
    lemma_mod_bound(h as int, 100);
    lemma_mod_mod(v as int, 100, 10);
    lemma_roman_decade(t, 5, 10);
    lemma_mod_bound(t as int, 10);
    lemma_mod_mod(v as int, 10, 10);
    lemma_mod_mod(h as int, 10, 10);
    lemma_roman_decade(t % 10, 9, 1);
    assert(t % 10 / 1 == t % 10);
    assert(roman_tokens((t % 10) % 1, 13) =~= seq![]);
    assert(h % 100 == v % 100);
    assert(t % 10 == v % 10);
    assert(roman_tokens(v, 0) =~= place_tokens(v));
}

/// One decimal digit as a Roman numeral, written with the symbols for one,
/// five and ten of its place: `""`, `I`, `II`, `III`, `IV`, `V`, `VI`, `VII`,
/// `VIII`, `IX` for the units.
pub open spec fn roman_digit_text(d: nat, one: char, five: char, ten: char) -> Seq<char> {
    if d == 0 {
        seq![]
    } else if d == 1 {
        seq![one]
    } else if d == 2 {
        seq![one, one]
    } else if d == 3 {
        seq![one, one, one]
    } else if d == 4 {
        seq![one, five]
    } else if d == 5 {
        seq![five]
    } else if d == 6 {
        seq![five, one]
    } else if d == 7 {
        seq![five, one, one]
    } else if d == 8 {
        seq![five, one, one, one]
    } else {
        seq![one, ten]
    }
}

/// The Roman numeral of 1 to 3999 looked up place by place: `""`, `M`,
/// `MM` or `MMM` for the thousands, then the hundreds, tens and units digits.
pub open spec fn roman_table_text(v: nat) -> Seq<char> {
    Seq::new(v / 1000, |i: int| 'M') + roman_digit_text((v % 1000) / 100, 'C', 'D', 'M') + roman_digit_text(
        (v % 100) / 10,
        'X',
        'L',
        'C',
    ) + roman_digit_text(v % 10, 'I', 'V', 'X')
}

/// An upper-case ASCII letter in lower case.
pub open spec fn ascii_lower(c: char) -> char {
    ((c as int) + 32) as char
}

proof fn lemma_roman_join_append(a: Seq<nat>, b: Seq<nat>, upper: bool)
    ensures
        roman_join(a + b, upper) == roman_join(a, upper) + roman_join(b, upper),
    decreases a.len(),
{
    if a.len() == 0 {
        assert(a + b =~= b);
    } else {
        assert((a + b).drop_first() =~= a.drop_first() + b);
        lemma_roman_join_append(a.drop_first(), b, upper);
    }
}

proof fn lemma_roman_join_lower(ts: Seq<nat>)
    ensures
        roman_join(ts, false) == roman_join(ts, true).map_values(|c: char| ascii_lower(c)),
    decreases ts.len(),
{
    if ts.len() > 0 {
        lemma_roman_join_lower(ts.drop_first());
        let a = roman_symbol(ts[0], true);
        let b = roman_join(ts.drop_first(), true);
        assert((a + b).map_values(|c: char| ascii_lower(c)) =~= a.map_values(|c: char| ascii_lower(c))
            + b.map_values(|c: char| ascii_lower(c)));
        assert(roman_symbol(ts[0], false) =~= a.map_values(|c: char| ascii_lower(c)));
    } else {
        assert(roman_join(ts, true).map_values(|c: char| ascii_lower(c)) =~= seq![]);
    }
}

proof fn lemma_roman_digit_text(d: nat, b: nat, one: char, five: char, ten: char)
    requires
        d < 10,
        roman_upper_symbol(b) == seq![one, ten],
        roman_upper_symbol(b + 1) == seq![five],
        roman_upper_symbol(b + 2) == seq![one, five],
        roman_upper_symbol(b + 3) == seq![one],
    ensures
        roman_join(digit_tokens(d, b), true) == roman_digit_text(d, one, five, ten),
{
    let o = b + 3;
    reveal_with_fuel(repeat_token, 4);
    assert(repeat_token(o, 0) =~= seq![]);
    assert(repeat_token(o, 1) =~= seq![o]);
    assert(repeat_token(o, 2) =~= seq![o, o]);
    assert(repeat_token(o, 3) =~= seq![o, o, o]);
    assert(roman_join(seq![], true) =~= seq![]);
    assert(seq![o].drop_first() =~= seq![]);
    assert(seq![o, o].drop_first() =~= seq![o]);
    assert(seq![o, o, o].drop_first() =~= seq![o, o]);
    assert(roman_join(seq![o], true) =~= seq![one]);
    assert(roman_join(seq![o, o], true) =~= seq![one, one]);
    assert(roman_join(seq![o, o, o], true) =~= seq![one, one, one]);
    if d == 9 {
        assert(seq![b].drop_first() =~= seq![]);
        assert(roman_join(seq![b], true) =~= seq![one, ten]);
    } else if d >= 5 {
        let k = (d - 5) as nat;
        lemma_roman_join_append(seq![b + 1], repeat_token(o, k), true);
        assert(seq![b + 1].drop_first() =~= seq![]);
        assert(roman_join(seq![b + 1], true) =~= seq![five]);
        assert(roman_digit_text(d, one, five, ten) =~= seq![five] + roman_join(repeat_token(o, k), true));
    } else if d == 4 {
        assert(seq![b + 2].drop_first() =~= seq![]);
        assert(roman_join(seq![b + 2], true) =~= seq![one, five]);
    }
}

/// The Roman numeral of 1 to 3999 is the table lookup by decimal place
/// (`""`/`M`/`MM`/`MMM`, then the hundreds, tens and units digits with
/// `C D M`, `X L C` and `I V X`); the lower-case numeral is the upper-case
/// one letter by letter in lower case; and it is at most 15 characters long.
#[verifier::rlimit(40)]
#[verifier::spinoff_prover]
pub proof fn law_roman_table(v: nat)
    requires
        1 <= v <= 3999,
    ensures
        roman_counter_text(v as int, true) == roman_table_text(v),
        roman_counter_text(v as int, false) == roman_counter_text(v as int, true).map_values(
            |c: char| ascii_lower(c),
        ),
        roman_counter_text(v as int, true).len() <= 15,
{
    law_roman_by_places(v, true);
    law_roman_by_places(v, false);
    lemma_roman_join_lower(place_tokens(v));
    let th = repeat_token(0, v / 1000);
    let h = digit_tokens((v % 1000) / 100, 1);
    let t = digit_tokens((v % 100) / 10, 5);
    let u = digit_tokens(v % 10, 9);
    lemma_roman_join_append(th + h + t, u, true);
    lemma_roman_join_append(th + h, t, true);
    lemma_roman_join_append(th, h, true);
    lemma_roman_digit_text((v % 1000) / 100, 1, 'C', 'D', 'M');
    lemma_roman_digit_text((v % 100) / 10, 5, 'X', 'L', 'C');
    lemma_roman_digit_text(v % 10, 9, 'I', 'V', 'X');
    let k = v / 1000;
    assert(k <= 3);
    reveal_with_fuel(repeat_token, 4);
    assert(seq![0nat].drop_first() =~= seq![]);
    assert(seq![0nat, 0nat].drop_first() =~= seq![0nat]);
    assert(seq![0nat, 0nat, 0nat].drop_first() =~= seq![0nat, 0nat]);
    assert(roman_join(seq![], true) =~= seq![]);
    assert(roman_join(th, true) =~= Seq::new(k, |i: int| 'M')) by {
        assert(roman_join(seq![0nat], true) =~= seq!['M']);
        assert(roman_join(seq![0nat, 0nat], true) =~= seq!['M', 'M']);
        assert(roman_join(seq![0nat, 0nat, 0nat], true) =~= seq!['M', 'M', 'M']);
        if k == 0 {
            assert(th =~= seq![]);
        } else if k == 1 {
            assert(th =~= seq![0nat]);
            assert(Seq::new(k, |i: int| 'M') =~= seq!['M']);
        } else if k == 2 {
            assert(th =~= seq![0nat, 0nat]);
            assert(Seq::new(k, |i: int| 'M') =~= seq!['M', 'M']);
        } else {
            assert(th =~= seq![0nat, 0nat, 0nat]);
            assert(Seq::new(k, |i: int| 'M') =~= seq!['M', 'M', 'M']);
        }
    }
    assert(roman_counter_text(v as int, true) =~= roman_table_text(v));
}

/// The value of an upper-case Roman digit letter, 0 for any other character.
pub open spec fn roman_letter_value(c: char) -> int {
    if c == 'I' {
        1
    } else if c == 'V' {
        5
    } else if c == 'X' {
        10
    } else if c == 'L' {
        50
    } else if c == 'C' {
        100
    } else if c == 'D' {
        500
    } else if c == 'M' {
        1000
    } else {
        0
    }
}

/// Reading a Roman numeral left to right: a letter followed by a larger one
/// counts as their difference, any other letter as its value.
pub open spec fn roman_decode(s: Seq<char>) -> int
    decreases s.len(),
{
    if s.len() == 0 {
        0
    } else if s.len() >= 2 && roman_letter_value(s[0]) < roman_letter_value(s[1]) {
        roman_letter_value(s[1]) - roman_letter_value(s[0]) + roman_decode(s.subrange(2, s.len() as int))
    } else {
        roman_letter_value(s[0]) + roman_decode(s.drop_first())
    }
}

proof fn lemma_roman_decode_append(a: Seq<char>, b: Seq<char>)
    requires
        forall|i: int, j: int|
            0 <= i < a.len() && 0 <= j < b.len() ==> roman_letter_value(#[trigger] a[i]) >= roman_letter_value(
                #[trigger] b[j],
            ),
    ensures
        roman_decode(a + b) == roman_decode(a) + roman_decode(b),
    decreases a.len(),
{
    if a.len() == 0 {
        assert(a + b =~= b);
    } else if a.len() >= 2 && roman_letter_value(a[0]) < roman_letter_value(a[1]) {
        assert((a + b).subrange(2, (a + b).len() as int) =~= a.subrange(2, a.len() as int) + b);
        lemma_roman_decode_append(a.subrange(2, a.len() as int), b);
    } else {
        if a.len() == 1 && b.len() > 0 {
            assert(roman_letter_value(a[0]) >= roman_letter_value(b[0]));
            assert((a + b)[1] == b[0]);
        }
        assert((a + b).drop_first() =~= a.drop_first() + b);
        lemma_roman_decode_append(a.drop_first(), b);
    }
}

proof fn lemma_roman_digit_decode(d: nat, one: char, five: char, ten: char)
    requires
        d < 10,
        roman_letter_value(one) > 0,
        roman_letter_value(five) == 5 * roman_letter_value(one),
        roman_letter_value(ten) == 10 * roman_letter_value(one),
    ensures
        roman_decode(roman_digit_text(d, one, five, ten)) == d * roman_letter_value(one),
        forall|i: int|
            0 <= i < roman_digit_text(d, one, five, ten).len() ==> roman_letter_value(one) <= roman_letter_value(
                #[trigger] roman_digit_text(d, one, five, ten)[i],
            ) <= roman_letter_value(ten),
{
    let u = roman_letter_value(one);
    reveal_with_fuel(roman_decode, 5);
    let s = roman_digit_text(d, one, five, ten);
    assert(seq![one].drop_first() =~= seq![]);
    assert(seq![five].drop_first() =~= seq![]);
    assert(seq![one, one].drop_first() =~= seq![one]);
    assert(seq![one, one, one].drop_first() =~= seq![one, one]);
    assert(seq![five, one].drop_first() =~= seq![one]);
    assert(seq![five, one, one].drop_first() =~= seq![one, one]);
    assert(seq![five, one, one, one].drop_first() =~= seq![one, one, one]);
    assert(seq![one, five].subrange(2, 2) =~= seq![]);
    assert(seq![one, ten].subrange(2, 2) =~= seq![]);
    assert(roman_decode(seq![]) == 0);
    assert(roman_decode(seq![one]) == u);
    assert(roman_decode(seq![one, one]) == 2 * u);
    assert(roman_decode(seq![one, one, one]) == 3 * u);
    assert(roman_decode(s) == d * u) by (nonlinear_arith)
        requires
            d < 10,
            d == 0 ==> roman_decode(s) == 0,
            d == 1 ==> roman_decode(s) == u,
            d == 2 ==> roman_decode(s) == 2 * u,
            d == 3 ==> roman_decode(s) == 3 * u,
            d == 4 ==> roman_decode(s) == 4 * u,
            d == 5 ==> roman_decode(s) == 5 * u,
            d == 6 ==> roman_decode(s) == 6 * u,
            d == 7 ==> roman_decode(s) == 7 * u,
            d == 8 ==> roman_decode(s) == 8 * u,
            d == 9 ==> roman_decode(s) == 9 * u,
    ;
}

proof fn lemma_thousands_decode(k: nat)
    requires
        k <= 3,
    ensures
        roman_decode(Seq::new(k, |i: int| 'M')) == 1000 * k,
{
    reveal_with_fuel(roman_decode, 4);
    assert(seq!['M'].drop_first() =~= seq![]);
    assert(seq!['M', 'M'].drop_first() =~= seq!['M']);
    assert(seq!['M', 'M', 'M'].drop_first() =~= seq!['M', 'M']);
    assert(roman_decode(seq![]) == 0);
    assert(roman_decode(seq!['M']) == 1000);
    assert(roman_decode(seq!['M', 'M']) == 2000);
    if k == 0 {
        assert(Seq::new(k, |i: int| 'M') =~= seq![]);
    } else if k == 1 {
        assert(Seq::new(k, |i: int| 'M') =~= seq!['M']);
    } else if k == 2 {
        assert(Seq::new(k, |i: int| 'M') =~= seq!['M', 'M']);
    } else {
        assert(Seq::new(k, |i: int| 'M') =~= seq!['M', 'M', 'M']);
    }
}

/// Read back left to right, the Roman numeral of 1 to 3999 gives the value.
pub proof fn law_roman_decodes(v: nat)
    requires
        1 <= v <= 3999,
    ensures
        roman_decode(roman_counter_text(v as int, true)) == v,
{
    law_roman_table(v);
    let k = v / 1000;
    let hd = (v % 1000) / 100;
    let td = (v % 100) / 10;
    let ud = v % 10;
    let th = Seq::new(k, |i: int| 'M');
    let h = roman_digit_text(hd, 'C', 'D', 'M');
    let t = roman_digit_text(td, 'X', 'L', 'C');
    let u = roman_digit_text(ud, 'I', 'V', 'X');
    lemma_fundamental_div_mod(v as int, 1000);
    lemma_mod_bound(v as int, 1000);
    lemma_mod_bound(v as int, 100);
    lemma_mod_bound(v as int, 10);
    lemma_thousands_decode(k);
    lemma_roman_digit_decode(hd, 'C', 'D', 'M');
    lemma_roman_digit_decode(td, 'X', 'L', 'C');
    lemma_roman_digit_decode(ud, 'I', 'V', 'X');
    assert forall|i: int, j: int| 0 <= i < (th + h + t).len() && 0 <= j < u.len() implies roman_letter_value(
        #[trigger] (th + h + t)[i],
    ) >= roman_letter_value(#[trigger] u[j]) by {
        if i < th.len() {
        } else if i < th.len() + h.len() {
            assert((th + h + t)[i] == h[i - th.len()]);
        } else {
            assert((th + h + t)[i] == t[i - th.len() - h.len()]);
        }
        assert(roman_letter_value(u[j]) <= 10);
    }
    assert forall|i: int, j: int| 0 <= i < (th + h).len() && 0 <= j < t.len() implies roman_letter_value(
        #[trigger] (th + h)[i],
    ) >= roman_letter_value(#[trigger] t[j]) by {
        if i >= th.len() {
            assert((th + h)[i] == h[i - th.len()]);
        }
        assert(roman_letter_value(t[j]) <= 100);
    }
    assert forall|i: int, j: int| 0 <= i < th.len() && 0 <= j < h.len() implies roman_letter_value(
        #[trigger] th[i],
    ) >= roman_letter_value(#[trigger] h[j]) by {
        assert(roman_letter_value(h[j]) <= 1000);
    }
    lemma_roman_decode_append(th + h + t, u);
    lemma_roman_decode_append(th + h, t);
    lemma_roman_decode_append(th, h);
    let r = v % 1000;
    lemma_fundamental_div_mod(r as int, 100);
    lemma_mod_bound(r as int, 100);
    lemma_mod_mod(v as int, 1000, 100);
    assert(r % 100 == v % 100) by {
        assert(1000 == 100 * 10);
        lemma_mod_mod(v as int, 100, 10);
    }
    let w = v % 100;
    lemma_fundamental_div_mod(w as int, 10);
    lemma_mod_mod(v as int, 100, 10);
    assert(w % 10 == v % 10);
    assert(roman_table_text(v) == th + h + t + u);
}

/// `x` comes before `y` in dictionary order (both of the same length).
pub open spec fn lex_lt(x: Seq<nat>, y: Seq<nat>) -> bool
    decreases x.len(),
{
    x.len() > 0 && y.len() > 0 && (x[0] < y[0] || (x[0] == y[0] && lex_lt(x.drop_first(), y.drop_first())))
}

/// `x` comes before `y` in shortlex order: shorter first, then dictionary order.
pub open spec fn shortlex_lt(x: Seq<nat>, y: Seq<nat>) -> bool {
    x.len() < y.len() || (x.len() == y.len() && lex_lt(x, y))
}

/// The same comparison on texts, characters ordered by code point.
pub open spec fn text_lex_lt(x: Seq<char>, y: Seq<char>) -> bool
    decreases x.len(),
{
    x.len() > 0 && y.len() > 0 && ((x[0] as int) < (y[0] as int) || (x[0] == y[0] && text_lex_lt(
        x.drop_first(),
        y.drop_first(),
    )))
}

/// Shortlex order on texts: shorter first, then dictionary order.
pub open spec fn text_shortlex_lt(x: Seq<char>, y: Seq<char>) -> bool {
    x.len() < y.len() || (x.len() == y.len() && text_lex_lt(x, y))
}

proof fn lemma_lex_push(x: Seq<nat>, y: Seq<nat>, a: nat, c: nat)
    requires
        x.len() == y.len(),
        lex_lt(x, y) || (x == y && a < c),
    ensures
        lex_lt(x.push(a), y.push(c)),
    decreases x.len(),
{
    if x.len() > 0 {
        assert(x.push(a).drop_first() =~= x.drop_first().push(a));
        assert(y.push(c).drop_first() =~= y.drop_first().push(c));
        if x[0] == y[0] && !(x[0] < y[0]) {
            if lex_lt(x, y) {
                lemma_lex_push(x.drop_first(), y.drop_first(), a, c);
            } else {
                assert(x.drop_first() == y.drop_first());
                lemma_lex_push(x.drop_first(), y.drop_first(), a, c);
            }
        }
    }
}

proof fn lemma_lex_trans(x: Seq<nat>, y: Seq<nat>, z: Seq<nat>)
    requires
        lex_lt(x, y),
        lex_lt(y, z),
    ensures
        lex_lt(x, z),
    decreases x.len(),
{
    if x[0] == y[0] && y[0] == z[0] {
        lemma_lex_trans(x.drop_first(), y.drop_first(), z.drop_first());
    }
}

proof fn lemma_bijective_successor(n: nat, base: nat)
    requires
        n >= 1,
        base >= 1,
    ensures
        shortlex_lt(bijective_digits(n, base), bijective_digits(n + 1, base)),
    decreases n,
{
    let b = base as int;
    let q = (n - 1) / b;
    let r = (n - 1) % b;
    lemma_fundamental_div_mod(n - 1, b);
    lemma_mod_bound(n - 1, b);
    lemma_div_nonincreasing(n - 1, b);
    if r < b - 1 {
        lemma_fundamental_div_mod_converse_div(n as int, b, q, r + 1);
        lemma_fundamental_div_mod_converse_mod(n as int, b, q, r + 1);
        lemma_lex_push(bijective_digits(q as nat, base), bijective_digits(q as nat, base), r as nat, (r + 1) as nat);
    } else {
        assert((q + 1) * b == b * q + b) by (nonlinear_arith);
        lemma_fundamental_div_mod_converse_div(n as int, b, q + 1, 0);
        lemma_fundamental_div_mod_converse_mod(n as int, b, q + 1, 0);
        lemma_bijective_round_trip(q as nat, base);
        lemma_bijective_round_trip((q + 1) as nat, base);
        if q >= 1 {
            lemma_bijective_successor(q as nat, base);
            let x = bijective_digits(q as nat, base);
            let y = bijective_digits((q + 1) as nat, base);
            if x.len() == y.len() {
                lemma_lex_push(x, y, r as nat, 0);
            }
        }
    }
}

proof fn lemma_bijective_shortlex(a: nat, c: nat, base: nat)
    requires
        1 <= a < c,
        base >= 1,
    ensures
        shortlex_lt(bijective_digits(a, base), bijective_digits(c, base)),
    decreases c - a,
{
    lemma_bijective_successor(a, base);
    if a + 1 < c {
        lemma_bijective_shortlex(a + 1, c, base);
        let x = bijective_digits(a, base);
        let y = bijective_digits(a + 1, base);
        let z = bijective_digits(c, base);
        if x.len() == y.len() && y.len() == z.len() {
            lemma_lex_trans(x, y, z);
        }
    }
}

proof fn lemma_alpha_lex(x: Seq<nat>, y: Seq<nat>, upper: bool)
    requires
        x.len() == y.len(),
        lex_lt(x, y),
        forall|i: int| 0 <= i < x.len() ==> #[trigger] x[i] < 26,
        forall|i: int| 0 <= i < y.len() ==> #[trigger] y[i] < 26,
    ensures
        text_lex_lt(
            x.map_values(|d: nat| (if upper { 65 + d } else { 97 + d }) as char),
            y.map_values(|d: nat| (if upper { 65 + d } else { 97 + d }) as char),
        ),
    decreases x.len(),
{
    let f = |d: nat| (if upper { 65 + d } else { 97 + d }) as char;
    assert(x.map_values(f).drop_first() =~= x.drop_first().map_values(f));
    assert(y.map_values(f).drop_first() =~= y.drop_first().map_values(f));
    assert(x[0] < 26 && y[0] < 26);
    if !(x[0] < y[0]) {
        lemma_alpha_lex(x.drop_first(), y.drop_first(), upper);
    }
}

/// Alphabetic counter texts grow in shortlex order with the value: a, b,
/// ..., z, aa, ab, ...: a larger positive value gives a longer text, or one
/// of the same length that comes later in dictionary order.
pub proof fn law_alpha_shortlex(a: nat, c: nat, upper: bool)
    requires
        1 <= a < c,
    ensures
        text_shortlex_lt(alpha_text(a, upper), alpha_text(c, upper)),
{
    lemma_bijective_shortlex(a, c, 26);
    lemma_bijective_round_trip(a, 26);
    lemma_bijective_round_trip(c, 26);
    let x = bijective_digits(a, 26);
    let y = bijective_digits(c, 26);
    if x.len() == y.len() {
        lemma_alpha_lex(x, y, upper);
    }
}

} // verus!
