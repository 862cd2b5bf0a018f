use aurora_layout::numerals::{
    decimal_string, digits_of, int_to_alpha, int_to_digits, int_to_greek, int_to_roman,
    magnitude, unsigned_to_text, bijective_digits_of,
};

#[test]
fn decimal_matches_to_string() {
    for v in [0, 7, -7, 10, 1234567, -98765, i32::MAX, i32::MIN] {
        assert_eq!(decimal_string(v), v.to_string());
    }
}

#[test]
fn unsigned_radix_text() {
    assert_eq!(unsigned_to_text(255, 16, false), "ff");
    assert_eq!(unsigned_to_text(255, 16, true), "FF");
    assert_eq!(unsigned_to_text(8, 8, false), "10");
    assert_eq!(unsigned_to_text(5, 2, false), "101");
    assert_eq!(unsigned_to_text(0, 2, false), "0");
    assert_eq!(unsigned_to_text(u32::MAX, 36, false), "1z141z3");
}

#[test]
fn digit_sequences() {
    assert_eq!(digits_of(1204, 10), vec![1, 2, 0, 4]);
    assert_eq!(digits_of(0, 10), Vec::<usize>::new());
    assert_eq!(bijective_digits_of(26, 26), vec![25]);
    assert_eq!(bijective_digits_of(27, 26), vec![0, 0]);
    assert_eq!(bijective_digits_of(3, 1), vec![0, 0, 0]);
    assert_eq!(magnitude(i32::MIN), 2147483648u32);
}

#[test]
fn alpha_counters() {
    assert_eq!(int_to_alpha(1, false), "a");
    assert_eq!(int_to_alpha(26, false), "z");
    assert_eq!(int_to_alpha(27, false), "aa");
    assert_eq!(int_to_alpha(28, true), "AB");
    assert_eq!(int_to_alpha(702, false), "zz");
    assert_eq!(int_to_alpha(703, false), "aaa");
    assert_eq!(int_to_alpha(0, false), "0");
    assert_eq!(int_to_alpha(-3, true), "-3");
}

#[test]
fn greek_counters() {
    assert_eq!(int_to_greek(1), "\u{3b1}");
    assert_eq!(int_to_greek(17), "\u{3c1}");
    assert_eq!(int_to_greek(18), "\u{3c3}");
    assert_eq!(int_to_greek(24), "\u{3c9}");
    assert_eq!(int_to_greek(25), "25");
    assert_eq!(int_to_greek(0), "0");
}

#[test]
fn roman_counters() {
    assert_eq!(int_to_roman(1994, true), "MCMXCIV");
    assert_eq!(int_to_roman(3999, true), "MMMCMXCIX");
    assert_eq!(int_to_roman(4, false), "iv");
    assert_eq!(int_to_roman(49, false), "xlix");
    assert_eq!(int_to_roman(4000, true), "4000");
    assert_eq!(int_to_roman(0, true), "0");
    assert_eq!(int_to_roman(-1, false), "-1");
}

#[test]
fn roman_symbols_add_up() {
    let value = |c: char| match c {
        'M' => 1000, 'D' => 500, 'C' => 100, 'L' => 50, 'X' => 10, 'V' => 5, 'I' => 1, _ => 0,
    };
    for v in [1, 4, 9, 14, 40, 90, 400, 944, 1994, 2024, 3999] {
        let s: Vec<i32> = int_to_roman(v, true).chars().map(value).collect();
        let mut total = 0;
        for i in 0..s.len() {
            if i + 1 < s.len() && s[i] < s[i + 1] { total -= s[i] } else { total += s[i] }
        }
        assert_eq!(total, v);
    }
}

#[test]
fn custom_digit_tables() {
    let arabic = "\u{660}\u{661}\u{662}\u{663}\u{664}\u{665}\u{666}\u{667}\u{668}\u{669}";
    assert_eq!(int_to_digits(0, arabic), "\u{660}");
    assert_eq!(int_to_digits(120, arabic), "\u{661}\u{662}\u{660}");
    assert_eq!(int_to_digits(-7, arabic), "-\u{667}");
    assert_eq!(int_to_digits(42, "0123"), "42");
    assert_eq!(int_to_digits(i32::MIN, "abcdefghij"), "-cbeheidgei");
}

#[test]
fn roman_by_decimal_places() {
    let units = ["", "I", "II", "III", "IV", "V", "VI", "VII", "VIII", "IX"];
    let tens = ["", "X", "XX", "XXX", "XL", "L", "LX", "LXX", "LXXX", "XC"];
    let hundreds = ["", "C", "CC", "CCC", "CD", "D", "DC", "DCC", "DCCC", "CM"];
    let thousands = ["", "M", "MM", "MMM"];
    for v in 1..4000 {
        let u = v as usize;
        let expected = format!("{}{}{}{}", thousands[u / 1000], hundreds[u % 1000 / 100], tens[u % 100 / 10], units[u % 10]);
        assert_eq!(int_to_roman(v, true), expected);
        assert_eq!(int_to_roman(v, false), expected.to_lowercase());
        assert!(expected.len() <= 15);
    }
    assert_eq!(int_to_roman(3888, true).len(), 15);
}

#[test]
fn alpha_counters_grow_in_shortlex_order() {
    let mut last = int_to_alpha(1, false);
    for v in 2..2000 {
        let next = int_to_alpha(v, false);
        assert!((next.len(), &next) > (last.len(), &last));
        last = next;
    }
}
