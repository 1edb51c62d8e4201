use upskill::number::{check_decimal_literal, parse_usize_range};
use upskill::text::{chars_of, find_in, is_ascii_digit, is_whitespace, trim_bounds};

#[test]
fn whitespace_matches_std_everywhere() {
    for code in 0u32..=0x10FFFF {
        if let Some(c) = char::from_u32(code) {
            assert_eq!(is_whitespace(c), c.is_whitespace(), "U+{:04X}", code);
            assert_eq!(is_ascii_digit(c), c.is_ascii_digit(), "U+{:04X}", code);
        }
    }
}

#[test]
fn usize_text_matches_std() {
    let cases = [
        "0", "12", "+7", "+", "", "-1", "007", "1 2", "18446744073709551615",
        "18446744073709551616", "99999999999999999999999", "+0", "a",
    ];
    for t in cases {
        let v = chars_of(t);
        assert_eq!(parse_usize_range(&v, 0, v.len()), t.parse::<usize>().ok(), "{t:?}");
    }
}

#[test]
fn decimal_literals_are_what_f64_accepts() {
    let cases = ["1", "1.", ".5", "+.5", "-2", ".", "-.", "1.2.3", "+", "0.25", "..1", "10"];
    for t in cases {
        let v = chars_of(t);
        assert_eq!(check_decimal_literal(&v, 0, v.len()), t.parse::<f64>().is_ok(), "{t:?}");
    }
}

#[test]
fn search_and_trim() {
    let s = chars_of("  Points: x ");
    let p = chars_of("points:");
    assert_eq!(find_in(&s, &p, 0, s.len(), true), Some(2));
    assert_eq!(find_in(&s, &p, 0, s.len(), false), None);
    assert_eq!(find_in(&s, &p, 3, s.len(), true), None);
    assert_eq!(trim_bounds(&s, 0, s.len()), (2, 11));
    let blank = chars_of(" \t\n");
    assert_eq!(trim_bounds(&blank, 0, 3), (3, 3));
}
