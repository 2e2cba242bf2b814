//! Text: white space, numbers, and columns.

use scaling::layout::{append_left, append_right, byte_length, widest_of};
use scaling::text::{
    append_number, is_white_space, parse_u64, parse_usize, sorts_before, split,
    split_white_space, trim, trim_end,
};

#[test]
fn white_space_is_what_unicode_says() {
    for c in '\u{0}'..='\u{10FFFF}' {
        assert_eq!(is_white_space(c), c.is_whitespace(), "{:?}", c);
    }
}

#[test]
fn texts_sort_as_strings_do() {
    let all = ["", "a", "ab", "b", "Z", "0.10.0", "0.9.0", "µ", "\u{10000}", "\u{ffff}"];
    for a in all {
        for b in all {
            assert_eq!(sorts_before(a, b), a < b, "{a:?} {b:?}");
        }
    }
}

#[test]
fn texts_are_trimmed_and_split_as_strings_are() {
    for s in ["", " ", "a", " a b ", "\u{2003}x\u{a0}\n", "a,b,,c", ",", "one  two\tthree\n"] {
        assert_eq!(trim(s), s.trim());
        assert_eq!(trim_end(s), s.trim_end());
        assert_eq!(split(s, ','), s.split(',').collect::<Vec<_>>());
        assert_eq!(split_white_space(s), s.split_whitespace().collect::<Vec<_>>());
    }
}

#[test]
fn numbers_read_as_they_parse() {
    for s in [
        "", "0", "7", "+7", "-7", "007", "18446744073709551615", "18446744073709551616", "1 ",
        "1a", "+", "٣", "99999999999999999999999",
    ] {
        assert_eq!(parse_u64(s), s.parse::<u64>().ok(), "{s:?}");
        assert_eq!(parse_usize(s), s.parse::<usize>().ok(), "{s:?}");
    }
    for n in [0, 9, 10, 123, u64::MAX] {
        let mut out = String::from("n=");
        append_number(&mut out, n);
        assert_eq!(out, format!("n={n}"));
    }
}

#[test]
fn columns_line_up_as_formatting_does() {
    for s in ["", "ab", "µs", "longer than that"] {
        let mut l = String::new();
        append_left(&mut l, s, 6);
        assert_eq!(l, format!("{s:<6}"));
        let mut r = String::new();
        append_right(&mut r, s, 6);
        assert_eq!(r, format!("{s:>6}"));
        assert_eq!(byte_length(s), s.len());
    }
    assert_eq!(widest_of(&vec!["a", "µs", "ab"]), 3);
    assert_eq!(widest_of(&vec![]), 0);
}
