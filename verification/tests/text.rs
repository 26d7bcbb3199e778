use hostagent::decimal::{parse_digits, push_decimal};
use hostagent::text::{trim_bounds, whitespace};

fn chars(text: &str) -> Vec<char> {
    text.chars().collect()
}

#[test]
fn white_space_is_that_of_unicode() {
    for code in 0..=0x10ffffu32 {
        if let Some(c) = char::from_u32(code) {
            assert_eq!(whitespace(c), c.is_whitespace(), "U+{:04X}", code);
        }
    }
}

#[test]
fn trimming_takes_white_space_from_both_ends_only() {
    let texts = [
        "", " ", "a", " a", "a ", "  a b  ", "\t\n\r x \u{3000}", "\u{2003}\u{2003}",
        "x\u{a0}y", "\u{feff}a\u{feff}", "\n\n1234\n\n", "a\u{85}",
    ];
    for text in texts {
        let all = chars(text);
        let (start, end) = trim_bounds(&all);
        let kept: String = all[start..end].iter().collect();
        assert_eq!(kept, text.trim(), "{:?}", text);
    }
}

#[test]
fn decimal_text_of_numbers() {
    for (n, text) in [
        (0u64, "0"),
        (5, "5"),
        (9, "9"),
        (10, "10"),
        (909, "909"),
        (1000, "1000"),
        (u64::MAX, "18446744073709551615"),
    ] {
        let mut out = String::from("n=");
        push_decimal(&mut out, n);
        assert_eq!(out, format!("n={}", text));
    }
}

#[test]
fn digits_read_as_numbers_up_to_the_limit() {
    let text = chars("x0042,18446744073709551615,18446744073709551616,7a");
    assert_eq!(parse_digits(&text, 1, 5, u64::MAX), Some(42));
    assert_eq!(parse_digits(&text, 1, 5, 42), Some(42));
    assert_eq!(parse_digits(&text, 1, 5, 41), None);
    assert_eq!(parse_digits(&text, 1, 4, 41), Some(4));
    assert_eq!(parse_digits(&text, 6, 26, u64::MAX), Some(u64::MAX));
    assert_eq!(parse_digits(&text, 6, 26, u64::MAX - 1), None);
    assert_eq!(parse_digits(&text, 27, 47, u64::MAX), None);
    assert_eq!(parse_digits(&text, 48, 49, 9), Some(7));
    assert_eq!(parse_digits(&text, 48, 50, 99), None);
    assert_eq!(parse_digits(&text, 0, 1, 99), None);
    assert_eq!(parse_digits(&text, 3, 3, 99), None);
    assert_eq!(parse_digits(&text, 0, 0, 99), None);
    assert_eq!(parse_digits(&text, 1, 3, 0), Some(0));
}

#[test]
fn digits_round_trip() {
    for n in [0u64, 1, 12, 123, 99_999, 4_294_967_295, 4_294_967_296, u64::MAX - 1, u64::MAX] {
        let mut out = String::new();
        push_decimal(&mut out, n);
        let text = chars(&out);
        assert_eq!(parse_digits(&text, 0, text.len(), u64::MAX), Some(n));
    }
}
