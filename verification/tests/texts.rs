use market_lab::text::{
    before, capital, contains, count_text, ends_with, hex, is_alphanumeric, is_space, letters,
    lower, parse_int, same, small, starts_with, trim, upper,
};

#[test]
fn single_characters_are_judged_as_std_judges_them() {
    for n in 0..0x11_0000_u32 {
        if let Some(c) = char::from_u32(n) {
            assert_eq!(is_space(c), c.is_whitespace());
            assert_eq!(is_alphanumeric(c), c.is_ascii_alphanumeric());
            assert_eq!(small(c), c.to_ascii_lowercase());
            assert_eq!(capital(c), c.to_ascii_uppercase());
        }
    }
}

#[test]
fn texts_are_changed_and_compared_as_std_does_it() {
    let texts = ["", "a", "  BTCUSDT\t", "bTc", "فارسی ", "a\"b", "\u{3000}x\u{85}", "btcusdt@depth", "é", "z"];
    for a in texts {
        assert_eq!(trim(a), a.trim());
        assert_eq!(lower(a), a.to_ascii_lowercase());
        assert_eq!(upper(a), a.to_ascii_uppercase());
        assert_eq!(letters(a), a.chars().collect::<Vec<char>>());
        for b in texts {
            assert_eq!(same(a, b), a == b);
            assert_eq!(before(a, b), a < b);
            assert_eq!(starts_with(a, b), a.starts_with(b));
            assert_eq!(ends_with(a, b), a.ends_with(b));
            assert_eq!(contains(a, b), a.contains(b));
        }
    }
}

#[test]
fn whole_numbers_are_read_as_std_reads_them() {
    for text in [
        "0",
        "-0",
        "+7",
        "007",
        "-12",
        "9223372036854775807",
        "9223372036854775808",
        "-9223372036854775808",
        "-9223372036854775809",
        "",
        "-",
        "+",
        "1.2",
        " 1",
        "1a",
        "--1",
        "99999999999999999999999999",
    ] {
        assert_eq!(parse_int(text), text.parse::<i64>().ok(), "{text:?}");
    }
}

#[test]
fn numbers_are_written_in_digits() {
    for n in [0, 9, 10, 99, 100, 25_000, u64::MAX] {
        assert_eq!(count_text(n), n.to_string());
    }
    for n in [0, 1, 0xcbf2_9ce4_8422_2325, u64::MAX] {
        assert_eq!(hex(n), format!("{n:016x}"));
    }
}
