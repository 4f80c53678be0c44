use trendy_cli::number::{decimal_string, parse_usize};
use trendy_cli::text::{chars_of, pad_right, trim};

#[test]
fn trim_removes_ascii_whitespace() {
    assert_eq!(trim("  hello world \t\n"), "hello world");
}

#[test]
fn trim_removes_unicode_whitespace() {
    assert_eq!(trim("\u{3000}\u{a0}x y\u{2028}\u{85}"), "x y");
}

#[test]
fn trim_of_blank_is_empty() {
    assert_eq!(trim(" \r\n\t "), "");
    assert_eq!(trim(""), "");
}

#[test]
fn trim_keeps_inner_and_other_characters() {
    assert_eq!(trim("\u{200b}a b\u{200b}"), "\u{200b}a b\u{200b}");
}

#[test]
fn trim_twice_is_trim_once() {
    let s = "  \u{2003}data: x \n";
    assert_eq!(trim(&trim(s)), trim(s));
}

#[test]
fn chars_of_splits_scalars() {
    assert_eq!(chars_of("aé►"), vec!['a', 'é', '►']);
}

#[test]
fn pad_right_fills_with_dots() {
    assert_eq!(pad_right("N/A", '.', 8), "N/A.....");
}

#[test]
fn pad_right_counts_characters_not_bytes() {
    assert_eq!(pad_right("héllo", '.', 7), "héllo..");
}

#[test]
fn pad_right_keeps_long_text() {
    assert_eq!(pad_right("abcdefghij", '-', 4), "abcdefghij");
    assert_eq!(pad_right("", '-', 3), "---");
}

#[test]
fn decimal_string_renders_numbers() {
    assert_eq!(decimal_string(0), "0");
    assert_eq!(decimal_string(7), "7");
    assert_eq!(decimal_string(1234567890), "1234567890");
    assert_eq!(decimal_string(u64::MAX), "18446744073709551615");
}

#[test]
fn parse_usize_accepts_plain_and_plus_signed_numbers() {
    assert_eq!(parse_usize("42"), Some(42));
    assert_eq!(parse_usize("+42"), Some(42));
    assert_eq!(parse_usize("0007"), Some(7));
    assert_eq!(parse_usize("0"), Some(0));
}

#[test]
fn parse_usize_rejects_what_str_parse_rejects() {
    for raw in ["", "+", "-", "-1", "4 2", "12a", "a", " 1", "1.0", "٣"] {
        assert_eq!(parse_usize(raw), raw.parse::<usize>().ok(), "input {:?}", raw);
    }
}

#[test]
fn parse_usize_rejects_overflow() {
    let max = usize::MAX.to_string();
    assert_eq!(parse_usize(&max), Some(usize::MAX));
    let over = format!("{}0", max);
    assert_eq!(parse_usize(&over), None);
    assert_eq!(parse_usize("99999999999999999999999999"), None);
}

#[test]
fn parse_usize_reads_back_rendered_numbers() {
    for n in [1u64, 9, 10, 99, 100, 65535, 4294967295] {
        assert_eq!(parse_usize(&decimal_string(n)), Some(n as usize));
    }
}
