use practice_apps::text::{
    format_decimal, format_zero_padded, is_blank, is_whitespace_char, parse_u32, parse_u64, trim,
};

#[test]
fn whitespace_matches_std_for_every_char() {
    for u in 0u32..0x11_0000 {
        if let Some(c) = char::from_u32(u) {
            assert_eq!(is_whitespace_char(c), c.is_whitespace(), "char {:#x}", u);
        }
    }
}

#[test]
fn trim_matches_std() {
    let samples = [
        "",
        " ",
        "abc",
        "  abc  ",
        "\t\n 12 \r\n",
        "\u{3000}x\u{a0}",
        "\u{2028} a b \u{85}",
        "  \u{200b}x",
        "x\u{1680}",
    ];
    for s in samples.iter() {
        assert_eq!(trim(s), s.trim(), "sample {:?}", s);
    }
}

#[test]
fn blank_means_only_whitespace() {
    assert!(is_blank(""));
    assert!(is_blank(" \t\n"));
    assert!(is_blank("\u{3000}"));
    assert!(!is_blank(" a "));
    assert!(!is_blank("\u{200b}"));
}

#[test]
fn parse_matches_std() {
    let samples = [
        "", "0", "00", "+0", "+", "-", "-0", "-1", "1", "42", "+42", " 42", "42 ", "4a",
        "18446744073709551615", "18446744073709551616", "4294967295", "4294967296",
        "000000000000000000000000000000000007", "99999999999999999999999", "١",
    ];
    for s in samples.iter() {
        assert_eq!(parse_u64(s), s.parse::<u64>().ok(), "u64 sample {:?}", s);
        assert_eq!(parse_u32(s), s.parse::<u32>().ok(), "u32 sample {:?}", s);
    }
}

#[test]
fn parse_overflow_is_none() {
    assert_eq!(parse_u64("18446744073709551616"), None);
    assert_eq!(parse_u32("4294967296"), None);
    assert_eq!(parse_u32("4294967295"), Some(4294967295));
}

#[test]
fn decimal_formatting_matches_std() {
    let samples = [0u64, 1, 9, 10, 59, 60, 99, 100, 3599, 123456789, u64::MAX];
    for &n in samples.iter() {
        assert_eq!(format_decimal(n), n.to_string());
        for w in 0usize..6 {
            assert_eq!(format_zero_padded(n, w), format!("{:0w$}", n, w = w));
        }
    }
}

#[test]
fn zero_padding_examples() {
    assert_eq!(format_zero_padded(5, 2), "05");
    assert_eq!(format_zero_padded(123, 2), "123");
    assert_eq!(format_zero_padded(7, 3), "007");
    assert_eq!(format_zero_padded(0, 0), "0");
}
