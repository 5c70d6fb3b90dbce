use blockdev::num::{decimal_string, parse_u64, IntErrorKind};
use blockdev::size::{parse_size_mib, size_mib_fits, SizeError};
use blockdev::text::{lines_of, trimmed};

fn std_kind(s: &str) -> Result<u64, IntErrorKind> {
    s.parse::<u64>().map_err(|e| match e.kind() {
        std::num::IntErrorKind::Empty => IntErrorKind::Empty,
        std::num::IntErrorKind::InvalidDigit => IntErrorKind::InvalidDigit,
        std::num::IntErrorKind::PosOverflow => IntErrorKind::PosOverflow,
        other => panic!("unexpected kind {other:?}"),
    })
}

#[test]
fn parse_u64_agrees_with_std() {
    let cases = [
        "", "0", "7", "+7", "-7", "+", "-", "007", "12a", " 12", "12 ",
        "18446744073709551615", "18446744073709551616", "99999999999999999999x",
        "1844674407370955161x", "+18446744073709551615", "1_000", "٣",
    ];
    for c in cases {
        assert_eq!(parse_u64(c), std_kind(c), "input {c:?}");
    }
}

#[test]
fn parse_u64_edges() {
    assert_eq!(parse_u64("18446744073709551615"), Ok(u64::MAX));
    assert_eq!(parse_u64("18446744073709551616"), Err(IntErrorKind::PosOverflow));
    assert_eq!(parse_u64(""), Err(IntErrorKind::Empty));
    assert_eq!(parse_u64("+"), Err(IntErrorKind::InvalidDigit));
    assert_eq!(parse_u64("99999999999999999999x"), Err(IntErrorKind::PosOverflow));
}

#[test]
fn decimal_roundtrip() {
    for n in [0u64, 1, 9, 10, 99, 100, 1234, 4294967295, u64::MAX] {
        let s = decimal_string(n);
        assert_eq!(s, n.to_string());
        assert_eq!(parse_u64(&s), Ok(n));
    }
}

#[test]
fn trim_agrees_with_std() {
    let cases = [
        "", "   ", "  2048\n", "\t x y \r\n", "\u{3000}a\u{85}", "\u{a0}b\u{2009}", "abc",
        "\u{200b}z", "\u{1680}\u{2028}q\u{2029}\u{202f}\u{205f}",
    ];
    for c in cases {
        assert_eq!(trimmed(c), c.trim(), "input {c:?}");
    }
}

#[test]
fn lines_agree_with_std() {
    let cases = [
        "", "\n", "a", "a\n", "a\nb", "a\r\nb\r\n", "a\r", "\r\n", "a\n\nb\n", "x\ry\n", "\n\n",
    ];
    for c in cases {
        let expected: Vec<String> = c.lines().map(|l| l.to_string()).collect();
        assert_eq!(lines_of(c), expected, "input {c:?}");
    }
}

#[test]
fn size_units() {
    assert_eq!(parse_size_mib("10"), Ok(10));
    assert_eq!(parse_size_mib("10M"), Ok(10));
    assert_eq!(parse_size_mib("10MiB"), Ok(10));
    assert_eq!(parse_size_mib("2G"), Ok(2048));
    assert_eq!(parse_size_mib("2GiB"), Ok(2048));
    assert_eq!(parse_size_mib("3T"), Ok(3 * 1024 * 1024));
    assert_eq!(parse_size_mib("1TiB"), Ok(1024 * 1024));
    assert_eq!(parse_size_mib("+5G"), Ok(5120));
}

#[test]
fn size_quirks_follow_suffix_order() {
    // Each suffix is cut in turn and the multiplier of the last one cut wins.
    assert_eq!(parse_size_mib("1GM"), Ok(1024));
    assert_eq!(parse_size_mib("4TG"), Ok(4 * 1024 * 1024));
}

#[test]
fn size_errors() {
    assert_eq!(
        parse_size_mib("10Mx"),
        Err(SizeError::TrailingText("x".to_string()))
    );
    assert_eq!(
        parse_size_mib("5MT"),
        Err(SizeError::TrailingText("T".to_string()))
    );
    assert_eq!(
        parse_size_mib("1GiB "),
        Err(SizeError::TrailingText(" ".to_string()))
    );
    assert_eq!(
        parse_size_mib("abc"),
        Err(SizeError::InvalidNumber(IntErrorKind::InvalidDigit))
    );
    assert_eq!(
        parse_size_mib("G"),
        Err(SizeError::InvalidNumber(IntErrorKind::Empty))
    );
    assert_eq!(
        parse_size_mib(""),
        Err(SizeError::InvalidNumber(IntErrorKind::Empty))
    );
    assert_eq!(
        parse_size_mib("-1M"),
        Err(SizeError::InvalidNumber(IntErrorKind::InvalidDigit))
    );
    assert_eq!(
        parse_size_mib("99999999999999999999G"),
        Err(SizeError::InvalidNumber(IntErrorKind::PosOverflow))
    );
}

#[test]
fn size_overflow_is_detected() {
    assert!(size_mib_fits("17592186044415T"));
    assert!(!size_mib_fits("17592186044416T"));
    assert!(size_mib_fits("18446744073709551615"));
    assert!(!size_mib_fits("18446744073709551615G"));
    assert!(size_mib_fits("junk"));
    assert!(size_mib_fits("1Gx"));
    assert_eq!(parse_size_mib("17592186044415T"), Ok(17592186044415 * 1024 * 1024));
}

#[test]
fn error_texts() {
    for c in ["", "x", "99999999999999999999"] {
        let std_err = c.parse::<u64>().unwrap_err().to_string();
        let kind = parse_u64(c).unwrap_err();
        assert_eq!(kind.description(), std_err);
    }
    assert_eq!(
        SizeError::TrailingText("xy".to_string()).message(),
        "Trailing text after size: xy"
    );
    assert_eq!(
        SizeError::InvalidNumber(IntErrorKind::Empty).message(),
        "cannot parse integer from empty string"
    );
}

#[test]
fn suffixes_on_any_digit_run() {
    for d in ["007", "0", "12", "00000000000000000000000001"] {
        let base = parse_size_mib(d).unwrap();
        assert_eq!(parse_size_mib(&format!("{d}M")), Ok(base));
        assert_eq!(parse_size_mib(&format!("{d}MiB")), Ok(base));
        assert_eq!(parse_size_mib(&format!("{d}G")), Ok(base * 1024));
        assert_eq!(parse_size_mib(&format!("{d}GiB")), Ok(base * 1024));
        assert_eq!(parse_size_mib(&format!("{d}T")), Ok(base * 1024 * 1024));
        assert_eq!(parse_size_mib(&format!("{d}TiB")), Ok(base * 1024 * 1024));
    }
    assert_eq!(parse_size_mib("M"), parse_size_mib(""));
}
