use primefactor::ranges::parse_range;

#[test]
fn single_numbers() {
    assert_eq!(parse_range(b"42"), Some((42, 42)));
    assert_eq!(parse_range(b"0"), Some((0, 0)));
    assert_eq!(parse_range(b"+7"), Some((7, 7)));
    assert_eq!(
        parse_range(b"340282366920938463463374607431768211455"),
        Some((u128::MAX, u128::MAX))
    );
}

#[test]
fn ranges_with_either_separator() {
    assert_eq!(parse_range(b"10-20"), Some((10, 20)));
    assert_eq!(parse_range(b"10..20"), Some((10, 20)));
    assert_eq!(parse_range(b"20-10"), Some((20, 10)));
    assert_eq!(parse_range(b"+1..+3"), Some((1, 3)));
}

#[test]
fn malformed_arguments() {
    assert_eq!(parse_range(b""), None);
    assert_eq!(parse_range(b"+"), None);
    assert_eq!(parse_range(b"abc"), None);
    assert_eq!(parse_range(b"12x"), None);
    assert_eq!(parse_range(b"-5"), None);
    assert_eq!(parse_range(b"5-"), None);
    assert_eq!(parse_range(b"1..2..3"), None);
    assert_eq!(parse_range(b"1-2-3"), None);
    assert_eq!(parse_range(b"1...3"), None);
    assert_eq!(parse_range(b"340282366920938463463374607431768211456"), None);
    assert_eq!(parse_range(b"1..2-3"), None);
}

#[test]
fn agrees_with_std_parsing() {
    for text in ["0", "17", "+17", "007", "99999999999999999999", "1 2", " 1"] {
        assert_eq!(
            parse_range(text.as_bytes()).map(|r| r.0),
            text.parse::<u128>().ok()
        );
    }
}
