use yarn_berry_fetcher::decimal;

#[test]
fn numbers_are_read() {
    assert_eq!(decimal::parse("0", 10), Some(0));
    assert_eq!(decimal::parse("+007", 10), Some(7));
    assert_eq!(decimal::parse("10", 10), Some(10));
    assert_eq!(decimal::parse("11", 10), None);
    assert_eq!(decimal::parse("", 10), None);
    assert_eq!(decimal::parse("+", 10), None);
    assert_eq!(decimal::parse("-1", 10), None);
    assert_eq!(
        decimal::parse("18446744073709551615", u64::MAX),
        Some(u64::MAX)
    );
    assert_eq!(decimal::parse("18446744073709551616", u64::MAX), None);
}

#[test]
fn numbers_read_back() {
    for n in [0, 7, 10, 1234567890, u64::MAX] {
        let text = decimal::write(n);
        assert_eq!(text, n.to_string());
        assert_eq!(decimal::parse(&text, u64::MAX), Some(n));
    }
}
