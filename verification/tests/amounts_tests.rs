//! Tests for amount parsing and four-decimal-place rendering.
use malipo::amounts::parse_amount;
use malipo::amounts::render_amount;

#[test]
fn renders_four_decimal_places() {
    assert_eq!(render_amount(35400), b"3.5400".to_vec());
    assert_eq!(render_amount(17700), b"1.7700".to_vec());
    assert_eq!(render_amount(1001000), b"100.1000".to_vec());
    assert_eq!(render_amount(0), b"0.0000".to_vec());
}

#[test]
fn renders_negative_amounts() {
    assert_eq!(render_amount(-5000), b"-0.5000".to_vec());
    assert_eq!(render_amount(-1234567), b"-123.4567".to_vec());
}

#[test]
fn renders_extreme_amounts() {
    assert_eq!(render_amount(i64::MAX), b"922337203685477.5807".to_vec());
    assert_eq!(render_amount(i64::MIN), b"-922337203685477.5808".to_vec());
    assert_eq!(render_amount(1), b"0.0001".to_vec());
}

#[test]
fn parses_decimal_literals_exactly() {
    assert_eq!(parse_amount(b"1.77"), Some(17700));
    assert_eq!(parse_amount(b"100.1"), Some(1001000));
    assert_eq!(parse_amount(b"0"), Some(0));
    assert_eq!(parse_amount(b"3"), Some(30000));
    assert_eq!(parse_amount(b".5"), Some(5000));
    assert_eq!(parse_amount(b"7."), Some(70000));
    assert_eq!(parse_amount(b"-0.5"), Some(-5000));
    assert_eq!(parse_amount(b"+2.0001"), Some(20001));
    assert_eq!(parse_amount(b"922337203685477.5807"), Some(i64::MAX));
    assert_eq!(parse_amount(b"-922337203685477.5808"), Some(i64::MIN));
}

#[test]
fn rejects_malformed_or_out_of_range_literals() {
    assert_eq!(parse_amount(b""), None);
    assert_eq!(parse_amount(b"-"), None);
    assert_eq!(parse_amount(b"."), None);
    assert_eq!(parse_amount(b"1.2.3"), None);
    assert_eq!(parse_amount(b"12a"), None);
    assert_eq!(parse_amount(b"1.23456"), None);
    assert_eq!(parse_amount(b"1 2"), None);
    assert_eq!(parse_amount(b"922337203685477.5808"), None);
    assert_eq!(parse_amount(b"-922337203685477.5809"), None);
    assert_eq!(parse_amount(b"9999999999999999"), None);
}

#[test]
fn render_then_parse_returns_the_amount() {
    for a in [0, 1, -1, 17700, -5000, 123456789, i64::MAX, i64::MIN] {
        assert_eq!(parse_amount(&render_amount(a)), Some(a));
    }
}
