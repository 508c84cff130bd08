use stopfeeds::fixed::format_coord;
use stopfeeds::fixed::parse_coord;
use stopfeeds::fixed::parse_count;

#[test]
fn parses_plain_decimal() {
    assert_eq!(parse_coord(b"43.6452"), Some(436_452_000));
    assert_eq!(parse_coord(b"-79.3832"), Some(-793_832_000));
    assert_eq!(parse_coord(b"+1.5"), Some(15_000_000));
    assert_eq!(parse_coord(b"0"), Some(0));
    assert_eq!(parse_coord(b"12"), Some(120_000_000));
    assert_eq!(parse_coord(b"12."), Some(120_000_000));
    assert_eq!(parse_coord(b".5"), Some(5_000_000));
}

#[test]
fn truncates_beyond_seven_fraction_digits() {
    assert_eq!(parse_coord(b"1.23456789"), Some(12_345_678));
}

#[test]
fn rejects_non_numeric_text() {
    assert_eq!(parse_coord(b""), None);
    assert_eq!(parse_coord(b"abc"), None);
    assert_eq!(parse_coord(b"1e5"), None);
    assert_eq!(parse_coord(b"1.2.3"), None);
    assert_eq!(parse_coord(b"-"), None);
    assert_eq!(parse_coord(b"."), None);
    assert_eq!(parse_coord(b"4 3"), None);
}

#[test]
fn rejects_out_of_width_values() {
    assert_eq!(parse_coord(b"215"), None);
    assert_eq!(parse_coord(b"214.7483647"), Some(2_147_483_647));
    assert_eq!(parse_coord(b"-214.7483648"), Some(-2_147_483_648));
    assert_eq!(parse_coord(b"-214.7483649"), None);
}

#[test]
fn formats_fixed_point() {
    assert_eq!(format_coord(436_452_000), b"43.6452000".to_vec());
    assert_eq!(format_coord(-793_832_000), b"-79.3832000".to_vec());
    assert_eq!(format_coord(0), b"0.0000000".to_vec());
}

#[test]
fn format_then_parse_returns_the_value() {
    for v in [0, 1, -1, 436_452_000, -793_832_000, 2_147_483_647, -2_147_483_648] {
        assert_eq!(parse_coord(&format_coord(v)), Some(v));
    }
}

#[test]
fn parses_small_codes() {
    assert_eq!(parse_count(b"0"), Some(0));
    assert_eq!(parse_count(b"2"), Some(2));
    assert_eq!(parse_count(b"+7"), Some(7));
    assert_eq!(parse_count(b"4294967295"), Some(4294967295));
    assert_eq!(parse_count(b"4294967296"), None);
    assert_eq!(parse_count(b""), None);
    assert_eq!(parse_count(b"-1"), None);
    assert_eq!(parse_count(b"two"), None);
}
