use moonshine::amount::{format_drk_atomic, format_drk_fixed, parse_drk_atomic};

#[test]
fn parses_common_amounts() {
    assert_eq!(parse_drk_atomic("1").unwrap(), 100_000_000);
    assert_eq!(parse_drk_atomic("0.18").unwrap(), 18_000_000);
    assert_eq!(parse_drk_atomic("0.00000001").unwrap(), 1);
}

#[test]
fn rejects_zero_and_empty() {
    assert!(parse_drk_atomic("").is_err());
    assert_eq!(parse_drk_atomic("0").unwrap(), 0);
}

#[test]
fn does_not_use_binary_float() {
    // 0.29 is a classic f64 * 1e8 trap (28999999).
    assert_eq!(parse_drk_atomic("0.29").unwrap(), 29_000_000);
}

#[test]
fn format_roundtrip() {
    assert_eq!(format_drk_atomic(18_000_000), "0.18");
}

#[test]
fn every_formatted_amount_parses_back() {
    for atoms in [0, 1, 10, 99_999_999, 100_000_000, 123_456_789_012, u64::MAX] {
        assert_eq!(parse_drk_atomic(&format_drk_atomic(atoms)).unwrap(), atoms);
    }
    assert_eq!(format_drk_atomic(0), "0");
    assert_eq!(format_drk_atomic(100_000_000), "1");
    assert_eq!(format_drk_atomic(150_000_000), "1.5");
}

#[test]
fn amounts_beyond_eight_decimals_round_up() {
    assert_eq!(parse_drk_atomic("0.000000001").unwrap(), 1);
    assert_eq!(parse_drk_atomic("1.000000001").unwrap(), 100_000_001);
    assert_eq!(parse_drk_atomic("1.000000000").unwrap(), 100_000_000);
}

#[test]
fn odd_amounts_are_refused() {
    for s in ["", "  ", "-1", "1e3", "1,5", "1.2.3", "184467440738", "x"] {
        assert!(parse_drk_atomic(s).is_err(), "{s}");
    }
    assert_eq!(parse_drk_atomic(" 2 ").unwrap(), 200_000_000);
}

#[test]
fn fixed_amounts_show_all_decimals() {
    assert_eq!(format_drk_fixed(0), "0.00000000");
    assert_eq!(format_drk_fixed(150_000_000), "1.50000000");
    assert_eq!(format_drk_fixed(-1), "-0.00000001");
    assert_eq!(format_drk_fixed(i64::MIN), "-92233720368.54775808");
    for v in [1i64, 123_456_789, -987_654_321_000, 5_000_000_000_000] {
        assert_eq!(format_drk_fixed(v), format!("{:.8}", v as f64 / 100_000_000.0));
    }
}
