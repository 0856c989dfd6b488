use astralane::api::{contention_slot_range, is_supported_interval, step_widths_from_json, u64_or};

#[test]
fn contention_range_defaults_to_unbounded() {
    assert_eq!(contention_slot_range(None, None), (i64::MIN, i64::MAX));
    assert_eq!(contention_slot_range(Some(5), None), (5, i64::MAX));
    assert_eq!(contention_slot_range(None, Some(-3)), (i64::MIN, -3));
}

#[test]
fn only_one_and_five_minute_candles_are_served() {
    assert!(is_supported_interval("1m"));
    assert!(is_supported_interval("5m"));
    assert!(!is_supported_interval("15m"));
    assert!(!is_supported_interval("1M"));
    assert!(!is_supported_interval(""));
}

#[test]
fn stored_step_widths_decode_or_count_as_none() {
    assert_eq!(step_widths_from_json("[3,1,2]"), vec![3, 1, 2]);
    assert_eq!(step_widths_from_json("[]"), Vec::<i64>::new());
    assert_eq!(step_widths_from_json("oops"), Vec::<i64>::new());
}

#[test]
fn settings_read_as_u64_or_default() {
    assert_eq!(u64_or(Some("439865000"), 7), 439865000);
    assert_eq!(u64_or(Some("+12"), 7), 12);
    assert_eq!(u64_or(Some("18446744073709551615"), 7), u64::MAX);
    assert_eq!(u64_or(Some("18446744073709551616"), 7), 7);
    assert_eq!(u64_or(Some("-1"), 7), 7);
    assert_eq!(u64_or(Some("-0"), 7), 7);
    assert_eq!(u64_or(Some("abc"), 7), 7);
    assert_eq!(u64_or(None, 7), 7);
    for s in ["0", "+0", "42", "-5", "", "1e3"] {
        assert_eq!(u64_or(Some(s), 99), s.parse::<u64>().unwrap_or(99));
    }
}
