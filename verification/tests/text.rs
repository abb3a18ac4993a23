use avio23::text::{parse_duration_ms, same_text, chars_of};

#[test]
fn durations_in_milliseconds() {
    assert_eq!(parse_duration_ms("40ms"), Some(40));
    assert_eq!(parse_duration_ms("2ms"), Some(2));
    assert_eq!(parse_duration_ms("0ms"), Some(0));
}

#[test]
fn durations_in_seconds_and_microseconds() {
    assert_eq!(parse_duration_ms("1s"), Some(1000));
    assert_eq!(parse_duration_ms("500us"), Some(0));
    assert_eq!(parse_duration_ms("1500us"), Some(1));
    assert_eq!(parse_duration_ms("2000us"), Some(2));
}

#[test]
fn durations_ignore_surrounding_whitespace() {
    assert_eq!(parse_duration_ms("  40ms  "), Some(40));
    assert_eq!(parse_duration_ms("40 ms"), Some(40));
    assert_eq!(parse_duration_ms("\t3 s\n"), Some(3000));
}

#[test]
fn durations_accept_a_plus_sign() {
    assert_eq!(parse_duration_ms("+5ms"), Some(5));
}

#[test]
fn malformed_durations() {
    assert_eq!(parse_duration_ms("TODO"), None);
    assert_eq!(parse_duration_ms("40"), None);
    assert_eq!(parse_duration_ms("ms"), None);
    assert_eq!(parse_duration_ms("-5ms"), None);
    assert_eq!(parse_duration_ms("4 0ms"), None);
    assert_eq!(parse_duration_ms("40MS"), None);
    assert_eq!(parse_duration_ms(""), None);
    assert_eq!(parse_duration_ms("+ms"), None);
    assert_eq!(parse_duration_ms("1.5ms"), None);
}

#[test]
fn duration_limits() {
    assert_eq!(parse_duration_ms("18446744073709551615ms"), Some(u64::MAX));
    assert_eq!(parse_duration_ms("18446744073709551616ms"), None);
    assert_eq!(parse_duration_ms("18446744073709551s"), Some(18446744073709551000));
}

#[test]
fn text_helpers() {
    assert!(same_text("fuel_controller", "fuel_controller"));
    assert!(!same_text("fuel_controller", "fuel_quantity"));
    assert_eq!(chars_of("añb"), vec!['a', 'ñ', 'b']);
}

#[test]
fn written_durations_read_back() {
    for n in [0u64, 1, 9, 10, 40, 999, 1000, 123456789, u64::MAX] {
        assert_eq!(parse_duration_ms(&format!("{}ms", n)), Some(n));
    }
}
