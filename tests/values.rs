use station_stats::{byte_ascii_digit, parse_measurement, push_tenths, Stats};

fn text(v: i64) -> String {
    let mut out = Vec::new();
    push_tenths(&mut out, v);
    String::from_utf8(out).unwrap()
}

#[test]
fn parse_values() {
    assert_eq!(parse_measurement(b"10.0"), 100);
    assert_eq!(parse_measurement(b"-5.5"), -55);
    assert_eq!(parse_measurement(b"0.0"), 0);
    assert_eq!(parse_measurement(b"-99.9"), -999);
    assert_eq!(parse_measurement(b"123.4"), 1234);
}

#[test]
fn digits() {
    assert_eq!(byte_ascii_digit(&b'7'), 7);
    assert_eq!(byte_ascii_digit(&b'0'), 0);
}

#[test]
fn format_values() {
    assert_eq!(text(155), "15.5");
    assert_eq!(text(-55), "-5.5");
    assert_eq!(text(-5), "-0.5");
    assert_eq!(text(0), "0.0");
    assert_eq!(text(1234), "123.4");
}

#[test]
fn parse_then_format_round_trip() {
    for v in -999i64..=999 {
        let s = text(v);
        assert_eq!(parse_measurement(s.as_bytes()), v);
        assert_eq!(text(parse_measurement(s.as_bytes())), s);
    }
}

#[test]
fn mean_rounds_half_up_and_stays_in_range() {
    let a = Stats::single(10);
    let b = Stats::single(15);
    let c = a.combine(&b).unwrap();
    assert_eq!(c.count, 2);
    assert_eq!(c.sum, 25);
    assert_eq!(c.mean(), 13);
    let d = Stats::single(-10).combine(&Stats::single(-15)).unwrap();
    assert_eq!(d.mean(), -12);
    assert!(d.min <= d.mean() && d.mean() <= d.max);
    let e = Stats::single(-55);
    assert_eq!(e.mean(), -55);
}

#[test]
fn combine_overflowing_count() {
    let big = Stats { min: 1, max: 1, sum: u64::MAX as i128, count: u64::MAX };
    assert!(big.combine(&Stats::single(1)).is_none());
}
