use srt_adjust::error::SubError;
use srt_adjust::time::{format_ms, parse_decimal_part, parse_ms, parse_timespan, TimeSpan};

#[test]
fn test_parse_decimal_part() {
    assert_eq!(parse_decimal_part("111"), 111);
    assert_eq!(parse_decimal_part("0005"), 0);
    assert_eq!(parse_decimal_part("005"), 5);
    assert_eq!(parse_decimal_part("050"), 50);
    assert_eq!(parse_decimal_part("05"), 50);
    assert_eq!(parse_decimal_part("5"), 500);
    assert_eq!(parse_decimal_part("50"), 500);
    assert_eq!(parse_decimal_part("500"), 500);
    assert_eq!(parse_decimal_part("5000"), 500);
    assert_eq!(parse_decimal_part("000"), 0);
}

#[test]
fn test_parse_ms() {
    assert!(parse_ms("-").is_err());
    assert!(parse_ms(".").is_err());
    assert!(parse_ms("1-").is_err());
    assert!(parse_ms("1-2").is_err());

    assert!(parse_ms("1:61").is_err());
    assert!(parse_ms("61:00").is_err());
    assert!(parse_ms("61:00:00\r\n").is_ok());
    // This kind of data can occur when copying times from search output
    // that carries a line number:
    assert!(parse_ms("31-00:02:52,965").is_err());
    assert!(parse_ms("31:00:02:52,965").is_err());
    assert!(parse_ms(":00:02:52,965").is_err());

    assert_eq!(parse_ms("90.5").unwrap(), 90500);
    assert_eq!(parse_ms("-9.05").unwrap(), -9050);
    assert_eq!(parse_ms("-0.1").unwrap(), -100);
    assert_eq!(parse_ms("-0.10").unwrap(), -100);
    assert_eq!(parse_ms(".111").unwrap(), 111);
    assert_eq!(parse_ms("1.111").unwrap(), 1111);
    assert_eq!(parse_ms("1.1").unwrap(), 1100);
    assert_eq!(parse_ms(".1").unwrap(), 100);
    assert_eq!(parse_ms("-.3").unwrap(), -300);
    assert_eq!(parse_ms(".01").unwrap(), 10);
    assert_eq!(parse_ms("1.10\r").unwrap(), 1100);
    assert_eq!(parse_ms("90.01\n").unwrap(), 90010);
    assert_eq!(parse_ms("1:2:3.200").unwrap(), 200 + 1000 * (3 + 60 * (2 + 60 * 1)));
}

#[test]
pub fn test_parse_timespan() {
    assert_eq!(parse_timespan("1-1:00.5").unwrap(), TimeSpan::new(1000, 60500));
    assert_eq!(parse_timespan("-1-2").unwrap(), TimeSpan::new(-1000, 2000));
    assert_eq!(parse_timespan("-1--0.5").unwrap(), TimeSpan::new(-1000, -500));
    assert_eq!(parse_timespan("-1--.5").unwrap(), TimeSpan::new(-1000, -500));
    assert_eq!(parse_timespan("-2").unwrap(), TimeSpan::new(i64::MIN, 2000));
    assert_eq!(parse_timespan("-").unwrap(), TimeSpan::new(i64::MIN, i64::MAX));
    assert_eq!(parse_timespan("-2-").unwrap(), TimeSpan::new(-2000, i64::MAX));
    assert_eq!(parse_timespan("--2").unwrap(), TimeSpan::new(i64::MIN, -2000));
    assert!(parse_timespan("2-1").is_err());
}

#[test]
fn test_format_ms() {
    assert_eq!(format_ms(65565123), "18:12:45,123");
    assert_eq!(format_ms(-65565123), "-18:12:45,123");

    let ts = TimeSpan { start_ms: -65565123, end_ms: 65565123 };
    assert_eq!(ts.format(), "-18:12:45,123 --> 18:12:45,123");
}

#[test]
fn test_parse_ms_whitespace_and_separators() {
    assert_eq!(parse_ms(".050").unwrap(), 50);
    assert_eq!(parse_ms(" 1,5 ").unwrap(), 1500);
    assert_eq!(parse_ms("90").unwrap(), 90000);
    assert_eq!(parse_ms("60:00").unwrap(), 3_600_000);
    assert_eq!(parse_ms("00:00:08,614").unwrap(), 8614);
    assert!(parse_ms("").is_err());
    assert!(parse_ms("  ").is_err());
    assert!(parse_ms("1:2:3:4").is_err());
}

#[test]
fn test_format_parse_round_trip_values() {
    for v in [0i64, 1, -1, 999, -999, 8614, 65565123, -65565123, 86_400_000] {
        let text = format_ms(v);
        assert_eq!(parse_ms(&text).unwrap(), v);
    }
}

#[test]
fn test_timespan_errors_by_kind() {
    match parse_timespan("2-1") {
        Err(SubError::TimespanRange(_)) => {}
        other => panic!("expected a range failure, got {:?}", other),
    }
    match parse_timespan("abc") {
        Err(SubError::TimestampSyntax(_)) => {}
        other => panic!("expected a syntax failure, got {:?}", other),
    }
}
