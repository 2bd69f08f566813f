use whisper_srt::subtitle::SubtitleEntry;
use whisper_srt::time::{
    check_interval, format_srt_time, format_time, parse_srt_time, parse_time_string, TimeError,
};

/// Seconds, as a decimal number, for a count of milliseconds.
fn seconds(millis: u64) -> f64 {
    millis as f64 / 1000.0
}

/// The count of milliseconds for seconds given as a decimal number.
fn millis(seconds: f64) -> u64 {
    (seconds * 1000.0).round() as u64
}

#[test]
fn test_parse_time_string() {
    assert_eq!(seconds(parse_time_string("30").unwrap()), 30.0);
    assert_eq!(seconds(parse_time_string("1:30").unwrap()), 90.0);
    assert_eq!(seconds(parse_time_string("1:30:45").unwrap()), 5445.0);

    assert_eq!(seconds(parse_time_string("30.500").unwrap()), 30.5);
    assert_eq!(seconds(parse_time_string("1:30.250").unwrap()), 90.25);
    assert_eq!(seconds(parse_time_string("1:30:45.123").unwrap()), 5445.123);

    assert_eq!(seconds(parse_time_string("0:0:0.001").unwrap()), 0.001);
    assert_eq!(seconds(parse_time_string("0:0.1").unwrap()), 0.1);
}

#[test]
fn test_parse_srt_time() {
    assert_eq!(seconds(SubtitleEntry::parse_srt_time("00:00:05,650").unwrap()), 5.65);
    assert_eq!(seconds(SubtitleEntry::parse_srt_time("00:10:00,378").unwrap()), 600.378);
    assert_eq!(seconds(SubtitleEntry::parse_srt_time("01:30:45,123").unwrap()), 5445.123);
}

#[test]
fn test_format_srt_time() {
    assert_eq!(SubtitleEntry::format_srt_time(millis(5.65)), "00:00:05,650");
    assert_eq!(SubtitleEntry::format_srt_time(millis(600.378)), "00:10:00,378");
    assert_eq!(SubtitleEntry::format_srt_time(millis(5445.123)), "01:30:45,123");
}

#[test]
fn flexible_forms_agree() {
    assert_eq!(parse_time_string("90"), Ok(90_000));
    assert_eq!(parse_time_string("1:30"), Ok(90_000));
    assert_eq!(parse_time_string("0:1:30"), Ok(90_000));
}

#[test]
fn flexible_time_exact_values() {
    assert_eq!(parse_time_string("0"), Ok(0));
    assert_eq!(parse_time_string("1.5"), Ok(1_500));
    assert_eq!(parse_time_string(".25"), Ok(250));
    assert_eq!(parse_time_string("5."), Ok(5_000));
    assert_eq!(parse_time_string("2:03.004"), Ok(123_004));
    assert_eq!(parse_time_string("1:02:03.4"), Ok(3_723_400));
    assert_eq!(parse_time_string("75:00"), Ok(4_500_000));
    assert_eq!(parse_time_string("1.5:30"), Ok(120_000));
}

#[test]
fn flexible_time_drops_digits_after_milliseconds() {
    assert_eq!(parse_time_string("1.23456"), Ok(1_234));
    assert_eq!(parse_time_string("0.0009"), Ok(0));
}

#[test]
fn flexible_time_sums_fractions_of_hours_and_minutes_exactly() {
    assert_eq!(parse_time_string("0.0009:0:0"), Ok(3_240));
    assert_eq!(parse_time_string("1.0005:00"), Ok(60_030));
    assert_eq!(parse_time_string("0.00001:0:0"), Ok(36));
    assert_eq!(parse_time_string("0:0.0001:0"), Ok(6));
    assert_eq!(parse_time_string("0.5:0.5:0.5"), Ok(1_830_500));
    assert_eq!(parse_time_string("0.1:0.1:0.1"), Ok(366_100));
    assert_eq!(parse_time_string("0.3333333333333333333333333333:0:0"), Ok(1_199_999));
    assert_eq!(parse_time_string("0:0:0.9999999999999999999999999"), Ok(999));
    assert_eq!(
        parse_time_string(
            "0.99999999999999999999:0.99999999999999999999:0.99999999999999999999"
        ),
        Ok(3_660_999)
    );
    assert_eq!(parse_time_string("0:90"), Ok(90_000));
    assert_eq!(parse_time_string("100:00:00"), Ok(360_000_000));
}

#[test]
fn flexible_time_fits_up_to_the_last_millisecond() {
    assert_eq!(parse_time_string("5124095576030:25:51.615"), Ok(u64::MAX));
    assert_eq!(parse_time_string("5124095576030:25:51.6159999"), Ok(u64::MAX));
    assert_eq!(parse_time_string("5124095576030:25:51.616"), Err(TimeError::MalformedTime));
    assert_eq!(parse_time_string("5124095576031:0:0"), Err(TimeError::MalformedTime));
    assert_eq!(
        parse_time_string("99999999999999999999999:0:0"),
        Err(TimeError::MalformedTime)
    );
}

#[test]
fn flexible_time_refuses_malformed_text() {
    for text in ["", ".", ":", "1:", ":1", "1:2:3:4", "abc", "1,5", "-1", "+1", "1e3", " 1", "1 ", "1..2", "1:x"] {
        assert_eq!(parse_time_string(text), Err(TimeError::MalformedTime), "{:?}", text);
    }
}

#[test]
fn flexible_time_refuses_what_does_not_fit() {
    assert_eq!(parse_time_string("18446744073709551"), Ok(18_446_744_073_709_551_000));
    assert_eq!(parse_time_string("18446744073709552"), Err(TimeError::MalformedTime));
    assert_eq!(parse_time_string("99999999999999999999999"), Err(TimeError::MalformedTime));
}

#[test]
fn srt_time_exact_values() {
    assert_eq!(parse_srt_time("00:00:00,000"), Ok(0));
    assert_eq!(parse_srt_time("00:00:01,000"), Ok(1_000));
    assert_eq!(parse_srt_time("99:59:59,999"), Ok(359_999_999));
    assert_eq!(parse_srt_time("100:00:00,000"), Ok(360_000_000));
    assert_eq!(parse_srt_time("0:0:5,65"), Ok(5_065));
}

#[test]
fn srt_time_refuses_malformed_text() {
    for text in [
        "",
        "00:00:05",
        "00:00:05.650",
        "00:00,650",
        "00:00:00:05,650",
        "00:00:05,650,1",
        "00:00:05,",
        ":00:05,650",
        "00:00:0a,650",
        " 00:00:05,650",
        "00:00:05,650 ",
        "00,00:05:650",
        "-1:00:05,650",
    ] {
        assert_eq!(parse_srt_time(text), Err(TimeError::MalformedTime), "{:?}", text);
    }
}

#[test]
fn srt_time_formats_with_padding() {
    assert_eq!(format_srt_time(0), "00:00:00,000");
    assert_eq!(format_srt_time(1), "00:00:00,001");
    assert_eq!(format_srt_time(59_999), "00:00:59,999");
    assert_eq!(format_srt_time(60_000), "00:01:00,000");
    assert_eq!(format_srt_time(3_600_000), "01:00:00,000");
    assert_eq!(format_srt_time(359_999_999), "99:59:59,999");
    assert_eq!(format_srt_time(360_000_000), "100:00:00,000");
}

#[test]
fn display_time_uses_a_point() {
    assert_eq!(format_time(0), "00:00:00.000");
    assert_eq!(format_time(5_445_123), "01:30:45.123");
}

#[test]
fn srt_time_round_trip() {
    let mut t: u64 = 0;
    while t <= 359_999_999 {
        assert_eq!(parse_srt_time(&format_srt_time(t)), Ok(t));
        t += 7_919;
    }
    assert_eq!(parse_srt_time(&format_srt_time(359_999_999)), Ok(359_999_999));
    assert_eq!(parse_srt_time(&format_srt_time(u64::MAX)), Ok(u64::MAX));
}

#[test]
fn interval_must_run_forward() {
    assert_eq!(check_interval(1_000, 2_500), Ok(1_500));
    assert_eq!(check_interval(2_500, 2_500), Err(TimeError::InvalidInterval));
    assert_eq!(check_interval(3_000, 2_500), Err(TimeError::InvalidInterval));
}
