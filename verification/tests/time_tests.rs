use cwl::time::{parse_duration, parse_time_range, parse_time_range_at, parse_timestamp, TimeError};

#[test]
fn explicit_stamps_ignore_the_clock() {
    // With both ends given, the window does not depend on the current moment.
    assert_eq!(
        parse_time_range(
            None,
            Some("1234567890".to_string()),
            Some("1234567999".to_string())
        ),
        Ok((Some(1_234_567_890_000), Some(1_234_567_999_000)))
    );
    assert_eq!(
        parse_time_range(Some("nope".to_string()), None, None),
        Err(TimeError::MalformedDuration)
    );
}

#[test]
fn test_parse_duration() {
    assert!(parse_duration("5s").is_ok());
    assert!(parse_duration("30m").is_ok());
    assert!(parse_duration("2h").is_ok());
    assert!(parse_duration("1d").is_ok());
    assert!(parse_duration("invalid").is_err());
}

#[test]
fn test_parse_timestamp() {
    assert!(parse_timestamp("1234567890").is_ok());
    assert!(parse_timestamp("1234567890000").is_ok());
    assert!(parse_timestamp("2024-01-01 12:00:00").is_ok());
    assert!(parse_timestamp("2024-01-01T12:00:00Z").is_ok());
}

#[test]
fn duration_values_exact() {
    assert_eq!(parse_duration("30m"), Ok(1_800_000));
    assert_eq!(parse_duration("5s"), Ok(5_000));
    assert_eq!(parse_duration("2h"), Ok(7_200_000));
    assert_eq!(parse_duration("1d"), Ok(86_400_000));
    assert_eq!(parse_duration("0s"), Ok(0));
}

#[test]
fn duration_rejects_malformed() {
    assert_eq!(parse_duration("bogus"), Err(TimeError::MalformedDuration));
    assert_eq!(parse_duration(""), Err(TimeError::MalformedDuration));
    assert_eq!(parse_duration("10"), Err(TimeError::MalformedDuration));
    assert_eq!(parse_duration("m"), Err(TimeError::MalformedDuration));
    assert_eq!(parse_duration("5x"), Err(TimeError::MalformedDuration));
    assert_eq!(parse_duration("-5s"), Err(TimeError::MalformedDuration));
    // Overflows a signed 64-bit millisecond count.
    assert_eq!(
        parse_duration("99999999999999999999d"),
        Err(TimeError::MalformedDuration)
    );
}

#[test]
fn timestamp_values_exact() {
    // Seconds are scaled to milliseconds; milliseconds pass through.
    assert_eq!(parse_timestamp("1234567890"), Ok(1_234_567_890_000));
    assert_eq!(parse_timestamp("1234567890000"), Ok(1_234_567_890_000));
    assert_eq!(parse_timestamp("0"), Ok(0));
    assert_eq!(parse_timestamp("-5"), Ok(-5_000));
    assert_eq!(parse_timestamp("2024-01-01 12:00:00"), Ok(1_704_110_400_000));
    assert_eq!(parse_timestamp("2024-01-01T12:00:00Z"), Ok(1_704_110_400_000));
}

#[test]
fn timestamp_rejects_malformed() {
    assert_eq!(parse_timestamp("not a time"), Err(TimeError::MalformedTimestamp));
    assert_eq!(parse_timestamp(""), Err(TimeError::MalformedTimestamp));
}

#[test]
fn time_range_windows() {
    let now = 10_000_000_000i64;
    assert_eq!(
        parse_time_range_at(Some("30m".to_string()), None, None, now),
        Ok((Some(now - 1_800_000), Some(now)))
    );
    assert_eq!(
        parse_time_range_at(None, None, None, now),
        Ok((Some(now - 3_600_000), Some(now)))
    );
    assert_eq!(
        parse_time_range_at(None, Some("1234567890".to_string()), None, now),
        Ok((Some(1_234_567_890_000), None))
    );
    assert_eq!(
        parse_time_range_at(Some("bogus".to_string()), None, None, now),
        Err(TimeError::MalformedDuration)
    );
    assert_eq!(
        parse_time_range_at(None, Some("bad".to_string()), None, now),
        Err(TimeError::MalformedTimestamp)
    );
}
