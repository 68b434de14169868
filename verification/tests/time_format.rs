//! Reading, writing and recognizing timestamps.

use glyde::ingest::{decode, detect_encoding, infer_delimiter, infer_header};
use glyde::time::format::{
    fraction_to_decimal_digits, EXCEL_EPOCH_OFFSET_DAYS, LABVIEW_EPOCH_OFFSET_SECONDS,
    SECONDS_PER_DAY,
};
use glyde::time::{
    can_format, format_timestamp, infer_timestamp_format, parse_timestamp, TimeUnit, Timestamp,
    TimestampFormat, TimestampFormatScan,
};
use glyde::GlydeError;

/// A table of six rows: the given time column, and one value for each.
fn file_of(name: &str, times: [&str; 6]) -> String {
    let mut text = format!("{name},value\n");
    for (row, time) in times.iter().enumerate() {
        text.push_str(&format!("{time},{}.5\n", row + 1));
    }
    text
}

fn column(text: &str, column_name: &str) -> Vec<String> {
    let bytes = text.as_bytes();
    let encoding = detect_encoding(bytes);
    let text = decode(bytes, &encoding);
    let delimiter = infer_delimiter(&text).delimiter;
    let header = infer_header(&text, delimiter);
    let column_index = header
        .column_names
        .iter()
        .position(|name| name == column_name)
        .expect("the column is there");
    let data_start = header
        .header_row_index
        .map_or(header.skipped_preamble_rows, |index| index + 1);

    text.lines()
        .skip(data_start)
        .filter(|line| !line.is_empty())
        .map(|line| {
            line.split(delimiter.as_str())
                .nth(column_index)
                .unwrap_or_default()
                .trim()
                .to_string()
        })
        .collect()
}

fn timestamps_of(fields: &[String], format: TimestampFormat) -> Vec<Timestamp> {
    fields
        .iter()
        .map(|field| parse_timestamp(field, format).expect("must parse"))
        .collect()
}

fn assert_monotonically_increasing(timestamps: &[Timestamp]) {
    assert!(
        timestamps
            .windows(2)
            .all(|pair| pair[1].ticks > pair[0].ticks),
        "the series increases by construction: {timestamps:?}"
    );
}

#[test]
fn corpus_case_24_iso8601_with_timezone_detects_and_parses() {
    let text = file_of(
        "timestamp",
        [
            "2026-01-01T00:00:00+02:00",
            "2026-01-01T00:00:01+02:00",
            "2026-01-01T00:00:02+02:00",
            "2026-01-01T00:00:03+02:00",
            "2026-01-01T00:00:04+02:00",
            "2026-01-01T00:00:05+02:00",
        ],
    );
    let fields = column(&text, "timestamp");

    let inference = infer_timestamp_format(&fields).expect("must infer a format");
    assert_eq!(inference.format, TimestampFormat::Iso8601WithOffset);
    assert!(!inference.ambiguous);

    let timestamps = timestamps_of(&fields, inference.format);
    assert_eq!(timestamps.len(), 6);
    assert_monotonically_increasing(&timestamps);
    for timestamp in &timestamps {
        assert_eq!(timestamp.unit, TimeUnit::Nanoseconds);
        assert_eq!(timestamp.offset_seconds, Some(2 * 3600));
    }
    assert_eq!(timestamps[0].ticks, 1_767_218_400_000_000_000);
}

#[test]
fn corpus_case_25_iso8601_naive_detects_and_parses() {
    let text = file_of(
        "timestamp",
        [
            "2026-01-01T00:00:00",
            "2026-01-01T00:00:01",
            "2026-01-01T00:00:02",
            "2026-01-01T00:00:03",
            "2026-01-01T00:00:04",
            "2026-01-01T00:00:05",
        ],
    );
    let fields = column(&text, "timestamp");

    let inference = infer_timestamp_format(&fields).expect("must infer a format");
    assert_eq!(inference.format, TimestampFormat::Iso8601Naive);
    assert!(!inference.ambiguous);

    let timestamps = timestamps_of(&fields, inference.format);
    assert_eq!(timestamps.len(), 6);
    assert_monotonically_increasing(&timestamps);
    for timestamp in &timestamps {
        assert_eq!(timestamp.offset_seconds, None);
    }
}

#[test]
fn corpus_case_29_epoch_seconds_detects_and_parses() {
    let text = file_of(
        "timestamp",
        [
            "1770000000",
            "1770000001",
            "1770000002",
            "1770000003",
            "1770000004",
            "1770000005",
        ],
    );
    let fields = column(&text, "timestamp");

    let inference = infer_timestamp_format(&fields).expect("must infer a format");
    assert_eq!(inference.format, TimestampFormat::EpochSeconds);
    assert!(!inference.ambiguous);

    let timestamps = timestamps_of(&fields, inference.format);
    assert_eq!(
        timestamps[0],
        Timestamp::new(1_770_000_000, TimeUnit::Seconds)
    );
    assert_monotonically_increasing(&timestamps);
}

#[test]
fn corpus_case_30_epoch_milliseconds_detects_and_parses() {
    let text = file_of(
        "timestamp",
        [
            "1770000000000",
            "1770000000100",
            "1770000000200",
            "1770000000300",
            "1770000000400",
            "1770000000500",
        ],
    );
    let fields = column(&text, "timestamp");

    let inference = infer_timestamp_format(&fields).expect("must infer a format");
    assert_eq!(inference.format, TimestampFormat::EpochMillis);
    assert!(!inference.ambiguous);

    let timestamps = timestamps_of(&fields, inference.format);
    assert_eq!(
        timestamps[0],
        Timestamp::new(1_770_000_000_000, TimeUnit::Milliseconds)
    );
    assert_monotonically_increasing(&timestamps);
}

#[test]
fn corpus_case_31_epoch_microseconds_detects_and_parses() {
    let text = file_of(
        "timestamp",
        [
            "1770000000000000",
            "1770000000000100",
            "1770000000000200",
            "1770000000000300",
            "1770000000000400",
            "1770000000000500",
        ],
    );
    let fields = column(&text, "timestamp");

    let inference = infer_timestamp_format(&fields).expect("must infer a format");
    assert_eq!(inference.format, TimestampFormat::EpochMicros);
    assert!(!inference.ambiguous);

    let timestamps = timestamps_of(&fields, inference.format);
    assert_eq!(
        timestamps[0],
        Timestamp::new(1_770_000_000_000_000, TimeUnit::Microseconds)
    );
    assert_monotonically_increasing(&timestamps);
}

#[test]
fn corpus_case_32_epoch_nanoseconds_detects_and_parses() {
    let text = file_of(
        "timestamp",
        [
            "1770000000000000000",
            "1770000000000000100",
            "1770000000000000200",
            "1770000000000000300",
            "1770000000000000400",
            "1770000000000000500",
        ],
    );
    let fields = column(&text, "timestamp");

    let inference = infer_timestamp_format(&fields).expect("must infer a format");
    assert_eq!(inference.format, TimestampFormat::EpochNanos);
    assert!(!inference.ambiguous);

    let timestamps = timestamps_of(&fields, inference.format);
    assert_eq!(
        timestamps[0],
        Timestamp::new(1_770_000_000_000_000_000, TimeUnit::Nanoseconds)
    );
    assert_monotonically_increasing(&timestamps);
}

#[test]
fn corpus_case_33_excel_serial_dates_detects_and_parses() {
    let text = file_of(
        "timestamp",
        ["46023", "46024", "46025", "46026", "46027", "46028"],
    );
    let fields = column(&text, "timestamp");

    let inference = infer_timestamp_format(&fields).expect("must infer a format");
    assert_eq!(inference.format, TimestampFormat::ExcelSerial);
    assert!(!inference.ambiguous);

    let timestamps = timestamps_of(&fields, inference.format);
    assert_eq!(timestamps.len(), 6);
    assert_eq!(
        timestamps[0],
        Timestamp::new(
            (46_023 - EXCEL_EPOCH_OFFSET_DAYS) * SECONDS_PER_DAY * 1_000_000_000,
            TimeUnit::Nanoseconds
        )
    );
    assert_monotonically_increasing(&timestamps);
}

#[test]
fn corpus_case_34_labview_epoch_detects_and_parses() {
    let text = file_of(
        "timestamp",
        [
            "3850027200.0",
            "3850027201.0",
            "3850027202.0",
            "3850027203.0",
            "3850027204.0",
            "3850027205.0",
        ],
    );
    let fields = column(&text, "timestamp");

    let inference = infer_timestamp_format(&fields).expect("must infer a format");
    assert_eq!(inference.format, TimestampFormat::LabViewEpoch);
    assert!(!inference.ambiguous);

    let timestamps = timestamps_of(&fields, inference.format);
    assert_eq!(timestamps.len(), 6);
    assert_eq!(
        timestamps[0],
        Timestamp::new(
            (3_850_027_200 - LABVIEW_EPOCH_OFFSET_SECONDS) * 1_000_000_000,
            TimeUnit::Nanoseconds
        )
    );
    assert_monotonically_increasing(&timestamps);
}

#[test]
fn corpus_case_41_picosecond_resolution_index_detects_and_parses() {
    let text = file_of(
        "timestamp",
        [
            "2026-01-01T00:00:00.000000000001Z",
            "2026-01-01T00:00:00.000000000002Z",
            "2026-01-01T00:00:00.000000000003Z",
            "2026-01-01T00:00:00.000000000004Z",
            "2026-01-01T00:00:00.000000000005Z",
            "2026-01-01T00:00:00.000000000006Z",
        ],
    );
    let fields = column(&text, "timestamp");

    let inference = infer_timestamp_format(&fields).expect("must infer a format");
    assert_eq!(inference.format, TimestampFormat::Iso8601WithOffset);
    assert!(!inference.ambiguous);

    let timestamps = timestamps_of(&fields, inference.format);
    assert_eq!(timestamps.len(), 6);
    for timestamp in &timestamps {
        assert_eq!(timestamp.unit, TimeUnit::Picoseconds);
    }
    assert_monotonically_increasing(&timestamps);
    for pair in timestamps.windows(2) {
        assert_eq!(
            pair[1].ticks - pair[0].ticks,
            1,
            "the series grows by exactly one picosecond per row"
        );
    }
}

#[test]
fn corpus_case_42_multi_year_second_resolution_detects_and_parses() {
    let text = file_of(
        "timestamp",
        [
            "2020-01-01T00:00:00Z",
            "2021-01-01T00:00:00Z",
            "2022-01-01T00:00:00Z",
            "2023-01-01T00:00:00Z",
            "2024-01-01T00:00:00Z",
            "2025-01-01T00:00:00Z",
        ],
    );
    let fields = column(&text, "timestamp");

    let inference = infer_timestamp_format(&fields).expect("must infer a format");
    assert_eq!(inference.format, TimestampFormat::Iso8601WithOffset);
    assert!(!inference.ambiguous);

    let timestamps = timestamps_of(&fields, inference.format);
    assert_eq!(timestamps.len(), 6);
    for timestamp in &timestamps {
        assert_eq!(timestamp.unit, TimeUnit::Nanoseconds);
    }
    assert_monotonically_increasing(&timestamps);
}

#[test]
fn excel_serial_fractional_day_round_trips() {
    let parsed = parse_timestamp("46023.5", TimestampFormat::ExcelSerial).expect("must parse");
    assert_eq!(
        format_timestamp(&parsed, TimestampFormat::ExcelSerial),
        "46023.5"
    );
}

#[test]
fn labview_epoch_fractional_second_round_trips() {
    let parsed =
        parse_timestamp("3850027200.25", TimestampFormat::LabViewEpoch).expect("must parse");
    assert_eq!(
        format_timestamp(&parsed, TimestampFormat::LabViewEpoch),
        "3850027200.25"
    );
}

#[test]
fn corpus_case_26_dd_mm_yyyy_unambiguous_detects_day_first_confidently() {
    let text = file_of(
        "timestamp",
        [
            "25/01/2026 08:00:00",
            "25/01/2026 08:00:01",
            "25/01/2026 08:00:02",
            "25/01/2026 08:00:03",
            "25/01/2026 08:00:04",
            "25/01/2026 08:00:05",
        ],
    );
    let fields = column(&text, "timestamp");

    let inference = infer_timestamp_format(&fields).expect("must infer a format");
    assert_eq!(inference.format, TimestampFormat::DayFirst);
    assert!(
        !inference.ambiguous,
        "a number above twelve in the first place settles the order"
    );

    let timestamps = timestamps_of(&fields, inference.format);
    assert_eq!(timestamps.len(), 6);
    assert_monotonically_increasing(&timestamps);
}

#[test]
fn corpus_case_27_mm_dd_yyyy_unambiguous_detects_month_first_confidently() {
    let text = file_of(
        "timestamp",
        [
            "01/25/2026 08:00:00",
            "01/25/2026 08:00:01",
            "01/25/2026 08:00:02",
            "01/25/2026 08:00:03",
            "01/25/2026 08:00:04",
            "01/25/2026 08:00:05",
        ],
    );
    let fields = column(&text, "timestamp");

    let inference = infer_timestamp_format(&fields).expect("must infer a format");
    assert_eq!(inference.format, TimestampFormat::MonthFirst);
    assert!(
        !inference.ambiguous,
        "a number above twelve in the second place settles the order"
    );

    let timestamps = timestamps_of(&fields, inference.format);
    assert_eq!(timestamps.len(), 6);
    assert_monotonically_increasing(&timestamps);
}

#[test]
fn corpus_case_28_fully_ambiguous_dates_defaults_to_day_first_low_confidence() {
    let text = file_of(
        "timestamp",
        [
            "01/02/2026 08:00:00",
            "01/02/2026 08:00:01",
            "01/02/2026 08:00:02",
            "01/02/2026 08:00:03",
            "01/02/2026 08:00:04",
            "01/02/2026 08:00:05",
        ],
    );
    let fields = column(&text, "timestamp");

    let inference = infer_timestamp_format(&fields).expect("must infer a format");
    assert_eq!(inference.format, TimestampFormat::DayFirst);
    assert!(
        inference.ambiguous,
        "a column in which nothing settles the order is never a silent pick"
    );

    let timestamps = timestamps_of(&fields, inference.format);
    assert_eq!(timestamps.len(), 6);
    assert_monotonically_increasing(&timestamps);
    // The first of February.
    assert_eq!(timestamps[0].ticks, 1_769_932_800_000_000_000);
}

#[test]
fn infer_timestamp_format_rejects_a_column_with_contradictory_day_month_evidence() {
    let fields = vec![
        "25/01/2026 08:00:00".to_string(),
        "01/25/2026 09:00:00".to_string(),
    ];
    assert_eq!(infer_timestamp_format(&fields), None);
}

#[test]
fn infer_timestamp_format_flags_the_epoch_seconds_labview_epoch_overlap_as_ambiguous() {
    let fields = vec!["3850027200".to_string(), "3850027201".to_string()];

    let inference = infer_timestamp_format(&fields).expect("must infer a format");
    assert_eq!(inference.format, TimestampFormat::EpochSeconds);
    assert!(
        inference.ambiguous,
        "a bare integer that both formats explain is never a silent pick"
    );
}

#[test]
fn corpus_case_35_progressive_integer_index_matches_no_timestamp_format() {
    let text = file_of("sample", ["0", "1", "2", "3", "4", "5"]);
    let sample = column(&text, "sample");
    assert_eq!(infer_timestamp_format(&sample), None);

    let value = column(&text, "value");
    assert_eq!(infer_timestamp_format(&value), None);
}

#[test]
fn infer_timestamp_format_of_empty_fields_is_none() {
    assert_eq!(infer_timestamp_format(&[]), None);
}

#[test]
fn infer_timestamp_format_rejects_a_column_that_only_partially_matches() {
    let fields = vec![
        "1770000000".to_string(),
        "1770000001".to_string(),
        "not-a-timestamp".to_string(),
    ];
    assert_eq!(infer_timestamp_format(&fields), None);
}

#[test]
fn parse_timestamp_reports_an_invalid_iso8601_string_instead_of_panicking() {
    let err = parse_timestamp("not-a-date", TimestampFormat::Iso8601WithOffset)
        .expect_err("malformed input must be a reported error, not a panic");
    assert!(matches!(
        err,
        GlydeError::InvalidTimestamp {
            format: TimestampFormat::Iso8601WithOffset,
            ..
        }
    ));
}

#[test]
fn parse_timestamp_reports_an_invalid_epoch_string_instead_of_panicking() {
    let err = parse_timestamp("not-a-number", TimestampFormat::EpochSeconds)
        .expect_err("malformed input must be a reported error, not a panic");
    assert!(matches!(
        err,
        GlydeError::InvalidTimestamp {
            format: TimestampFormat::EpochSeconds,
            ..
        }
    ));
}

#[test]
fn what_is_written_in_a_format_reads_back() {
    let cases = [
        ("2026-07-22T14:30:00+02:00", TimestampFormat::Iso8601WithOffset),
        (
            "2026-07-22T14:30:00.123-05:30",
            TimestampFormat::Iso8601WithOffset,
        ),
        (
            "2026-07-22T14:30:00.123456789012+02:00",
            TimestampFormat::Iso8601WithOffset,
        ),
        ("2026-07-22T14:30:00.500", TimestampFormat::Iso8601Naive),
        (
            "2026-07-22T14:30:00.000000000001",
            TimestampFormat::Iso8601Naive,
        ),
        (
            "+12026-07-22T14:30:00.000000000001",
            TimestampFormat::Iso8601Naive,
        ),
        (
            "-0044-03-15T12:00:00.123456789012",
            TimestampFormat::Iso8601Naive,
        ),
        (
            "-262143-01-01T00:00:00.000000000000",
            TimestampFormat::Iso8601Naive,
        ),
        (
            "+262142-12-31T23:59:59.999999999999",
            TimestampFormat::Iso8601Naive,
        ),
        ("22/07/2026 14:30:00", TimestampFormat::DayFirst),
        ("07/22/2026 14:30:00", TimestampFormat::MonthFirst),
        ("-12", TimestampFormat::EpochSeconds),
        ("1770000000.5", TimestampFormat::EpochSeconds),
        ("-0.000001", TimestampFormat::EpochSeconds),
        ("-3.25", TimestampFormat::EpochMillis),
        ("1770000000123456.789", TimestampFormat::EpochMicros),
        ("7.001", TimestampFormat::EpochNanos),
        ("1770000000123", TimestampFormat::EpochMillis),
        ("1770000000123456", TimestampFormat::EpochMicros),
        ("1770000000123456789", TimestampFormat::EpochNanos),
        ("3850027200.5", TimestampFormat::LabViewEpoch),
        ("46023.25", TimestampFormat::ExcelSerial),
    ];
    for (text, format) in cases {
        let timestamp = parse_timestamp(text, format).expect("must parse");
        assert!(can_format(&timestamp, format), "{text}");
        let written = format_timestamp(&timestamp, format);
        assert_eq!(written, text);
        assert_eq!(parse_timestamp(&written, format).expect("must parse"), timestamp);
    }
}

#[test]
fn an_unsupported_format_cannot_be_written() {
    let timestamp = Timestamp::new(0, TimeUnit::Nanoseconds);
    assert!(!can_format(&timestamp, TimestampFormat::DateTimeSpace));
    assert!(can_format(&timestamp, TimestampFormat::Iso8601Naive));
    let far = Timestamp::new(i128::MAX, TimeUnit::Nanoseconds);
    assert!(!can_format(&far, TimestampFormat::Iso8601Naive));
    assert!(can_format(&far, TimestampFormat::EpochNanos));
}

#[test]
fn a_scan_field_by_field_finds_what_the_whole_column_has() {
    let columns: [&[&str]; 7] = [
        &["2026-01-01T00:00:00Z", "2026-01-01T00:00:01Z"],
        &["25/01/2026 08:00:00", "01/02/2026 08:00:00"],
        &["01/02/2026 08:00:00", "03/04/2026 08:00:00"],
        &["3850027200", "3850027201"],
        &["46023", "46024.5"],
        &["1", "2"],
        &[],
    ];
    for fields in columns {
        let fields: Vec<String> = fields.iter().map(|f| f.to_string()).collect();
        let mut scan = TimestampFormatScan::new();
        for field in &fields {
            scan.observe(field);
        }
        assert_eq!(scan.finish(), infer_timestamp_format(&fields), "{fields:?}");
    }
}

#[test]
fn a_number_too_large_for_its_ticks_is_an_error() {
    let err = parse_timestamp(
        "170141183460469231731687303715884105727",
        TimestampFormat::ExcelSerial,
    )
    .expect_err("out of range");
    assert!(matches!(err, GlydeError::InvalidTimestamp { reason, .. } if reason == "number is out of range"));
    let err = parse_timestamp("1.", TimestampFormat::LabViewEpoch).expect_err("no number");
    assert!(matches!(err, GlydeError::InvalidTimestamp { reason, .. } if reason == "not a decimal number of seconds"));
}

#[test]
fn epoch_times_are_integers_or_floats() {
    let cases = [
        ("1770000000.0", TimestampFormat::EpochSeconds, 1_770_000_000, TimeUnit::Seconds),
        (" 1770000000.000 ", TimestampFormat::EpochSeconds, 1_770_000_000, TimeUnit::Seconds),
        ("+12.50", TimestampFormat::EpochSeconds, 12_500, TimeUnit::Milliseconds),
        ("0.1234", TimestampFormat::EpochSeconds, 123_400, TimeUnit::Microseconds),
        ("1.123456789", TimestampFormat::EpochSeconds, 1_123_456_789, TimeUnit::Nanoseconds),
        ("-1.5", TimestampFormat::EpochSeconds, -1_500, TimeUnit::Milliseconds),
        ("-0.5", TimestampFormat::EpochMillis, -500, TimeUnit::Microseconds),
        ("2.0", TimestampFormat::EpochMillis, 2, TimeUnit::Milliseconds),
        ("2.5", TimestampFormat::EpochMicros, 2_500, TimeUnit::Nanoseconds),
        ("2.5", TimestampFormat::EpochNanos, 2_500, TimeUnit::Picoseconds),
        ("9.0", TimestampFormat::EpochNanos, 9, TimeUnit::Nanoseconds),
    ];
    for (text, format, ticks, unit) in cases {
        let parsed = parse_timestamp(text, format);
        assert_eq!(parsed.expect("must parse"), Timestamp::new(ticks, unit), "{text}");
    }
}

#[test]
fn an_epoch_time_that_cannot_be_counted_says_why() {
    let reason = |text: &str, format: TimestampFormat| match parse_timestamp(text, format) {
        Err(GlydeError::InvalidTimestamp { reason, .. }) => reason,
        _ => panic!("{text} must be an error"),
    };
    assert_eq!(
        reason("0.0001", TimestampFormat::EpochNanos),
        "fraction is finer than a picosecond"
    );
    assert_eq!(
        reason(
            "170141183460469231731687303715884105727.5",
            TimestampFormat::EpochSeconds
        ),
        "number is out of range"
    );
    for text in ["1.", ".5", "1.5e3", "1.5.0", ""] {
        let _ = reason(text, TimestampFormat::EpochSeconds);
    }
}

#[test]
fn an_epoch_time_of_another_unit_is_written_as_it_is_counted() {
    let seconds = Timestamp::new(5, TimeUnit::Seconds);
    assert_eq!(format_timestamp(&seconds, TimestampFormat::EpochNanos), "5");
    let millis = Timestamp::new(-2_000, TimeUnit::Milliseconds);
    assert_eq!(format_timestamp(&millis, TimestampFormat::EpochSeconds), "-2");
    let least = Timestamp::new(i128::MIN, TimeUnit::Milliseconds);
    assert_eq!(
        format_timestamp(&least, TimestampFormat::EpochSeconds),
        "-170141183460469231731687303715884105.728"
    );
}

#[test]
fn a_fraction_gets_as_few_digits_as_spell_it() {
    let digits = |numerator: i128, denominator: i128, max: usize| -> String {
        fraction_to_decimal_digits(numerator, denominator, max)
            .into_iter()
            .collect()
    };
    assert_eq!(digits(1, 16, 9), "0625");
    assert_eq!(digits(1, 3, 4), "3333");
    assert_eq!(digits(1, 3, 20), "33333333333333333333");
    assert_eq!(digits(0, 7, 60), "0");
    assert_eq!(digits(1, i128::MAX, 3), "000");
    assert_eq!(digits(i128::MAX / 10, i128::MAX, 1), "0");
}

#[test]
fn a_year_of_five_digits_is_written_with_an_offset_but_not_read() {
    let far = Timestamp::with_offset(
        317_000_000_000 * 1_000_000_000_000,
        TimeUnit::Picoseconds,
        0,
    );
    let written = format_timestamp(&far, TimestampFormat::Iso8601WithOffset);
    assert_eq!(written, "+12015-05-01T11:33:20.000000000000+00:00");
    assert!(parse_timestamp(&written, TimestampFormat::Iso8601WithOffset).is_err());
}
