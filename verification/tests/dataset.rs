//! Tables: from the text of a file to typed columns and a time axis.

use glyde::budget::RamBudget;
use glyde::dsp::decimation::build_pyramid;
use glyde::index::bytes::ByteOrder;
use glyde::ingest::columns::normalize_decimal_field;
use glyde::ingest::csv::parse_capturing_all_columns_with_progress;
use glyde::ingest::spill_files::spill_files;
use glyde::ingest::storage::{choose_storage, Storage};
use glyde::ingest::{
    checkpoint_text, inspect, level0_for_dataset_cached, load, load_text, load_with_budget,
    make_checkpoint, open_dataset, open_dataset_with_budget, open_dataset_with_overrides,
    progressive_value_to_tick, pyramids_for, pyramids_for_dataset_cached, Checkpoint, Confidence,
    Dataset, DecimalSeparator, Delimiter, InferenceReport, InferredField, IngestOverrides,
    OpenSummary, ProgressiveValues, SamplingClass, TimeAxis, Timestamps,
};
use glyde::series::{Dtype, SeriesValues};
use glyde::time::{TimeUnit, Timestamp, TimestampFormat};
use glyde::view::inference_bar::Correction;
use glyde::view::status::{completed_message, Status, WindowState};
use glyde::{GlydeError, Result};

const CLEAN: &str = "timestamp,value,pressure\n\
    2026-01-01T00:00:00Z,1.5,101.3\n\
    2026-01-01T00:00:01Z,1.6,101.4\n\
    2026-01-01T00:00:02Z,1.7,101.5\n\
    2026-01-01T00:00:03Z,1.8,101.6\n\
    2026-01-01T00:00:04Z,1.9,101.7\n\
    2026-01-01T00:00:05Z,2.0,101.8\n";

const COMMA_DECIMALS: &str = "timestamp;value;pressure\n\
    2026-01-01T00:00:00Z;1,5;101,3\n\
    2026-01-01T00:00:01Z;1,6;101,4\n\
    2026-01-01T00:00:02Z;1,7;101,5\n\
    2026-01-01T00:00:03Z;1,8;101,6\n\
    2026-01-01T00:00:04Z;1,9;101,7\n\
    2026-01-01T00:00:05Z;2,0;101,8\n";

const RAGGED: &str = "timestamp,value,pressure\n\
    2026-01-01T00:00:00Z,1.0,101.3\n\
    2026-01-01T00:00:01Z,1.1\n\
    2026-01-01T00:00:02Z,1.2,101.5,extra\n\
    2026-01-01T00:00:03Z,1.3,101.6\n\
    2026-01-01T00:00:04Z,1.4,101.7\n";

const PROGRESSIVE: &str = "sample,value\n0,1.5\n1,1.6\n2,1.7\n3,1.8\n4,1.9\n5,2.0\n";

const AMBIGUOUS_DATES: &str = "timestamp,value\n\
    01/02/2026 08:00:00,1.5\n\
    01/02/2026 08:00:01,1.6\n\
    01/02/2026 08:00:02,1.7\n\
    01/02/2026 08:00:03,1.8\n\
    01/02/2026 08:00:04,1.9\n\
    01/02/2026 08:00:05,2.0\n";

fn bits(values: &[f64]) -> Vec<u64> {
    values.iter().map(|v| v.to_bits()).collect()
}

fn f64s(values: &[f64]) -> SeriesValues {
    SeriesValues::F64(bits(values))
}

/// Reads the numbers that are asked for.
fn numbers_of(requests: &[Vec<String>]) -> Vec<Vec<u64>> {
    requests
        .iter()
        .map(|texts| {
            texts
                .iter()
                .map(|text| text.parse::<f64>().expect("spells a number").to_bits())
                .collect()
        })
        .collect()
}

fn load_str(text: &str) -> Result<Dataset> {
    let loaded = load_text(
        "case.csv",
        Ok(text.as_bytes().to_vec()),
        IngestOverrides::default(),
    )?;
    let numbers = numbers_of(&loaded.number_requests());
    load(&loaded, &numbers)
}

fn open_bytes(bytes: &[u8]) -> Result<(OpenSummary, InferenceReport, Dataset)> {
    let loaded = load_text("case.csv", Ok(bytes.to_vec()), IngestOverrides::default())?;
    let numbers = numbers_of(&loaded.number_requests());
    open_dataset(loaded, &numbers)
}

fn open_str(text: &str) -> Result<(OpenSummary, InferenceReport, Dataset)> {
    open_bytes(text.as_bytes())
}

#[test]
fn corpus_case_01_loads_a_clean_csv_into_a_dataset() {
    let dataset = load_str(CLEAN).expect("must load");

    assert_eq!(dataset.time_column_name, "timestamp");
    assert_eq!(dataset.time.len(), 6);
    match &dataset.time {
        TimeAxis::Absolute { timestamps, format } => {
            assert_eq!(*format, TimestampFormat::Iso8601WithOffset);
            assert_eq!(timestamps.len(), 6);
        }
        TimeAxis::Progressive { .. } => panic!("the index is one of timestamps"),
    }

    assert_eq!(dataset.columns.len(), 2);
    assert_eq!(dataset.columns[0].name(), "value");
    assert!(dataset.columns[0]
        .values()
        .same_values(&f64s(&[1.5, 1.6, 1.7, 1.8, 1.9, 2.0])));
    assert_eq!(dataset.columns[1].name(), "pressure");
    assert_eq!(dataset.columns[1].dtype(), Dtype::F64);
    assert_eq!(dataset.columns[1].len(), 6);
    assert!(!dataset.is_spilled());
}

#[test]
fn corpus_case_02_comma_decimal_columns_infer_as_f64_not_string() {
    let dataset = load_str(COMMA_DECIMALS).expect("must load");

    assert!(dataset.columns[0]
        .values()
        .same_values(&f64s(&[1.5, 1.6, 1.7, 1.8, 1.9, 2.0])));
    assert!(dataset.columns[1]
        .values()
        .same_values(&f64s(&[101.3, 101.4, 101.5, 101.6, 101.7, 101.8])));
}

#[test]
fn corpus_case_21_ragged_rows_are_skipped_and_stay_aligned() {
    let dataset = load_str(RAGGED).expect("must load");

    assert_eq!(dataset.time.len(), 3);
    assert_eq!(dataset.columns[0].len(), 3);
    assert_eq!(dataset.columns[1].len(), 3);
    assert!(dataset.columns[0]
        .values()
        .same_values(&f64s(&[1.0, 1.3, 1.4])));
}

#[test]
fn corpus_case_35_progressive_index_loads_as_progressive_values() {
    let dataset = load_str(PROGRESSIVE).expect("must load");

    match &dataset.time {
        TimeAxis::Progressive { values } => {
            assert_eq!(values.to_vec(), bits(&[0.0, 1.0, 2.0, 3.0, 4.0, 5.0]));
        }
        TimeAxis::Absolute { .. } => panic!("there are no timestamps"),
    }
}

#[test]
fn to_pyramid_ticks_on_absolute_axis_returns_each_timestamps_own_ticks() {
    let time = TimeAxis::Absolute {
        timestamps: Timestamps::Memory(vec![
            Timestamp::new(0, TimeUnit::Nanoseconds),
            Timestamp::new(1_500_000_000, TimeUnit::Nanoseconds),
            Timestamp::new(3_000_000_000, TimeUnit::Nanoseconds),
        ]),
        format: TimestampFormat::EpochNanos,
    };

    assert_eq!(
        time.to_pyramid_ticks(),
        vec![0, 1_500_000_000, 3_000_000_000]
    );
}

#[test]
fn to_pyramid_ticks_on_progressive_axis_scales_by_the_fixed_point_factor() {
    let time = TimeAxis::Progressive {
        values: ProgressiveValues::Memory(bits(&[0.0, 1.0, 2.5, -3.25])),
    };

    assert_eq!(
        time.to_pyramid_ticks(),
        vec![0, 1_000_000_000, 2_500_000_000, -3_250_000_000]
    );
}

#[test]
fn to_pyramid_ticks_on_progressive_axis_preserves_monotonicity() {
    let dataset = load_str(PROGRESSIVE).expect("must load");

    let ticks = dataset.time.to_pyramid_ticks();
    assert_eq!(
        ticks,
        vec![
            0,
            1_000_000_000,
            2_000_000_000,
            3_000_000_000,
            4_000_000_000,
            5_000_000_000
        ]
    );
    assert!(
        ticks.windows(2).all(|pair| pair[0] <= pair[1]),
        "a progression that grows has ticks that grow"
    );
}

#[test]
fn progressive_value_and_tick_round_trip() {
    for value in [0.0, 1.0, -1.0, 0.1, 123.456, -9_999.5, 1e6, -1e-6] {
        let tick = progressive_value_to_tick(f64::to_bits(value));
        let recovered = tick as f64 / 1e9;
        assert!(
            (recovered - value).abs() < 1e-6,
            "value {value} round-tripped to {recovered} through tick {tick}"
        );
    }
}

#[test]
fn progressive_ticks_are_those_of_binary64_arithmetic() {
    for value in [
        0.0,
        -0.0,
        0.1,
        1.0 / 3.0,
        -2.0 / 3.0,
        4.999_999_999_5e-10,
        5e-10,
        -5e-10,
        1e-300,
        123_456_789.123_456_79,
        9.007_199_254_740_993e15,
        1.7e29,
        1.8e29,
        -1.8e29,
        1e300,
        f64::INFINITY,
        f64::NEG_INFINITY,
        f64::NAN,
        f64::MIN_POSITIVE,
        f64::MAX,
    ] {
        assert_eq!(
            progressive_value_to_tick(f64::to_bits(value)),
            (value * 1e9).round() as i128,
            "{value:e}"
        );
    }
}

#[test]
fn corpus_case_18_single_column_file_is_a_clean_error() {
    let err = load_str("timestamp\n2026-01-01T00:00:00Z\n2026-01-01T00:00:01Z\n")
        .err()
        .expect("a single-column file must be rejected");

    assert!(matches!(err, GlydeError::SingleColumnFile));
}

#[test]
fn load_reports_a_missing_file_instead_of_panicking() {
    let err = load_text(
        "/nonexistent/glyde-dataset-test.csv",
        Err("No such file or directory".to_string()),
        IngestOverrides::default(),
    )
    .err()
    .expect("a missing file must be a reported error");

    assert!(matches!(err, GlydeError::Io { .. }));
}

#[test]
fn a_time_column_that_is_no_time_is_an_error() {
    let err = load_str("t,v\nabc,1\ndef,2\n").err();
    assert!(matches!(err, Some(GlydeError::NonNumericTimeIndex { input }) if input == "abc"));
}

fn many_rows(row_count: u64) -> Vec<u8> {
    let mut text = String::from("index,value\n");
    for i in 0..row_count {
        text.push_str(&format!("{i},{}\n", i as f64 * 0.5));
    }
    text.into_bytes()
}

/// Loads a file and keeps what there is at every checkpoint.
fn load_in_steps(bytes: &[u8]) -> (Dataset, Vec<Checkpoint>) {
    let mut scan = parse_capturing_all_columns_with_progress(bytes, IngestOverrides::default())
        .expect("must parse");
    let mut checkpoints = Vec::new();
    while scan.advance() {
        let part = checkpoint_text(&scan, None);
        let numbers = numbers_of(&part.number_requests());
        if let Some(checkpoint) = make_checkpoint(&part, &numbers) {
            checkpoints.push(checkpoint);
        }
    }
    let whole = checkpoint_text(&scan, None);
    let numbers = numbers_of(&whole.number_requests());
    (load(&whole, &numbers).expect("must load"), checkpoints)
}

fn load_at_once(bytes: &[u8]) -> Dataset {
    let loaded = load_text("case.csv", Ok(bytes.to_vec()), IngestOverrides::default())
        .expect("must parse");
    let numbers = numbers_of(&loaded.number_requests());
    load(&loaded, &numbers).expect("must load")
}

#[test]
fn load_with_outcome_progressive_checkpoints_are_true_prefixes_of_the_final_dataset() {
    let bytes = many_rows(70_000);
    let (final_dataset, checkpoints) = load_in_steps(&bytes);

    assert!(
        final_dataset.same_as(&load_at_once(&bytes)),
        "progress reporting must not change the final table"
    );
    assert!(
        checkpoints.len() >= 2,
        "70k rows must cross the first two checkpoints"
    );

    let TimeAxis::Progressive { values } = &final_dataset.time else {
        panic!("expected a progression");
    };
    let all_values = values.to_vec();
    for checkpoint in &checkpoints {
        let rows = checkpoint.rows_read as usize;
        assert_eq!(checkpoint.dataset.time.len(), rows);
        let TimeAxis::Progressive { values } = &checkpoint.dataset.time else {
            panic!("expected a progression");
        };
        assert_eq!(values.to_vec(), all_values[..rows]);
        assert_eq!(
            checkpoint.dataset.columns.len(),
            final_dataset.columns.len()
        );
        for (checkpoint_col, final_col) in checkpoint
            .dataset
            .columns
            .iter()
            .zip(&final_dataset.columns)
        {
            let part = checkpoint_col.values().as_f64_slice().expect("numbers");
            let whole = final_col.values().as_f64_slice().expect("numbers");
            assert_eq!(part, &whole[..part.len()]);
        }
    }
}

#[test]
fn load_with_outcome_progressive_checkpoint_pyramids_match_build_pyramid_on_the_same_prefix() {
    let (_, checkpoints) = load_in_steps(&many_rows(70_000));

    assert!(!checkpoints.is_empty());
    for checkpoint in &checkpoints {
        let ticks = checkpoint.dataset.time.to_pyramid_ticks();
        assert_eq!(checkpoint.pyramids.len(), checkpoint.dataset.columns.len());
        for (pyramid, column) in checkpoint.pyramids.iter().zip(&checkpoint.dataset.columns) {
            let samples = column.values().to_f64_vec().expect("numeric column");
            let expected = build_pyramid(&samples, &ticks);
            assert_eq!(pyramid.as_ref(), Some(&expected));
        }
    }
}

#[test]
fn load_with_outcome_progressive_never_checkpoints_a_small_file() {
    let (dataset, checkpoints) = load_in_steps(&many_rows(5));

    assert_eq!(checkpoints.len(), 0);
    assert_eq!(dataset.time.len(), 5);
}

#[test]
fn load_progressive_agrees_with_load_and_reports_checkpoints() {
    let bytes = many_rows(70_000);
    let (dataset, checkpoints) = load_in_steps(&bytes);

    assert!(dataset.same_as(&load_at_once(&bytes)));
    assert!(!checkpoints.is_empty());
}

#[test]
fn open_dataset_agrees_with_inspect_and_load_for_an_absolute_timestamp_file() {
    let (summary, _report, dataset) = open_str(CLEAN).expect("must open");
    let expected = inspect("case.csv", Ok(CLEAN.as_bytes().to_vec())).expect("must inspect");

    assert_eq!(summary, expected);
    assert!(dataset.same_as(&load_str(CLEAN).expect("must load")));
}

#[test]
fn open_dataset_agrees_with_inspect_and_load_for_a_progressive_index_file() {
    let (summary, _report, dataset) = open_str(PROGRESSIVE).expect("must open");
    let expected = inspect("case.csv", Ok(PROGRESSIVE.as_bytes().to_vec())).expect("must inspect");

    assert_eq!(summary, expected);
    assert!(dataset.same_as(&load_str(PROGRESSIVE).expect("must load")));
}

#[test]
fn open_dataset_agrees_with_inspect_and_load_for_ragged_rows() {
    let (summary, _report, dataset) = open_str(RAGGED).expect("must open");
    let expected = inspect("case.csv", Ok(RAGGED.as_bytes().to_vec())).expect("must inspect");

    assert_eq!(summary, expected);
    assert!(dataset.same_as(&load_str(RAGGED).expect("must load")));
}

fn sure<T>(value: T) -> InferredField<T> {
    InferredField {
        value,
        confidence: Confidence::High,
    }
}

#[test]
fn inference_report_snapshot_for_a_clean_comma_file() {
    let (summary, report, _dataset) = open_str(CLEAN).expect("must open");

    assert_eq!(
        report,
        InferenceReport {
            encoding: sure("utf-8".to_string()),
            delimiter: sure(Some(",".to_string())),
            decimal_separator: sure(Some(".".to_string())),
            time_column: sure(Some("timestamp".to_string())),
            timestamp_format: sure(Some("iso8601".to_string())),
            sample_count: 6,
            sampling_class: SamplingClass::Uniform,
        }
    );
    assert_eq!(
        summary,
        OpenSummary {
            encoding: "utf-8".to_string(),
            delimiter: Some(",".to_string()),
            decimal_separator: Some(".".to_string()),
            time_column: Some("timestamp".to_string()),
            timestamp_format: Some("iso8601".to_string()),
            row_count: 6,
            skipped_row_count: 0,
            sampling_class: SamplingClass::Uniform,
            gap_count: 0,
            non_monotonic_count: 0,
            duplicate_timestamp_count: 0,
        }
    );
}

#[test]
fn inference_report_snapshot_for_a_low_confidence_encoding_file() {
    let mut bytes = b"timestamp,temperature [".to_vec();
    bytes.push(0xb0);
    bytes.extend_from_slice(b"C],acceleration [");
    bytes.push(0xb5);
    bytes.extend_from_slice(b"m/s");
    bytes.push(0xb2);
    bytes.extend_from_slice(b"]\n2026-01-01T00:00:00Z,20.5,1.5\n2026-01-01T00:00:01Z,20.6,1.6\n");
    let (_summary, report, dataset) = open_bytes(&bytes).expect("must open");

    assert_eq!(report.encoding.confidence, Confidence::Low);
    assert_eq!(report.encoding.value, "windows-1252");
    assert_eq!(report.delimiter, sure(Some(",".to_string())));
    assert_eq!(report.time_column, sure(Some("timestamp".to_string())));
    assert_eq!(dataset.columns[0].name(), "temperature [\u{b0}C]");
}

#[test]
fn inference_report_reports_low_confidence_timestamp_format_for_fully_ambiguous_dates() {
    let (_summary, report, _dataset) = open_str(AMBIGUOUS_DATES).expect("must open");

    assert_eq!(
        report.timestamp_format.value,
        Some("dd_mm_yyyy".to_string())
    );
    assert_eq!(report.timestamp_format.confidence, Confidence::Low);
    assert_eq!(report.encoding.confidence, Confidence::High);
    assert_eq!(report.delimiter.confidence, Confidence::High);
    assert_eq!(report.time_column.confidence, Confidence::High);
}

#[test]
fn inference_report_reports_low_confidence_time_column_for_an_ambiguous_header() {
    let (_summary, report, dataset) = open_str(
        "notes\n\
         2026-01-01T00:00:00Z,1.5\n\
         2026-01-01T00:00:01Z,1.6\n\
         2026-01-01T00:00:02Z,1.7\n",
    )
    .expect("must open");

    assert_eq!(dataset.time_column_name, "column_0");
    assert_eq!(report.time_column.value, Some("column_0".to_string()));
    assert_eq!(report.time_column.confidence, Confidence::Low);
    assert_eq!(report.timestamp_format.confidence, Confidence::High);
}

#[test]
fn open_dataset_reports_a_missing_file_instead_of_panicking() {
    let err = inspect(
        "/nonexistent/glyde-report-test.csv",
        Err("No such file or directory".to_string()),
    )
    .expect_err("a missing file must be a reported error");
    assert!(matches!(err, GlydeError::Io { .. }));

    let err = load_text(
        "/nonexistent/glyde-report-test.csv",
        Err("No such file or directory".to_string()),
        IngestOverrides::default(),
    )
    .err()
    .expect("a missing file must be a reported error");
    assert!(matches!(err, GlydeError::Io { .. }));
}

#[test]
fn has_low_confidence_field_is_false_for_an_unambiguous_file() {
    let (_summary, report, _dataset) = open_str(CLEAN).expect("must open");

    assert!(!report.has_low_confidence_field());
}

#[test]
fn has_low_confidence_field_is_true_when_one_field_is_low() {
    let (_summary, report, _dataset) = open_str(AMBIGUOUS_DATES).expect("must open");

    assert!(report.has_low_confidence_field());
}

#[test]
fn a_progression_has_no_format_and_no_gaps() {
    let (summary, report, _) = open_str(PROGRESSIVE).expect("must open");
    assert_eq!(summary.time_column, None);
    assert_eq!(summary.timestamp_format, None);
    assert_eq!(summary.sampling_class, SamplingClass::ProgressiveIndex);
    assert_eq!(summary.gap_count, 0);
    assert_eq!(report.timestamp_format, sure(None));
}

#[test]
fn empty_and_single_column_files_are_told_apart() {
    assert!(matches!(
        inspect("a.csv", Ok(Vec::new())),
        Err(GlydeError::EmptyFile)
    ));
    assert!(matches!(
        inspect("a.csv", Ok(b"t\n1\n2\n".to_vec())),
        Err(GlydeError::SingleColumnFile)
    ));
}

const MIXED: &str = "t,flag,count,level,state\n\
    2026-01-01T00:00:00+01:00,true,1,1.5,running\n\
    2026-01-01T00:00:01+01:00,FALSE,-2,nan,\n\
    2026-03-30T00:00:02+02:00,True,9007199254740993,inf,idle\n\
    bad row\n\
    2026-03-30T00:00:03.0000000000015+02:00,false,4,-1e3,\u{b0}C\n";

fn load_mixed(cap: u64) -> (Dataset, bool) {
    let loaded = load_text(
        "mixed.csv",
        Ok(MIXED.as_bytes().to_vec()),
        IngestOverrides::default(),
    )
    .expect("must parse");
    let numbers = numbers_of(&loaded.number_requests());
    let (outcome, dataset, ambiguous) = load_with_budget(
        MIXED.as_bytes(),
        IngestOverrides::default(),
        &numbers,
        100,
        RamBudget::from_total_ram_bytes(4 * cap),
        true,
        ByteOrder::Little,
    )
    .expect("must load");
    assert_eq!(outcome.row_count, 4);
    assert_eq!(outcome.skipped_row_count, 1);
    (dataset, ambiguous)
}

#[test]
fn columns_get_the_narrowest_type_that_every_field_has() {
    let (dataset, _) = load_mixed(100);
    let types: Vec<Dtype> = dataset.columns.iter().map(|c| c.dtype()).collect();
    assert_eq!(
        types,
        vec![Dtype::Bool, Dtype::I64, Dtype::F64, Dtype::String]
    );
    assert!(dataset.columns[0]
        .values()
        .same_values(&SeriesValues::Bool(vec![true, false, true, false])));
    assert!(dataset.columns[1]
        .values()
        .same_values(&SeriesValues::I64(vec![1, -2, 9_007_199_254_740_993, 4])));
    assert_eq!(dataset.columns[2].anomalies().nan_runs, vec![1..2]);
    assert!(dataset.columns[3].values().same_values(&SeriesValues::String(
        ["running", "", "idle", "\u{b0}C"]
            .iter()
            .map(|s| s.to_string())
            .collect()
    )));
}

#[test]
fn a_spilled_table_holds_the_same_values_as_one_in_memory() {
    let (in_memory, p) = load_mixed(100);
    let (spilled, q) = load_mixed(99);
    assert!(!in_memory.is_spilled());
    assert!(spilled.is_spilled());
    assert_eq!(p, q);

    let TimeAxis::Absolute { timestamps: a, .. } = &in_memory.time else {
        panic!("expected timestamps");
    };
    let TimeAxis::Absolute { timestamps: b, .. } = &spilled.time else {
        panic!("expected timestamps");
    };
    assert!(a.same_values(b));
    assert_eq!(
        b.get(3).expect("a row").unit,
        TimeUnit::Picoseconds,
        "the unit of a row is its own"
    );
    assert_eq!(b.get(0).expect("a row").offset_seconds, Some(3_600));
    assert_eq!(b.get(2).expect("a row").offset_seconds, Some(7_200));

    assert_eq!(
        in_memory.time.to_pyramid_ticks(),
        spilled.time.to_pyramid_ticks()
    );
    for (x, y) in in_memory.columns.iter().zip(&spilled.columns) {
        assert_eq!(x.name(), y.name());
        assert_eq!(x.dtype(), y.dtype());
        assert_eq!(x.values().to_f64_vec(), y.values().to_f64_vec());
        assert_eq!(x.anomalies(), y.anomalies());
    }
    assert!(in_memory.columns[0].same_as(&spilled.columns[0]));
    assert!(in_memory.columns[1].same_as(&spilled.columns[1]));
    assert!(in_memory.columns[3].same_as(&spilled.columns[3]));
    assert!(
        !in_memory.columns[2].same_as(&spilled.columns[2]),
        "a NaN equals nothing, itself included"
    );
}

#[test]
fn a_spilled_progression_equals_one_in_memory() {
    let loaded = load_text(
        "p.csv",
        Ok(PROGRESSIVE.as_bytes().to_vec()),
        IngestOverrides::default(),
    )
    .expect("must parse");
    let numbers = numbers_of(&loaded.number_requests());
    let open = |estimated: u64| {
        open_dataset_with_budget(
            PROGRESSIVE.as_bytes(),
            IngestOverrides::default(),
            &numbers,
            estimated,
            RamBudget::from_total_ram_bytes(400),
            true,
            ByteOrder::Big,
        )
        .expect("must open")
    };
    let (reported, spilled) = open(101);
    let (reported_too, in_memory) = open(100);
    assert!(spilled.is_spilled() && !in_memory.is_spilled());
    assert!(spilled.same_as(&in_memory));
    assert_eq!(reported, reported_too);
}

#[test]
fn storage_is_chosen_before_anything_is_read() {
    let budget = RamBudget::from_total_ram_bytes(400);
    assert!(matches!(
        choose_storage(100, budget, false),
        Ok(Storage::InMemory)
    ));
    assert!(matches!(
        choose_storage(101, budget, true),
        Ok(Storage::Spill)
    ));
    assert!(matches!(
        choose_storage(101, budget, false),
        Err(GlydeError::BudgetExceeded {
            requested_bytes: 101,
            cap_bytes: 100
        })
    ));
}

#[test]
fn a_swapped_date_order_changes_the_instants() {
    let overrides = IngestOverrides {
        timestamp_format: Some(TimestampFormat::MonthFirst),
        ..IngestOverrides::default()
    };
    let loaded = load_text(
        "d.csv",
        Ok(AMBIGUOUS_DATES.as_bytes().to_vec()),
        overrides,
    )
    .expect("must parse");
    let numbers = numbers_of(&loaded.number_requests());
    let (reported, dataset) = open_dataset_with_overrides(loaded, &numbers).expect("must open");
    let (summary, report) = reported.expect("must be reported");
    assert_eq!(summary.timestamp_format, Some("mm_dd_yyyy".to_string()));
    assert_eq!(report.timestamp_format.confidence, Confidence::High);
    // The second of January.
    assert_eq!(
        dataset.time.to_pyramid_ticks()[0],
        1_767_340_800_000_000_000
    );
}

#[test]
fn apply_correction_re_indexes_the_file_with_the_override_applied() {
    let text = "timestamp;value\n2026-01-01T00:00:00Z;1,5\n2026-01-01T00:00:01Z;2,5\n";
    let mut state = WindowState::new();
    state.generation = 1;
    let job = state.apply_correction(
        "comma-decimal.csv",
        Correction::DecimalSeparator(DecimalSeparator::Comma),
    );
    assert_eq!(state.generation, 2);
    match &state.status {
        Status::Loading { path, .. } => assert_eq!(path, "comma-decimal.csv"),
        _ => panic!("a correction must switch immediately to Loading"),
    }

    let loaded = load_text(&job.path, Ok(text.as_bytes().to_vec()), job.overrides)
        .expect("must parse");
    let numbers = numbers_of(&loaded.number_requests());
    let (reported, dataset) = open_dataset_with_overrides(loaded, &numbers).expect("must open");
    let (summary, report) = reported.expect("must be reported");
    let pyramids = pyramids_for(&dataset);
    assert!(state.receive(completed_message(
        job.generation,
        &job.path,
        summary,
        report,
        dataset,
        pyramids,
        vec![None],
    )));
    match &state.status {
        Status::Loaded {
            report, dataset, ..
        } => {
            assert_eq!(report.decimal_separator.value.as_deref(), Some(","));
            assert_eq!(report.decimal_separator.confidence, Confidence::High);
            assert!(
                dataset.columns[0]
                    .values()
                    .same_values(&f64s(&[1.5, 2.5])),
                "the comma-decimal override must actually change the parsed values, \
                 not just the reported confidence"
            );
        }
        _ => panic!("expected a loaded file"),
    }
}

#[test]
fn ticks_too_far_apart_have_a_table_but_no_report() {
    let text = "t,v\n-170141183460469231731687303715884105728,1\n170141183460469231731687303715884105727,2\n";
    let overrides = IngestOverrides {
        timestamp_format: Some(TimestampFormat::EpochSeconds),
        ..IngestOverrides::default()
    };
    let loaded =
        load_text("f.csv", Ok(text.as_bytes().to_vec()), overrides).expect("must parse");
    let numbers = numbers_of(&loaded.number_requests());
    let (reported, dataset) = open_dataset_with_overrides(loaded, &numbers).expect("must open");
    assert!(reported.is_none());
    assert_eq!(dataset.time.len(), 2);
}

#[test]
fn decimal_commas_are_rewritten_only_in_numbers_and_only_under_the_comma() {
    let comma = DecimalSeparator::Comma;
    assert_eq!(normalize_decimal_field("1,5", comma), "1.5");
    assert_eq!(normalize_decimal_field("1,5", DecimalSeparator::Dot), "1,5");
    assert_eq!(normalize_decimal_field("a,b", comma), "a,b");
    assert_eq!(normalize_decimal_field("1.5", comma), "1.5");
    assert_eq!(Delimiter::Comma.as_str(), ",");
}

#[test]
fn pyramids_come_from_usable_cache_files() {
    let (dataset, _) = load_mixed(100);
    let built = pyramids_for(&dataset);
    assert!(built[0].is_none() && built[3].is_none());

    let cached = pyramids_for_dataset_cached(&dataset, &[], ByteOrder::Little);
    let files: Vec<Option<Vec<u8>>> = cached.iter().map(|one| one.to_write.clone()).collect();
    for (one, pyramid) in cached.iter().zip(&built) {
        assert_eq!(&one.pyramid, pyramid);
    }
    let again = pyramids_for_dataset_cached(&dataset, &files, ByteOrder::Little);
    for (one, pyramid) in again.iter().zip(&built) {
        assert_eq!(&one.pyramid, pyramid);
        assert!(one.to_write.is_none());
    }
}

#[test]
fn cached_samples_come_from_usable_cache_files() {
    let (dataset, _) = load_mixed(100);
    let cached = level0_for_dataset_cached(&dataset, &[], &[], ByteOrder::Little);
    assert!(cached[0].cache.is_none());
    let numbers = cached[1].cache.as_ref().expect("numbers");
    assert_eq!(
        Some(numbers.samples().to_vec()),
        dataset.columns[1].values().to_f64_vec()
    );
    let timestamps: Vec<Option<Vec<u8>>> = cached
        .iter()
        .map(|one| one.to_write.as_ref().map(|files| files.timestamps.clone()))
        .collect();
    let values: Vec<Option<Vec<u8>>> = cached
        .iter()
        .map(|one| one.to_write.as_ref().map(|files| files.values.clone()))
        .collect();
    let again = level0_for_dataset_cached(&dataset, &timestamps, &values, ByteOrder::Little);
    for (one, other) in again.iter().zip(&cached) {
        assert_eq!(one.cache, other.cache);
        assert!(one.to_write.is_none());
    }
}

#[test]
fn a_spilled_table_has_files_and_one_in_memory_has_none() {
    let (in_memory, _) = load_mixed(100);
    assert!(spill_files(&in_memory, "stem").is_empty());

    let (spilled, _) = load_mixed(99);
    let files = spill_files(&spilled, "stem");
    let names: Vec<&str> = files.iter().map(|file| file.name.as_str()).collect();
    assert_eq!(
        names,
        vec![
            "stem.ts.glysp",
            "stem.tsunit.glysp",
            "stem.tsoffset.glysp",
            "stem.c0.glysp",
            "stem.c1.glysp",
            "stem.c2.glysp",
            "stem.c3.arena.glysp",
            "stem.c3.ends.glysp",
        ]
    );
    for file in &files {
        assert_eq!(&file.bytes[..8], b"GLYDESP\0");
    }
    assert_eq!(files[6].bytes[16..].to_vec(), "runningidle\u{b0}C".as_bytes());
}

#[test]
fn spill_files_have_their_bytes_in_the_given_order() {
    let loaded = load_text(
        "mixed.csv",
        Ok(MIXED.as_bytes().to_vec()),
        IngestOverrides::default(),
    )
    .expect("must parse");
    let numbers = numbers_of(&loaded.number_requests());
    let spilled_in = |order: ByteOrder| {
        load_with_budget(
            MIXED.as_bytes(),
            IngestOverrides::default(),
            &numbers,
            100,
            RamBudget::from_total_ram_bytes(4),
            true,
            order,
        )
        .expect("must load")
        .1
    };
    let little = spilled_in(ByteOrder::Little);
    let big = spilled_in(ByteOrder::Big);
    let ends_of = |dataset: &Dataset| spill_files(dataset, "s")[7].bytes[16..24].to_vec();
    assert_eq!(ends_of(&little), 7u64.to_le_bytes());
    assert_eq!(ends_of(&big), 7u64.to_be_bytes());
    let numbers_in = |dataset: &Dataset| spill_files(dataset, "s")[4].bytes[16..24].to_vec();
    assert_eq!(numbers_in(&little), 1i64.to_le_bytes());
    assert_eq!(numbers_in(&big), 1i64.to_be_bytes());
    assert!(little.time.same_as(&big.time));
    assert!(little.columns[3].same_as(&big.columns[3]));
}

fn load_epoch_seconds(text: &str, cap: u64) -> Result<Dataset> {
    let overrides = IngestOverrides {
        timestamp_format: Some(TimestampFormat::EpochSeconds),
        ..IngestOverrides::default()
    };
    let loaded = load_text("e.csv", Ok(text.as_bytes().to_vec()), overrides)?;
    let numbers = numbers_of(&loaded.number_requests());
    let (_, dataset) = open_dataset_with_budget(
        text.as_bytes(),
        overrides,
        &numbers,
        100,
        RamBudget::from_total_ram_bytes(4 * cap),
        true,
        ByteOrder::Little,
    )?;
    Ok(dataset)
}

#[test]
fn epoch_times_of_one_column_are_counted_in_one_unit() {
    let text = "t,v\n1,1\n1.5,2\n2.000,3\n2.0005,4\n-3,5\n";
    for cap in [100, 99] {
        let dataset = load_epoch_seconds(text, cap).expect("must open");
        assert_eq!(dataset.is_spilled(), cap == 99);
        assert_eq!(
            dataset.time.to_pyramid_ticks(),
            vec![1_000_000, 1_500_000, 2_000_000, 2_000_500, -3_000_000]
        );
        let TimeAxis::Absolute { timestamps, .. } = &dataset.time else {
            panic!("expected timestamps");
        };
        for row in 0..timestamps.len() {
            assert_eq!(
                timestamps.get(row).expect("a row").unit,
                TimeUnit::Microseconds
            );
        }

        let whole = load_epoch_seconds("t,v\n1,1\n2.0,2\n3,3\n", cap).expect("must open");
        assert_eq!(whole.time.to_pyramid_ticks(), vec![1, 2, 3]);
    }
}

#[test]
fn evenly_spaced_decimal_epoch_times_are_uniform() {
    let text = "t,v\n0,1\n0.5,2\n1,3\n1.5,4\n2,5\n2.5,6\n3,7\n";
    let overrides = IngestOverrides {
        timestamp_format: Some(TimestampFormat::EpochSeconds),
        ..IngestOverrides::default()
    };
    let loaded = load_text("e.csv", Ok(text.as_bytes().to_vec()), overrides).expect("must parse");
    let numbers = numbers_of(&loaded.number_requests());
    let (reported, _) = open_dataset_with_overrides(loaded, &numbers).expect("must open");
    let (summary, _) = reported.expect("must be reported");
    assert_eq!(summary.sampling_class, SamplingClass::Uniform);
    assert_eq!(summary.non_monotonic_count, 0);
    assert_eq!(summary.gap_count, 0);
}

#[test]
fn an_epoch_time_too_large_for_the_unit_of_its_column_is_an_error() {
    let text = "t,v\n170141183460469231731687303715884105727,1\n0.5,2\n";
    for cap in [100, 99] {
        match load_epoch_seconds(text, cap) {
            Err(GlydeError::InvalidTimestamp { input, reason, .. }) => {
                assert_eq!(input, "170141183460469231731687303715884105727");
                assert_eq!(reason, "number is out of range");
            }
            _ => panic!("expected a timestamp that is out of range"),
        }
    }
}
