//! What the window shows, and the messages of a job.

use glyde::dsp::decimation::Bucket;
use glyde::index::bytes::ByteOrder;
use glyde::ingest::{
    level0_for_dataset_cached, load_text, make_checkpoint, open_dataset, pyramids_for, Confidence, Dataset,
    DecimalSeparator, Delimiter, InferenceReport, InferredField, IngestOverrides, OpenSummary,
    SamplingClass, TimeAxis, Timestamps,
};
use glyde::series::{Series, SeriesValues};
use glyde::time::{TimeUnit, Timestamp, TimestampFormat};
use glyde::view::inference_bar::Correction;
use glyde::view::status::{
    begin_job, completed_message, failed_message, loading_label, progress_message,
    IndexingMessage, Status, WindowState,
};
use glyde::GlydeError;

fn sample_summary() -> OpenSummary {
    OpenSummary {
        encoding: "utf-8".to_string(),
        delimiter: Some(",".to_string()),
        decimal_separator: Some(".".to_string()),
        time_column: Some("timestamp".to_string()),
        timestamp_format: Some("iso8601".to_string()),
        row_count: 1,
        skipped_row_count: 0,
        sampling_class: SamplingClass::Uniform,
        gap_count: 0,
        non_monotonic_count: 0,
        duplicate_timestamp_count: 0,
    }
}

fn sure<T>(value: T) -> InferredField<T> {
    InferredField {
        value,
        confidence: Confidence::High,
    }
}

fn sample_report() -> InferenceReport {
    InferenceReport {
        encoding: sure("utf-8".to_string()),
        delimiter: sure(Some(",".to_string())),
        decimal_separator: sure(Some(".".to_string())),
        time_column: sure(Some("timestamp".to_string())),
        timestamp_format: sure(Some("iso8601".to_string())),
        sample_count: 1,
        sampling_class: SamplingClass::Uniform,
    }
}

fn sample_dataset() -> Dataset {
    Dataset {
        time: TimeAxis::Absolute {
            timestamps: Timestamps::Memory(vec![Timestamp::new(0, TimeUnit::Seconds)]),
            format: TimestampFormat::EpochSeconds,
        },
        time_column_name: "timestamp".to_string(),
        columns: vec![Series::new(
            "value".to_string(),
            SeriesValues::F64(vec![1.0f64.to_bits()]),
        )],
    }
}

fn sample_pyramids() -> Vec<Option<Vec<Vec<Bucket>>>> {
    vec![None]
}

fn sample_completed(generation: u64) -> IndexingMessage {
    IndexingMessage::Completed {
        generation,
        path: "a.csv".to_string(),
        summary: sample_summary(),
        report: sample_report(),
        dataset: sample_dataset(),
        pyramids: sample_pyramids(),
        level0_caches: Vec::new(),
    }
}

fn sample_progress(path: &str, rows_read: u64, spilled: bool) -> IndexingMessage {
    IndexingMessage::Progress {
        generation: 1,
        path: path.to_string(),
        dataset: sample_dataset(),
        pyramids: sample_pyramids(),
        rows_read,
        spilled,
    }
}

fn loading(path: &str, generation: u64) -> WindowState {
    let mut state = WindowState::new();
    state.generation = generation;
    state.status = Status::Loading {
        path: path.to_string(),
        partial: None,
    };
    state
}

#[test]
fn a_stale_message_from_a_superseded_open_does_not_overwrite_the_current_status() {
    let mut state = loading("b.csv", 2);

    assert!(!state.receive(sample_completed(1)));

    match &state.status {
        Status::Loading { path, .. } => assert_eq!(path, "b.csv"),
        _ => panic!("a message from a superseded generation must not change the current status"),
    }
}

#[test]
fn a_progress_message_attaches_a_partial_dataset_to_the_loading_status() {
    let mut state = WindowState::new();
    state.generation = 1;

    assert!(state.receive(sample_progress("a.csv", 1, false)));

    match &state.status {
        Status::Loading {
            path,
            partial: Some(partial),
        } => {
            assert_eq!(path, "a.csv");
            assert_eq!(partial.rows_read, 1);
            assert!(!partial.spilled);
            assert_eq!(partial.ticks, vec![0]);
            assert_eq!(partial.sample_cache, vec![None]);
        }
        _ => panic!("expected a Loading status with a partial dataset attached"),
    }
}

#[test]
fn a_spilled_progress_message_carries_the_storage_decision_to_the_status() {
    let mut state = WindowState::new();
    state.generation = 1;

    state.receive(sample_progress("huge.csv", 200_000, true));

    match &state.status {
        Status::Loading {
            partial: Some(partial),
            ..
        } => assert!(partial.spilled),
        _ => panic!("expected a Loading status with a partial dataset attached"),
    }
}

#[test]
fn the_loading_label_explains_a_spilled_open_and_stays_quiet_otherwise() {
    let ordinary = loading_label("recording.csv", 40_000, false);
    assert_eq!(
        ordinary,
        "Indexing recording.csv\u{2026} 40000 rows so far"
    );

    let spilled = loading_label("recording.csv", 40_000, true);
    assert!(spilled.starts_with("Indexing recording.csv\u{2026} 40000 rows so far"));
    assert!(
        spilled.contains("too large to hold in memory"),
        "the explanation must name the reason, not just the symptom: {spilled}"
    );
    assert!(spilled.contains("streaming it to disk"), "{spilled}");
    assert!(spilled.contains("stops growing"), "{spilled}");
}

#[test]
fn a_stale_progress_message_does_not_overwrite_the_current_status() {
    let mut state = loading("b.csv", 2);

    assert!(!state.receive(sample_progress("a.csv", 1, false)));

    match &state.status {
        Status::Loading { path, partial } => {
            assert_eq!(path, "b.csv");
            assert!(partial.is_none());
        }
        _ => panic!("a stale Progress message must not change the current status"),
    }
}

#[test]
fn a_current_generation_message_updates_the_status() {
    let mut state = WindowState::new();
    state.generation = 1;

    assert!(state.receive(sample_completed(1)));

    match &state.status {
        Status::Loaded { path, ticks, .. } => {
            assert_eq!(path, "a.csv");
            assert_eq!(ticks, &vec![0]);
        }
        _ => panic!("expected a current-generation message to be applied"),
    }
}

#[test]
fn a_failure_is_shown_with_its_reason() {
    let mut state = loading("a.csv", 3);
    assert!(state.receive(failed_message(3, "a.csv", &GlydeError::EmptyFile)));
    match &state.status {
        Status::Failed { path, message } => {
            assert_eq!(path, "a.csv");
            assert_eq!(message, &GlydeError::EmptyFile.message());
        }
        _ => panic!("expected a failure"),
    }
}

#[test]
fn open_resets_overrides_left_over_from_a_previous_file() {
    let mut state = WindowState::new();
    state.overrides.delimiter = Some(Delimiter::Pipe);

    let job = state.open("does-not-exist-glyde-app-test.csv");

    assert_eq!(state.overrides, IngestOverrides::default());
    assert_eq!(job.overrides, IngestOverrides::default());
    assert_eq!((job.generation, state.generation), (1, 1));
    assert_eq!(job.path, "does-not-exist-glyde-app-test.csv");
}

#[test]
fn apply_correction_accumulates_overrides_and_bumps_the_generation() {
    let mut state = WindowState::new();
    state.generation = 1;
    let path = "does-not-exist-glyde-app-test.csv";

    state.apply_correction(path, Correction::Delimiter(Delimiter::Semicolon));
    assert_eq!(state.overrides.delimiter, Some(Delimiter::Semicolon));
    assert!(state.overrides.decimal_separator.is_none());
    assert_eq!(state.generation, 2);

    let job =
        state.apply_correction(path, Correction::DecimalSeparator(DecimalSeparator::Comma));
    assert_eq!(
        state.overrides.delimiter,
        Some(Delimiter::Semicolon),
        "a later correction must not clear an earlier one"
    );
    assert_eq!(
        state.overrides.decimal_separator,
        Some(DecimalSeparator::Comma)
    );
    assert_eq!(state.generation, 3);
    assert_eq!(job.overrides, state.overrides);

    state.apply_correction(path, Correction::TimestampFormat(TimestampFormat::DayFirst));
    assert_eq!(
        state.overrides.timestamp_format,
        Some(TimestampFormat::DayFirst)
    );
}

#[test]
fn asking_for_a_file_makes_earlier_messages_stale() {
    let mut state = loading("a.csv", 1);
    assert_eq!(state.open_dialog(), 2);
    assert!(!state.receive(sample_completed(1)));
    assert!(matches!(state.status, Status::Loading { .. }));
}

fn numbers_of(requests: &[Vec<String>]) -> Vec<Vec<u64>> {
    requests
        .iter()
        .map(|texts| {
            texts
                .iter()
                .map(|text| text.parse::<f64>().expect("spells a number").to_bits())
                .collect()
        })
        .collect()
}

#[test]
fn spawn_index_job_reports_started_then_completed_for_a_clean_csv() {
    let (started, failed) = begin_job(7, "clean.csv");
    match started {
        IndexingMessage::Started { generation, path } => {
            assert_eq!(generation, 7);
            assert_eq!(path, "clean.csv");
        }
        _ => panic!("expected Started"),
    }
    assert!(failed.is_none());

    let text = "timestamp,value,pressure\n\
        2026-01-01T00:00:00Z,1.5,101.3\n\
        2026-01-01T00:00:01Z,1.6,101.4\n\
        2026-01-01T00:00:02Z,1.7,101.5\n\
        2026-01-01T00:00:03Z,1.8,101.6\n\
        2026-01-01T00:00:04Z,1.9,101.7\n\
        2026-01-01T00:00:05Z,2.0,101.8\n";
    let loaded = load_text(
        "clean.csv",
        Ok(text.as_bytes().to_vec()),
        IngestOverrides::default(),
    )
    .expect("must parse");
    let numbers = numbers_of(&loaded.number_requests());
    let (summary, report, dataset) = open_dataset(loaded, &numbers).expect("must open");
    let pyramids = pyramids_for(&dataset);
    let level0_caches = level0_for_dataset_cached(&dataset, &[], &[], ByteOrder::Little)
        .into_iter()
        .map(|one| one.cache)
        .collect();
    let message = completed_message(
        7,
        "clean.csv",
        summary,
        report,
        dataset,
        pyramids,
        level0_caches,
    );
    match message {
        IndexingMessage::Completed {
            generation,
            path,
            summary,
            report,
            dataset,
            pyramids,
            level0_caches,
        } => {
            assert_eq!(generation, 7);
            assert_eq!(path, "clean.csv");
            assert_eq!(summary.row_count, 6);
            assert_eq!(summary.skipped_row_count, 0);
            assert_eq!(report.sample_count, 6);
            assert_eq!(dataset.time.len(), 6);
            assert_eq!(dataset.columns.len(), 2);
            assert_eq!(pyramids.len(), 2);
            assert!(pyramids.iter().all(Option::is_some));
            assert_eq!(level0_caches.len(), 2);
            assert!(level0_caches.iter().all(Option::is_some));
        }
        _ => panic!("expected Completed"),
    }
}

#[test]
fn a_checkpoint_is_reported_with_its_rows() {
    let loaded = load_text(
        "p.csv",
        Ok(b"sample,value\n0,1.5\n1,1.6\n".to_vec()),
        IngestOverrides::default(),
    )
    .expect("must parse");
    let numbers = numbers_of(&loaded.number_requests());
    let checkpoint = make_checkpoint(&loaded, &numbers).expect("must have a table");
    match progress_message(3, "p.csv", checkpoint, false) {
        IndexingMessage::Progress {
            generation,
            dataset,
            pyramids,
            rows_read,
            spilled,
            ..
        } => {
            assert_eq!(generation, 3);
            assert_eq!(dataset.time.len(), rows_read as usize);
            assert_eq!(rows_read, 2);
            assert_eq!(pyramids.len(), dataset.columns.len());
            assert!(!spilled);
        }
        _ => panic!("expected Progress"),
    }
}

#[test]
fn spawn_index_job_reports_failed_for_an_unrecognized_extension() {
    let (_started, failed) = begin_job(1, "readings.xyz");
    match failed {
        Some(IndexingMessage::Failed {
            generation,
            path,
            message,
        }) => {
            assert_eq!(generation, 1);
            assert_eq!(path, "readings.xyz");
            assert!(
                message.contains("unrecognized format"),
                "unexpected message: {message:?}"
            );
        }
        _ => panic!("expected Failed"),
    }
}

#[test]
fn spawn_index_job_reports_failed_for_a_missing_file() {
    let path = "does-not-exist-glyde-plumbing-test.csv";
    let (_started, failed) = begin_job(1, path);
    assert!(failed.is_none());

    let error = load_text(
        path,
        Err("No such file or directory".to_string()),
        IngestOverrides::default(),
    )
    .err()
    .expect("a missing file must be a reported error");
    match failed_message(1, path, &error) {
        IndexingMessage::Failed { path: failed, .. } => assert_eq!(failed, path),
        _ => panic!("expected Failed"),
    }
}

#[test]
fn generation_accessor_matches_every_variant() {
    let started = IndexingMessage::Started {
        generation: 3,
        path: "a.csv".to_string(),
    };
    assert_eq!(started.generation(), 3);
    let progress = IndexingMessage::Progress {
        generation: 5,
        path: "a.csv".to_string(),
        dataset: sample_dataset(),
        pyramids: Vec::new(),
        rows_read: 6,
        spilled: false,
    };
    assert_eq!(progress.generation(), 5);
    assert_eq!(sample_completed(6).generation(), 6);
    let failed = IndexingMessage::Failed {
        generation: 4,
        path: "a.csv".to_string(),
        message: "oops".to_string(),
    };
    assert_eq!(failed.generation(), 4);
}

fn started(generation: u64, path: &str) -> IndexingMessage {
    begin_job(generation, path).0
}

#[test]
fn a_correction_never_follows_from_one_file_to_the_next() {
    let mut state = WindowState::new();
    let job = state.open("a.csv");
    assert!(state.receive(started(job.generation, "a.csv")));
    let job = state.apply_correction("a.csv", Correction::Delimiter(Delimiter::Semicolon));
    assert_eq!(job.overrides.delimiter, Some(Delimiter::Semicolon));

    let generation = state.open_dialog();
    assert!(state.receive(started(generation, "b.csv")));
    assert_eq!(state.overrides, IngestOverrides::default());
    let job = state.apply_correction(
        "b.csv",
        Correction::DecimalSeparator(DecimalSeparator::Comma),
    );
    assert_eq!(job.overrides.delimiter, None);
    assert_eq!(
        job.overrides.decimal_separator,
        Some(DecimalSeparator::Comma)
    );
}

#[test]
fn another_path_starts_without_corrections_even_unannounced() {
    let mut state = WindowState::new();
    state.apply_correction("a.csv", Correction::Delimiter(Delimiter::Pipe));
    let job = state.apply_correction(
        "b.csv",
        Correction::DecimalSeparator(DecimalSeparator::Dot),
    );
    assert_eq!(job.overrides.delimiter, None);
}

#[test]
fn a_dialog_without_a_file_keeps_the_corrections() {
    let mut state = WindowState::new();
    state.apply_correction("a.csv", Correction::Delimiter(Delimiter::Pipe));
    state.open_dialog();
    let job = state.apply_correction(
        "a.csv",
        Correction::DecimalSeparator(DecimalSeparator::Comma),
    );
    assert_eq!(job.overrides.delimiter, Some(Delimiter::Pipe));
    assert!(state.receive(started(job.generation, "a.csv")));
    assert_eq!(state.overrides.delimiter, Some(Delimiter::Pipe));
}

#[test]
fn picking_the_corrected_file_again_keeps_its_corrections() {
    let mut state = WindowState::new();
    state.apply_correction("a.csv", Correction::Delimiter(Delimiter::Pipe));
    let generation = state.open_dialog();
    assert!(state.receive(started(generation, "a.csv")));
    assert_eq!(state.overrides.delimiter, Some(Delimiter::Pipe));
    assert!(!state.is_picking);

    let job = state.apply_correction(
        "a.csv",
        Correction::DecimalSeparator(DecimalSeparator::Comma),
    );
    assert_eq!(job.overrides.delimiter, Some(Delimiter::Pipe));
    assert_eq!(
        job.overrides.decimal_separator,
        Some(DecimalSeparator::Comma)
    );

    let generation = state.open_dialog();
    assert!(state.receive(started(generation, "b.csv")));
    assert_eq!(state.overrides, IngestOverrides::default());
    let generation = state.open_dialog();
    assert!(state.receive(started(generation, "a.csv")));
    assert_eq!(state.overrides, IngestOverrides::default());
}
