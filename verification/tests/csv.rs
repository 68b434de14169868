//! Reading delimited text.

use glyde::ingest::column_text::ColumnText;
use glyde::ingest::csv::{
    parse_capturing_all_columns, parse_capturing_all_columns_with_progress, parse_capturing_column,
    FIRST_PROGRESS_CHECKPOINT_ROWS,
};
use glyde::ingest::head::bounded_head_sample;
use glyde::ingest::path::extension;
use glyde::ingest::{
    open, open_path, parse, Confidence, CsvParseOutcome, CsvReader, DecimalSeparator, Delimiter,
    IngestOverrides, Reader, Registry, HEAD_SAMPLE_BYTES,
};
use glyde::GlydeError;

const CLEAN: &str = "timestamp,value,pressure\n\
    2026-01-01T00:00:00Z,1.5,101.3\n\
    2026-01-01T00:00:01Z,1.6,101.4\n\
    2026-01-01T00:00:02Z,1.7,101.5\n\
    2026-01-01T00:00:03Z,1.8,101.6\n\
    2026-01-01T00:00:04Z,1.9,101.7\n\
    2026-01-01T00:00:05Z,2.0,101.8\n";

const RAGGED: &str = "timestamp,value,pressure\n\
    2026-01-01T00:00:00Z,1.0,101.3\n\
    2026-01-01T00:00:01Z,1.1\n\
    2026-01-01T00:00:02Z,1.2,101.5,extra\n\
    2026-01-01T00:00:03Z,1.3,101.6\n\
    2026-01-01T00:00:04Z,1.4,101.7\n";

#[test]
fn recognizes_csv_tsv_and_txt_case_insensitively() {
    let reader = CsvReader;

    assert!(reader.recognizes("readings.csv"));
    assert!(reader.recognizes("readings.TSV"));
    assert!(reader.recognizes("readings.txt"));
}

#[test]
fn does_not_recognize_other_extensions() {
    let reader = CsvReader;

    assert!(!reader.recognizes("readings.parquet"));
    assert!(!reader.recognizes("readings"));
}

#[test]
fn format_name_is_csv() {
    assert_eq!(CsvReader.format_name(), "csv");
}

#[test]
fn the_extension_is_what_follows_the_last_point_of_the_file_name() {
    assert_eq!(extension("a/b.c/readings.tar.CSV"), Some("CSV".to_string()));
    assert_eq!(extension("a/b.c/readings"), None);
    assert_eq!(extension(".csv"), None);
    assert_eq!(extension("readings."), Some(String::new()));
    assert_eq!(extension(".."), None);
}

#[test]
fn default_registry_recognizes_a_csv_path_as_the_csv_reader() {
    let registry = Registry::default_registry();

    let reader = registry
        .find("readings.csv")
        .expect("a .csv path must be claimed by a registered reader");

    assert_eq!(reader.format_name(), "csv");
}

#[test]
fn default_registry_has_no_reader_for_an_unknown_extension() {
    let registry = Registry::default_registry();

    assert!(registry.find("readings.xyz").is_none());
}

#[test]
fn open_returns_the_format_name_of_the_matching_reader() {
    let format = open("readings.csv").expect("a .csv path must open");

    assert_eq!(format, "csv");
}

#[test]
fn open_reports_an_unrecognized_format_instead_of_panicking() {
    let err = open("readings.xyz")
        .expect_err("an unsupported extension must be a reported error, not a panic");

    assert!(matches!(err, GlydeError::UnrecognizedFormat { .. }));
}

struct XyzReader;

impl Reader for XyzReader {
    fn format_name(&self) -> &'static str {
        "xyz"
    }

    fn recognizes(&self, path: &str) -> bool {
        path.ends_with(".xyz") || path.ends_with(".csv")
    }
}

#[test]
fn a_registered_reader_is_tried_after_the_others() {
    let mut registry = Registry::default();
    registry.register(Box::new(XyzReader));

    assert_eq!(
        registry.find("a.xyz").expect("registered").format_name(),
        "xyz"
    );
    assert_eq!(
        registry.find("a.csv").expect("built in").format_name(),
        "csv"
    );
}

#[test]
fn corpus_case_20_trailing_empty_lines_are_not_skipped_rows() {
    let bytes = b"timestamp,value,pressure,\n\
        2026-01-01T00:00:00Z,1.5,101.3,\n\
        2026-01-01T00:00:01Z,1.6,101.4,\n\
        2026-01-01T00:00:02Z,1.7,101.5,\n\
        2026-01-01T00:00:03Z,1.8,101.6,\n\
        \n\
        \n";

    let outcome = parse(bytes).expect("must parse");

    assert_eq!(
        outcome.column_names,
        vec!["timestamp", "value", "pressure", ""]
    );
    assert_eq!(outcome.row_count, 4);
    assert_eq!(outcome.skipped_row_count, 0);
}

#[test]
fn corpus_case_21_ragged_rows_are_skipped_and_counted() {
    let outcome = parse(RAGGED.as_bytes()).expect("must parse");

    assert_eq!(outcome.column_names, vec!["timestamp", "value", "pressure"]);
    assert_eq!(outcome.row_count, 3);
    assert_eq!(outcome.skipped_row_count, 2);
}

#[test]
fn parse_capturing_all_columns_skips_ragged_rows_and_keeps_columns_aligned() {
    let (outcome, columns) =
        parse_capturing_all_columns(RAGGED.as_bytes(), IngestOverrides::default())
            .expect("must parse");

    assert_eq!(outcome.column_names, vec!["timestamp", "value", "pressure"]);
    assert_eq!(outcome.row_count, 3);
    assert_eq!(outcome.skipped_row_count, 2);
    assert_eq!(columns.len(), 3, "one captured text per column");
    for column in &columns {
        assert_eq!(column.len(), 3, "one entry per kept row");
    }
    assert_eq!(columns[0].get(0), Some("2026-01-01T00:00:00Z"));
    assert_eq!(columns[1].get(0), Some("1.0"));
    assert_eq!(columns[2].get(0), Some("101.3"));
}

#[test]
fn one_column_is_captured_alone() {
    let (outcome, column) = parse_capturing_column(RAGGED.as_bytes(), 1).expect("must parse");
    assert_eq!(outcome.row_count, 3);
    assert_eq!(column.to_vec(), vec!["1.0", "1.3", "1.4"]);

    let (_, none) = parse_capturing_column(RAGGED.as_bytes(), 7).expect("must parse");
    assert_eq!(none.len(), 0);
}

#[test]
fn corpus_case_22_truncated_final_line_is_skipped_not_fatal() {
    let bytes = b"timestamp,value\n\
        2026-01-01T00:00:00Z,1.5\n\
        2026-01-01T00:00:01Z,1.6\n\
        2026-01-01T00:00:02Z,1.7\n\
        2026-01-01T00:00:03Z,1.8\n\
        2026-01-01T00:0";

    let outcome = parse(bytes).expect("must parse");

    assert_eq!(outcome.column_names, vec!["timestamp", "value"]);
    assert_eq!(outcome.row_count, 4);
    assert_eq!(outcome.skipped_row_count, 1);
}

#[test]
fn corpus_case_23_empty_file_is_a_clean_error() {
    let err = parse(b"").expect_err("an empty file must be rejected");

    assert!(matches!(err, GlydeError::EmptyFile));
    assert_eq!(err.message(), "empty file: no data to read");
}

#[test]
fn corpus_case_04_whitespace_aligned_parses_every_row() {
    let bytes = b"timestamp             value  pressure\n\
        2026-01-01T00:00:00Z  1.5    101.3\n\
        2026-01-01T00:00:01Z  1.6    101.4\n\
        2026-01-01T00:00:02Z  1.7    101.5\n\
        2026-01-01T00:00:03Z  1.8    101.6\n\
        2026-01-01T00:00:04Z  1.9    101.7\n\
        2026-01-01T00:00:05Z  2.0    101.8\n";

    let outcome = parse(bytes).expect("must parse");

    assert_eq!(outcome.column_names, vec!["timestamp", "value", "pressure"]);
    assert_eq!(outcome.row_count, 6);
    assert_eq!(outcome.skipped_row_count, 0);
}

#[test]
fn open_path_memory_maps_and_parses_a_real_file() {
    let outcome = open_path("case.csv", Ok(CLEAN.as_bytes().to_vec())).expect("must open");

    assert_eq!(outcome.column_names, vec!["timestamp", "value", "pressure"]);
    assert!(outcome.row_count > 0);
    assert_eq!(outcome.skipped_row_count, 0);
    assert_eq!(outcome.encoding_label, "utf-8");
    assert_eq!(outcome.delimiter, Delimiter::Comma);
    assert_eq!(outcome.decimal_separator, DecimalSeparator::Dot);
    assert_eq!(outcome.delimiter_confidence, Confidence::High);
}

#[test]
fn open_path_reports_a_missing_file_instead_of_panicking() {
    let err = open_path(
        "/nonexistent/glyde-csv-test.csv",
        Err("No such file or directory".to_string()),
    )
    .expect_err("a missing file must be a reported error");

    assert!(matches!(err, GlydeError::Io { .. }));
}

#[test]
fn arbitrary_bytes_never_panic() {
    for seed in 0u8..=255 {
        let bytes: Vec<u8> = (0..64).map(|i| seed.wrapping_add(i)).collect();
        let _ = parse(&bytes);
    }
}

#[test]
fn bounded_head_sample_cuts_on_a_line_boundary() {
    let line = "a,b,c\n";
    let text = line.repeat(HEAD_SAMPLE_BYTES / line.len() + 10);

    let sample = bounded_head_sample(&text);

    assert!(sample.len() <= HEAD_SAMPLE_BYTES);
    assert!(
        sample.ends_with('\n'),
        "cut must land after a full line, not mid-record"
    );
}

#[test]
fn bounded_head_sample_is_unchanged_for_small_input() {
    assert_eq!(bounded_head_sample("a,b\n1,2\n"), "a,b\n1,2\n");
}

#[test]
fn bounded_head_sample_never_panics_when_a_multibyte_char_straddles_the_cutoff() {
    let prefix = "a".repeat(HEAD_SAMPLE_BYTES - 1);
    let text = format!("{prefix}\u{b0}C and more text after the cutoff\n");
    assert!(
        !text.is_char_boundary(HEAD_SAMPLE_BYTES),
        "the text must actually straddle the cutoff"
    );

    let sample = bounded_head_sample(&text);

    assert!(text.is_char_boundary(sample.len()));
    assert!(sample.len() <= HEAD_SAMPLE_BYTES);
}

#[test]
fn parse_never_panics_on_a_multibyte_char_straddling_the_head_sample_cutoff() {
    let mut text = String::from("value\n");
    while text.len() < HEAD_SAMPLE_BYTES - 1 {
        text.push_str("1\n");
    }
    text.truncate(HEAD_SAMPLE_BYTES - 1);
    text.push('\u{b0}');
    text.push('\n');
    assert!(
        !text.is_char_boundary(HEAD_SAMPLE_BYTES),
        "the text must actually straddle the cutoff"
    );

    let outcome = parse(text.as_bytes()).expect("valid UTF-8 must never be rejected");

    assert_eq!(outcome.column_names, vec!["value"]);
}

fn many_rows_csv(row_count: u64) -> Vec<u8> {
    let mut text = String::from("timestamp,value\n");
    for i in 0..row_count {
        text.push_str(&format!("{i},{}\n", i as f64 * 0.5));
    }
    text.into_bytes()
}

/// Goes through a file and looks at it at every checkpoint.
fn parse_with(
    bytes: &[u8],
    mut look: impl FnMut(&CsvParseOutcome, &Vec<ColumnText>),
) -> (CsvParseOutcome, Vec<ColumnText>) {
    let mut scan =
        parse_capturing_all_columns_with_progress(bytes, IngestOverrides::default())
            .expect("must parse");
    while scan.advance() {
        look(&scan.outcome(), scan.columns());
    }
    scan.finish()
}

#[test]
fn progress_checkpoints_follow_the_doubling_schedule_and_report_a_growing_row_count() {
    let bytes = many_rows_csv(70_000);
    let mut checkpoints: Vec<u64> = Vec::new();

    let (outcome, _columns) = parse_with(&bytes, |snapshot, _columns| {
        checkpoints.push(snapshot.row_count);
    });

    assert_eq!(outcome.row_count, 70_000);
    assert_eq!(
        checkpoints,
        vec![
            FIRST_PROGRESS_CHECKPOINT_ROWS,
            FIRST_PROGRESS_CHECKPOINT_ROWS * 2
        ],
        "checkpoints must come at 20k and 40k kept rows, and not again before 80k"
    );
}

#[test]
fn a_file_smaller_than_the_first_checkpoint_never_checkpoints() {
    let bytes = many_rows_csv(10);
    let mut checkpoint_count = 0;

    parse_with(&bytes, |_snapshot, _columns| {
        checkpoint_count += 1;
    });

    assert_eq!(checkpoint_count, 0);
}

#[test]
fn a_checkpoint_snapshot_is_a_true_prefix_of_the_final_parse() {
    let bytes = many_rows_csv(70_000);
    let mut first_checkpoint: Option<(CsvParseOutcome, Vec<Vec<String>>)> = None;

    let (final_outcome, final_columns) = parse_with(&bytes, |snapshot, columns| {
        if first_checkpoint.is_none() {
            first_checkpoint = Some((
                snapshot.clone(),
                columns.iter().map(|column| column.to_vec()).collect(),
            ));
        }
    });

    let (checkpoint_outcome, checkpoint_columns) =
        first_checkpoint.expect("at least one checkpoint must have come");

    assert_eq!(checkpoint_outcome.row_count, FIRST_PROGRESS_CHECKPOINT_ROWS);
    assert_eq!(checkpoint_outcome.column_names, final_outcome.column_names);
    assert_eq!(checkpoint_outcome.delimiter, final_outcome.delimiter);

    for (checkpoint_column, final_column) in checkpoint_columns.iter().zip(&final_columns) {
        assert_eq!(checkpoint_column.len() as u64, checkpoint_outcome.row_count);
        for (i, field) in checkpoint_column.iter().enumerate() {
            assert_eq!(Some(field.as_str()), final_column.get(i));
        }
    }
}

#[test]
fn progress_checkpoints_do_not_change_the_final_parse_result() {
    let bytes = many_rows_csv(70_000);

    let (outcome_without_progress, columns_without_progress) =
        parse_capturing_all_columns(&bytes, IngestOverrides::default())
            .expect("parse without progress");
    let (outcome_with_progress, columns_with_progress) =
        parse_with(&bytes, |_snapshot, _columns| {});

    assert_eq!(outcome_without_progress, outcome_with_progress);
    assert_eq!(columns_without_progress.len(), columns_with_progress.len());
    for (a, b) in columns_without_progress.iter().zip(&columns_with_progress) {
        assert_eq!(a.to_vec(), b.to_vec());
    }
}

#[test]
fn corrections_take_the_place_of_the_inference() {
    let overrides = IngestOverrides {
        delimiter: Some(Delimiter::Semicolon),
        decimal_separator: Some(DecimalSeparator::Comma),
        timestamp_format: None,
    };
    let (outcome, columns) =
        parse_capturing_all_columns(b"t,x;v\n1,5;2\n2,5;3\n", overrides).expect("must parse");
    assert_eq!(outcome.delimiter, Delimiter::Semicolon);
    assert_eq!(outcome.decimal_separator, DecimalSeparator::Comma);
    assert_eq!(outcome.delimiter_confidence, Confidence::High);
    assert_eq!(outcome.decimal_separator_confidence, Confidence::High);
    assert_eq!(columns[0].to_vec(), vec!["1,5", "2,5"]);
}

#[test]
fn column_text_gives_back_what_was_pushed() {
    let mut column = ColumnText::new();
    for field in ["a", "", "\u{b0}C", "z"] {
        column.push(field);
    }
    assert_eq!(column.len(), 4);
    assert_eq!(column.get(2), Some("\u{b0}C"));
    assert_eq!(column.get(4), None);
    assert_eq!(column.to_vec(), vec!["a", "", "\u{b0}C", "z"]);
}
