//! What is inferred of a file: its encoding, delimiter, decimal separator and
//! header.

use glyde::ingest::encoding::utf8_invalid_byte_fraction;
use glyde::ingest::infer::{looks_like_decimal, Ratio};
use glyde::ingest::{
    decode, detect_encoding, infer_decimal_separator, infer_delimiter, infer_header, Confidence,
    Delimiter, EncodingSource, TextEncoding,
};

const COMMA_CLEAN: &str = "timestamp,value,pressure\n\
    2026-01-01T00:00:00Z,1.5,101.3\n\
    2026-01-01T00:00:01Z,1.6,101.4\n\
    2026-01-01T00:00:02Z,1.7,101.5\n\
    2026-01-01T00:00:03Z,1.8,101.6\n\
    2026-01-01T00:00:04Z,1.9,101.7\n\
    2026-01-01T00:00:05Z,2.0,101.8\n";

/// A Latin-1 file with units in its header.
fn latin1_units() -> Vec<u8> {
    let mut bytes = b"timestamp,temperature [".to_vec();
    bytes.push(0xb0);
    bytes.extend_from_slice(b"C],acceleration [");
    bytes.push(0xb5);
    bytes.extend_from_slice(b"m/s");
    bytes.push(0xb2);
    bytes.extend_from_slice(b"]\n2026-01-01T00:00:00Z,20.5,1.5\n2026-01-01T00:00:01Z,20.6,1.6\n");
    bytes
}

#[test]
fn corpus_case_08_latin1_degree_micro_infers_windows_1252() {
    let bytes = latin1_units();

    let inference = detect_encoding(&bytes);

    assert_eq!(inference.label(), "windows-1252");
    assert_eq!(inference.source, EncodingSource::Heuristic);

    let text = decode(&bytes, &inference);
    assert!(
        text.contains("temperature [\u{b0}C]"),
        "text was: {text}"
    );
    assert!(
        text.contains("acceleration [\u{b5}m/s\u{b2}]"),
        "text was: {text}"
    );
}

#[test]
fn corpus_case_09_windows1252_smart_quotes_infers_windows_1252() {
    let mut bytes = b"timestamp,note,value\n".to_vec();
    for row in 0..4 {
        bytes.extend_from_slice(format!("2026-01-01T00:00:0{row}Z,").as_bytes());
        bytes.push(0x93);
        bytes.extend_from_slice(b"running");
        bytes.push(0x94);
        bytes.extend_from_slice(b",1.5\n");
    }

    let inference = detect_encoding(&bytes);

    assert_eq!(inference.label(), "windows-1252");
    assert_eq!(inference.source, EncodingSource::Heuristic);

    let text = decode(&bytes, &inference);
    assert!(
        text.contains('\u{201c}') || text.contains('\u{2018}'),
        "text was: {text}"
    );
}

#[test]
fn corpus_case_10_utf8_bom_infers_utf8_and_strips_the_bom() {
    let mut bytes = vec![0xEF, 0xBB, 0xBF];
    bytes.extend_from_slice(COMMA_CLEAN.as_bytes());

    let inference = detect_encoding(&bytes);

    assert_eq!(inference.label(), "utf-8");
    assert_eq!(inference.source, EncodingSource::Bom);

    let text = decode(&bytes, &inference);
    assert!(text.starts_with("timestamp,"), "text was: {text:?}");
}

#[test]
fn corpus_case_11_utf16le_infers_utf16le() {
    let mut bytes = vec![0xFF, 0xFE];
    for unit in COMMA_CLEAN.encode_utf16() {
        bytes.extend_from_slice(&unit.to_le_bytes());
    }

    let inference = detect_encoding(&bytes);

    assert_eq!(inference.label(), "utf-16le");
    assert_eq!(inference.source, EncodingSource::Bom);

    let text = decode(&bytes, &inference);
    assert!(text.starts_with("timestamp,"), "text was: {text:?}");
    assert_eq!(text, COMMA_CLEAN);
}

#[test]
fn corpus_case_12_invalid_byte_sequences_stays_utf8_with_replacement() {
    let mut bytes = b"timestamp,sensor,value\n".to_vec();
    for row in 0..9 {
        bytes.extend_from_slice(format!("2026-01-01T00:00:0{row}Z,sensor-a,1.5\n").as_bytes());
    }
    let at = bytes.len() - 10;
    bytes[at] = 0xFF;

    let inference = detect_encoding(&bytes);

    assert_eq!(inference.label(), "utf-8");
    assert_eq!(inference.source, EncodingSource::Heuristic);

    let text = decode(&bytes, &inference);
    assert!(
        text.contains('\u{FFFD}'),
        "an invalid byte must be replaced with U+FFFD; text was: {text:?}"
    );
    assert!(text.contains("sensor"), "text was: {text:?}");
}

#[test]
fn plain_ascii_with_no_bom_infers_utf8() {
    let bytes = b"timestamp,value\n2026-01-01T00:00:00Z,1.5\n".to_vec();

    let inference = detect_encoding(&bytes);

    assert_eq!(inference.label(), "utf-8");
    assert_eq!(inference.source, EncodingSource::Heuristic);
    assert_eq!(inference.confidence(), Confidence::High);

    let text = decode(&bytes, &inference);
    assert_eq!(text, String::from_utf8(bytes).unwrap());
}

#[test]
fn a_single_stray_byte_in_a_large_ascii_sample_stays_utf8() {
    let mut bytes = vec![b'a'; 10_000];
    bytes[5_000] = 0xFF;

    let inference = detect_encoding(&bytes);

    assert_eq!(inference.label(), "utf-8");
}

#[test]
fn dense_high_bytes_that_chardetng_misreads_still_clamp_to_windows_1252() {
    let inference = detect_encoding(&latin1_units());

    assert_eq!(inference.encoding, TextEncoding::Windows1252);
    assert_eq!(inference.confidence(), Confidence::Low);
}

#[test]
fn utf8_invalid_byte_fraction_is_zero_for_valid_utf8() {
    assert_eq!(
        utf8_invalid_byte_fraction(b"clean ascii text"),
        Ratio { part: 0, whole: 16 }
    );
    assert_eq!(
        utf8_invalid_byte_fraction("caf\u{e9}".as_bytes()),
        Ratio { part: 0, whole: 5 }
    );
}

#[test]
fn utf8_invalid_byte_fraction_counts_every_invalid_span() {
    let bytes = [b'a', b'b', 0xFF, b'c', b'd', 0xFF, b'e', b'f', b'g', b'h'];
    assert_eq!(
        utf8_invalid_byte_fraction(&bytes),
        Ratio { part: 2, whole: 10 }
    );
}

#[test]
fn utf8_invalid_byte_fraction_of_empty_input_is_zero() {
    assert_eq!(utf8_invalid_byte_fraction(&[]).part, 0);
}

#[test]
fn utf16be_bom_is_detected_from_the_bom() {
    let mut bytes = vec![0xFE, 0xFF];
    for unit in "ok".encode_utf16() {
        bytes.extend_from_slice(&unit.to_be_bytes());
    }

    let inference = detect_encoding(&bytes);

    assert_eq!(inference.label(), "utf-16be");
    assert_eq!(inference.source, EncodingSource::Bom);
    assert_eq!(decode(&bytes, &inference), "ok");
}

#[test]
fn decode_never_fails_on_arbitrary_bytes() {
    let bytes: Vec<u8> = (0..=255u8).collect();
    let inference = detect_encoding(&bytes);
    let _ = decode(&bytes, &inference);
}

fn fields(text: &str) -> Vec<char> {
    text.chars().collect()
}

#[test]
fn corpus_case_01_comma_clean_infers_comma_and_dot() {
    let delimiter_inference = infer_delimiter(COMMA_CLEAN);
    let delimiter = delimiter_inference.delimiter;
    assert_eq!(delimiter.as_str(), ",");
    assert_eq!(
        delimiter_inference.consistency.part,
        delimiter_inference.consistency.whole
    );
    assert_eq!(delimiter_inference.confidence(), Confidence::High);

    let decimal_inference = infer_decimal_separator(COMMA_CLEAN, delimiter);
    assert_eq!(decimal_inference.separator.as_str(), ".");
    assert!(decimal_inference.dot_votes > 0);
    assert_eq!(decimal_inference.comma_votes, 0);

    let header = infer_header(COMMA_CLEAN, delimiter);
    assert_eq!(header.header_row_index, Some(0));
    assert_eq!(header.skipped_preamble_rows, 0);
    assert_eq!(header.column_names, vec!["timestamp", "value", "pressure"]);
    assert!(!header.ambiguous);
}

#[test]
fn corpus_case_02_semicolon_comma_decimal_is_not_split_on_the_comma() {
    let sample = "timestamp;value;pressure\n\
        2026-01-01T00:00:00Z;1,5;101,3\n\
        2026-01-01T00:00:01Z;1,6;101,4\n\
        2026-01-01T00:00:02Z;1,7;101,5\n";

    let delimiter = infer_delimiter(sample).delimiter;
    assert_eq!(delimiter.as_str(), ";");

    let decimal = infer_decimal_separator(sample, delimiter).separator;
    assert_eq!(decimal.as_str(), ",");

    let header = infer_header(sample, delimiter);
    assert_eq!(header.column_names, vec!["timestamp", "value", "pressure"]);
}

#[test]
fn corpus_case_03_tab_delimited_infers_tab_not_generic_whitespace() {
    let sample = "timestamp\tvalue\tpressure\n\
        2026-01-01T00:00:00Z\t1.5\t101.3\n\
        2026-01-01T00:00:01Z\t1.6\t101.4\n\
        2026-01-01T00:00:02Z\t1.7\t101.5\n";

    let delimiter = infer_delimiter(sample).delimiter;
    assert_eq!(delimiter.as_str(), "\t");

    let decimal = infer_decimal_separator(sample, delimiter).separator;
    assert_eq!(decimal.as_str(), ".");
}

#[test]
fn corpus_case_04_whitespace_aligned_collapses_padding_runs() {
    let sample = "timestamp             value  pressure\n\
        2026-01-01T00:00:00Z  1.5    101.3\n\
        2026-01-01T00:00:01Z  1.6    101.4\n\
        2026-01-01T00:00:02Z  1.7    101.5\n";

    let delimiter = infer_delimiter(sample).delimiter;
    assert_eq!(delimiter.as_str(), " ");

    let decimal = infer_decimal_separator(sample, delimiter).separator;
    assert_eq!(decimal.as_str(), ".");

    let header = infer_header(sample, delimiter);
    assert_eq!(header.column_names, vec!["timestamp", "value", "pressure"]);
}

#[test]
fn corpus_case_05_pipe_delimited_infers_pipe() {
    let sample = "timestamp|value|pressure\n\
        2026-01-01T00:00:00Z|1.5|101.3\n\
        2026-01-01T00:00:01Z|1.6|101.4\n";

    let delimiter = infer_delimiter(sample).delimiter;
    assert_eq!(delimiter.as_str(), "|");

    let decimal = infer_decimal_separator(sample, delimiter).separator;
    assert_eq!(decimal.as_str(), ".");
}

#[test]
fn corpus_case_06_quoted_field_with_delimiter_is_not_over_split() {
    let sample = "timestamp,site,value\n\
        2026-01-01T00:00:00Z,\"Turin, Italy\",1.5\n\
        2026-01-01T00:00:01Z,\"Turin, Italy\",1.6\n\
        2026-01-01T00:00:02Z,\"Turin, Italy\",1.7\n";

    let delimiter = infer_delimiter(sample).delimiter;
    assert_eq!(delimiter.as_str(), ",");

    let header = infer_header(sample, delimiter);
    assert_eq!(header.column_names, vec!["timestamp", "site", "value"]);
}

#[test]
fn corpus_case_07_quoted_field_with_newline_is_not_over_split() {
    let sample = "timestamp,note,value\n\
        2026-01-01T00:00:00Z,\"first\nsecond\",1.5\n\
        2026-01-01T00:00:01Z,\"first\nsecond\",1.6\n\
        2026-01-01T00:00:02Z,\"first\nsecond\",1.7\n";

    let delimiter = infer_delimiter(sample).delimiter;
    assert_eq!(delimiter.as_str(), ",");

    let decimal = infer_decimal_separator(sample, delimiter).separator;
    assert_eq!(decimal.as_str(), ".");

    let header = infer_header(sample, delimiter);
    assert_eq!(header.column_names, vec!["timestamp", "note", "value"]);
}

#[test]
fn corpus_case_14_metadata_preamble_skips_five_junk_lines() {
    let sample = "# logger: A1\n\
        # serial: 0042\n\
        # site: north\n\
        # operator: none\n\
        # rate: slow\n\
        timestamp,value\n\
        2026-01-01T00:00:00Z,1.5\n\
        2026-01-01T00:00:01Z,1.6\n\
        2026-01-01T00:00:02Z,1.7\n\
        2026-01-01T00:00:03Z,1.8\n\
        2026-01-01T00:00:04Z,1.9\n\
        2026-01-01T00:00:05Z,2.0\n";

    let delimiter = infer_delimiter(sample).delimiter;
    assert_eq!(delimiter.as_str(), ",");

    let header = infer_header(sample, delimiter);
    assert_eq!(header.skipped_preamble_rows, 5);
    assert_eq!(header.header_row_index, Some(5));
    assert_eq!(header.column_names, vec!["timestamp", "value"]);
}

#[test]
fn corpus_case_15_no_header_synthesizes_column_names() {
    let sample = "2026-01-01T00:00:00Z,1.5\n\
        2026-01-01T00:00:01Z,1.6\n\
        2026-01-01T00:00:02Z,1.7\n";

    let delimiter = infer_delimiter(sample).delimiter;
    assert_eq!(delimiter.as_str(), ",");

    let header = infer_header(sample, delimiter);
    assert_eq!(header.header_row_index, None);
    assert_eq!(header.skipped_preamble_rows, 0);
    assert_eq!(header.column_names, vec!["column_0", "column_1"]);
}

#[test]
fn infer_delimiter_on_empty_sample_falls_back_to_comma_without_panicking() {
    assert_eq!(infer_delimiter("").delimiter.as_str(), ",");
}

#[test]
fn infer_header_on_empty_sample_reports_no_header_and_no_columns() {
    let header = infer_header("", Delimiter::Comma);
    assert_eq!(header.header_row_index, None);
    assert_eq!(header.skipped_preamble_rows, 0);
    assert!(header.column_names.is_empty());
}

#[test]
fn infer_delimiter_on_a_single_column_file_still_picks_a_delimiter() {
    let sample = "value\n1.5\n1.6\n1.7\n";

    let delimiter = infer_delimiter(sample).delimiter;
    assert_eq!(delimiter.as_str(), ",");

    let header = infer_header(sample, delimiter);
    assert_eq!(header.header_row_index, Some(0));
    assert_eq!(header.column_names, vec!["value"]);
}

#[test]
fn looks_like_decimal_rejects_a_bare_timestamp_field() {
    assert!(!looks_like_decimal(&fields("2026-01-01T00:00:00Z"), '.'));
    assert!(!looks_like_decimal(&fields("2026-01-01T00:00:00Z"), ','));
    assert!(looks_like_decimal(&fields("1.5"), '.'));
    assert!(looks_like_decimal(&fields("1,5"), ','));
    assert!(!looks_like_decimal(&fields("1,5"), '.'));
}

#[test]
fn infer_header_prefers_the_last_matching_line_over_the_first() {
    let sample = "timestamp,value\ns,V\n2026-01-01T00:00:00Z,1.5\n2026-01-01T00:00:01Z,1.6\n";

    let header = infer_header(sample, Delimiter::Comma);

    assert_eq!(header.header_row_index, Some(1));
    assert_eq!(header.skipped_preamble_rows, 1);
    assert_eq!(header.column_names, vec!["s", "V"]);
    assert!(!header.ambiguous);
}

#[test]
fn infer_header_flags_ambiguous_when_no_preamble_line_matches_the_data_shape() {
    let sample = "# note about the file\n2026-01-01T00:00:00Z,1.5\n2026-01-01T00:00:01Z,1.6\n";

    let header = infer_header(sample, Delimiter::Comma);

    assert_eq!(header.header_row_index, None);
    assert_eq!(header.skipped_preamble_rows, 1);
    assert_eq!(header.column_names, vec!["column_0", "column_1"]);
    assert!(header.ambiguous);
}

#[test]
fn infer_header_on_a_clean_headerless_file_is_not_ambiguous() {
    let header = infer_header("2026-01-01T00:00:00Z,1.5\n", Delimiter::Comma);

    assert_eq!(header.header_row_index, None);
    assert_eq!(header.skipped_preamble_rows, 0);
    assert!(!header.ambiguous);
}
