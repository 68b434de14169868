//! What the inference bar offers and writes.

use glyde::ingest::{
    Confidence, DecimalSeparator, Delimiter, InferenceReport, InferredField, SamplingClass,
};
use glyde::time::TimestampFormat;
use glyde::view::inference_bar::{
    decimal_separator_choices, decimal_separator_display, decimal_separator_from_label,
    delimiter_choices, delimiter_display, delimiter_from_label, delimiter_options, display_option,
    field_text, header_text, picked_delimiter, picked_separator, timestamp_format_swap,
    Correction,
};

fn field(value: &str, confidence: Confidence) -> InferredField<Option<String>> {
    InferredField {
        value: Some(value.to_string()),
        confidence,
    }
}

fn sample_report(timestamp_format_confidence: Confidence) -> InferenceReport {
    InferenceReport {
        encoding: InferredField {
            value: "utf-8".to_string(),
            confidence: Confidence::High,
        },
        delimiter: field(",", Confidence::High),
        decimal_separator: field(".", Confidence::High),
        time_column: field("timestamp", Confidence::High),
        timestamp_format: field("iso8601", timestamp_format_confidence),
        sample_count: 42,
        sampling_class: SamplingClass::Uniform,
    }
}

#[test]
fn display_option_shows_a_placeholder_for_none() {
    assert_eq!(display_option(&None), "\u{2014}");
    assert_eq!(display_option(&Some("x".to_string())), "x");
}

#[test]
fn field_text_flags_low_confidence_and_high_confidence_does_not() {
    assert_eq!(
        field_text("delimiter", ",", Confidence::High),
        "delimiter: ,"
    );
    assert_eq!(
        field_text("delimiter", ",", Confidence::Low),
        "delimiter: , (low confidence)"
    );
}

#[test]
fn header_text_flags_low_confidence_and_high_confidence_does_not() {
    let high = sample_report(Confidence::High);
    let low = sample_report(Confidence::Low);

    assert!(!header_text(&high, high.has_low_confidence_field()).contains("low confidence"));
    assert!(header_text(&low, low.has_low_confidence_field()).contains("low confidence"));
    assert_eq!(
        header_text(&high, false),
        "Inference \u{2014} 42 samples, Uniform"
    );
}

#[test]
fn delimiter_from_label_round_trips_every_delimiter_s_own_label() {
    for delimiter in delimiter_options() {
        assert_eq!(delimiter_from_label(delimiter.as_str()), Some(delimiter));
    }
}

#[test]
fn delimiter_from_label_is_none_for_an_unrecognized_label() {
    assert_eq!(delimiter_from_label("?"), None);
}

#[test]
fn decimal_separator_from_label_round_trips_every_separator_s_own_label() {
    for separator in [DecimalSeparator::Dot, DecimalSeparator::Comma] {
        assert_eq!(
            decimal_separator_from_label(separator.as_str()),
            Some(separator)
        );
    }
}

#[test]
fn decimal_separator_from_label_is_none_for_an_unrecognized_label() {
    assert_eq!(decimal_separator_from_label("?"), None);
}

#[test]
fn delimiter_correction_control_only_renders_when_the_field_is_low_confidence() {
    assert!(delimiter_choices(&field(",", Confidence::High)).is_empty());
    let choices = delimiter_choices(&field(",", Confidence::Low));
    let offered: Vec<(Delimiter, bool)> =
        choices.iter().map(|c| (c.delimiter, c.is_current)).collect();
    assert_eq!(
        offered,
        vec![
            (Delimiter::Comma, true),
            (Delimiter::Semicolon, false),
            (Delimiter::Tab, false),
            (Delimiter::Pipe, false),
        ]
    );
}

#[test]
fn decimal_separator_correction_control_only_renders_when_the_field_is_low_confidence() {
    assert!(decimal_separator_choices(&field(".", Confidence::High)).is_empty());
    let choices = decimal_separator_choices(&field(",", Confidence::Low));
    let offered: Vec<(DecimalSeparator, bool)> =
        choices.iter().map(|c| (c.separator, c.is_current)).collect();
    assert_eq!(
        offered,
        vec![
            (DecimalSeparator::Dot, false),
            (DecimalSeparator::Comma, true)
        ]
    );
}

#[test]
fn timestamp_format_swap_button_only_renders_when_the_field_is_low_confidence() {
    assert_eq!(
        timestamp_format_swap(&field("dd_mm_yyyy", Confidence::High)),
        None
    );
    assert_eq!(
        timestamp_format_swap(&field("dd_mm_yyyy", Confidence::Low)),
        Some(("Swap to MM/DD", TimestampFormat::MonthFirst))
    );
    assert_eq!(
        timestamp_format_swap(&field("mm_dd_yyyy", Confidence::Low)),
        Some(("Swap to DD/MM", TimestampFormat::DayFirst))
    );
    assert_eq!(
        timestamp_format_swap(&field("iso8601", Confidence::Low)),
        None
    );
}

#[test]
fn delimiter_options_excludes_whitespace() {
    assert!(!delimiter_options().contains(&Delimiter::Whitespace));
}

#[test]
fn only_a_click_on_another_choice_corrects() {
    let delimiters = delimiter_choices(&field(",", Confidence::Low));
    assert_eq!(picked_delimiter(delimiters[1], false), None);
    assert_eq!(picked_delimiter(delimiters[0], true), None);
    assert_eq!(
        picked_delimiter(delimiters[1], true),
        Some(Correction::Delimiter(Delimiter::Semicolon))
    );

    let separators = decimal_separator_choices(&field(",", Confidence::Low));
    assert_eq!(picked_separator(separators[1], true), None);
    assert_eq!(
        picked_separator(separators[0], true),
        Some(Correction::DecimalSeparator(DecimalSeparator::Dot))
    );
}

#[test]
fn choices_have_names() {
    assert_eq!(delimiter_display(Delimiter::Comma), "Comma (,)");
    assert_eq!(delimiter_display(Delimiter::Tab), "Tab");
    assert_eq!(
        decimal_separator_display(DecimalSeparator::Comma),
        "Comma (,)"
    );
}
