//! What the inference bar says and offers: every inferred field, marked where
//! it is unsure, and a correction for each unsure one that can be corrected.

use vstd::prelude::*;
use crate::ingest::infer::{Confidence, DecimalSeparator, Delimiter};
use crate::ingest::report;
use crate::ingest::report::{InferenceReport, InferredField, SamplingClass};
use crate::text;
use crate::text::{push_decimal, push_text, string_of};
use crate::time::TimestampFormat;

verus! {

/// A correction of one inferred field.
#[derive(Debug, Clone, Copy, PartialEq, Eq, Structural)]
pub enum Correction {
    Delimiter(Delimiter),
    DecimalSeparator(DecimalSeparator),
    TimestampFormat(TimestampFormat),
}

/// The delimiters that are offered, in the order in which they are tried. White
/// space is not: nearly every file has some, and splitting there would not fail
/// at once where it is wrong.
pub open spec fn offered_delimiters() -> Seq<Delimiter> {
    seq![Delimiter::Comma, Delimiter::Semicolon, Delimiter::Tab, Delimiter::Pipe]
}

/// The delimiters that are offered.
pub fn delimiter_options() -> (options: [Delimiter; 4])
    ensures
        options@ == offered_delimiters(),
{
    let options: [Delimiter; 4] = [
        Delimiter::Comma,
        Delimiter::Semicolon,
        Delimiter::Tab,
        Delimiter::Pipe,
    ];
    assert(options@ == offered_delimiters());
    options
}

/// The name that a delimiter is offered under.
pub open spec fn delimiter_name(delimiter: Delimiter) -> Seq<char> {
    match delimiter {
        Delimiter::Comma => "Comma (,)"@,
        Delimiter::Semicolon => "Semicolon (;)"@,
        Delimiter::Tab => "Tab"@,
        Delimiter::Pipe => "Pipe (|)"@,
        Delimiter::Whitespace => "Whitespace"@,
    }
}

/// The name that a delimiter is offered under.
pub fn delimiter_display(delimiter: Delimiter) -> (name: &'static str)
    ensures
        name@ == delimiter_name(delimiter),
{
    match delimiter {
        Delimiter::Comma => "Comma (,)",
        Delimiter::Semicolon => "Semicolon (;)",
        Delimiter::Tab => "Tab",
        Delimiter::Pipe => "Pipe (|)",
        Delimiter::Whitespace => "Whitespace",
    }
}

/// The labels of the delimiters differ.
proof fn lemma_delimiter_labels_differ()
    ensures
        Delimiter::Comma.label() == seq![','],
        Delimiter::Semicolon.label() == seq![';'],
        Delimiter::Tab.label() == seq!['\t'],
        Delimiter::Pipe.label() == seq!['|'],
        DecimalSeparator::Dot.label() == seq!['.'],
        DecimalSeparator::Comma.label() == seq![','],
{
    reveal_strlit(",");
    reveal_strlit(";");
    reveal_strlit("\t");
    reveal_strlit("|");
    reveal_strlit(".");
    assert(","@ =~= seq![',']);
    assert(";"@ =~= seq![';']);
    assert("\t"@ =~= seq!['\t']);
    assert("|"@ =~= seq!['|']);
    assert("."@ =~= seq!['.']);
}

/// The offered delimiter with the given label.
pub open spec fn delimiter_of_label(label: Seq<char>) -> Option<Delimiter> {
    if label == Delimiter::Comma.label() {
        Some(Delimiter::Comma)
    } else if label == Delimiter::Semicolon.label() {
        Some(Delimiter::Semicolon)
    } else if label == Delimiter::Tab.label() {
        Some(Delimiter::Tab)
    } else if label == Delimiter::Pipe.label() {
        Some(Delimiter::Pipe)
    } else {
        None
    }
}

/// The offered delimiter with the given label.
pub fn delimiter_from_label(label: &str) -> (delimiter: Option<Delimiter>)
    ensures
        delimiter == delimiter_of_label(label@),
{
    if is_same(label, Delimiter::Comma.as_str()) {
        Some(Delimiter::Comma)
    } else if is_same(label, Delimiter::Semicolon.as_str()) {
        Some(Delimiter::Semicolon)
    } else if is_same(label, Delimiter::Tab.as_str()) {
        Some(Delimiter::Tab)
    } else if is_same(label, Delimiter::Pipe.as_str()) {
        Some(Delimiter::Pipe)
    } else {
        None
    }
}

pub(crate) fn is_same(one: &str, other: &str) -> (same: bool)
    ensures
        same == (one@ == other@),
{
    let chars: Vec<char> = crate::text::chars_of(one);
    crate::text::is_text(chars.as_slice(), other)
}

/// Every offered delimiter is found again by its own label.
pub proof fn law_delimiter_labels_read_back(i: int)
    requires
        0 <= i < offered_delimiters().len(),
    ensures
        delimiter_of_label(offered_delimiters()[i].label()) == Some(offered_delimiters()[i]),
{
    lemma_delimiter_labels_differ();
    let comma = seq![','];
    let semicolon = seq![';'];
    let tab = seq!['\t'];
    let pipe = seq!['|'];
    assert(comma[0] == ',' && semicolon[0] == ';' && tab[0] == '\t' && pipe[0] == '|');
}

/// The name that a decimal separator is offered under.
pub open spec fn separator_name(separator: DecimalSeparator) -> Seq<char> {
    match separator {
        DecimalSeparator::Dot => "Dot (.)"@,
        DecimalSeparator::Comma => "Comma (,)"@,
    }
}

/// The name that a decimal separator is offered under.
pub fn decimal_separator_display(separator: DecimalSeparator) -> (name: &'static str)
    ensures
        name@ == separator_name(separator),
{
    match separator {
        DecimalSeparator::Dot => "Dot (.)",
        DecimalSeparator::Comma => "Comma (,)",
    }
}

/// The decimal separator with the given label.
pub open spec fn separator_of_label(label: Seq<char>) -> Option<DecimalSeparator> {
    if label == DecimalSeparator::Dot.label() {
        Some(DecimalSeparator::Dot)
    } else if label == DecimalSeparator::Comma.label() {
        Some(DecimalSeparator::Comma)
    } else {
        None
    }
}

/// The decimal separator with the given label.
pub fn decimal_separator_from_label(label: &str) -> (separator: Option<DecimalSeparator>)
    ensures
        separator == separator_of_label(label@),
{
    if is_same(label, DecimalSeparator::Dot.as_str()) {
        Some(DecimalSeparator::Dot)
    } else if is_same(label, DecimalSeparator::Comma.as_str()) {
        Some(DecimalSeparator::Comma)
    } else {
        None
    }
}

/// Every decimal separator is found again by its own label.
pub proof fn law_separator_labels_read_back(separator: DecimalSeparator)
    ensures
        separator_of_label(separator.label()) == Some(separator),
{
    lemma_delimiter_labels_differ();
    assert(seq!['.'][0] == '.' && seq![','][0] == ',');
}

/// One choice of a correction: a delimiter, and whether it is the one that the
/// file is read with.
#[derive(Debug, Clone, Copy, PartialEq, Eq, Structural)]
pub struct DelimiterChoice {
    pub delimiter: Delimiter,
    pub is_current: bool,
}

/// The choices for a delimiter: none where the inference is sure.
pub open spec fn delimiter_choices_of(field: InferredField<Option<String>>) -> Seq<
    DelimiterChoice,
> {
    if field.confidence == Confidence::High {
        Seq::empty()
    } else {
        let current = match report::text_view(field.value) {
            Some(label) => delimiter_of_label(label),
            None => None,
        };
        Seq::new(
            offered_delimiters().len(),
            |i: int|
                DelimiterChoice {
                    delimiter: offered_delimiters()[i],
                    is_current: current == Some(offered_delimiters()[i]),
                },
        )
    }
}

/// The choices that are offered for a delimiter. There are none where the
/// inference is sure: what works is not to be fiddled with.
pub fn delimiter_choices(field: &InferredField<Option<String>>) -> (choices: Vec<DelimiterChoice>)
    ensures
        choices@ == delimiter_choices_of(*field),
{
    let mut choices: Vec<DelimiterChoice> = Vec::new();
    if let Confidence::High = field.confidence {
        return choices;
    }
    let current: Option<Delimiter> = match &field.value {
        Some(label) => delimiter_from_label(label.as_str()),
        None => None,
    };
    let options: [Delimiter; 4] = delimiter_options();
    let mut i: usize = 0;
    while i < 4
        invariant
            options@ == offered_delimiters(),
            offered_delimiters().len() == 4,
            field.confidence == Confidence::Low,
            current == (match report::text_view(field.value) {
                Some(label) => delimiter_of_label(label),
                None => None,
            }),
            i <= 4,
            choices@ == delimiter_choices_of(*field).take(i as int),
        decreases 4 - i,
    {
        let delimiter: Delimiter = options[i];
        assert(options@[i as int] == offered_delimiters()[i as int]);
        let is_current: bool = match current {
            Some(current) => current == delimiter,
            None => false,
        };
        choices.push(DelimiterChoice { delimiter, is_current });
        assert(delimiter_choices_of(*field).take(i + 1) == delimiter_choices_of(*field).take(
            i as int,
        ).push(delimiter_choices_of(*field)[i as int]));
        i = i + 1;
    }
    assert(delimiter_choices_of(*field).take(4) == delimiter_choices_of(*field));
    choices
}

/// One choice of a correction: a decimal separator, and whether it is the one
/// that the file is read with.
#[derive(Debug, Clone, Copy, PartialEq, Eq, Structural)]
pub struct SeparatorChoice {
    pub separator: DecimalSeparator,
    pub is_current: bool,
}

/// The choices that are offered for a decimal separator, none where the
/// inference is sure.
pub fn decimal_separator_choices(field: &InferredField<Option<String>>) -> (choices: Vec<
    SeparatorChoice,
>)
    ensures
        field.confidence == Confidence::High ==> choices@.len() == 0,
        field.confidence == Confidence::Low ==> {
            let current = match report::text_view(field.value) {
                Some(label) => separator_of_label(label),
                None => None,
            };
            choices@ == seq![
                SeparatorChoice {
                    separator: DecimalSeparator::Dot,
                    is_current: current == Some(DecimalSeparator::Dot),
                },
                SeparatorChoice {
                    separator: DecimalSeparator::Comma,
                    is_current: current == Some(DecimalSeparator::Comma),
                },
            ]
        },
{
    let mut choices: Vec<SeparatorChoice> = Vec::new();
    if let Confidence::High = field.confidence {
        return choices;
    }
    let current: Option<DecimalSeparator> = match &field.value {
        Some(label) => decimal_separator_from_label(label.as_str()),
        None => None,
    };
    let (dot, comma) = match current {
        Some(DecimalSeparator::Dot) => (true, false),
        Some(DecimalSeparator::Comma) => (false, true),
        None => (false, false),
    };
    choices.push(SeparatorChoice { separator: DecimalSeparator::Dot, is_current: dot });
    choices.push(SeparatorChoice { separator: DecimalSeparator::Comma, is_current: comma });
    choices
}

/// Clicking a choice corrects the field, unless it is what holds already.
pub fn picked_delimiter(choice: DelimiterChoice, clicked: bool) -> (correction: Option<Correction>)
    ensures
        correction == (if clicked && !choice.is_current {
            Some(Correction::Delimiter(choice.delimiter))
        } else {
            None
        }),
{
    if clicked && !choice.is_current {
        Some(Correction::Delimiter(choice.delimiter))
    } else {
        None
    }
}

/// Clicking a choice corrects the field, unless it is what holds already.
pub fn picked_separator(choice: SeparatorChoice, clicked: bool) -> (correction: Option<Correction>)
    ensures
        correction == (if clicked && !choice.is_current {
            Some(Correction::DecimalSeparator(choice.separator))
        } else {
            None
        }),
{
    if clicked && !choice.is_current {
        Some(Correction::DecimalSeparator(choice.separator))
    } else {
        None
    }
}

/// The swap of day and month, offered only where their order is a guess.
pub fn timestamp_format_swap(field: &InferredField<Option<String>>) -> (swap: Option<
    (&'static str, TimestampFormat),
>)
    ensures
        match swap {
            Some((label, format)) => {
                &&& field.confidence == Confidence::Low
                &&& report::text_view(field.value) == Some("dd_mm_yyyy"@) && label@ == "Swap to MM/DD"@
                    && format == TimestampFormat::MonthFirst || report::text_view(field.value) == Some(
                    "mm_dd_yyyy"@,
                ) && label@ == "Swap to DD/MM"@ && format == TimestampFormat::DayFirst
            },
            None => field.confidence == Confidence::High || report::text_view(field.value) != Some(
                "dd_mm_yyyy"@,
            ) && report::text_view(field.value) != Some("mm_dd_yyyy"@),
        },
{
    if let Confidence::High = field.confidence {
        return None;
    }
    match &field.value {
        Some(value) => if is_same(value.as_str(), "dd_mm_yyyy") {
            Some(("Swap to MM/DD", TimestampFormat::MonthFirst))
        } else if is_same(value.as_str(), "mm_dd_yyyy") {
            Some(("Swap to DD/MM", TimestampFormat::DayFirst))
        } else {
            None
        },
        None => None,
    }
}

/// The name of a sampling class.
pub open spec fn class_name(class: SamplingClass) -> Seq<char> {
    match class {
        SamplingClass::Uniform => "Uniform"@,
        SamplingClass::SegmentedUniform => "SegmentedUniform"@,
        SamplingClass::Irregular => "Irregular"@,
        SamplingClass::ProgressiveIndex => "ProgressiveIndex"@,
    }
}

/// The name of a sampling class.
pub fn sampling_class_name(class: SamplingClass) -> (name: &'static str)
    ensures
        name@ == class_name(class),
{
    match class {
        SamplingClass::Uniform => "Uniform",
        SamplingClass::SegmentedUniform => "SegmentedUniform",
        SamplingClass::Irregular => "Irregular",
        SamplingClass::ProgressiveIndex => "ProgressiveIndex",
    }
}

/// The header of the bar, which says so itself where something is unsure.
pub open spec fn header_of_report(
    sample_count: int,
    class: SamplingClass,
    low_confidence: bool,
) -> Seq<char> {
    "Inference \u{2014} "@ + text::decimal_text(sample_count) + (if sample_count == 1 {
        " sample, "@
    } else {
        " samples, "@
    }) + class_name(class) + (if low_confidence {
        " (low confidence \u{2014} review below)"@
    } else {
        Seq::empty()
    })
}

/// The header of the bar.
pub fn header_text(report: &InferenceReport, low_confidence: bool) -> (header: String)
    ensures
        header@ == header_of_report(
            report.sample_count as int,
            report.sampling_class,
            low_confidence,
        ),
{
    let mut out: Vec<char> = Vec::new();
    push_text(&mut out, "Inference \u{2014} ");
    push_decimal(&mut out, report.sample_count as i128);
    if report.sample_count == 1 {
        push_text(&mut out, " sample, ");
    } else {
        push_text(&mut out, " samples, ");
    }
    push_text(&mut out, sampling_class_name(report.sampling_class));
    if low_confidence {
        push_text(&mut out, " (low confidence \u{2014} review below)");
    }
    assert(out@ == header_of_report(
        report.sample_count as int,
        report.sampling_class,
        low_confidence,
    ));
    string_of(out.as_slice())
}

/// A value, or a dash for a field without one.
pub fn display_option(value: &Option<String>) -> (shown: &str)
    ensures
        shown@ == (match report::text_view(*value) {
            Some(text) => text,
            None => "\u{2014}"@,
        }),
{
    match value {
        Some(value) => value.as_str(),
        None => "\u{2014}",
    }
}

/// The label of one field.
pub open spec fn field_label(name: Seq<char>, value: Seq<char>, confidence: Confidence) -> Seq<
    char,
> {
    name + ": "@ + value + match confidence {
        Confidence::High => Seq::empty(),
        Confidence::Low => " (low confidence)"@,
    }
}

/// The label of one field, marked where it is unsure.
pub fn field_text(name: &str, value: &str, confidence: Confidence) -> (label: String)
    ensures
        label@ == field_label(name@, value@, confidence),
{
    let mut out: Vec<char> = Vec::new();
    push_text(&mut out, name);
    push_text(&mut out, ": ");
    push_text(&mut out, value);
    if let Confidence::Low = confidence {
        push_text(&mut out, " (low confidence)");
    }
    assert(out@ == field_label(name@, value@, confidence));
    string_of(out.as_slice())
}

/// An unsure field never has the label of a sure one with the same name and
/// value.
pub proof fn law_unsure_fields_show_it(name: Seq<char>, value: Seq<char>)
    ensures
        field_label(name, value, Confidence::Low) != field_label(name, value, Confidence::High),
{
    reveal_strlit(" (low confidence)");
    assert(field_label(name, value, Confidence::Low).len() > field_label(
        name,
        value,
        Confidence::High,
    ).len());
}

} // verus!
