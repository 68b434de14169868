//! Which row of a file names its columns.

use vstd::prelude::*;
use crate::ingest::infer;
use crate::ingest::infer::law_header_is_the_last_label_row_of_the_data_width;
use crate::text;

verus! {

/// A field is data if it is a number or begins as a date does: with a year of four
/// digits and a hyphen.
pub open spec fn is_datum(field: Seq<char>) -> bool {
    ||| text::is_number_text(field)
    ||| field.len() > 4 && field[4] == '-' && text::is_digit_spec(field[0]) && text::is_digit_spec(
        field[1],
    ) && text::is_digit_spec(field[2]) && text::is_digit_spec(field[3])
}

/// A row is a row of labels if it has a field and none of its fields is data, the
/// white space around them aside. One number or date makes it a row of data.
pub proof fn law_one_datum_makes_a_row_of_data(record: Seq<Seq<char>>)
    ensures
        infer::is_label_row(record) <==> (record.len() > 0 && forall|i: int|
            0 <= i < record.len() ==> !is_datum(text::trimmed(#[trigger] record[i]))),
{
    assert forall|i: int| 0 <= i < record.len() implies (infer::is_data(
        text::trimmed(#[trigger] record[i]),
    ) <==> is_datum(text::trimmed(record[i]))) by {
        let field = text::trimmed(record[i]);
        if infer::begins_with_year(field) {
            assert(field.take(4)[0] == field[0]);
            assert(field.take(4)[1] == field[1]);
            assert(field.take(4)[2] == field[2]);
            assert(field.take(4)[3] == field[3]);
        }
        if field.len() > 4 && is_datum(field) && !text::is_number_text(field) {
            assert forall|k: int| 0 <= k < 4 implies text::is_digit_spec(
                #[trigger] field.take(4)[k],
            ) by {
                assert(field.take(4)[k] == field[k]);
            }
            assert(infer::begins_with_year(field));
        }
        reveal_strlit("inf");
        reveal_strlit("infinity");
        reveal_strlit("nan");
        if field.len() == 0 {
            assert(!text::is_number_text(field));
        }
    }
    if infer::is_label_row(record) {
        assert forall|i: int| 0 <= i < record.len() implies !is_datum(
            text::trimmed(#[trigger] record[i]),
        ) by {
            assert(!infer::is_data(text::trimmed(record[i])));
        }
    }
    if record.len() > 0 && forall|i: int|
        0 <= i < record.len() ==> !is_datum(text::trimmed(#[trigger] record[i])) {
        assert forall|i: int| 0 <= i < record.len() implies !infer::is_data(
            text::trimmed(#[trigger] record[i]),
        ) by {
            assert(!is_datum(text::trimmed(record[i])));
        }
    }
}

/// The name of a column is what the header says, white space around it taken off.
/// Without a header the columns are numbered from zero.
pub proof fn law_columns_are_named_by_the_header(records: Seq<Seq<Seq<char>>>, i: int)
    requires
        0 <= i < infer::header_in(records).names.len(),
    ensures
        ({
            let header = infer::header_in(records);
            match header.row {
                Some(row) => {
                    &&& 0 <= row < records.len()
                    &&& header.names.len() == records[row].len()
                    &&& header.names[i] == text::trimmed(records[row][i])
                    &&& header.skipped == row
                },
                None => {
                    &&& header.names[i] == seq!['c', 'o', 'l', 'u', 'm', 'n', '_']
                        + text::decimal_text(i)
                },
            }
        }),
{
    reveal_strlit("column_");
    law_header_is_the_last_label_row_of_the_data_width(records);
    assert("column_"@ =~= seq!['c', 'o', 'l', 'u', 'm', 'n', '_']);
}

/// A row of labels right before a row of data that is as wide names the columns,
/// with whatever other rows of labels before them.
pub proof fn law_labels_right_before_the_data_are_the_header(
    records: Seq<Seq<Seq<char>>>,
    row: int,
)
    requires
        0 <= row < records.len() - 1,
        forall|i: int| 0 <= i <= row ==> infer::is_label_row(#[trigger] records[i]),
        !infer::is_label_row(records[row + 1]),
        records[row].len() == records[row + 1].len(),
    ensures
        ({
            let header = infer::header_in(records);
            &&& header.row == Some(row)
            &&& header.skipped == row
            &&& header.names == Seq::new(
                records[row].len(),
                |i: int| text::trimmed(records[row][i]),
            )
            &&& !header.ambiguous
        }),
{
    law_header_is_the_last_label_row_of_the_data_width(records);
    let start = infer::data_start(records, 0);
    if start <= row {
        assert(infer::is_label_row(records[start]));
    } else if start > row + 1 {
        assert(infer::is_label_row(records[row + 1]));
    }
    assert(infer::last_of_width(records, records[row].len() as int, row + 1) == Some(row));
}

/// A file that begins with a row of data has no header, and that is certain.
pub proof fn law_data_in_the_first_row_is_no_header(records: Seq<Seq<Seq<char>>>)
    requires
        records.len() > 0,
        !infer::is_label_row(records[0]),
    ensures
        ({
            let header = infer::header_in(records);
            &&& header.row is None
            &&& header.skipped == 0
            &&& header.names.len() == records[0].len()
            &&& !header.ambiguous
        }),
{
    law_header_is_the_last_label_row_of_the_data_width(records);
}

/// Rows of labels that are all of another width than the data are passed over. The
/// columns are then numbered, and that is not certain.
pub proof fn law_labels_of_another_width_are_passed_over(
    records: Seq<Seq<Seq<char>>>,
    start: int,
)
    requires
        0 < start < records.len(),
        forall|i: int|
            0 <= i < start ==> infer::is_label_row(#[trigger] records[i]) && records[i].len()
                != records[start].len(),
        !infer::is_label_row(records[start]),
    ensures
        ({
            let header = infer::header_in(records);
            &&& header.row is None
            &&& header.skipped == start
            &&& header.names.len() == records[start].len()
            &&& header.ambiguous
        }),
{
    law_header_is_the_last_label_row_of_the_data_width(records);
    let found = infer::data_start(records, 0);
    if found < start {
        assert(infer::is_label_row(records[found]));
    } else if found > start {
        assert(infer::is_label_row(records[start]));
    }
    let header = infer::header_in(records);
    if header.row is Some {
        lemma_header_width(records);
        let row = header.row->0;
        assert(records[row].len() != records[start].len());
    }
}

proof fn lemma_header_width(records: Seq<Seq<Seq<char>>>)
    ensures
        infer::header_in(records).row matches Some(row) ==> infer::header_in(records).names.len()
            == records[row].len(),
{
}

} // verus!
