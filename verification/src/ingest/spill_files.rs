//! The files of a spilled table: what they are called and what they hold.
//!
//! Whoever keeps the table writes them.

use vstd::prelude::*;
use crate::index::level0::file_name;
use crate::index::spill::SpillVec;
use crate::index::typed::Element;
use crate::ingest::axis::{ProgressiveValues, TimeAxis, Timestamps};
use crate::ingest::dataset::Dataset;
use crate::series::dtype::{SeriesValues, SpilledValues};
use crate::series::Series;
use crate::text;
use crate::text::{push_decimal, push_text, string_of};

verus! {

/// One file of a spilled table.
pub struct SpillFile<'a> {
    pub name: String,
    pub bytes: &'a [u8],
}

/// Files as their names and bytes.
pub open spec fn file_views(files: Seq<SpillFile<'_>>) -> Seq<(Seq<char>, Seq<u8>)> {
    Seq::new(files.len(), |i: int| (files[i].name@, files[i].bytes@))
}

/// The files of a time axis, none for one in memory.
pub open spec fn time_files(time: TimeAxis, stem: Seq<char>) -> Seq<(Seq<char>, Seq<u8>)> {
    match time {
        TimeAxis::Absolute { timestamps: Timestamps::Spilled { ticks, units, offsets }, .. } => seq![
            (stem + ".ts.glysp"@, ticks.file_spec()),
            (stem + ".tsunit.glysp"@, units.file_spec()),
            (stem + ".tsoffset.glysp"@, offsets.file_spec()),
        ],
        TimeAxis::Progressive { values: ProgressiveValues::Spilled(values) } => seq![
            (stem + ".tsprogressive.glysp"@, values.file_spec()),
        ],
        _ => Seq::empty(),
    }
}

/// The files of a column's values, none for one in memory.
pub open spec fn value_files(values: SeriesValues, stem: Seq<char>) -> Seq<(Seq<char>, Seq<u8>)> {
    match values {
        SeriesValues::Spilled(SpilledValues::Bool(v)) => seq![(stem + ".glysp"@, v.file_spec())],
        SeriesValues::Spilled(SpilledValues::I64(v)) => seq![(stem + ".glysp"@, v.file_spec())],
        SeriesValues::Spilled(SpilledValues::F64(v)) => seq![(stem + ".glysp"@, v.file_spec())],
        SeriesValues::Spilled(SpilledValues::String(v)) => seq![
            (stem + ".arena.glysp"@, v.arena_spec().file_spec()),
            (stem + ".ends.glysp"@, v.ends_spec().file_spec()),
        ],
        _ => Seq::empty(),
    }
}

/// What the names of a column's files begin with.
pub open spec fn column_stem(stem: Seq<char>, column: int) -> Seq<char> {
    stem + ".c"@ + text::decimal_text(column)
}

/// The files of the first `n` columns.
pub open spec fn column_files(columns: Seq<Series>, stem: Seq<char>, n: int) -> Seq<
    (Seq<char>, Seq<u8>),
>
    decreases n,
{
    if n <= 0 {
        Seq::empty()
    } else {
        column_files(columns, stem, n - 1) + value_files(
            columns[n - 1].values_spec(),
            column_stem(stem, n - 1),
        )
    }
}

fn push_file<'a, T: Element>(
    files: &mut Vec<SpillFile<'a>>,
    stem: &str,
    suffix: &str,
    column: &'a SpillVec<T>,
)
    requires
        column.wf(),
    ensures
        file_views(final(files)@) == file_views(old(files)@).push(
            (stem@ + suffix@, column.file_spec()),
        ),
{
    files.push(SpillFile { name: file_name(stem, suffix), bytes: column.file_bytes() });
    assert(file_views(files@) == file_views(old(files)@).push(
        (stem@ + suffix@, column.file_spec()),
    ));
}

fn name_column(stem: &str, column: usize) -> (name: String)
    ensures
        name@ == column_stem(stem@, column as int),
{
    let mut chars: Vec<char> = Vec::new();
    push_text(&mut chars, stem);
    push_text(&mut chars, ".c");
    push_decimal(&mut chars, column as i128);
    assert(chars@ == column_stem(stem@, column as int));
    string_of(chars.as_slice())
}

fn push_value_files<'a>(files: &mut Vec<SpillFile<'a>>, values: &'a SeriesValues, stem: &str)
    requires
        values.wf(),
    ensures
        file_views(final(files)@) == file_views(old(files)@) + value_files(*values, stem@),
{
    if let SeriesValues::Spilled(spilled) = values {
        match spilled {
            SpilledValues::Bool(v) => push_file(files, stem, ".glysp", v),
            SpilledValues::I64(v) => push_file(files, stem, ".glysp", v),
            SpilledValues::F64(v) => push_file(files, stem, ".glysp", v),
            SpilledValues::String(v) => {
                let (arena, ends) = v.file_bytes();
                files.push(SpillFile { name: file_name(stem, ".arena.glysp"), bytes: arena });
                files.push(SpillFile { name: file_name(stem, ".ends.glysp"), bytes: ends });
            },
        }
    }
    assert(file_views(files@) =~= file_views(old(files)@) + value_files(*values, stem@));
}

/// The files of a spilled table whose names begin with `stem`. A table in memory
/// has none.
pub fn spill_files<'a>(dataset: &'a Dataset, stem: &str) -> (files: Vec<SpillFile<'a>>)
    requires
        dataset.wf(),
    ensures
        file_views(files@) == time_files(dataset.time, stem@) + column_files(
            dataset.columns@,
            stem@,
            dataset.columns@.len() as int,
        ),
{
    let mut files: Vec<SpillFile<'a>> = Vec::new();
    match &dataset.time {
        TimeAxis::Absolute { timestamps, .. } => {
            if let Timestamps::Spilled { ticks, units, offsets } = timestamps {
                push_file(&mut files, stem, ".ts.glysp", ticks);
                push_file(&mut files, stem, ".tsunit.glysp", units);
                push_file(&mut files, stem, ".tsoffset.glysp", offsets);
            }
        },
        TimeAxis::Progressive { values } => {
            if let ProgressiveValues::Spilled(values) = values {
                push_file(&mut files, stem, ".tsprogressive.glysp", values);
            }
        },
    }
    assert(file_views(files@) =~= time_files(dataset.time, stem@));
    let mut c: usize = 0;
    while c < dataset.columns.len()
        invariant
            dataset.wf(),
            c <= dataset.columns@.len(),
            file_views(files@) == time_files(dataset.time, stem@) + column_files(
                dataset.columns@,
                stem@,
                c as int,
            ),
        decreases dataset.columns@.len() - c,
    {
        assert(dataset.columns@[c as int].wf());
        let name: String = name_column(stem, c);
        push_value_files(&mut files, dataset.columns[c].values(), name.as_str());
        assert(file_views(files@) =~= time_files(dataset.time, stem@) + column_files(
            dataset.columns@,
            stem@,
            c + 1,
        ));
        c = c + 1;
    }
    files
}

/// No two columns share the name of a file.
pub proof fn law_columns_have_names_of_their_own(stem: Seq<char>, c: int, d: int)
    requires
        0 <= c,
        0 <= d,
        c != d,
    ensures
        column_stem(stem, c) != column_stem(stem, d),
{
    let most = if c < d {
        d
    } else {
        c
    };
    text::law_decimal_text_round_trips(c, 0, most);
    text::law_decimal_text_round_trips(d, 0, most);
    let a = column_stem(stem, c);
    let b = column_stem(stem, d);
    let start = (stem + ".c"@).len() as int;
    assert(a.skip(start) =~= text::decimal_text(c));
    assert(b.skip(start) =~= text::decimal_text(d));
}

/// The files of every column are among those of the table, each column under its
/// own name.
pub proof fn law_every_column_has_its_files(
    columns: Seq<Series>,
    stem: Seq<char>,
    n: int,
    c: int,
    i: int,
)
    requires
        0 <= c < n <= columns.len(),
        0 <= i < value_files(columns[c].values_spec(), column_stem(stem, c)).len(),
    ensures
        column_files(columns, stem, n).contains(
            value_files(columns[c].values_spec(), column_stem(stem, c))[i],
        ),
    decreases n,
{
    let before = column_files(columns, stem, n - 1);
    let last = value_files(columns[n - 1].values_spec(), column_stem(stem, n - 1));
    let all = column_files(columns, stem, n);
    let file = value_files(columns[c].values_spec(), column_stem(stem, c))[i];
    if c < n - 1 {
        law_every_column_has_its_files(columns, stem, n - 1, c, i);
        let at = choose|at: int| 0 <= at < before.len() && before[at] == file;
        assert(all[at] == file);
    } else {
        assert(all[before.len() + i] == last[i]);
    }
}

} // verus!
