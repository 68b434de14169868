//! Where the values of a table are kept, and opening a file under a budget.

use vstd::prelude::*;
use crate::budget::RamBudget;
use crate::error::{GlydeError, Result};
use crate::index::bytes::ByteOrder;
use crate::ingest::csv;
use crate::ingest::csv::{
    parse_capturing_all_columns, read_rows, sniff_text, Capture, CsvParseOutcome, Sniff,
};
use crate::ingest::dataset;
use crate::ingest::dataset::{Dataset, LoadFault, LoadedText, Table};
use crate::ingest::encoding::{decode, detect_encoding, EncodingInference};
use crate::ingest::infer;
use crate::ingest::overrides::IngestOverrides;
use crate::ingest::report;
use crate::ingest::report::{
    build_summary_and_report, can_be_summarized, InferenceReport, OpenSummary,
};
use crate::ingest::spilled;
use crate::ingest::spilled::load_spilled;
use crate::time::TimestampFormat;

verus! {

/// Where the values of a table are kept.
#[derive(Debug, Clone, Copy, PartialEq, Eq, Structural)]
pub enum Storage {
    InMemory,
    Spill,
}

/// Decides before any row is read where the values are to be kept: in memory
/// where that fits the budget, else in files, and nowhere where there is no
/// place for files.
pub fn choose_storage(
    estimated_bytes: u64,
    budget: RamBudget,
    has_cache_dir: bool,
) -> (storage: Result<Storage>)
    ensures
        match storage {
            Ok(Storage::InMemory) => estimated_bytes <= budget.cap(),
            Ok(Storage::Spill) => estimated_bytes > budget.cap() && has_cache_dir,
            Err(error) => estimated_bytes > budget.cap() && !has_cache_dir && error == (
            GlydeError::BudgetExceeded {
                requested_bytes: estimated_bytes,
                cap_bytes: budget.cap(),
            }),
        },
{
    if budget.affords(estimated_bytes) {
        return Ok(Storage::InMemory);
    }
    if !has_cache_dir {
        return Err(
            GlydeError::BudgetExceeded {
                requested_bytes: estimated_bytes,
                cap_bytes: budget.cap_bytes(),
            },
        );
    }
    Ok(Storage::Spill)
}

/// The table that the bytes of a file make.
pub open spec fn table_of_bytes(
    bytes: Seq<u8>,
    overrides: IngestOverrides,
    numbers: Seq<Seq<u64>>,
) -> core::result::Result<(Table, bool), LoadFault> {
    let end = csv::finished_scan_of(bytes, Capture::All, overrides);
    dataset::table_from(
        end.outcome().column_names,
        end.columns(),
        end.outcome().decimal_separator,
        numbers,
        overrides.timestamp_format,
    )
}

/// `loaded` is the report and the table of a file, or tells why there is none.
pub open spec fn is_load_of_bytes(
    loaded: Result<(CsvParseOutcome, Dataset, bool)>,
    bytes: Seq<u8>,
    overrides: IngestOverrides,
    numbers: Seq<Seq<u64>>,
) -> bool {
    match loaded {
        Ok((outcome, dataset, ambiguous)) => {
            &&& bytes.len() > 0
            &&& outcome@ == csv::finished_scan_of(bytes, Capture::All, overrides).outcome()
            &&& dataset::is_load_of(
                Ok((dataset, ambiguous)),
                table_of_bytes(bytes, overrides, numbers),
            )
        },
        Err(error) => if bytes.len() == 0 {
            error is EmptyFile
        } else {
            dataset::is_load_of(Err(error), table_of_bytes(bytes, overrides, numbers))
        },
    }
}

/// The budget decides where a table is kept and nothing else: two loads of the
/// same bytes, under whatever budgets, that are not refused give the same
/// report and the same table, value by value and with the same things noticed
/// about every column; or both fail.
pub proof fn law_budget_does_not_change_the_table(
    one: Result<(CsvParseOutcome, Dataset, bool)>,
    other: Result<(CsvParseOutcome, Dataset, bool)>,
    bytes: Seq<u8>,
    overrides: IngestOverrides,
    numbers: Seq<Seq<u64>>,
)
    requires
        is_load_of_bytes(one, bytes, overrides, numbers),
        is_load_of_bytes(other, bytes, overrides, numbers),
    ensures
        match (one, other) {
            (Ok((a, p, x)), Ok((b, q, y))) => a@ == b@ && p@ == q@ && x == y,
            (Err(_), Err(_)) => true,
            _ => false,
        },
{
}

fn load_in_memory(bytes: &[u8], overrides: IngestOverrides, numbers: &[Vec<u64>]) -> (loaded:
    Result<(CsvParseOutcome, Dataset, bool)>)
    requires
        bytes@.len() <= usize::MAX / 8,
        overrides.timestamp_format != Some(TimestampFormat::DateTimeSpace),
    ensures
        is_load_of_bytes(loaded, bytes@, overrides, dataset::number_views(numbers@)),
        loaded matches Ok((_, dataset, _)) ==> !dataset::is_in_files(dataset),
{
    match parse_capturing_all_columns(bytes, overrides) {
        Ok((outcome, columns)) => {
            let loaded: LoadedText = LoadedText {
                outcome,
                columns,
                forced: overrides.timestamp_format,
            };
            proof {
                let end = csv::finished_scan_of(bytes@, Capture::All, overrides);
                dataset::lemma_captured_is_rectangular(end);
                assert(csv::column_texts(loaded.columns@).len() == loaded.columns@.len());
                assert(outcome@.column_names.len() == outcome.column_names@.len());
            }
            match loaded.build(numbers) {
                Ok((dataset, ambiguous)) => Ok((loaded.outcome, dataset, ambiguous)),
                Err(error) => Err(error),
            }
        },
        Err(error) => Err(error),
    }
}

fn load_in_files(
    bytes: &[u8],
    overrides: IngestOverrides,
    numbers: &[Vec<u64>],
    order: ByteOrder,
) -> (loaded: Result<(CsvParseOutcome, Dataset, bool)>)
    requires
        bytes@.len() <= usize::MAX / 8,
        overrides.timestamp_format != Some(TimestampFormat::DateTimeSpace),
    ensures
        is_load_of_bytes(loaded, bytes@, overrides, dataset::number_views(numbers@)),
        loaded matches Ok((_, dataset, _)) ==> spilled::is_kept_in_files(dataset, order),
{
    if bytes.len() == 0 {
        return Err(GlydeError::EmptyFile);
    }
    let encoding: EncodingInference = detect_encoding(bytes);
    let text: String = decode(bytes, &encoding);
    let sniff: Sniff = sniff_text(text.as_str(), encoding, overrides);
    let rows: Vec<Option<Vec<String>>> = read_rows(text.as_str(), sniff.delimiter);
    proof {
        let end = csv::finished_scan_of(bytes@, Capture::All, overrides);
        assert(infer::record_texts(rows@).len() == rows@.len());
        assert(spilled::end_of_rows(sniff, rows@) =~= end);
    }
    load_spilled(&sniff, rows.as_slice(), numbers, overrides.timestamp_format, order)
}

/// Loads the bytes of a file, kept where the budget says.
pub fn load_with_budget(
    bytes: &[u8],
    overrides: IngestOverrides,
    numbers: &[Vec<u64>],
    estimated_bytes: u64,
    budget: RamBudget,
    has_cache_dir: bool,
    order: ByteOrder,
) -> (loaded: Result<(CsvParseOutcome, Dataset, bool)>)
    requires
        bytes@.len() <= usize::MAX / 8,
        overrides.timestamp_format != Some(TimestampFormat::DateTimeSpace),
    ensures
        estimated_bytes <= budget.cap() || has_cache_dir ==> is_load_of_bytes(
            loaded,
            bytes@,
            overrides,
            dataset::number_views(numbers@),
        ),
        estimated_bytes <= budget.cap() ==> (loaded matches Ok((_, dataset, _))
            ==> !dataset::is_in_files(dataset)),
        estimated_bytes > budget.cap() && has_cache_dir ==> (loaded matches Ok((_, dataset, _))
            ==> spilled::is_kept_in_files(dataset, order)),
        estimated_bytes > budget.cap() && !has_cache_dir ==> (loaded matches Err(error) && error
            == (GlydeError::BudgetExceeded {
            requested_bytes: estimated_bytes,
            cap_bytes: budget.cap(),
        })),
{
    match choose_storage(estimated_bytes, budget, has_cache_dir) {
        Ok(Storage::InMemory) => load_in_memory(bytes, overrides, numbers),
        Ok(Storage::Spill) => load_in_files(bytes, overrides, numbers, order),
        Err(error) => Err(error),
    }
}

/// Opens the bytes of a file, kept where the budget says. Under a forced format
/// of plain numbers the ticks can lie so far apart that their differences
/// cannot be counted, and then there is a table but nothing to report of it.
pub fn open_dataset_with_budget(
    bytes: &[u8],
    overrides: IngestOverrides,
    numbers: &[Vec<u64>],
    estimated_bytes: u64,
    budget: RamBudget,
    has_cache_dir: bool,
    order: ByteOrder,
) -> (opened: Result<(Option<(OpenSummary, InferenceReport)>, Dataset)>)
    requires
        bytes@.len() <= usize::MAX / 8,
        overrides.timestamp_format != Some(TimestampFormat::DateTimeSpace),
    ensures
        if estimated_bytes > budget.cap() && !has_cache_dir {
            opened matches Err(error) && error == (GlydeError::BudgetExceeded {
                requested_bytes: estimated_bytes,
                cap_bytes: budget.cap(),
            })
        } else if bytes@.len() == 0 {
            opened matches Err(error) && error is EmptyFile
        } else {
            let outcome = csv::finished_scan_of(bytes@, Capture::All, overrides).outcome();
            let wanted = table_of_bytes(bytes@, overrides, dataset::number_views(numbers@));
            match (opened, wanted) {
                (Ok((Some((summary, report)), dataset)), Ok((table, _))) => {
                    &&& report::has_countable_differences(table.time)
                    &&& report::is_open_of(Ok((summary, report, dataset)), outcome, wanted)
                },
                (Ok((None, dataset)), Ok((table, _))) => {
                    &&& !report::has_countable_differences(table.time)
                    &&& dataset.wf()
                    &&& dataset@ == table
                },
                (Err(error), Err(fault)) => dataset::reports_load_fault(error, fault),
                _ => false,
            }
        },
        estimated_bytes <= budget.cap() ==> (opened matches Ok((_, dataset))
            ==> !dataset::is_in_files(dataset)),
        estimated_bytes > budget.cap() ==> (opened matches Ok((_, dataset))
            ==> spilled::is_kept_in_files(dataset, order)),
{
    match load_with_budget(
        bytes,
        overrides,
        numbers,
        estimated_bytes,
        budget,
        has_cache_dir,
        order,
    ) {
        Ok((outcome, dataset, ambiguous)) => {
            if !can_be_summarized(&dataset.time) {
                return Ok((None, dataset));
            }
            match build_summary_and_report(outcome, dataset, ambiguous) {
                Ok((summary, report, dataset)) => Ok((Some((summary, report)), dataset)),
                Err(error) => Err(error),
            }
        },
        Err(error) => Err(error),
    }
}

} // verus!
