//! The state of the one window: which file it shows, how far it has been read,
//! and which corrections hold for it.
//!
//! Files are read elsewhere, and what becomes of them arrives as messages. Every
//! request has a number, one higher each time, and every message carries that
//! of the request it answers: what belongs to an earlier request is dropped.

use vstd::prelude::*;
use crate::dsp::decimation::Bucket;
use crate::error;
use crate::error::GlydeError;
use crate::ingest::dataset;
use crate::index::level0::Level0Cache;
use crate::ingest::dataset::{Checkpoint, Dataset};
use crate::ingest::overrides::IngestOverrides;
use crate::ingest::registry;
use crate::ingest::registry::open;
use crate::ingest::report;
use crate::ingest::report::{InferenceReport, OpenSummary};
use crate::text;
use crate::text::{push_decimal, push_text, string_of};
use crate::view::inference_bar::{is_same, Correction};
use crate::view::time;
use crate::view::time::cache_column_samples;

verus! {

/// What the reading of a file reports.
pub enum IndexingMessage {
    /// The file is being opened.
    Started { generation: u64, path: String },
    /// So much of it has been read.
    Progress {
        generation: u64,
        path: String,
        dataset: Dataset,
        pyramids: Vec<Option<Vec<Vec<Bucket>>>>,
        rows_read: u64,
        spilled: bool,
    },
    /// It has been read whole.
    Completed {
        generation: u64,
        path: String,
        summary: OpenSummary,
        report: InferenceReport,
        dataset: Dataset,
        pyramids: Vec<Option<Vec<Vec<Bucket>>>>,
        level0_caches: Vec<Option<Level0Cache>>,
    },
    /// It could not be read.
    Failed { generation: u64, path: String, message: String },
}

impl IndexingMessage {
    /// The number of the request that the message answers.
    pub open spec fn generation_spec(self) -> u64 {
        match self {
            IndexingMessage::Started { generation, .. } => generation,
            IndexingMessage::Progress { generation, .. } => generation,
            IndexingMessage::Completed { generation, .. } => generation,
            IndexingMessage::Failed { generation, .. } => generation,
        }
    }

    /// A table that the message carries is as it should be.
    pub open spec fn wf(self) -> bool {
        match self {
            IndexingMessage::Progress { dataset, .. } => dataset.wf(),
            IndexingMessage::Completed { dataset, .. } => dataset.wf(),
            _ => true,
        }
    }

    /// The number of the request that the message answers.
    pub fn generation(&self) -> (generation: u64)
        ensures
            generation == self.generation_spec(),
    {
        match self {
            IndexingMessage::Started { generation, .. } => *generation,
            IndexingMessage::Progress { generation, .. } => *generation,
            IndexingMessage::Completed { generation, .. } => *generation,
            IndexingMessage::Failed { generation, .. } => *generation,
        }
    }
}

/// A table that is still growing, and what is needed to draw it.
pub struct PartialLoad {
    pub dataset: Dataset,
    pub pyramids: Vec<Option<Vec<Vec<Bucket>>>>,
    pub ticks: Vec<i128>,
    pub sample_cache: Vec<Option<Vec<u64>>>,
    pub rows_read: u64,
    /// The values go to files, because there are too many for the memory.
    pub spilled: bool,
}

/// What the window shows.
pub enum Status {
    Idle,
    Loading { path: String, partial: Option<PartialLoad> },
    Loaded {
        path: String,
        summary: OpenSummary,
        report: InferenceReport,
        dataset: Dataset,
        pyramids: Vec<Option<Vec<Vec<Bucket>>>>,
        ticks: Vec<i128>,
        sample_cache: Vec<Option<Vec<u64>>>,
        level0_caches: Vec<Option<Level0Cache>>,
    },
    Failed { path: String, message: String },
}

/// The status is what a message says.
pub open spec fn reflects(status: Status, message: IndexingMessage) -> bool {
    match message {
        IndexingMessage::Started { path, .. } => status == (Status::Loading {
            path,
            partial: None,
        }),
        IndexingMessage::Progress { path, dataset, pyramids, rows_read, spilled, .. } => {
            status matches Status::Loading { path: shown, partial: Some(partial) } && {
                &&& shown == path
                &&& partial.dataset == dataset
                &&& partial.pyramids == pyramids
                &&& partial.ticks@ == dataset.time@.pyramid_ticks()
                &&& time::are_converted(partial.sample_cache@, dataset)
                &&& partial.rows_read == rows_read
                &&& partial.spilled == spilled
            }
        },
        IndexingMessage::Completed {
            path,
            summary,
            report,
            dataset,
            pyramids,
            level0_caches,
            ..
        } => {
            status matches Status::Loaded {
                path: shown,
                summary: told,
                report: inferred,
                dataset: table,
                pyramids: levels,
                ticks,
                sample_cache,
                level0_caches: caches,
            } && {
                &&& shown == path
                &&& told == summary
                &&& inferred == report
                &&& table == dataset
                &&& levels == pyramids
                &&& ticks@ == dataset.time@.pyramid_ticks()
                &&& time::are_converted(sample_cache@, dataset)
                &&& caches == level0_caches
            }
        },
        IndexingMessage::Failed { path, message, .. } => status == (Status::Failed {
            path,
            message,
        }),
    }
}

/// A request to read a file under corrections.
pub struct IndexJob {
    pub generation: u64,
    pub path: String,
    pub overrides: IngestOverrides,
}

/// The state of the window.
pub struct WindowState {
    pub status: Status,
    pub generation: u64,
    pub overrides: IngestOverrides,
    /// The file that the corrections were made to.
    pub corrected_path: Option<String>,
    /// The dialog was asked for, and no file that was picked in it has been
    /// heard of yet.
    pub is_picking: bool,
}

/// The corrections that hold for a file: those that were made to it, and none
/// where they were made to another one.
pub open spec fn corrections_for(
    overrides: IngestOverrides,
    corrected_path: Option<Seq<char>>,
    path: Seq<char>,
) -> IngestOverrides {
    if corrected_path == Some(path) {
        overrides
    } else {
        IngestOverrides::none_spec()
    }
}

/// A correction never follows from one file to the next. A file to which none
/// was made yet is read under the new correction alone; one that was corrected
/// before keeps what was corrected of it.
pub proof fn law_corrections_stay_with_their_file(
    overrides: IngestOverrides,
    corrected_path: Option<Seq<char>>,
    path: Seq<char>,
    correction: Correction,
)
    ensures
        corrected_path != Some(path) ==> corrected(
            corrections_for(overrides, corrected_path, path),
            correction,
        ) == corrected(IngestOverrides::none_spec(), correction),
        corrected_path == Some(path) ==> corrected(
            corrections_for(overrides, corrected_path, path),
            correction,
        ) == corrected(overrides, correction),
{
}

impl WindowState {
    /// The file that the corrections were made to.
    pub open spec fn corrected_file(self) -> Option<Seq<char>> {
        report::text_view(self.corrected_path)
    }

    /// Whether the corrections were made to the given file.
    fn is_corrected(&self, path: &str) -> (corrected: bool)
        ensures
            corrected == (self.corrected_file() == Some(path@)),
    {
        match &self.corrected_path {
            Some(corrected) => is_same(corrected.as_str(), path),
            None => false,
        }
    }

    /// A window without a file.
    pub fn new() -> (state: WindowState)
        ensures
            state.status is Idle,
            state.generation == 0,
            state.overrides == IngestOverrides::none_spec(),
            state.corrected_file() is None,
            !state.is_picking,
    {
        WindowState {
            status: Status::Idle,
            generation: 0,
            overrides: IngestOverrides::default(),
            corrected_path: None,
            is_picking: false,
        }
    }

    /// The user asks for another file. Corrections of the one before do not
    /// follow to it.
    pub fn open(&mut self, path: &str) -> (job: IndexJob)
        requires
            old(self).generation < u64::MAX,
        ensures
            final(self).generation == old(self).generation + 1,
            final(self).overrides == IngestOverrides::none_spec(),
            final(self).corrected_file() is None,
            !final(self).is_picking,
            final(self).status matches Status::Loading { path: shown, partial: None } && shown@
                == path@,
            job.generation == final(self).generation,
            job.path@ == path@,
            job.overrides == IngestOverrides::none_spec(),
    {
        self.generation = self.generation + 1;
        self.overrides = IngestOverrides::default();
        self.corrected_path = None;
        self.is_picking = false;
        self.status = Status::Loading { path: path.to_owned(), partial: None };
        IndexJob {
            generation: self.generation,
            path: path.to_owned(),
            overrides: IngestOverrides::default(),
        }
    }

    /// The user asks for the dialog that picks a file. Whatever was still to
    /// come of the file before is no longer wanted, even if none is picked. As
    /// long as none is, or the same one is, the corrections of the file that is
    /// shown stay; they never follow to another one.
    pub fn open_dialog(&mut self) -> (generation: u64)
        requires
            old(self).generation < u64::MAX,
        ensures
            final(self).generation == old(self).generation + 1,
            final(self).status == old(self).status,
            final(self).overrides == old(self).overrides,
            final(self).corrected_file() == old(self).corrected_file(),
            final(self).is_picking,
            generation == final(self).generation,
    {
        self.is_picking = true;
        self.generation = self.generation + 1;
        self.generation
    }

    /// The user corrects an inferred field. The correction is added to those
    /// that were made to the file already, and the file is read anew.
    pub fn apply_correction(&mut self, path: &str, correction: Correction) -> (job: IndexJob)
        requires
            old(self).generation < u64::MAX,
        ensures
            final(self).generation == old(self).generation + 1,
            final(self).overrides == corrected(
                corrections_for(old(self).overrides, old(self).corrected_file(), path@),
                correction,
            ),
            final(self).corrected_file() == Some(path@),
            !final(self).is_picking,
            final(self).status matches Status::Loading { path: shown, partial: None } && shown@
                == path@,
            job.generation == final(self).generation,
            job.path@ == path@,
            job.overrides == final(self).overrides,
    {
        if !self.is_corrected(path) {
            self.overrides = IngestOverrides::default();
        }
        self.corrected_path = Some(path.to_owned());
        self.is_picking = false;
        match correction {
            Correction::Delimiter(delimiter) => {
                self.overrides.delimiter = Some(delimiter);
            },
            Correction::DecimalSeparator(separator) => {
                self.overrides.decimal_separator = Some(separator);
            },
            Correction::TimestampFormat(format) => {
                self.overrides.timestamp_format = Some(format);
            },
        }
        self.generation = self.generation + 1;
        self.status = Status::Loading { path: path.to_owned(), partial: None };
        IndexJob {
            generation: self.generation,
            path: path.to_owned(),
            overrides: self.overrides,
        }
    }

    /// The message tells that a file that was picked in the dialog is opened.
    pub open spec fn is_picked_by(self, message: IndexingMessage) -> bool {
        self.is_picking && message is Started && message.generation_spec() == self.generation
    }

    /// Takes a message. One that answers an earlier request changes nothing. A
    /// file that was picked in the dialog keeps the corrections that were made
    /// to it; with any other one they begin anew.
    pub fn receive(&mut self, message: IndexingMessage) -> (applied: bool)
        requires
            message.wf(),
        ensures
            final(self).generation == old(self).generation,
            old(self).is_picked_by(message) ==> {
                &&& final(self).overrides == corrections_for(
                    old(self).overrides,
                    old(self).corrected_file(),
                    message->Started_path@,
                )
                &&& final(self).corrected_file() == (if old(self).corrected_file() == Some(
                    message->Started_path@,
                ) {
                    old(self).corrected_file()
                } else {
                    None
                })
                &&& !final(self).is_picking
            },
            !old(self).is_picked_by(message) ==> {
                &&& final(self).overrides == old(self).overrides
                &&& final(self).corrected_file() == old(self).corrected_file()
                &&& final(self).is_picking == old(self).is_picking
            },
            applied == (message.generation_spec() == old(self).generation),
            applied ==> reflects(final(self).status, message),
            !applied ==> final(self).status == old(self).status,
    {
        if message.generation() != self.generation {
            return false;
        }
        self.status = match message {
            IndexingMessage::Started { path, .. } => {
                if self.is_picking {
                    if !self.is_corrected(path.as_str()) {
                        self.overrides = IngestOverrides::default();
                        self.corrected_path = None;
                    }
                    self.is_picking = false;
                }
                Status::Loading { path, partial: None }
            },
            IndexingMessage::Progress { path, dataset, pyramids, rows_read, spilled, .. } => {
                let ticks: Vec<i128> = dataset.time.to_pyramid_ticks();
                let sample_cache: Vec<Option<Vec<u64>>> = cache_column_samples(&dataset);
                Status::Loading {
                    path,
                    partial: Some(
                        PartialLoad { dataset, pyramids, ticks, sample_cache, rows_read, spilled },
                    ),
                }
            },
            IndexingMessage::Completed {
                path,
                summary,
                report,
                dataset,
                pyramids,
                level0_caches,
                ..
            } => {
                let ticks: Vec<i128> = dataset.time.to_pyramid_ticks();
                let sample_cache: Vec<Option<Vec<u64>>> = cache_column_samples(&dataset);
                Status::Loaded {
                    path,
                    summary,
                    report,
                    dataset,
                    pyramids,
                    ticks,
                    sample_cache,
                    level0_caches,
                }
            },
            IndexingMessage::Failed { path, message, .. } => Status::Failed { path, message },
        };
        true
    }
}

/// The corrections with one more.
pub open spec fn corrected(overrides: IngestOverrides, correction: Correction) -> IngestOverrides {
    match correction {
        Correction::Delimiter(delimiter) => IngestOverrides {
            delimiter: Some(delimiter),
            ..overrides
        },
        Correction::DecimalSeparator(separator) => IngestOverrides {
            decimal_separator: Some(separator),
            ..overrides
        },
        Correction::TimestampFormat(format) => IngestOverrides {
            timestamp_format: Some(format),
            ..overrides
        },
    }
}

/// Corrections of different fields keep each other, whichever comes first.
pub proof fn law_corrections_accumulate(
    overrides: IngestOverrides,
    first: Correction,
    second: Correction,
)
    requires
        first is Delimiter != second is Delimiter || first is DecimalSeparator != second
            is DecimalSeparator,
    ensures
        corrected(corrected(overrides, first), second) == corrected(
            corrected(overrides, second),
            first,
        ),
        corrected(corrected(overrides, first), first) == corrected(overrides, first),
{
}

/// The line beside the spinner.
pub open spec fn loading_text(path: Seq<char>, rows_read: int, spilled: bool) -> Seq<char> {
    "Indexing "@ + path + "\u{2026} "@ + text::decimal_text(rows_read) + " rows so far"@ + (
    if spilled {
        ". This file is too large to hold in memory, so Glyde is streaming it to disk \u{2014} expect a slower open, and a preview that stops growing before the complete plot appears."@
    } else {
        Seq::empty()
    })
}

/// The line beside the spinner. Where the values go to files it says so, and
/// what that means for the user.
pub fn loading_label(path: &str, rows_read: u64, spilled: bool) -> (label: String)
    ensures
        label@ == loading_text(path@, rows_read as int, spilled),
{
    let mut out: Vec<char> = Vec::new();
    push_text(&mut out, "Indexing ");
    push_text(&mut out, path);
    push_text(&mut out, "\u{2026} ");
    push_decimal(&mut out, rows_read as i128);
    push_text(&mut out, " rows so far");
    if spilled {
        push_text(
            &mut out,
            ". This file is too large to hold in memory, so Glyde is streaming it to disk \u{2014} expect a slower open, and a preview that stops growing before the complete plot appears.",
        );
    }
    assert(out@ == loading_text(path@, rows_read as int, spilled));
    string_of(out.as_slice())
}

/// Why a file could not be opened, as a message.
pub fn failed_message(generation: u64, path: &str, error: &GlydeError) -> (message: IndexingMessage)
    ensures
        message matches IndexingMessage::Failed { generation: number, path: told, message: reason }
            && number == generation && told@ == path@ && reason@ == error::message_of(*error),
{
    IndexingMessage::Failed { generation, path: path.to_owned(), message: error.message() }
}

/// Begins a job: says that it has started and, where no reader knows the kind
/// of file, that it has failed. Only without the second message is the file to
/// be read at all.
pub fn begin_job(generation: u64, path: &str) -> (messages: (
    IndexingMessage,
    Option<IndexingMessage>,
))
    ensures
        messages.0 matches IndexingMessage::Started { generation: number, path: told } && number
            == generation && told@ == path@,
        match messages.1 {
            None => registry::is_delimited_text(path@),
            Some(IndexingMessage::Failed { generation: number, path: told, message }) => {
                &&& !registry::is_delimited_text(path@)
                &&& number == generation
                &&& told@ == path@
                &&& message@ == "unrecognized format: "@ + path@
            },
            _ => false,
        },
{
    let started: IndexingMessage = IndexingMessage::Started { generation, path: path.to_owned() };
    match open(path) {
        Ok(_) => (started, None),
        Err(error) => (started, Some(failed_message(generation, path, &error))),
    }
}

/// A checkpoint as a message.
pub fn progress_message(generation: u64, path: &str, checkpoint: Checkpoint, spilled: bool) -> (message:
    IndexingMessage)
    requires
        checkpoint.dataset.wf(),
    ensures
        message.wf(),
        message matches IndexingMessage::Progress {
            generation: number,
            path: told,
            dataset,
            pyramids,
            rows_read,
            spilled: streamed,
        } && {
            &&& number == generation
            &&& told@ == path@
            &&& dataset == checkpoint.dataset
            &&& pyramids == checkpoint.pyramids
            &&& rows_read == checkpoint.rows_read
            &&& streamed == spilled
        },
{
    IndexingMessage::Progress {
        generation,
        path: path.to_owned(),
        dataset: checkpoint.dataset,
        pyramids: checkpoint.pyramids,
        rows_read: checkpoint.rows_read,
        spilled,
    }
}

/// A whole table as a message. A table that is kept in files gets no pyramids
/// and no caches: they would take memory, or a second copy on disk, that grows
/// with the file.
pub fn completed_message(
    generation: u64,
    path: &str,
    summary: OpenSummary,
    report: InferenceReport,
    dataset: Dataset,
    pyramids: Vec<Option<Vec<Vec<Bucket>>>>,
    level0_caches: Vec<Option<Level0Cache>>,
) -> (message: IndexingMessage)
    requires
        dataset.wf(),
    ensures
        message.wf(),
        message matches IndexingMessage::Completed {
            generation: number,
            path: told,
            summary: found,
            report: inferred,
            dataset: table,
            pyramids: levels,
            level0_caches: caches,
        } && {
            &&& number == generation
            &&& told@ == path@
            &&& found == summary
            &&& inferred == report
            &&& table == dataset
            &&& dataset::is_in_files(dataset) ==> {
                &&& levels@ == Seq::new(
                    dataset.columns@.len(),
                    |c: int| None::<Vec<Vec<Bucket>>>,
                )
                &&& caches@ == Seq::new(dataset.columns@.len(), |c: int| None::<Level0Cache>)
            }
            &&& !dataset::is_in_files(dataset) ==> levels == pyramids && caches == level0_caches
        },
{
    let mut levels: Vec<Option<Vec<Vec<Bucket>>>> = pyramids;
    let mut caches: Vec<Option<Level0Cache>> = level0_caches;
    if dataset.is_spilled() {
        levels = Vec::new();
        caches = Vec::new();
        while levels.len() < dataset.columns.len()
            invariant
                levels@.len() <= dataset.columns@.len(),
                levels@ == Seq::new(levels@.len(), |c: int| None::<Vec<Vec<Bucket>>>),
                caches@ == Seq::new(levels@.len(), |c: int| None::<Level0Cache>),
            decreases dataset.columns@.len() - levels@.len(),
        {
            levels.push(None);
            caches.push(None);
        }
    }
    IndexingMessage::Completed {
        generation,
        path: path.to_owned(),
        summary,
        report,
        dataset,
        pyramids: levels,
        level0_caches: caches,
    }
}

} // verus!
