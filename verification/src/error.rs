//! The one error type of the library.
//!
//! Malformed user data never makes the library panic: an unreadable path, an
//! empty file or a field that is no timestamp becomes a [`GlydeError`].

use vstd::prelude::*;
use crate::text;
use crate::text::{push_decimal, push_text, string_of};
use crate::time::TimestampFormat;

verus! {

/// Everything that can go wrong between a source file and its plot.
#[derive(Debug)]
pub enum GlydeError {
    /// A file could not be opened or read.
    Io { path: String, source: String },
    /// No registered reader recognizes the path's format.
    UnrecognizedFormat { path: String },
    /// The file holds no data at all.
    EmptyFile,
    /// The file has a time column and nothing to plot against it.
    SingleColumnFile,
    /// A field of the time column is neither a timestamp nor a number.
    NonNumericTimeIndex { input: String },
    /// A field is no timestamp of the given format.
    InvalidTimestamp { input: String, format: TimestampFormat, reason: String },
    /// A request for memory exceeds the budget.
    BudgetExceeded { requested_bytes: u64, cap_bytes: u64 },
    /// A cache file does not hold what its header promises.
    CorruptCache { path: String, reason: String },
    /// There is no directory to keep cache files in.
    CacheDirUnavailable,
}

/// What an error says to the user.
pub open spec fn message_of(error: GlydeError) -> Seq<char> {
    match error {
        GlydeError::Io { path, source } => "could not read "@ + path@ + ": "@ + source@,
        GlydeError::UnrecognizedFormat { path } => "unrecognized format: "@ + path@,
        GlydeError::EmptyFile => "empty file: no data to read"@,
        GlydeError::SingleColumnFile => "single-column file: no data series to plot"@,
        GlydeError::NonNumericTimeIndex { input } => {
            "time index is neither a timestamp nor a number: "@ + input@
        },
        GlydeError::InvalidTimestamp { input, reason, .. } => {
            "invalid timestamp "@ + input@ + ": "@ + reason@
        },
        GlydeError::BudgetExceeded { requested_bytes, cap_bytes } => {
            "memory budget exceeded: "@ + text::decimal_text(requested_bytes as int)
                + " bytes requested, "@ + text::decimal_text(cap_bytes as int) + " bytes allowed"@
        },
        GlydeError::CorruptCache { path, reason } => {
            "corrupt cache file "@ + path@ + ": "@ + reason@
        },
        GlydeError::CacheDirUnavailable => "no cache directory is available"@,
    }
}

impl GlydeError {
    /// What the error says to the user.
    pub fn message(&self) -> (message: String)
        ensures
            message@ == message_of(*self),
    {
        let mut out: Vec<char> = Vec::new();
        match self {
            GlydeError::Io { path, source } => {
                push_text(&mut out, "could not read ");
                push_text(&mut out, path.as_str());
                push_text(&mut out, ": ");
                push_text(&mut out, source.as_str());
            },
            GlydeError::UnrecognizedFormat { path } => {
                push_text(&mut out, "unrecognized format: ");
                push_text(&mut out, path.as_str());
            },
            GlydeError::EmptyFile => {
                push_text(&mut out, "empty file: no data to read");
            },
            GlydeError::SingleColumnFile => {
                push_text(&mut out, "single-column file: no data series to plot");
            },
            GlydeError::NonNumericTimeIndex { input } => {
                push_text(&mut out, "time index is neither a timestamp nor a number: ");
                push_text(&mut out, input.as_str());
            },
            GlydeError::InvalidTimestamp { input, reason, .. } => {
                push_text(&mut out, "invalid timestamp ");
                push_text(&mut out, input.as_str());
                push_text(&mut out, ": ");
                push_text(&mut out, reason.as_str());
            },
            GlydeError::BudgetExceeded { requested_bytes, cap_bytes } => {
                push_text(&mut out, "memory budget exceeded: ");
                push_decimal(&mut out, *requested_bytes as i128);
                push_text(&mut out, " bytes requested, ");
                push_decimal(&mut out, *cap_bytes as i128);
                push_text(&mut out, " bytes allowed");
            },
            GlydeError::CorruptCache { path, reason } => {
                push_text(&mut out, "corrupt cache file ");
                push_text(&mut out, path.as_str());
                push_text(&mut out, ": ");
                push_text(&mut out, reason.as_str());
            },
            GlydeError::CacheDirUnavailable => {
                push_text(&mut out, "no cache directory is available");
            },
        }
        assert(out@ == message_of(*self));
        string_of(out.as_slice())
    }
}

/// The result of every fallible function of the library.
pub type Result<T> = core::result::Result<T, GlydeError>;

} // verus!
