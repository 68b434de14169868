//! Time-series ingestion, indexing and decimation for large sensor logs.
//!
//! Samples are carried as the bit patterns of binary64 numbers and
//! timestamps as integer ticks, so that every step between a source file and
//! the plotted picture is exact.

use vstd::prelude::*;

pub mod budget;
pub mod dsp;
pub mod error;
pub mod index;
pub mod ingest;
pub mod series;
pub mod text;
pub mod text_laws;
pub mod time;
pub mod view;

pub use error::{GlydeError, Result};

verus! {

} // verus!
