//! The time axis: timestamps, their formats, and what a series of ticks says
//! about how it was sampled.

pub mod column_unit;
pub mod epoch;
pub mod extent;
pub mod format;
pub mod gap;
pub mod inference;
pub mod inference_laws;
pub mod monotonic;
pub mod rank;
pub mod reading_laws;
pub mod round_trip;
pub mod sampling_laws;
pub mod scan;
pub mod ticks;

pub use format::{
    can_format, format_timestamp, parse_timestamp, TimeUnit, Timestamp, TimestampFormat,
};
pub use inference::{infer_timestamp_format, TimestampFormatInference};
pub use gap::{
    classify_sampling, detect_gaps, summarize_ticks, Gap, SamplingClass, TimeAxisStats,
};
pub use monotonic::{detect_monotonicity, MonotonicityReport};
pub use scan::TimestampFormatScan;
pub use ticks::TickSource;
