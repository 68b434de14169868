//! From the bytes of a delimited text file to a typed table: what kind of file
//! it is, how it is written, and what it holds.

pub mod axis;
pub mod cache_laws;
pub mod cached;
pub mod column_laws;
pub mod column_text;
pub mod columns;
pub mod csv;
pub mod dataset;
pub mod delimiter_laws;
pub mod encoding;
pub mod head;
pub mod header_laws;
pub mod infer;
pub mod overrides;
pub mod path;
pub mod registry;
pub mod report;
pub mod row_laws;
pub mod separator_laws;
pub mod source_laws;
pub mod spill_files;
pub mod spilled;
pub mod storage;
pub mod table_laws;

pub use crate::index::level0::Level0Cache;
pub use crate::series::rounding::progressive_value_to_tick;
pub use axis::{ProgressiveValues, TimeAxis, Timestamps};
pub use cached::{level0_for_dataset_cached, pyramids_for_dataset_cached};
pub use columns::infer_column;
pub use csv::{open_path, parse, CsvParseOutcome};
pub use dataset::{
    checkpoint_text, load, load_text, make_checkpoint, pyramids_for, Checkpoint, Dataset,
    LoadedText,
};
pub use encoding::{
    decode, detect_encoding, EncodingInference, EncodingSource, TextEncoding, HEAD_SAMPLE_BYTES,
};
pub use infer::{
    infer_decimal_separator, infer_delimiter, infer_header, Confidence, DecimalSeparator,
    DecimalSeparatorInference, Delimiter, DelimiterInference, HeaderInference,
};
pub use overrides::IngestOverrides;
pub use registry::{open, CsvReader, Reader, Registry};
pub use report::{
    inspect, open_dataset, open_dataset_with_overrides, InferenceReport, InferredField,
    OpenSummary, SamplingClass,
};
pub use storage::{load_with_budget, open_dataset_with_budget};
