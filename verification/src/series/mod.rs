//! One column of a table: its name, its values in their own type, and what was
//! noticed about them.

use vstd::prelude::*;

pub mod anomaly;
pub mod dtype;
pub mod number_laws;
pub mod rounding;
pub mod samples;
pub mod tick_order;
pub mod value;

pub use anomaly::{detect_nan_runs, Anomalies, NanRunScan};
pub use dtype::{Dtype, SeriesValues, ShownSample, SpilledValues, ViewKind};
pub use samples::{SampleSource, SeriesSamples, SAMPLE_CHUNK_LEN};

verus! {

/// One column of a table.
pub struct Series {
    name: String,
    values: SeriesValues,
    anomalies: Anomalies,
}

impl Series {
    /// The column's name.
    pub closed spec fn name_spec(&self) -> Seq<char> {
        self.name@
    }

    /// The column's values as they are kept.
    pub closed spec fn values_spec(&self) -> SeriesValues {
        self.values
    }

    /// What was noticed about the column.
    pub closed spec fn anomalies_spec(&self) -> Anomalies {
        self.anomalies
    }

    /// The values are kept as they should be.
    pub open spec fn wf(&self) -> bool {
        self.values_spec().wf()
    }

    /// A column about which nothing was noticed.
    pub fn new(name: String, values: SeriesValues) -> (series: Series)
        ensures
            series.name_spec() == name@,
            series.values_spec() == values,
            series.anomalies_spec().nan_runs@.len() == 0,
            series.anomalies_spec().outliers@.len() == 0,
            series.anomalies_spec().skipped_rows@.len() == 0,
    {
        Series { name, values, anomalies: Anomalies::default() }
    }

    /// A column and what was noticed about it.
    pub fn with_anomalies(name: String, values: SeriesValues, anomalies: Anomalies) -> (series:
        Series)
        ensures
            series.name_spec() == name@,
            series.values_spec() == values,
            series.anomalies_spec() == anomalies,
    {
        Series { name, values, anomalies }
    }

    /// The column's name, as the header has it.
    pub fn name(&self) -> (name: &str)
        ensures
            name@ == self.name_spec(),
    {
        self.name.as_str()
    }

    /// The type of the values.
    pub fn dtype(&self) -> (dtype: Dtype)
        ensures
            dtype == self.values_spec()@.dtype(),
    {
        self.values.dtype()
    }

    /// How the column is drawn.
    pub fn view_kind(&self) -> (kind: ViewKind)
        ensures
            kind == self.values_spec()@.dtype().view_kind_spec(),
    {
        self.values.dtype().view_kind()
    }

    /// How many values there are.
    pub fn len(&self) -> (len: usize)
        requires
            self.wf(),
        ensures
            len == self.values_spec()@.len(),
    {
        self.values.len()
    }

    /// Whether there are no values.
    pub fn is_empty(&self) -> (empty: bool)
        requires
            self.wf(),
        ensures
            empty == (self.values_spec()@.len() == 0),
    {
        self.values.is_empty()
    }

    /// Whether every value is the same.
    pub fn is_constant(&self) -> (constant: bool)
        requires
            self.wf(),
        ensures
            constant == self.values_spec()@.is_constant(),
    {
        self.values.is_constant()
    }

    /// The values.
    pub fn values(&self) -> (values: &SeriesValues)
        ensures
            *values == self.values_spec(),
    {
        &self.values
    }

    /// What was noticed about the column.
    pub fn anomalies(&self) -> (anomalies: &Anomalies)
        ensures
            *anomalies == self.anomalies_spec(),
    {
        &self.anomalies
    }

    /// The two columns have one name and equal values, and the same things were
    /// noticed about them.
    pub open spec fn equals(self, other: Series) -> bool {
        &&& self.name_spec() == other.name_spec()
        &&& self.values_spec()@.equals(other.values_spec()@)
        &&& self.anomalies_spec().agrees_with(other.anomalies_spec())
    }

    /// Whether the two columns are equal, wherever their values are kept.
    pub fn same_as(&self, other: &Series) -> (same: bool)
        requires
            self.wf(),
            other.wf(),
        ensures
            same == self.equals(*other),
    {
        self.name == other.name && self.values.same_values(&other.values)
            && self.anomalies.same_as(&other.anomalies)
    }
}

} // verus!
