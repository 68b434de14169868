//! The time axis of a table: timestamps, or a plain progression of numbers.

use vstd::prelude::*;
use crate::error::{GlydeError, Result};
use crate::index::bytes::ByteOrder;
use crate::index::spill::{SpillVec, SpillVecWriter};
use crate::ingest::columns;
use crate::ingest::columns::is_f64_field;
use crate::series::dtype::{Samples, SeriesValues};
use crate::series::rounding;
use crate::series::rounding::progressive_value_to_tick;
use crate::text;
use crate::time::column_unit;
use crate::time::column_unit::{lemma_row_in_column_unit, parse_row, settle_column_unit};
use crate::time::ticks::TICK_CHUNK_LEN;
use crate::time::{TickSource, TimeUnit, Timestamp, TimestampFormat};

verus! {

/// What stands for the offset of a timestamp that has none. No offset is so
/// large.
pub const NO_UTC_OFFSET: i64 = i64::MIN;

/// The byte that stands for a unit.
pub open spec fn unit_code(unit: TimeUnit) -> u8 {
    match unit {
        TimeUnit::Seconds => 0,
        TimeUnit::Milliseconds => 1,
        TimeUnit::Microseconds => 2,
        TimeUnit::Nanoseconds => 3,
        TimeUnit::Picoseconds => 4,
    }
}

/// The unit that a byte stands for. A byte that stands for none is taken for
/// nanoseconds, the unit of every textual format.
pub open spec fn unit_of_code(code: u8) -> TimeUnit {
    if code == 0 {
        TimeUnit::Seconds
    } else if code == 1 {
        TimeUnit::Milliseconds
    } else if code == 2 {
        TimeUnit::Microseconds
    } else if code == 4 {
        TimeUnit::Picoseconds
    } else {
        TimeUnit::Nanoseconds
    }
}

/// The byte that stands for a unit.
pub fn time_unit_code(unit: TimeUnit) -> (code: u8)
    ensures
        code == unit_code(unit),
{
    match unit {
        TimeUnit::Seconds => 0,
        TimeUnit::Milliseconds => 1,
        TimeUnit::Microseconds => 2,
        TimeUnit::Nanoseconds => 3,
        TimeUnit::Picoseconds => 4,
    }
}

/// The unit that a byte stands for.
pub fn time_unit_from_code(code: u8) -> (unit: TimeUnit)
    ensures
        unit == unit_of_code(code),
{
    match code {
        0 => TimeUnit::Seconds,
        1 => TimeUnit::Milliseconds,
        2 => TimeUnit::Microseconds,
        4 => TimeUnit::Picoseconds,
        _ => TimeUnit::Nanoseconds,
    }
}

/// The byte of a unit stands for that unit.
pub proof fn law_unit_codes_read_back(unit: TimeUnit)
    ensures
        unit_of_code(unit_code(unit)) == unit,
{
}

/// The offset that a number stands for.
pub open spec fn offset_of_code(code: i64) -> Option<i32> {
    if code == NO_UTC_OFFSET {
        None
    } else {
        Some(code as i32)
    }
}

/// The timestamps of an axis. Each row keeps its own unit and its own offset,
/// wherever the rows are kept.
pub enum Timestamps {
    Memory(Vec<Timestamp>),
    Spilled { ticks: SpillVec<i128>, units: SpillVec<u8>, offsets: SpillVec<i64> },
}

/// The timestamps that three spilled columns stand for.
pub open spec fn assembled(ticks: Seq<i128>, units: Seq<u8>, offsets: Seq<i64>) -> Seq<Timestamp> {
    Seq::new(
        ticks.len(),
        |i: int|
            Timestamp {
                ticks: ticks[i],
                unit: unit_of_code(units[i]),
                offset_seconds: offset_of_code(offsets[i]),
            },
    )
}

impl View for Timestamps {
    type V = Seq<Timestamp>;

    open spec fn view(&self) -> Seq<Timestamp> {
        match self {
            Timestamps::Memory(timestamps) => timestamps@,
            Timestamps::Spilled { ticks, units, offsets } => assembled(ticks@, units@, offsets@),
        }
    }
}

/// The ticks of timestamps.
pub open spec fn ticks_of(timestamps: Seq<Timestamp>) -> Seq<i128> {
    Seq::new(timestamps.len(), |i: int| timestamps[i].ticks)
}

impl Timestamps {
    /// The spilled columns are whole and go together.
    pub open spec fn wf(&self) -> bool {
        match self {
            Timestamps::Memory(_) => true,
            Timestamps::Spilled { ticks, units, offsets } => {
                &&& ticks.wf()
                &&& units.wf()
                &&& offsets.wf()
                &&& units@.len() == ticks@.len()
                &&& offsets@.len() == ticks@.len()
                &&& forall|i: int|
                    0 <= i < offsets@.len() ==> #[trigger] offsets@[i] == NO_UTC_OFFSET
                        || i32::MIN <= offsets@[i] <= i32::MAX
            },
        }
    }

    /// How many timestamps there are.
    pub fn len(&self) -> (len: usize)
        requires
            self.wf(),
        ensures
            len == self@.len(),
    {
        match self {
            Timestamps::Memory(timestamps) => timestamps.len(),
            Timestamps::Spilled { ticks, .. } => ticks.len(),
        }
    }

    /// Whether there are no timestamps.
    pub fn is_empty(&self) -> (empty: bool)
        requires
            self.wf(),
        ensures
            empty == (self@.len() == 0),
    {
        self.len() == 0
    }

    /// The timestamp at `index`, or `None` past the end.
    pub fn get(&self, index: usize) -> (timestamp: Option<Timestamp>)
        requires
            self.wf(),
        ensures
            match timestamp {
                Some(timestamp) => index < self@.len() && timestamp == self@[index as int],
                None => index >= self@.len(),
            },
    {
        match self {
            Timestamps::Memory(timestamps) => if index < timestamps.len() {
                Some(timestamps[index])
            } else {
                None
            },
            Timestamps::Spilled { ticks, units, offsets } => match (
                ticks.get(index),
                units.get(index),
                offsets.get(index),
            ) {
                (Some(ticks), Some(unit), Some(offset)) => {
                    let offset_seconds: Option<i32> = if offset == NO_UTC_OFFSET {
                        None
                    } else {
                        Some(offset as i32)
                    };
                    Some(Timestamp { ticks, unit: time_unit_from_code(unit), offset_seconds })
                },
                _ => None,
            },
        }
    }

    /// The tick of every timestamp.
    pub fn ticks(&self) -> (ticks: Vec<i128>)
        requires
            self.wf(),
        ensures
            ticks@ == ticks_of(self@),
    {
        let mut ticks: Vec<i128> = Vec::new();
        let len: usize = self.len();
        let mut i: usize = 0;
        while i < len
            invariant
                self.wf(),
                len == self@.len(),
                i <= len,
                ticks@.len() == i,
                forall|j: int| 0 <= j < i ==> #[trigger] ticks@[j] == self@[j].ticks,
            decreases len - i,
        {
            match self.get(i) {
                Some(timestamp) => {
                    ticks.push(timestamp.ticks);
                },
                None => {},
            }
            i = i + 1;
        }
        assert(ticks@ == ticks_of(self@));
        ticks
    }

    /// Whether the timestamps are kept as the bytes of files.
    pub fn is_spilled(&self) -> (spilled: bool)
        ensures
            spilled == (self is Spilled),
    {
        match self {
            Timestamps::Memory(_) => false,
            Timestamps::Spilled { .. } => true,
        }
    }

    /// Whether the two hold the same timestamps, wherever they are kept.
    pub fn same_values(&self, other: &Timestamps) -> (same: bool)
        requires
            self.wf(),
            other.wf(),
        ensures
            same == (self@ == other@),
    {
        let len: usize = self.len();
        if len != other.len() {
            return false;
        }
        let mut i: usize = 0;
        while i < len
            invariant
                self.wf(),
                other.wf(),
                len == self@.len(),
                len == other@.len(),
                i <= len,
                forall|j: int| 0 <= j < i ==> self@[j] == other@[j],
            decreases len - i,
        {
            if self.get(i) != other.get(i) {
                assert(self@[i as int] != other@[i as int]);
                return false;
            }
            assert(self@[i as int] == other@[i as int]);
            i = i + 1;
        }
        assert(self@ == other@);
        true
    }
}

/// The ticks of timestamps, read a piece at a time.
pub struct AxisTicks<'a> {
    timestamps: &'a Timestamps,
}

impl<'a> AxisTicks<'a> {
    #[verifier::type_invariant]
    spec fn readable(self) -> bool {
        self.timestamps.wf()
    }

    /// The timestamps.
    pub closed spec fn timestamps(&self) -> Seq<Timestamp> {
        self.timestamps@
    }

    /// The ticks of the given timestamps.
    pub fn new(timestamps: &'a Timestamps) -> (ticks: AxisTicks<'a>)
        requires
            timestamps.wf(),
        ensures
            ticks.timestamps() == timestamps@,
    {
        AxisTicks { timestamps }
    }
}

impl<'a> TickSource for AxisTicks<'a> {
    open spec fn ticks(&self) -> Seq<i128> {
        ticks_of(self.timestamps())
    }

    open spec fn may_fail(&self) -> bool {
        false
    }

    fn tick_count(&self) -> (count: usize) {
        proof {
            use_type_invariant(self);
        }
        self.timestamps.len()
    }

    fn tick_chunk(&self, start: usize) -> (chunk: Result<Vec<i128>>) {
        proof {
            use_type_invariant(self);
        }
        let ghost all: Seq<i128> = ticks_of(self.timestamps@);
        let available: usize = self.timestamps.len() - start;
        let count: usize = if available < TICK_CHUNK_LEN {
            available
        } else {
            TICK_CHUNK_LEN
        };
        let mut ticks: Vec<i128> = Vec::new();
        let mut i: usize = 0;
        while i < count
            invariant
                self.timestamps.wf(),
                all == ticks_of(self.timestamps@),
                start < all.len(),
                0 < count <= TICK_CHUNK_LEN,
                start + count <= all.len(),
                available == all.len() - start,
                all.len() <= usize::MAX,
                i <= count,
                ticks@ == all.subrange(start as int, start + i),
            decreases count - i,
        {
            match self.timestamps.get(start + i) {
                Some(timestamp) => {
                    assert(all.subrange(start as int, start + i + 1) == all.subrange(
                        start as int,
                        start + i,
                    ).push(timestamp.ticks));
                    ticks.push(timestamp.ticks);
                },
                None => {},
            }
            i = i + 1;
        }
        Ok(ticks)
    }
}

/// The values of an axis without calendar meaning.
pub enum ProgressiveValues {
    Memory(Vec<u64>),
    Spilled(SpillVec<u64>),
}

impl View for ProgressiveValues {
    type V = Seq<u64>;

    open spec fn view(&self) -> Seq<u64> {
        match self {
            ProgressiveValues::Memory(values) => values@,
            ProgressiveValues::Spilled(values) => values@,
        }
    }
}

impl ProgressiveValues {
    /// The spilled column is whole.
    pub open spec fn wf(&self) -> bool {
        match self {
            ProgressiveValues::Memory(_) => true,
            ProgressiveValues::Spilled(values) => values.wf(),
        }
    }

    /// How many values there are.
    pub fn len(&self) -> (len: usize)
        requires
            self.wf(),
        ensures
            len == self@.len(),
    {
        match self {
            ProgressiveValues::Memory(values) => values.len(),
            ProgressiveValues::Spilled(values) => values.len(),
        }
    }

    /// Whether there are no values.
    pub fn is_empty(&self) -> (empty: bool)
        requires
            self.wf(),
        ensures
            empty == (self@.len() == 0),
    {
        self.len() == 0
    }

    /// The value at `index`, or `None` past the end.
    pub fn get(&self, index: usize) -> (value: Option<u64>)
        requires
            self.wf(),
        ensures
            match value {
                Some(value) => index < self@.len() && value == self@[index as int],
                None => index >= self@.len(),
            },
    {
        match self {
            ProgressiveValues::Memory(values) => if index < values.len() {
                Some(values[index])
            } else {
                None
            },
            ProgressiveValues::Spilled(values) => values.get(index),
        }
    }

    /// Every value, in row order.
    pub fn to_vec(&self) -> (values: Vec<u64>)
        requires
            self.wf(),
        ensures
            values@ == self@,
    {
        match self {
            ProgressiveValues::Memory(values) => {
                let copy: Vec<u64> = columns::take_numbers(values.as_slice(), values.len());
                assert(copy@ == values@);
                copy
            },
            ProgressiveValues::Spilled(values) => values.to_vec(),
        }
    }

    /// Whether the values are kept as the bytes of a file.
    pub fn is_spilled(&self) -> (spilled: bool)
        ensures
            spilled == (self is Spilled),
    {
        match self {
            ProgressiveValues::Memory(_) => false,
            ProgressiveValues::Spilled(_) => true,
        }
    }

    /// Whether the two hold equal numbers, wherever they are kept. A NaN equals
    /// nothing.
    pub fn same_values(&self, other: &ProgressiveValues) -> (same: bool)
        requires
            self.wf(),
            other.wf(),
        ensures
            same == Samples::F64(self@).equals(Samples::F64(other@)),
    {
        SeriesValues::F64(self.to_vec()).same_values(&SeriesValues::F64(other.to_vec()))
    }
}

/// The time axis of a table.
pub enum TimeAxis {
    /// Timestamps, and the format that they are written in.
    Absolute { timestamps: Timestamps, format: TimestampFormat },
    /// Numbers without calendar meaning.
    Progressive { values: ProgressiveValues },
}

/// A time axis as a value.
#[verifier::ext_equal]
pub ghost enum Axis {
    Absolute { timestamps: Seq<Timestamp>, format: TimestampFormat },
    Progressive { values: Seq<u64> },
}

impl View for TimeAxis {
    type V = Axis;

    open spec fn view(&self) -> Axis {
        match self {
            TimeAxis::Absolute { timestamps, format } => Axis::Absolute {
                timestamps: timestamps@,
                format: *format,
            },
            TimeAxis::Progressive { values } => Axis::Progressive { values: values@ },
        }
    }
}

impl Axis {
    /// The two axes are of one kind and format and hold equal times.
    pub open spec fn equals(self, other: Axis) -> bool {
        match (self, other) {
            (
                Axis::Absolute { timestamps: a, format: f },
                Axis::Absolute { timestamps: b, format: g },
            ) => a == b && f == g,
            (Axis::Progressive { values: a }, Axis::Progressive { values: b }) => Samples::F64(
                a,
            ).equals(Samples::F64(b)),
            _ => false,
        }
    }

    /// How many rows there are.
    pub open spec fn len(self) -> nat {
        match self {
            Axis::Absolute { timestamps, .. } => timestamps.len(),
            Axis::Progressive { values } => values.len(),
        }
    }

    /// The ticks that the rows are drawn at: those of the timestamps, or the
    /// values in fixed point.
    pub open spec fn pyramid_ticks(self) -> Seq<i128> {
        match self {
            Axis::Absolute { timestamps, .. } => ticks_of(timestamps),
            Axis::Progressive { values } => Seq::new(
                values.len(),
                |i: int| rounding::progressive_tick(values[i]) as i128,
            ),
        }
    }
}

impl TimeAxis {
    /// The spilled columns are whole and go together.
    pub open spec fn wf(&self) -> bool {
        match self {
            TimeAxis::Absolute { timestamps, .. } => timestamps.wf(),
            TimeAxis::Progressive { values } => values.wf(),
        }
    }

    /// The times are kept as the bytes of files.
    pub open spec fn is_in_files(&self) -> bool {
        match self {
            TimeAxis::Absolute { timestamps, .. } => timestamps is Spilled,
            TimeAxis::Progressive { values } => values is Spilled,
        }
    }

    /// The times are kept as the bytes of files, in the given order.
    pub open spec fn is_kept_in_files(&self, order: ByteOrder) -> bool {
        match self {
            TimeAxis::Absolute { timestamps, .. } => timestamps matches Timestamps::Spilled {
                ticks,
                units,
                offsets,
            } && ticks.order_spec() == order && units.order_spec() == order && offsets.order_spec()
                == order,
            TimeAxis::Progressive { values } => values matches ProgressiveValues::Spilled(values)
                && values.order_spec() == order,
        }
    }

    /// How many rows there are.
    pub fn len(&self) -> (len: usize)
        requires
            self.wf(),
        ensures
            len == self@.len(),
    {
        match self {
            TimeAxis::Absolute { timestamps, .. } => timestamps.len(),
            TimeAxis::Progressive { values } => values.len(),
        }
    }

    /// Whether there are no rows.
    pub fn is_empty(&self) -> (empty: bool)
        requires
            self.wf(),
        ensures
            empty == (self@.len() == 0),
    {
        self.len() == 0
    }

    /// Whether the axis is kept as the bytes of files.
    pub fn is_spilled(&self) -> (spilled: bool)
        ensures
            spilled == self.is_in_files(),
    {
        match self {
            TimeAxis::Absolute { timestamps, .. } => timestamps.is_spilled(),
            TimeAxis::Progressive { values } => values.is_spilled(),
        }
    }

    /// Whether the two axes are equal, wherever their times are kept.
    pub fn same_as(&self, other: &TimeAxis) -> (same: bool)
        requires
            self.wf(),
            other.wf(),
        ensures
            same == self@.equals(other@),
    {
        match (self, other) {
            (
                TimeAxis::Absolute { timestamps: a, format: f },
                TimeAxis::Absolute { timestamps: b, format: g },
            ) => *f == *g && a.same_values(b),
            (TimeAxis::Progressive { values: a }, TimeAxis::Progressive { values: b }) => {
                a.same_values(b)
            },
            _ => false,
        }
    }

    /// The ticks that the rows are drawn at.
    pub fn to_pyramid_ticks(&self) -> (ticks: Vec<i128>)
        requires
            self.wf(),
        ensures
            ticks@ == self@.pyramid_ticks(),
    {
        match self {
            TimeAxis::Absolute { timestamps, .. } => timestamps.ticks(),
            TimeAxis::Progressive { values } => {
                let mut ticks: Vec<i128> = Vec::new();
                let len: usize = values.len();
                let mut i: usize = 0;
                while i < len
                    invariant
                        values.wf(),
                        len == values@.len(),
                        i <= len,
                        ticks@.len() == i,
                        forall|j: int|
                            0 <= j < i ==> #[trigger] ticks@[j] == rounding::progressive_tick(
                                values@[j],
                            ),
                    decreases len - i,
                {
                    match values.get(i) {
                        Some(value) => {
                            ticks.push(progressive_value_to_tick(value));
                        },
                        None => {},
                    }
                    i = i + 1;
                }
                assert(ticks@ == self@.pyramid_ticks());
                ticks
            },
        }
    }
}

/// Why an axis could not be read.
#[verifier::ext_equal]
pub ghost enum AxisFault {
    /// A field is no timestamp of the format.
    Timestamp { input: Seq<char>, format: TimestampFormat, reason: Seq<char> },
    /// A field is no number.
    NotANumber { input: Seq<char> },
}

/// The error reports the fault.
pub open spec fn reports_fault(error: GlydeError, fault: AxisFault) -> bool {
    match (error, fault) {
        (
            GlydeError::InvalidTimestamp { input, format, reason },
            AxisFault::Timestamp { input: field, format: under, reason: why },
        ) => input@ == field && format == under && reason@ == why,
        (
            GlydeError::NonNumericTimeIndex { input },
            AxisFault::NotANumber { input: field },
        ) => input@ == field,
        _ => false,
    }
}

/// The timestamps of the first `n` fields of a column, or what the first of them
/// that is none is. Epoch times are counted in the one unit of the whole column.
pub open spec fn read_timestamps(
    fields: Seq<Seq<char>>,
    format: TimestampFormat,
    n: int,
) -> core::result::Result<Seq<Timestamp>, AxisFault>
    decreases n,
{
    if n <= 0 {
        Ok(Seq::empty())
    } else {
        match read_timestamps(fields, format, n - 1) {
            Err(fault) => Err(fault),
            Ok(before) => match column_unit::row_reading(
                fields[n - 1],
                format,
                column_unit::column_unit(fields, format),
            ) {
                Ok(timestamp) => Ok(before.push(timestamp)),
                Err(reason) => Err(
                    AxisFault::Timestamp { input: fields[n - 1], format, reason },
                ),
            },
        }
    }
}

/// The numbers of the first `n` fields, or which of them is none.
pub open spec fn read_progression(
    fields: Seq<Seq<char>>,
    numbers: Seq<u64>,
    n: int,
) -> core::result::Result<Seq<u64>, AxisFault>
    decreases n,
{
    if n <= 0 {
        Ok(Seq::empty())
    } else {
        match read_progression(fields, numbers, n - 1) {
            Err(fault) => Err(fault),
            Ok(before) => if columns::is_f64(fields[n - 1]) {
                Ok(before.push(columns::number_at(numbers, n - 1)))
            } else {
                Err(AxisFault::NotANumber { input: fields[n - 1] })
            },
        }
    }
}

/// The axis of a column, given its format, if it has one, and the numbers that
/// its fields spell.
pub open spec fn axis_from(
    fields: Seq<Seq<char>>,
    format: Option<TimestampFormat>,
    numbers: Seq<u64>,
    n: int,
) -> core::result::Result<Axis, AxisFault> {
    match format {
        Some(format) => match read_timestamps(fields, format, n) {
            Ok(timestamps) => Ok(Axis::Absolute { timestamps, format }),
            Err(fault) => Err(fault),
        },
        None => match read_progression(fields, numbers, n) {
            Ok(values) => Ok(Axis::Progressive { values }),
            Err(fault) => Err(fault),
        },
    }
}

/// All rows of an axis of epoch times are counted in one unit, so that their
/// ticks can be held against each other; and each is the instant that its field
/// is read as by itself.
pub proof fn law_epoch_axis_has_one_unit(
    fields: Seq<Seq<char>>,
    format: TimestampFormat,
    n: int,
    timestamps: Seq<Timestamp>,
)
    requires
        crate::time::inference::epoch_unit_of(format) is Some,
        0 <= n <= fields.len(),
        read_timestamps(fields, format, n) == Ok::<Seq<Timestamp>, AxisFault>(timestamps),
    ensures
        timestamps.len() == n,
        forall|i: int|
            0 <= i < n ==> {
                &&& column_unit::column_unit(fields, format) == Some(
                    (#[trigger] timestamps[i]).unit,
                )
                &&& crate::time::format::reading(fields[i], format) matches Ok(own)
                &&& column_unit::is_same_instant(timestamps[i], own)
            },
    decreases n,
{
    if n > 0 {
        let before = read_timestamps(fields, format, n - 1)->Ok_0;
        law_epoch_axis_has_one_unit(fields, format, n - 1, before);
        lemma_row_in_column_unit(fields, format, n - 1, timestamps[n - 1]);
    }
}

/// A failed field stays failed.
pub proof fn lemma_axis_fault_stays(
    fields: Seq<Seq<char>>,
    format: Option<TimestampFormat>,
    numbers: Seq<u64>,
    n: int,
    m: int,
)
    requires
        n <= m,
        axis_from(fields, format, numbers, n) is Err,
    ensures
        axis_from(fields, format, numbers, m) == axis_from(fields, format, numbers, n),
    decreases m - n,
{
    if n < m {
        lemma_axis_fault_stays(fields, format, numbers, n, m - 1);
    }
}

/// The number of a field that should be one, or an error.
pub fn parse_progressive_value(field: &str, number: u64) -> (value: Result<u64>)
    ensures
        match value {
            Ok(value) => columns::is_f64(field@) && value == number,
            Err(error) => !columns::is_f64(field@) && reports_fault(
                error,
                AxisFault::NotANumber { input: field@ },
            ),
        },
{
    if is_f64_field(field) {
        Ok(number)
    } else {
        Err(GlydeError::NonNumericTimeIndex { input: field.to_owned() })
    }
}

/// Reads a column as the axis of a table in memory.
pub fn read_axis(fields: &[String], format: Option<TimestampFormat>, numbers: &[u64]) -> (axis:
    Result<TimeAxis>)
    requires
        format != Some(TimestampFormat::DateTimeSpace),
    ensures
        match (
            axis,
            axis_from(text::texts(fields@), format, numbers@, fields@.len() as int),
        ) {
            (Ok(axis), Ok(wanted)) => axis.wf() && axis@ == wanted && !axis.is_in_files(),
            (Err(error), Err(fault)) => reports_fault(error, fault),
            _ => false,
        },
{
    let ghost texts: Seq<Seq<char>> = text::texts(fields@);
    let ghost n: int = fields@.len() as int;
    let mut i: usize = 0;
    match format {
        Some(known) => {
            let unit: Option<TimeUnit> = settle_column_unit(fields, known);
            let mut timestamps: Vec<Timestamp> = Vec::new();
            while i < fields.len()
                invariant
                    unit == column_unit::column_unit(texts, known),
                    format == Some(known),
                    known != TimestampFormat::DateTimeSpace,
                    texts == text::texts(fields@),
                    n == fields@.len(),
                    i <= fields@.len(),
                    read_timestamps(texts, known, i as int) == Ok::<
                        Seq<Timestamp>,
                        AxisFault,
                    >(timestamps@),
                decreases fields@.len() - i,
            {
                assert(texts[i as int] == fields@[i as int]@);
                match parse_row(fields[i].as_str(), known, unit) {
                    Ok(timestamp) => {
                        timestamps.push(timestamp);
                    },
                    Err(error) => {
                        proof {
                            lemma_axis_fault_stays(texts, format, numbers@, i + 1, n);
                        }
                        return Err(error);
                    },
                }
                i = i + 1;
            }
            Ok(TimeAxis::Absolute { timestamps: Timestamps::Memory(timestamps), format: known })
        },
        None => {
            let mut values: Vec<u64> = Vec::new();
            while i < fields.len()
                invariant
                    format is None,
                    texts == text::texts(fields@),
                    n == fields@.len(),
                    i <= fields@.len(),
                    read_progression(texts, numbers@, i as int) == Ok::<Seq<u64>, AxisFault>(
                        values@,
                    ),
                decreases fields@.len() - i,
            {
                assert(texts[i as int] == fields@[i as int]@);
                let number: u64 = if i < numbers.len() {
                    numbers[i]
                } else {
                    0
                };
                match parse_progressive_value(fields[i].as_str(), number) {
                    Ok(value) => {
                        values.push(value);
                    },
                    Err(error) => {
                        proof {
                            lemma_axis_fault_stays(texts, format, numbers@, i + 1, n);
                        }
                        return Err(error);
                    },
                }
                i = i + 1;
            }
            Ok(TimeAxis::Progressive { values: ProgressiveValues::Memory(values) })
        },
    }
}

/// Writes the axis of a table to spill files, one row at a time.
pub enum TimeAxisSpillWriter {
    Absolute {
        ticks: SpillVecWriter<i128>,
        units: SpillVecWriter<u8>,
        offsets: SpillVecWriter<i64>,
        format: TimestampFormat,
        /// The unit that all rows are counted in; `None` where each keeps its
        /// own.
        unit: Option<TimeUnit>,
    },
    Progressive { values: SpillVecWriter<u64> },
}

impl View for TimeAxisSpillWriter {
    type V = Axis;

    open spec fn view(&self) -> Axis {
        match self {
            TimeAxisSpillWriter::Absolute { ticks, units, offsets, format, .. } => Axis::Absolute {
                timestamps: assembled(ticks@, units@, offsets@),
                format: *format,
            },
            TimeAxisSpillWriter::Progressive { values } => Axis::Progressive { values: values@ },
        }
    }
}

impl TimeAxisSpillWriter {
    /// The columns are whole and go together.
    pub open spec fn wf(&self) -> bool {
        match self {
            TimeAxisSpillWriter::Absolute { ticks, units, offsets, format, .. } => {
                &&& ticks.wf()
                &&& units.wf()
                &&& offsets.wf()
                &&& units@.len() == ticks@.len()
                &&& offsets@.len() == ticks@.len()
                &&& *format != TimestampFormat::DateTimeSpace
                &&& units.order_spec() == ticks.order_spec()
                &&& offsets.order_spec() == ticks.order_spec()
                &&& forall|i: int|
                    0 <= i < offsets@.len() ==> #[trigger] offsets@[i] == NO_UTC_OFFSET
                        || i32::MIN <= offsets@[i] <= i32::MAX
            },
            TimeAxisSpillWriter::Progressive { values } => values.wf(),
        }
    }

    /// The order of the bytes in the files.
    pub open spec fn order_spec(&self) -> ByteOrder {
        match self {
            TimeAxisSpillWriter::Absolute { ticks, .. } => ticks.order_spec(),
            TimeAxisSpillWriter::Progressive { values } => values.order_spec(),
        }
    }

    /// The unit that all rows are counted in; `None` where each keeps its own.
    pub open spec fn unit_spec(&self) -> Option<TimeUnit> {
        match self {
            TimeAxisSpillWriter::Absolute { unit, .. } => *unit,
            TimeAxisSpillWriter::Progressive { .. } => None,
        }
    }

    /// An axis without rows. The unit that the rows are to be counted in, if
    /// they have one, is given.
    pub fn create(
        format: Option<TimestampFormat>,
        unit: Option<TimeUnit>,
        order: ByteOrder,
    ) -> (writer: TimeAxisSpillWriter)
        requires
            format != Some(TimestampFormat::DateTimeSpace),
        ensures
            writer.wf(),
            writer.order_spec() == order,
            format is Some ==> writer.unit_spec() == unit,
            axis_from(Seq::empty(), format, Seq::empty(), 0) == Ok::<Axis, AxisFault>(writer@),
    {
        match format {
            Some(format) => {
                let writer: TimeAxisSpillWriter = TimeAxisSpillWriter::Absolute {
                    ticks: SpillVecWriter::create(order),
                    units: SpillVecWriter::create(order),
                    offsets: SpillVecWriter::create(order),
                    format,
                    unit,
                };
                assert(writer@->timestamps == Seq::<Timestamp>::empty());
                writer
            },
            None => TimeAxisSpillWriter::Progressive { values: SpillVecWriter::create(order) },
        }
    }

    /// Appends a row, or reports why its field is no time.
    pub fn push(&mut self, field: &str, number: u64) -> (pushed: Result<()>)
        requires
            old(self).wf(),
        ensures
            final(self).order_spec() == old(self).order_spec(),
            final(self).unit_spec() == old(self).unit_spec(),
            match (old(self)@, pushed) {
                (Axis::Absolute { timestamps, format }, Ok(_)) => {
                    &&& final(self).wf()
                    &&& column_unit::row_reading(
                        field@,
                        format,
                        old(self).unit_spec(),
                    ) matches Ok(timestamp)
                    &&& final(self)@ == (Axis::Absolute {
                        timestamps: timestamps.push(timestamp),
                        format,
                    })
                },
                (Axis::Progressive { values }, Ok(_)) => {
                    &&& final(self).wf()
                    &&& columns::is_f64(field@)
                    &&& final(self)@ == (Axis::Progressive { values: values.push(number) })
                },
                (Axis::Absolute { timestamps, format }, Err(error)) => {
                    &&& column_unit::row_reading(
                        field@,
                        format,
                        old(self).unit_spec(),
                    ) matches Err(reason)
                    &&& reports_fault(
                        error,
                        AxisFault::Timestamp { input: field@, format, reason },
                    )
                },
                (Axis::Progressive { .. }, Err(error)) => {
                    &&& !columns::is_f64(field@)
                    &&& reports_fault(error, AxisFault::NotANumber { input: field@ })
                },
            },
    {
        match self {
            TimeAxisSpillWriter::Absolute { ticks, units, offsets, format, unit } => {
                let ghost before: Seq<Timestamp> = assembled(ticks@, units@, offsets@);
                let timestamp: Timestamp = match parse_row(field, *format, *unit) {
                    Ok(timestamp) => timestamp,
                    Err(error) => {
                        return Err(error);
                    },
                };
                ticks.push(timestamp.ticks);
                units.push(time_unit_code(timestamp.unit));
                offsets.push(
                    match timestamp.offset_seconds {
                        Some(offset) => offset as i64,
                        None => NO_UTC_OFFSET,
                    },
                );
                proof {
                    law_unit_codes_read_back(timestamp.unit);
                    assert(assembled(ticks@, units@, offsets@) == before.push(timestamp));
                }
                Ok(())
            },
            TimeAxisSpillWriter::Progressive { values } => {
                match parse_progressive_value(field, number) {
                    Ok(value) => {
                        values.push(value);
                        Ok(())
                    },
                    Err(error) => Err(error),
                }
            },
        }
    }

    /// The finished axis.
    pub fn finish(self) -> (axis: TimeAxis)
        requires
            self.wf(),
        ensures
            axis.wf(),
            axis@ == self@,
            axis.is_kept_in_files(self.order_spec()),
    {
        match self {
            TimeAxisSpillWriter::Absolute { ticks, units, offsets, format, .. } => {
                TimeAxis::Absolute {
                    timestamps: Timestamps::Spilled {
                        ticks: ticks.finish(),
                        units: units.finish(),
                        offsets: offsets.finish(),
                    },
                    format,
                }
            },
            TimeAxisSpillWriter::Progressive { values } => TimeAxis::Progressive {
                values: ProgressiveValues::Spilled(values.finish()),
            },
        }
    }
}

/// An offset from universal time is kept as the number that it is. The one number
/// that no offset can be stands for none.
pub proof fn law_offset_codes_read_back(offset: i32)
    ensures
        offset_of_code(offset as i64) == Some(offset),
        offset_of_code(NO_UTC_OFFSET) is None,
{
}

} // verus!
