//! The types that a column's values keep from the source on.

use vstd::prelude::*;
use crate::index::spill::{SpillStrings, SpillVec};
use crate::series::rounding;
use crate::series::rounding::{promote_signed, promote_unsigned, widen};
use crate::series::value;
use crate::series::value::is_nan;
use crate::text;
use crate::text::decimal;

verus! {

/// The type of a column's values.
#[derive(Debug, Clone, Copy, PartialEq, Eq, Structural)]
pub enum Dtype {
    Bool,
    I8,
    I16,
    I32,
    I64,
    U8,
    U16,
    U32,
    U64,
    F32,
    F64,
    /// Free text, or one of a few labels.
    String,
}

/// How a column is drawn.
#[derive(Debug, Clone, Copy, PartialEq, Eq, Structural)]
pub enum ViewKind {
    /// As a line of numbers.
    TimeDomain,
    /// As bands of states.
    StateTimeline,
}

impl Dtype {
    /// How a column of this type is drawn.
    pub open spec fn view_kind_spec(self) -> ViewKind {
        if self == Dtype::Bool || self == Dtype::String {
            ViewKind::StateTimeline
        } else {
            ViewKind::TimeDomain
        }
    }

    /// How a column of this type is drawn.
    pub fn view_kind(self) -> (kind: ViewKind)
        ensures
            kind == self.view_kind_spec(),
    {
        match self {
            Dtype::Bool | Dtype::String => ViewKind::StateTimeline,
            _ => ViewKind::TimeDomain,
        }
    }
}

/// A value that can be held against another one of its type.
pub trait Sample: Copy {
    /// Whether the two are the same value.
    fn same(self, other: Self) -> (same: bool)
        ensures
            same == (self == other),
    ;
}

/// An integer that can be promoted to a binary64 number.
pub trait Integer: Sample {
    /// The integer.
    spec fn number(self) -> int;

    /// The integer.
    fn wide(self) -> (number: i128)
        ensures
            number == self.number(),
            i64::MIN <= number <= u64::MAX,
    ;
}

impl Sample for bool {
    fn same(self, other: bool) -> (same: bool) {
        self == other
    }
}

impl Sample for i8 {
    fn same(self, other: i8) -> (same: bool) {
        self == other
    }
}

impl Integer for i8 {
    open spec fn number(self) -> int {
        self as int
    }

    fn wide(self) -> (number: i128) {
        self as i128
    }
}

impl Sample for i16 {
    fn same(self, other: i16) -> (same: bool) {
        self == other
    }
}

impl Integer for i16 {
    open spec fn number(self) -> int {
        self as int
    }

    fn wide(self) -> (number: i128) {
        self as i128
    }
}

impl Sample for i32 {
    fn same(self, other: i32) -> (same: bool) {
        self == other
    }
}

impl Integer for i32 {
    open spec fn number(self) -> int {
        self as int
    }

    fn wide(self) -> (number: i128) {
        self as i128
    }
}

impl Sample for i64 {
    fn same(self, other: i64) -> (same: bool) {
        self == other
    }
}

impl Integer for i64 {
    open spec fn number(self) -> int {
        self as int
    }

    fn wide(self) -> (number: i128) {
        self as i128
    }
}

impl Sample for u8 {
    fn same(self, other: u8) -> (same: bool) {
        self == other
    }
}

impl Integer for u8 {
    open spec fn number(self) -> int {
        self as int
    }

    fn wide(self) -> (number: i128) {
        self as i128
    }
}

impl Sample for u16 {
    fn same(self, other: u16) -> (same: bool) {
        self == other
    }
}

impl Integer for u16 {
    open spec fn number(self) -> int {
        self as int
    }

    fn wide(self) -> (number: i128) {
        self as i128
    }
}

impl Sample for u32 {
    fn same(self, other: u32) -> (same: bool) {
        self == other
    }
}

impl Integer for u32 {
    open spec fn number(self) -> int {
        self as int
    }

    fn wide(self) -> (number: i128) {
        self as i128
    }
}

impl Sample for u64 {
    fn same(self, other: u64) -> (same: bool) {
        self == other
    }
}

impl Integer for u64 {
    open spec fn number(self) -> int {
        self as int
    }

    fn wide(self) -> (number: i128) {
        self as i128
    }
}

/// The largest magnitude up to which every integer is a binary64 number.
pub const MAX_EXACT_MAGNITUDE: i128 = 0x20_0000_0000_0000;

/// A sample promoted to binary64, and whether that is exactly the sample.
#[derive(Debug, Clone, Copy, PartialEq, Eq, Structural)]
pub struct Promoted {
    pub bits: u64,
    pub exact: bool,
}

/// The promotion of an integer.
pub open spec fn promotion_of(number: int) -> Promoted {
    Promoted {
        bits: rounding::promoted(number) as u64,
        exact: -MAX_EXACT_MAGNITUDE <= number <= MAX_EXACT_MAGNITUDE,
    }
}

fn promote<T: Integer>(value: T) -> (promoted: Promoted)
    ensures
        promoted == promotion_of(value.number()),
{
    let number: i128 = value.wide();
    let bits: u64 = if number > i64::MAX as i128 {
        promote_unsigned(number as u64)
    } else {
        promote_signed(number as i64)
    };
    Promoted { bits, exact: -MAX_EXACT_MAGNITUDE <= number && number <= MAX_EXACT_MAGNITUDE }
}

/// Two binary64 numbers are equal: neither is NaN, and zero has no sign.
pub open spec fn equal_doubles(a: u64, b: u64) -> bool {
    !value::is_nan_spec(a) && !value::is_nan_spec(b) && value::order_key(a) == value::order_key(b)
}

/// Two binary32 numbers are equal: neither is NaN, and zero has no sign.
pub open spec fn equal_singles(a: u32, b: u32) -> bool {
    let (x, y) = (a as int % 0x8000_0000, b as int % 0x8000_0000);
    x <= 0x7f80_0000 && y <= 0x7f80_0000 && (a == b || (x == 0 && y == 0))
}

fn doubles_equal(a: u64, b: u64) -> (equal: bool)
    ensures
        equal == equal_doubles(a, b),
{
    !is_nan(a) && !is_nan(b) && (a == b || (a % 0x8000_0000_0000_0000 == 0 && b
        % 0x8000_0000_0000_0000 == 0))
}

fn singles_equal(a: u32, b: u32) -> (equal: bool)
    ensures
        equal == equal_singles(a, b),
{
    a % 0x8000_0000 <= 0x7f80_0000 && b % 0x8000_0000 <= 0x7f80_0000 && (a == b || (a % 0x8000_0000
        == 0 && b % 0x8000_0000 == 0))
}

/// The values of a column, wherever they are kept. Floating-point numbers are
/// their bit patterns.
#[verifier::ext_equal]
pub ghost enum Samples {
    Bool(Seq<bool>),
    I8(Seq<i8>),
    I16(Seq<i16>),
    I32(Seq<i32>),
    I64(Seq<i64>),
    U8(Seq<u8>),
    U16(Seq<u16>),
    U32(Seq<u32>),
    U64(Seq<u64>),
    F32(Seq<u32>),
    F64(Seq<u64>),
    String(Seq<Seq<char>>),
}

impl Samples {
    /// The type of the values.
    pub open spec fn dtype(self) -> Dtype {
        match self {
            Samples::Bool(_) => Dtype::Bool,
            Samples::I8(_) => Dtype::I8,
            Samples::I16(_) => Dtype::I16,
            Samples::I32(_) => Dtype::I32,
            Samples::I64(_) => Dtype::I64,
            Samples::U8(_) => Dtype::U8,
            Samples::U16(_) => Dtype::U16,
            Samples::U32(_) => Dtype::U32,
            Samples::U64(_) => Dtype::U64,
            Samples::F32(_) => Dtype::F32,
            Samples::F64(_) => Dtype::F64,
            Samples::String(_) => Dtype::String,
        }
    }

    /// How many values there are.
    pub open spec fn len(self) -> nat {
        match self {
            Samples::Bool(s) => s.len(),
            Samples::I8(s) => s.len(),
            Samples::I16(s) => s.len(),
            Samples::I32(s) => s.len(),
            Samples::I64(s) => s.len(),
            Samples::U8(s) => s.len(),
            Samples::U16(s) => s.len(),
            Samples::U32(s) => s.len(),
            Samples::U64(s) => s.len(),
            Samples::F32(s) => s.len(),
            Samples::F64(s) => s.len(),
            Samples::String(s) => s.len(),
        }
    }

    /// The value at `i` promoted to binary64; there is none of a state.
    pub open spec fn promotion(self, i: int) -> Option<Promoted> {
        match self {
            Samples::Bool(_) => None,
            Samples::I8(s) => Some(promotion_of(s[i] as int)),
            Samples::I16(s) => Some(promotion_of(s[i] as int)),
            Samples::I32(s) => Some(promotion_of(s[i] as int)),
            Samples::I64(s) => Some(promotion_of(s[i] as int)),
            Samples::U8(s) => Some(promotion_of(s[i] as int)),
            Samples::U16(s) => Some(promotion_of(s[i] as int)),
            Samples::U32(s) => Some(promotion_of(s[i] as int)),
            Samples::U64(s) => Some(promotion_of(s[i] as int)),
            Samples::F32(s) => Some(
                Promoted { bits: rounding::widened(s[i]) as u64, exact: true },
            ),
            Samples::F64(s) => Some(Promoted { bits: s[i], exact: true }),
            Samples::String(_) => None,
        }
    }

    /// Every value is the same, floating-point numbers by their bit patterns.
    pub open spec fn is_constant(self) -> bool {
        match self {
            Samples::Bool(s) => is_constant_run(s),
            Samples::I8(s) => is_constant_run(s),
            Samples::I16(s) => is_constant_run(s),
            Samples::I32(s) => is_constant_run(s),
            Samples::I64(s) => is_constant_run(s),
            Samples::U8(s) => is_constant_run(s),
            Samples::U16(s) => is_constant_run(s),
            Samples::U32(s) => is_constant_run(s),
            Samples::U64(s) => is_constant_run(s),
            Samples::F32(s) => is_constant_run(s),
            Samples::F64(s) => is_constant_run(s),
            Samples::String(s) => is_constant_run(s),
        }
    }

    /// The two hold equal values of one type. A NaN equals nothing.
    pub open spec fn equals(self, other: Samples) -> bool {
        match (self, other) {
            (Samples::Bool(a), Samples::Bool(b)) => a == b,
            (Samples::I8(a), Samples::I8(b)) => a == b,
            (Samples::I16(a), Samples::I16(b)) => a == b,
            (Samples::I32(a), Samples::I32(b)) => a == b,
            (Samples::I64(a), Samples::I64(b)) => a == b,
            (Samples::U8(a), Samples::U8(b)) => a == b,
            (Samples::U16(a), Samples::U16(b)) => a == b,
            (Samples::U32(a), Samples::U32(b)) => a == b,
            (Samples::U64(a), Samples::U64(b)) => a == b,
            (Samples::F32(a), Samples::F32(b)) => a.len() == b.len() && forall|i: int|
                0 <= i < a.len() ==> equal_singles(#[trigger] a[i], b[i]),
            (Samples::F64(a), Samples::F64(b)) => a.len() == b.len() && forall|i: int|
                0 <= i < a.len() ==> equal_doubles(#[trigger] a[i], b[i]),
            (Samples::String(a), Samples::String(b)) => a == b,
            _ => false,
        }
    }
}

/// All elements are the same.
pub open spec fn is_constant_run<T>(s: Seq<T>) -> bool {
    forall|i: int, j: int| 0 <= i < s.len() && 0 <= j < s.len() ==> s[i] == s[j]
}

/// The values of a column in their own type.
pub enum SeriesValues {
    Bool(Vec<bool>),
    I8(Vec<i8>),
    I16(Vec<i16>),
    I32(Vec<i32>),
    I64(Vec<i64>),
    U8(Vec<u8>),
    U16(Vec<u16>),
    U32(Vec<u32>),
    U64(Vec<u64>),
    F32(Vec<u32>),
    F64(Vec<u64>),
    String(Vec<String>),
    /// Kept as the bytes of a file, for a column that is too large to hold.
    Spilled(SpilledValues),
}

/// The values of a column kept as the bytes of a file. These are the types that
/// delimited text is read as.
pub enum SpilledValues {
    /// Zero for false.
    Bool(SpillVec<u8>),
    I64(SpillVec<i64>),
    F64(SpillVec<u64>),
    String(SpillStrings),
}

/// Bytes as truth values.
pub open spec fn flags(bytes: Seq<u8>) -> Seq<bool> {
    Seq::new(bytes.len(), |i: int| bytes[i] != 0)
}

impl View for SpilledValues {
    type V = Samples;

    open spec fn view(&self) -> Samples {
        match self {
            SpilledValues::Bool(v) => Samples::Bool(flags(v@)),
            SpilledValues::I64(v) => Samples::I64(v@),
            SpilledValues::F64(v) => Samples::F64(v@),
            SpilledValues::String(v) => Samples::String(v@),
        }
    }
}

impl View for SeriesValues {
    type V = Samples;

    open spec fn view(&self) -> Samples {
        match self {
            SeriesValues::Bool(v) => Samples::Bool(v@),
            SeriesValues::I8(v) => Samples::I8(v@),
            SeriesValues::I16(v) => Samples::I16(v@),
            SeriesValues::I32(v) => Samples::I32(v@),
            SeriesValues::I64(v) => Samples::I64(v@),
            SeriesValues::U8(v) => Samples::U8(v@),
            SeriesValues::U16(v) => Samples::U16(v@),
            SeriesValues::U32(v) => Samples::U32(v@),
            SeriesValues::U64(v) => Samples::U64(v@),
            SeriesValues::F32(v) => Samples::F32(v@),
            SeriesValues::F64(v) => Samples::F64(v@),
            SeriesValues::String(v) => Samples::String(text::texts(v@)),
            SeriesValues::Spilled(v) => v@,
        }
    }
}

impl SpilledValues {
    /// The bytes are those of the values.
    pub open spec fn wf(&self) -> bool {
        match self {
            SpilledValues::Bool(v) => v.wf(),
            SpilledValues::I64(v) => v.wf(),
            SpilledValues::F64(v) => v.wf(),
            SpilledValues::String(v) => v.wf(),
        }
    }

    /// The order of the bytes in the files.
    pub open spec fn order_spec(&self) -> crate::index::bytes::ByteOrder {
        match self {
            SpilledValues::Bool(v) => v.order_spec(),
            SpilledValues::I64(v) => v.order_spec(),
            SpilledValues::F64(v) => v.order_spec(),
            SpilledValues::String(v) => v.order_spec(),
        }
    }

    /// The type of the values, the same as for a column in memory.
    pub fn dtype(&self) -> (dtype: Dtype)
        ensures
            dtype == self@.dtype(),
    {
        match self {
            SpilledValues::Bool(_) => Dtype::Bool,
            SpilledValues::I64(_) => Dtype::I64,
            SpilledValues::F64(_) => Dtype::F64,
            SpilledValues::String(_) => Dtype::String,
        }
    }

    /// How many values there are.
    pub fn len(&self) -> (len: usize)
        requires
            self.wf(),
        ensures
            len == self@.len(),
    {
        match self {
            SpilledValues::Bool(v) => v.len(),
            SpilledValues::I64(v) => v.len(),
            SpilledValues::F64(v) => v.len(),
            SpilledValues::String(v) => v.len(),
        }
    }

    /// Whether there are no values.
    pub fn is_empty(&self) -> (empty: bool)
        requires
            self.wf(),
        ensures
            empty == (self@.len() == 0),
    {
        self.len() == 0
    }

    /// The same values in memory.
    pub fn load(&self) -> (values: SeriesValues)
        requires
            self.wf(),
        ensures
            values@ == self@,
            !(values is Spilled),
            values.wf(),
    {
        match self {
            SpilledValues::Bool(v) => {
                let bytes: Vec<u8> = v.to_vec();
                let mut loaded: Vec<bool> = Vec::new();
                let mut i: usize = 0;
                while i < bytes.len()
                    invariant
                        i <= bytes@.len(),
                        loaded@.len() == i,
                        forall|j: int| 0 <= j < i ==> #[trigger] loaded@[j] == (bytes@[j] != 0),
                    decreases bytes@.len() - i,
                {
                    loaded.push(bytes[i] != 0);
                    i = i + 1;
                }
                assert(loaded@ == flags(v@));
                SeriesValues::Bool(loaded)
            },
            SpilledValues::I64(v) => SeriesValues::I64(v.to_vec()),
            SpilledValues::F64(v) => SeriesValues::F64(v.to_vec()),
            SpilledValues::String(v) => SeriesValues::String(v.to_vec()),
        }
    }
}

fn all_same<T: Sample>(values: &[T]) -> (same: bool)
    ensures
        same == is_constant_run(values@),
{
    let mut i: usize = 1;
    while i < values.len()
        invariant
            1 <= i,
            values@.len() > 0 ==> i <= values@.len(),
            forall|j: int| 0 <= j < i && j < values@.len() ==> #[trigger] values@[j] == values@[0],
        decreases values@.len() - i,
    {
        if !values[i].same(values[0]) {
            assert(values@[i as int] != values@[0]);
            return false;
        }
        i = i + 1;
    }
    true
}

fn all_texts_same(values: &[String]) -> (same: bool)
    ensures
        same == is_constant_run(text::texts(values@)),
{
    let ghost texts: Seq<Seq<char>> = text::texts(values@);
    let mut i: usize = 1;
    while i < values.len()
        invariant
            texts == text::texts(values@),
            1 <= i,
            values@.len() > 0 ==> i <= values@.len(),
            forall|j: int| 0 <= j < i && j < texts.len() ==> #[trigger] texts[j] == texts[0],
        decreases values@.len() - i,
    {
        if values[i] != values[0] {
            assert(texts[i as int] != texts[0]);
            return false;
        }
        assert(texts[i as int] == texts[0]);
        i = i + 1;
    }
    true
}

fn all_equal<T: Sample>(a: &[T], b: &[T]) -> (equal: bool)
    ensures
        equal == (a@ == b@),
{
    if a.len() != b.len() {
        return false;
    }
    let mut i: usize = 0;
    while i < a.len()
        invariant
            a@.len() == b@.len(),
            i <= a@.len(),
            forall|j: int| 0 <= j < i ==> a@[j] == b@[j],
        decreases a@.len() - i,
    {
        if !a[i].same(b[i]) {
            return false;
        }
        i = i + 1;
    }
    assert(a@ == b@);
    true
}

fn all_singles_equal(a: &[u32], b: &[u32]) -> (equal: bool)
    ensures
        equal == (a@.len() == b@.len() && forall|i: int|
            0 <= i < a@.len() ==> equal_singles(#[trigger] a@[i], b@[i])),
{
    if a.len() != b.len() {
        return false;
    }
    let mut i: usize = 0;
    while i < a.len()
        invariant
            a@.len() == b@.len(),
            i <= a@.len(),
            forall|j: int| 0 <= j < i ==> equal_singles(#[trigger] a@[j], b@[j]),
        decreases a@.len() - i,
    {
        if !singles_equal(a[i], b[i]) {
            assert(!equal_singles(a@[i as int], b@[i as int]));
            return false;
        }
        i = i + 1;
    }
    true
}

fn all_doubles_equal(a: &[u64], b: &[u64]) -> (equal: bool)
    ensures
        equal == (a@.len() == b@.len() && forall|i: int|
            0 <= i < a@.len() ==> equal_doubles(#[trigger] a@[i], b@[i])),
{
    if a.len() != b.len() {
        return false;
    }
    let mut i: usize = 0;
    while i < a.len()
        invariant
            a@.len() == b@.len(),
            i <= a@.len(),
            forall|j: int| 0 <= j < i ==> equal_doubles(#[trigger] a@[j], b@[j]),
        decreases a@.len() - i,
    {
        if !doubles_equal(a[i], b[i]) {
            assert(!equal_doubles(a@[i as int], b@[i as int]));
            return false;
        }
        i = i + 1;
    }
    true
}

fn all_texts_equal(a: &[String], b: &[String]) -> (equal: bool)
    ensures
        equal == (text::texts(a@) == text::texts(b@)),
{
    let ghost left: Seq<Seq<char>> = text::texts(a@);
    let ghost right: Seq<Seq<char>> = text::texts(b@);
    if a.len() != b.len() {
        assert(left.len() != right.len());
        return false;
    }
    let mut i: usize = 0;
    while i < a.len()
        invariant
            left == text::texts(a@),
            right == text::texts(b@),
            a@.len() == b@.len(),
            i <= a@.len(),
            forall|j: int| 0 <= j < i ==> left[j] == right[j],
        decreases a@.len() - i,
    {
        if a[i] != b[i] {
            assert(left[i as int] != right[i as int]);
            return false;
        }
        assert(left[i as int] == right[i as int]);
        i = i + 1;
    }
    assert(left == right);
    true
}

fn promote_at<T: Integer>(values: &[T], index: usize) -> (promoted: Option<Promoted>)
    ensures
        match promoted {
            Some(promoted) => index < values@.len() && promoted == promotion_of(
                values@[index as int].number(),
            ),
            None => index >= values@.len(),
        },
{
    if index < values.len() {
        Some(promote(values[index]))
    } else {
        None
    }
}

/// What a sample looks like when it is written out. A floating-point number is
/// left to be written by whoever shows it.
#[derive(Debug, Clone, PartialEq, Eq)]
pub enum ShownSample {
    /// The decimal digits of an integer.
    Digits(String),
    /// A binary32 number.
    Single(u32),
    /// A binary64 number.
    Double(u64),
}

/// `shown` is the value at `i` written out.
pub open spec fn is_shown(shown: Option<ShownSample>, samples: Samples, i: int) -> bool {
    if !(0 <= i < samples.len()) {
        shown is None
    } else {
        match samples {
            Samples::Bool(_) => shown is None,
            Samples::I8(s) => shown matches Some(ShownSample::Digits(digits)) && digits@
                == text::decimal_text(s[i] as int),
            Samples::I16(s) => shown matches Some(ShownSample::Digits(digits)) && digits@
                == text::decimal_text(s[i] as int),
            Samples::I32(s) => shown matches Some(ShownSample::Digits(digits)) && digits@
                == text::decimal_text(s[i] as int),
            Samples::I64(s) => shown matches Some(ShownSample::Digits(digits)) && digits@
                == text::decimal_text(s[i] as int),
            Samples::U8(s) => shown matches Some(ShownSample::Digits(digits)) && digits@
                == text::decimal_text(s[i] as int),
            Samples::U16(s) => shown matches Some(ShownSample::Digits(digits)) && digits@
                == text::decimal_text(s[i] as int),
            Samples::U32(s) => shown matches Some(ShownSample::Digits(digits)) && digits@
                == text::decimal_text(s[i] as int),
            Samples::U64(s) => shown matches Some(ShownSample::Digits(digits)) && digits@
                == text::decimal_text(s[i] as int),
            Samples::F32(s) => shown == Some(ShownSample::Single(s[i])),
            Samples::F64(s) => shown == Some(ShownSample::Double(s[i])),
            Samples::String(_) => shown is None,
        }
    }
}

fn show_at<T: Integer>(values: &[T], index: usize) -> (shown: Option<ShownSample>)
    ensures
        match shown {
            Some(ShownSample::Digits(digits)) => index < values@.len() && digits@
                == text::decimal_text(values@[index as int].number()),
            Some(_) => false,
            None => index >= values@.len(),
        },
{
    if index < values.len() {
        Some(ShownSample::Digits(decimal(values[index].wide())))
    } else {
        None
    }
}

impl SeriesValues {
    /// The bytes of a spilled column are those of its values.
    pub open spec fn wf(&self) -> bool {
        self matches SeriesValues::Spilled(v) ==> v.wf()
    }

    /// The type of the values.
    pub fn dtype(&self) -> (dtype: Dtype)
        ensures
            dtype == self@.dtype(),
    {
        match self {
            SeriesValues::Bool(_) => Dtype::Bool,
            SeriesValues::I8(_) => Dtype::I8,
            SeriesValues::I16(_) => Dtype::I16,
            SeriesValues::I32(_) => Dtype::I32,
            SeriesValues::I64(_) => Dtype::I64,
            SeriesValues::U8(_) => Dtype::U8,
            SeriesValues::U16(_) => Dtype::U16,
            SeriesValues::U32(_) => Dtype::U32,
            SeriesValues::U64(_) => Dtype::U64,
            SeriesValues::F32(_) => Dtype::F32,
            SeriesValues::F64(_) => Dtype::F64,
            SeriesValues::String(_) => Dtype::String,
            SeriesValues::Spilled(v) => v.dtype(),
        }
    }

    /// How many values there are.
    pub fn len(&self) -> (len: usize)
        requires
            self.wf(),
        ensures
            len == self@.len(),
    {
        match self {
            SeriesValues::Bool(v) => v.len(),
            SeriesValues::I8(v) => v.len(),
            SeriesValues::I16(v) => v.len(),
            SeriesValues::I32(v) => v.len(),
            SeriesValues::I64(v) => v.len(),
            SeriesValues::U8(v) => v.len(),
            SeriesValues::U16(v) => v.len(),
            SeriesValues::U32(v) => v.len(),
            SeriesValues::U64(v) => v.len(),
            SeriesValues::F32(v) => v.len(),
            SeriesValues::F64(v) => v.len(),
            SeriesValues::String(v) => v.len(),
            SeriesValues::Spilled(v) => v.len(),
        }
    }

    /// Whether there are no values.
    pub fn is_empty(&self) -> (empty: bool)
        requires
            self.wf(),
        ensures
            empty == (self@.len() == 0),
    {
        self.len() == 0
    }

    /// The samples of a column in memory that are binary64 numbers already.
    pub fn as_f64_slice(&self) -> (samples: Option<&[u64]>)
        ensures
            match samples {
                Some(samples) => self is F64 && self@ == Samples::F64(samples@),
                None => !(self is F64),
            },
    {
        match self {
            SeriesValues::F64(v) => Some(v.as_slice()),
            _ => None,
        }
    }

    /// The value at `index` promoted to binary64, and whether that is exact.
    /// `None` for a state and past the end.
    pub fn f64_at_checked(&self, index: usize) -> (promoted: Option<Promoted>)
        requires
            self.wf(),
        ensures
            promoted == (if index < self@.len() {
                self@.promotion(index as int)
            } else {
                None
            }),
    {
        match self {
            SeriesValues::Bool(_) => None,
            SeriesValues::I8(v) => promote_at(v.as_slice(), index),
            SeriesValues::I16(v) => promote_at(v.as_slice(), index),
            SeriesValues::I32(v) => promote_at(v.as_slice(), index),
            SeriesValues::I64(v) => promote_at(v.as_slice(), index),
            SeriesValues::U8(v) => promote_at(v.as_slice(), index),
            SeriesValues::U16(v) => promote_at(v.as_slice(), index),
            SeriesValues::U32(v) => promote_at(v.as_slice(), index),
            SeriesValues::U64(v) => promote_at(v.as_slice(), index),
            SeriesValues::F32(v) => if index < v.len() {
                Some(Promoted { bits: widen(v[index]), exact: true })
            } else {
                None
            },
            SeriesValues::F64(v) => if index < v.len() {
                Some(Promoted { bits: v[index], exact: true })
            } else {
                None
            },
            SeriesValues::String(_) => None,
            SeriesValues::Spilled(v) => match v {
                SpilledValues::Bool(_) => None,
                SpilledValues::I64(v) => match v.get(index) {
                    Some(n) => Some(promote(n)),
                    None => None,
                },
                SpilledValues::F64(v) => match v.get(index) {
                    Some(bits) => Some(Promoted { bits, exact: true }),
                    None => None,
                },
                SpilledValues::String(_) => None,
            },
        }
    }

    /// The value at `index` promoted to binary64. `None` for a state and past
    /// the end.
    pub fn f64_at(&self, index: usize) -> (bits: Option<u64>)
        requires
            self.wf(),
        ensures
            match bits {
                Some(bits) => index < self@.len() && (self@.promotion(index as int) matches Some(
                    promoted,
                ) && promoted.bits == bits),
                None => index >= self@.len() || self@.promotion(index as int) is None,
            },
    {
        match self.f64_at_checked(index) {
            Some(promoted) => Some(promoted.bits),
            None => None,
        }
    }

    /// Every value promoted to binary64, `None` for states.
    pub fn to_f64_vec(&self) -> (samples: Option<Vec<u64>>)
        requires
            self.wf(),
        ensures
            match samples {
                Some(samples) => is_promotion(samples@, self@),
                None => self@.dtype().view_kind_spec() == ViewKind::StateTimeline,
            },
    {
        if let ViewKind::StateTimeline = self.dtype().view_kind() {
            return None;
        }
        let mut samples: Vec<u64> = Vec::new();
        let len: usize = self.len();
        let mut i: usize = 0;
        while i < len
            invariant
                self.wf(),
                self@.dtype().view_kind_spec() == ViewKind::TimeDomain,
                len == self@.len(),
                i <= len,
                samples@.len() == i,
                forall|j: int|
                    0 <= j < i ==> (self@.promotion(j) matches Some(promoted) && promoted.bits
                        == #[trigger] samples@[j]),
            decreases len - i,
        {
            match self.f64_at(i) {
                Some(bits) => {
                    samples.push(bits);
                },
                None => {},
            }
            i = i + 1;
        }
        Some(samples)
    }

    /// Whether every value is the same, as it is where there is but one.
    pub fn is_constant(&self) -> (constant: bool)
        requires
            self.wf(),
        ensures
            constant == self@.is_constant(),
    {
        match self {
            SeriesValues::Bool(v) => all_same(v.as_slice()),
            SeriesValues::I8(v) => all_same(v.as_slice()),
            SeriesValues::I16(v) => all_same(v.as_slice()),
            SeriesValues::I32(v) => all_same(v.as_slice()),
            SeriesValues::I64(v) => all_same(v.as_slice()),
            SeriesValues::U8(v) => all_same(v.as_slice()),
            SeriesValues::U16(v) => all_same(v.as_slice()),
            SeriesValues::U32(v) => all_same(v.as_slice()),
            SeriesValues::U64(v) => all_same(v.as_slice()),
            SeriesValues::F32(v) => all_same(v.as_slice()),
            SeriesValues::F64(v) => all_same(v.as_slice()),
            SeriesValues::String(v) => all_texts_same(v.as_slice()),
            SeriesValues::Spilled(v) => {
                let loaded: SeriesValues = v.load();
                match loaded {
                    SeriesValues::Bool(v) => all_same(v.as_slice()),
                    SeriesValues::I64(v) => all_same(v.as_slice()),
                    SeriesValues::F64(v) => all_same(v.as_slice()),
                    SeriesValues::String(v) => all_texts_same(v.as_slice()),
                    _ => false,
                }
            },
        }
    }

    /// Whether the two hold equal values of one type, wherever they are kept.
    /// A NaN equals nothing.
    pub fn same_values(&self, other: &SeriesValues) -> (same: bool)
        requires
            self.wf(),
            other.wf(),
        ensures
            same == self@.equals(other@),
    {
        match (self, other) {
            (SeriesValues::Spilled(a), SeriesValues::Spilled(b)) => same_in_memory(
                &a.load(),
                &b.load(),
            ),
            (SeriesValues::Spilled(a), _) => same_in_memory(&a.load(), other),
            (_, SeriesValues::Spilled(b)) => same_in_memory(self, &b.load()),
            _ => same_in_memory(self, other),
        }
    }

    /// The value at `index` written out, never by way of a binary64 number.
    /// `None` for a state and past the end.
    pub fn display_at(&self, index: usize) -> (shown: Option<ShownSample>)
        requires
            self.wf(),
        ensures
            is_shown(shown, self@, index as int),
    {
        match self {
            SeriesValues::Bool(_) => None,
            SeriesValues::I8(v) => show_at(v.as_slice(), index),
            SeriesValues::I16(v) => show_at(v.as_slice(), index),
            SeriesValues::I32(v) => show_at(v.as_slice(), index),
            SeriesValues::I64(v) => show_at(v.as_slice(), index),
            SeriesValues::U8(v) => show_at(v.as_slice(), index),
            SeriesValues::U16(v) => show_at(v.as_slice(), index),
            SeriesValues::U32(v) => show_at(v.as_slice(), index),
            SeriesValues::U64(v) => show_at(v.as_slice(), index),
            SeriesValues::F32(v) => if index < v.len() {
                Some(ShownSample::Single(v[index]))
            } else {
                None
            },
            SeriesValues::F64(v) => if index < v.len() {
                Some(ShownSample::Double(v[index]))
            } else {
                None
            },
            SeriesValues::String(_) => None,
            SeriesValues::Spilled(v) => match v {
                SpilledValues::Bool(_) => None,
                SpilledValues::I64(v) => match v.get(index) {
                    Some(n) => Some(ShownSample::Digits(decimal(n as i128))),
                    None => None,
                },
                SpilledValues::F64(v) => match v.get(index) {
                    Some(bits) => Some(ShownSample::Double(bits)),
                    None => None,
                },
                SpilledValues::String(_) => None,
            },
        }
    }
}

/// `samples` are the values promoted to binary64.
pub open spec fn is_promotion(samples: Seq<u64>, values: Samples) -> bool {
    &&& values.dtype().view_kind_spec() == ViewKind::TimeDomain
    &&& samples.len() == values.len()
    &&& forall|i: int|
        0 <= i < samples.len() ==> (values.promotion(i) matches Some(promoted) && promoted.bits
            == #[trigger] samples[i])
}

fn same_in_memory(a: &SeriesValues, b: &SeriesValues) -> (same: bool)
    requires
        !(a is Spilled),
        !(b is Spilled),
    ensures
        same == a@.equals(b@),
{
    match (a, b) {
        (SeriesValues::Bool(a), SeriesValues::Bool(b)) => all_equal(a.as_slice(), b.as_slice()),
        (SeriesValues::I8(a), SeriesValues::I8(b)) => all_equal(a.as_slice(), b.as_slice()),
        (SeriesValues::I16(a), SeriesValues::I16(b)) => all_equal(a.as_slice(), b.as_slice()),
        (SeriesValues::I32(a), SeriesValues::I32(b)) => all_equal(a.as_slice(), b.as_slice()),
        (SeriesValues::I64(a), SeriesValues::I64(b)) => all_equal(a.as_slice(), b.as_slice()),
        (SeriesValues::U8(a), SeriesValues::U8(b)) => all_equal(a.as_slice(), b.as_slice()),
        (SeriesValues::U16(a), SeriesValues::U16(b)) => all_equal(a.as_slice(), b.as_slice()),
        (SeriesValues::U32(a), SeriesValues::U32(b)) => all_equal(a.as_slice(), b.as_slice()),
        (SeriesValues::U64(a), SeriesValues::U64(b)) => all_equal(a.as_slice(), b.as_slice()),
        (SeriesValues::F32(a), SeriesValues::F32(b)) => all_singles_equal(
            a.as_slice(),
            b.as_slice(),
        ),
        (SeriesValues::F64(a), SeriesValues::F64(b)) => all_doubles_equal(
            a.as_slice(),
            b.as_slice(),
        ),
        (SeriesValues::String(a), SeriesValues::String(b)) => all_texts_equal(
            a.as_slice(),
            b.as_slice(),
        ),
        _ => false,
    }
}

/// A promotion that is called exact is the number itself.
pub proof fn law_exact_promotion_keeps_the_number(n: int)
    requires
        promotion_of(n).exact,
    ensures
        rounding::rounded(
            if n < 0 {
                (-n) as nat
            } else {
                n as nat
            },
        ) == (if n < 0 {
            -n
        } else {
            n
        }),
{
    rounding::law_small_integers_promote_exactly(
        if n < 0 {
            (-n) as nat
        } else {
            n as nat
        },
    );
}

/// Only 64-bit integers can lose precision when they are promoted.
pub proof fn law_narrow_types_promote_exactly(samples: Samples, i: int)
    requires
        0 <= i < samples.len(),
        samples.dtype() != Dtype::I64,
        samples.dtype() != Dtype::U64,
        samples.promotion(i) is Some,
    ensures
        samples.promotion(i).unwrap().exact,
{
}

} // verus!
