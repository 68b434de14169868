//! Runs of fixed-width elements as bytes.

use vstd::prelude::*;
use crate::index::bytes;
use crate::index::bytes::{push_uint, read_uint, ByteOrder};

verus! {

/// A value that is stored in a fixed number of bytes.
pub trait Element: Copy {
    /// How many bytes it takes.
    spec fn width() -> nat;

    /// Its bytes as one unsigned integer.
    spec fn raw(self) -> nat;

    /// The value whose bytes are those of an unsigned integer.
    spec fn of_raw(raw: nat) -> Self;

    /// Every value has its own unsigned integer, and every one that fits has a
    /// value.
    proof fn lemma_raw(self, raw: nat)
        ensures
            1 <= Self::width() <= 16,
            self.raw() < bytes::pow256(Self::width()),
            Self::of_raw(self.raw()) == self,
            raw < bytes::pow256(Self::width()) ==> Self::of_raw(raw).raw() == raw,
    ;

    /// How many bytes it takes.
    fn size() -> (n: usize)
        ensures
            n == Self::width(),
            1 <= n <= 16,
    ;

    /// Its bytes as one unsigned integer.
    fn to_raw(self) -> (raw: u128)
        ensures
            raw == self.raw(),
            raw < bytes::pow256(Self::width()),
    ;

    /// The value whose bytes are those of an unsigned integer.
    fn from_raw(raw: u128) -> (value: Self)
        requires
            raw < bytes::pow256(Self::width()),
        ensures
            value == Self::of_raw(raw as nat),
    ;
}

impl Element for u8 {
    open spec fn width() -> nat {
        1
    }

    open spec fn raw(self) -> nat {
        self as nat
    }

    open spec fn of_raw(raw: nat) -> u8 {
        raw as u8
    }

    proof fn lemma_raw(self, raw: nat) {
        bytes::lemma_pow256(1);
    }

    fn size() -> (n: usize) {
        1
    }

    fn to_raw(self) -> (raw: u128) {
        proof {
            bytes::lemma_pow256(1);
        }
        self as u128
    }

    fn from_raw(raw: u128) -> (value: u8) {
        proof {
            bytes::lemma_pow256(1);
        }
        raw as u8
    }
}

impl Element for u64 {
    open spec fn width() -> nat {
        8
    }

    open spec fn raw(self) -> nat {
        self as nat
    }

    open spec fn of_raw(raw: nat) -> u64 {
        raw as u64
    }

    proof fn lemma_raw(self, raw: nat) {
        bytes::lemma_pow256(8);
    }

    fn size() -> (n: usize) {
        8
    }

    fn to_raw(self) -> (raw: u128) {
        proof {
            bytes::lemma_pow256(8);
        }
        self as u128
    }

    fn from_raw(raw: u128) -> (value: u64) {
        proof {
            bytes::lemma_pow256(8);
        }
        raw as u64
    }
}

impl Element for i64 {
    open spec fn width() -> nat {
        8
    }

    open spec fn raw(self) -> nat {
        if self < 0 {
            (self + 0x1_0000_0000_0000_0000) as nat
        } else {
            self as nat
        }
    }

    open spec fn of_raw(raw: nat) -> i64 {
        if raw < 0x8000_0000_0000_0000 {
            raw as i64
        } else {
            (raw - 0x1_0000_0000_0000_0000) as i64
        }
    }

    proof fn lemma_raw(self, raw: nat) {
        bytes::lemma_pow256(8);
    }

    fn size() -> (n: usize) {
        8
    }

    fn to_raw(self) -> (raw: u128) {
        proof {
            bytes::lemma_pow256(8);
        }
        if self < 0 {
            (self as i128 + 0x1_0000_0000_0000_0000) as u128
        } else {
            self as u128
        }
    }

    fn from_raw(raw: u128) -> (value: i64) {
        proof {
            bytes::lemma_pow256(8);
        }
        if raw < 0x8000_0000_0000_0000 {
            raw as i64
        } else {
            (raw as i128 - 0x1_0000_0000_0000_0000) as i64
        }
    }
}

impl Element for i128 {
    open spec fn width() -> nat {
        16
    }

    open spec fn raw(self) -> nat {
        if self < 0 {
            (self + 0x1_0000_0000_0000_0000_0000_0000_0000_0000) as nat
        } else {
            self as nat
        }
    }

    open spec fn of_raw(raw: nat) -> i128 {
        if raw < 0x8000_0000_0000_0000_0000_0000_0000_0000 {
            raw as i128
        } else {
            (raw - 0x1_0000_0000_0000_0000_0000_0000_0000_0000) as i128
        }
    }

    proof fn lemma_raw(self, raw: nat) {
        bytes::lemma_pow256(16);
    }

    fn size() -> (n: usize) {
        16
    }

    fn to_raw(self) -> (raw: u128) {
        proof {
            bytes::lemma_pow256(16);
        }
        if self < 0 {
            let below: u128 = (-(self + 1)) as u128;
            u128::MAX - below
        } else {
            self as u128
        }
    }

    fn from_raw(raw: u128) -> (value: i128) {
        if raw < 0x8000_0000_0000_0000_0000_0000_0000_0000 {
            raw as i128
        } else {
            let below: u128 = u128::MAX - raw;
            -(below as i128) - 1
        }
    }
}

/// The bytes of one element.
pub open spec fn element_bytes<T: Element>(value: T, order: ByteOrder) -> Seq<u8> {
    bytes::encoded(value.raw(), T::width(), order)
}

pub proof fn lemma_element_len<T: Element>(value: T, order: ByteOrder)
    ensures
        element_bytes(value, order).len() == T::width(),
{
    value.lemma_raw(0);
    bytes::law_bytes_read_back(value.raw(), T::width(), order);
}

/// An element's bytes are read as that element.
pub proof fn lemma_element_reads_back<T: Element>(value: T, order: ByteOrder)
    ensures
        T::of_raw(bytes::decoded(element_bytes(value, order), order)) == value,
{
    value.lemma_raw(0);
    bytes::law_bytes_read_back(value.raw(), T::width(), order);
}

/// What bytes are read as is written as those bytes.
pub proof fn lemma_element_writes_back<T: Element>(piece: Seq<u8>, order: ByteOrder)
    requires
        piece.len() == T::width(),
    ensures
        element_bytes(T::of_raw(bytes::decoded(piece, order)), order) == piece,
{
    let some: T = arbitrary();
    bytes::law_bytes_write_back(piece, order);
    some.lemma_raw(bytes::decoded(piece, order));
}

/// The bytes of a run of elements, one behind the other.
pub open spec fn run_bytes<T: Element>(elements: Seq<T>, order: ByteOrder) -> Seq<u8>
    decreases elements.len(),
{
    if elements.len() == 0 {
        Seq::empty()
    } else {
        run_bytes(elements.drop_last(), order) + element_bytes(elements.last(), order)
    }
}

/// The element that stands at a place of a run of bytes.
pub open spec fn element_at<T: Element>(run: Seq<u8>, i: int, order: ByteOrder) -> T {
    T::of_raw(bytes::decoded(run.subrange(i * T::width(), (i + 1) * T::width()), order))
}

/// The elements of a run of bytes.
pub open spec fn run_elements<T: Element>(run: Seq<u8>, order: ByteOrder) -> Seq<T> {
    Seq::new(run.len() / T::width(), |i: int| element_at::<T>(run, i, order))
}

pub proof fn lemma_run_len<T: Element>(elements: Seq<T>, order: ByteOrder)
    ensures
        run_bytes(elements, order).len() == elements.len() * T::width(),
        1 <= T::width() <= 16,
    decreases elements.len(),
{
    if elements.len() == 0 {
        let some: T = arbitrary();
        some.lemma_raw(0);
        assert(0 * T::width() == 0) by (nonlinear_arith);
    } else {
        let last = elements.last();
        last.lemma_raw(0);
        bytes::law_bytes_read_back(last.raw(), T::width(), order);
        lemma_run_len(elements.drop_last(), order);
        let n = elements.len() as int;
        assert((n - 1) * T::width() + T::width() == n * T::width()) by (nonlinear_arith);
    }
}

/// Where an element's bytes stand in a run.
pub proof fn lemma_run_place<T: Element>(elements: Seq<T>, i: int, order: ByteOrder)
    requires
        0 <= i < elements.len(),
    ensures
        0 <= i * T::width() <= (i + 1) * T::width() <= run_bytes(elements, order).len(),
        run_bytes(elements, order).subrange(i * T::width(), (i + 1) * T::width())
            == element_bytes(elements[i], order),
        element_at::<T>(run_bytes(elements, order), i, order) == elements[i],
    decreases elements.len(),
{
    let w = T::width() as int;
    let n = elements.len() as int;
    let run = run_bytes(elements, order);
    let before = run_bytes(elements.drop_last(), order);
    lemma_run_len(elements, order);
    lemma_run_len(elements.drop_last(), order);
    elements[i].lemma_raw(0);
    bytes::law_bytes_read_back(elements[i].raw(), T::width(), order);
    assert(0 <= i * w && (i + 1) * w == i * w + w && (i + 1) * w <= n * w) by (nonlinear_arith)
        requires
            0 <= i < n,
            w >= 1,
    ;
    if i == n - 1 {
        assert(run.subrange(i * w, (i + 1) * w) == element_bytes(elements[i], order));
    } else {
        lemma_run_place(elements.drop_last(), i, order);
        assert(run.subrange(i * w, (i + 1) * w) == before.subrange(i * w, (i + 1) * w));
    }
}

/// What a run of elements is written as is read as those elements.
pub proof fn law_run_reads_back<T: Element>(elements: Seq<T>, order: ByteOrder)
    ensures
        run_elements::<T>(run_bytes(elements, order), order) == elements,
{
    let run = run_bytes(elements, order);
    lemma_run_len(elements, order);
    let w = T::width() as int;
    let n = elements.len() as int;
    assert(n * w / w == n) by (nonlinear_arith)
        requires
            w >= 1,
    ;
    assert forall|i: int| 0 <= i < n implies run_elements::<T>(run, order)[i] == elements[i] by {
        lemma_run_place(elements, i, order);
    }
    assert(run_elements::<T>(run, order) == elements);
}

/// What a whole run of bytes is read as is written as those bytes.
pub proof fn law_run_writes_back<T: Element>(run: Seq<u8>, order: ByteOrder)
    requires
        run.len() % T::width() == 0,
    ensures
        run_bytes(run_elements::<T>(run, order), order) == run,
    decreases run.len(),
{
    let some: T = arbitrary();
    some.lemma_raw(0);
    let w = T::width() as int;
    let len = run.len() as int;
    let n = len / w;
    assert(len == n * w && n >= 0) by (nonlinear_arith)
        requires
            len >= 0,
            w >= 1,
            len % w == 0,
            n == len / w,
    ;
    let elements = run_elements::<T>(run, order);
    if n == 0 {
        assert(len == 0) by (nonlinear_arith)
            requires
                len == n * w,
                n == 0,
        ;
        assert(run == Seq::<u8>::empty());
    } else {
        let before = run.take(len - w);
        assert((n - 1) * w == n * w - w && (n - 1) * w / w == n - 1 && ((n - 1) * w) % w == 0)
            by (nonlinear_arith)
            requires
                n >= 1,
                w >= 1,
        ;
        law_run_writes_back::<T>(before, order);
        assert forall|i: int| 0 <= i < n - 1 implies run_elements::<T>(before, order)[i]
            == #[trigger] elements[i] by {
            assert(0 <= i * w && (i + 1) * w <= (n - 1) * w && i * w <= (i + 1) * w)
                by (nonlinear_arith)
                requires
                    0 <= i < n - 1,
                    w >= 1,
            ;
            assert(before.subrange(i * w, (i + 1) * w) == run.subrange(i * w, (i + 1) * w));
        }
        assert(elements.drop_last() == run_elements::<T>(before, order));
        let piece = run.subrange((n - 1) * w, n * w);
        bytes::law_bytes_write_back(piece, order);
        some.lemma_raw(bytes::decoded(piece, order));
        assert(element_bytes(elements.last(), order) == piece);
        assert(before + piece == run);
    }
}

/// Appends the bytes of an element.
pub fn push_element<T: Element>(out: &mut Vec<u8>, value: T, order: ByteOrder)
    ensures
        final(out)@ == old(out)@ + element_bytes(value, order),
{
    let size: usize = T::size();
    push_uint(out, value.to_raw(), size, order);
}

/// Reads the element whose bytes begin at `at`.
pub fn read_element<T: Element>(run: &[u8], at: usize, order: ByteOrder) -> (value: T)
    requires
        at + T::width() <= run@.len(),
    ensures
        value == T::of_raw(bytes::decoded(run@.subrange(at as int, at + T::width()), order)),
{
    let size: usize = T::size();
    T::from_raw(read_uint(run, at, size, order))
}

} // verus!
