//! Samples read in bounded pieces, for a column that should never be in memory
//! as a whole.

use vstd::prelude::*;
use crate::series::dtype;
use crate::series::dtype::{Samples, SeriesValues, ViewKind};

verus! {

/// How many samples a piece holds at most: a mebibyte of binary64 numbers.
pub const SAMPLE_CHUNK_LEN: usize = 131_072;

/// Binary64 samples that are read in pieces.
pub trait SampleSource {
    /// The samples.
    spec fn samples(&self) -> Seq<u64>;

    /// The source can be read.
    spec fn is_readable(&self) -> bool;

    /// How many samples there are.
    fn sample_count(&self) -> (count: usize)
        requires
            self.is_readable(),
        ensures
            count == self.samples().len(),
    ;

    /// The piece of the samples `start..end` that begins at `start`. A range
    /// that reaches past the last sample ends with it. Only an empty range has
    /// an empty piece.
    fn sample_chunk(&self, start: usize, end: usize) -> (chunk: Vec<u64>)
        requires
            self.is_readable(),
        ensures
            chunk@ == self.samples().subrange(
                clamped(start as int, self.samples().len() as int),
                piece_end(start as int, end as int, self.samples().len() as int),
            ),
    ;
}

/// An index that is at most `len`.
pub open spec fn clamped(i: int, len: int) -> int {
    if i < len {
        i
    } else {
        len
    }
}

/// Where the piece of `start..end` that begins at `start` ends.
pub open spec fn piece_end(start: int, end: int, len: int) -> int {
    let from = clamped(start, len);
    let to = clamped(end, len);
    if to <= from {
        from
    } else if to - from <= SAMPLE_CHUNK_LEN {
        to
    } else {
        from + SAMPLE_CHUNK_LEN
    }
}

fn find_piece(start: usize, end: usize, len: usize) -> (piece: (usize, usize))
    ensures
        piece.0 == clamped(start as int, len as int),
        piece.1 == piece_end(start as int, end as int, len as int),
        piece.0 <= piece.1 <= len,
{
    let from: usize = if start < len {
        start
    } else {
        len
    };
    let to: usize = if end < len {
        end
    } else {
        len
    };
    if to <= from {
        (from, from)
    } else if to - from <= SAMPLE_CHUNK_LEN {
        (from, to)
    } else {
        (from, from + SAMPLE_CHUNK_LEN)
    }
}

impl SampleSource for [u64] {
    open spec fn samples(&self) -> Seq<u64> {
        self@
    }

    open spec fn is_readable(&self) -> bool {
        true
    }

    fn sample_count(&self) -> (count: usize) {
        self.len()
    }

    fn sample_chunk(&self, start: usize, end: usize) -> (chunk: Vec<u64>) {
        let (from, to) = find_piece(start, end, self.len());
        let mut chunk: Vec<u64> = Vec::new();
        let mut i: usize = from;
        while i < to
            invariant
                from <= i <= to <= self@.len(),
                chunk@ == self@.subrange(from as int, i as int),
            decreases to - i,
        {
            assert(self@.subrange(from as int, i + 1) == self@.subrange(
                from as int,
                i as int,
            ).push(self@[i as int]));
            chunk.push(self[i]);
            i = i + 1;
        }
        chunk
    }
}

/// The values of a column, promoted to binary64 piece by piece.
pub struct SeriesSamples<'a> {
    values: &'a SeriesValues,
}

/// Values promoted to binary64.
pub open spec fn promotions(values: Samples) -> Seq<u64> {
    Seq::new(values.len(), |i: int| values.promotion(i).unwrap().bits)
}

impl<'a> SeriesSamples<'a> {
    /// The column's values.
    pub closed spec fn values(&self) -> Samples {
        self.values@
    }
}

impl<'a> SampleSource for SeriesSamples<'a> {
    open spec fn samples(&self) -> Seq<u64> {
        promotions(self.values())
    }

    closed spec fn is_readable(&self) -> bool {
        &&& self.values.wf()
        &&& self.values@.dtype().view_kind_spec() == ViewKind::TimeDomain
    }

    fn sample_count(&self) -> (count: usize) {
        self.values.len()
    }

    fn sample_chunk(&self, start: usize, end: usize) -> (chunk: Vec<u64>) {
        let (from, to) = find_piece(start, end, self.values.len());
        let ghost samples: Seq<u64> = promotions(self.values@);
        let mut chunk: Vec<u64> = Vec::new();
        let mut i: usize = from;
        while i < to
            invariant
                self.values.wf(),
                self.values@.dtype().view_kind_spec() == ViewKind::TimeDomain,
                samples == promotions(self.values@),
                from <= i <= to <= samples.len(),
                chunk@ == samples.subrange(from as int, i as int),
            decreases to - i,
        {
            match self.values.f64_at(i) {
                Some(bits) => {
                    assert(samples[i as int] == bits);
                    assert(samples.subrange(from as int, i + 1) == samples.subrange(
                        from as int,
                        i as int,
                    ).push(bits));
                    chunk.push(bits);
                },
                None => {},
            }
            i = i + 1;
        }
        chunk
    }
}

impl SeriesValues {
    /// The values as samples that are read in pieces, `None` for states.
    pub fn sample_source(&self) -> (source: Option<SeriesSamples<'_>>)
        requires
            self.wf(),
        ensures
            match source {
                Some(source) => source.is_readable() && source.samples() == promotions(self@)
                    && dtype::is_promotion(source.samples(), self@),
                None => self@.dtype().view_kind_spec() == ViewKind::StateTimeline,
            },
    {
        match self.dtype().view_kind() {
            ViewKind::StateTimeline => None,
            ViewKind::TimeDomain => Some(SeriesSamples { values: self }),
        }
    }
}

/// Reads all samples of `start..end`, piece by piece.
pub fn collect_samples<S: SampleSource + ?Sized>(source: &S, start: usize, end: usize) -> (samples:
    Vec<u64>)
    requires
        source.is_readable(),
    ensures
        start <= end ==> samples@ == source.samples().subrange(
            clamped(start as int, source.samples().len() as int),
            clamped(end as int, source.samples().len() as int),
        ),
        start > end ==> samples@.len() == 0,
{
    let count: usize = source.sample_count();
    let from: usize = if start < count {
        start
    } else {
        count
    };
    let to: usize = if end < count {
        end
    } else {
        count
    };
    let mut samples: Vec<u64> = Vec::new();
    let mut at: usize = from;
    while at < to
        invariant
            source.is_readable(),
            count == source.samples().len(),
            to <= count,
            from <= at,
            from < to ==> at <= to,
            from >= to ==> at == from,
            samples@ == source.samples().subrange(from as int, at as int),
            from <= count,
        decreases to - at,
    {
        let mut chunk: Vec<u64> = source.sample_chunk(at, to);
        let len: usize = chunk.len();
        proof {
            let all = source.samples();
            assert(all.subrange(from as int, at as int) + all.subrange(at as int, at + len)
                == all.subrange(from as int, at + len));
        }
        samples.append(&mut chunk);
        at = at + len;
    }
    samples
}

/// A piece of a range of samples begins where the range does and holds a sample if
/// the range does. It is no longer than the longest piece, and a shorter one ends
/// where the range ends or the samples do.
pub proof fn law_pieces_cover_a_range(start: int, end: int, len: int)
    requires
        0 <= start,
        0 <= len,
    ensures
        ({
            let to = piece_end(start, end, len);
            &&& start < end && start < len ==> {
                &&& start < to <= start + 131_072
                &&& to <= end && to <= len
                &&& to < start + 131_072 ==> to == end || to == len
            }
            &&& start >= end && start < len ==> to == start
            &&& start >= len ==> to == len
        }),
{
}

} // verus!
