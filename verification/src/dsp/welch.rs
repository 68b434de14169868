//! The length of the segments that a power spectrum is averaged over.

use vstd::prelude::*;
use vstd::arithmetic::power2::{lemma2_to64, lemma_pow2_strictly_increases, lemma_pow2_unfold};

verus! {

/// The shortest segment that is chosen.
pub const MIN_SEGMENT_LEN: usize = 256;

/// The longest segment that is chosen.
pub const MAX_SEGMENT_LEN: usize = 65_536;

/// How many segments there should be room for.
pub const SEGMENTS_PER_SELECTION: usize = 8;

/// `len` is the largest power of two that leaves room for the segments, kept
/// within the shortest and the longest segment.
pub open spec fn is_default_segment_length(sample_count: int, len: int) -> bool {
    let room = sample_count / (SEGMENTS_PER_SELECTION as int);
    exists|e: nat|
        {
            &&& 8 <= e <= 16
            &&& len == #[trigger] vstd::arithmetic::power2::pow2(e)
            &&& len <= room || e == 8
            &&& room < 2 * len || e == 16
        }
}

/// The length of the segments that so many samples are split into.
pub fn default_segment_length(sample_count: usize) -> (len: usize)
    ensures
        MIN_SEGMENT_LEN <= len <= MAX_SEGMENT_LEN,
        is_default_segment_length(sample_count as int, len as int),
{
    let room: usize = sample_count / SEGMENTS_PER_SELECTION;
    let mut len: usize = MIN_SEGMENT_LEN;
    let ghost mut e: nat = 8;
    proof {
        lemma2_to64();
    }
    while len < MAX_SEGMENT_LEN && len <= room / 2
        invariant
            8 <= e <= 16,
            len == vstd::arithmetic::power2::pow2(e),
            vstd::arithmetic::power2::pow2(16) == 65_536,
            256 <= len <= 65_536,
            len <= room || e == 8,
        decreases MAX_SEGMENT_LEN - len,
    {
        proof {
            if e == 16 {
                assert(false);
            }
            lemma_pow2_unfold(e + 1);
            if e + 1 < 16 {
                lemma_pow2_strictly_increases(e + 1, 16);
            }
            e = e + 1;
        }
        len = len * 2;
    }
    proof {
        if e < 16 {
            lemma_pow2_strictly_increases(e, 16);
        }
        assert(is_default_segment_length(sample_count as int, len as int));
    }
    len
}

/// The length is a power of two from 256 to 65,536, and the only one that suits:
/// eight segments of it fit into the samples, unless it is the shortest, and eight
/// of twice its length do not, unless it is the longest. With more samples it is
/// never shorter.
pub proof fn law_eight_segments_fit(sample_count: int, len: int, more: int, longer: int)
    requires
        0 <= sample_count <= more,
        is_default_segment_length(sample_count, len),
        is_default_segment_length(more, longer),
    ensures
        256 <= len <= 65_536,
        8 * len <= sample_count || len == 256,
        sample_count < 16 * len || len == 65_536,
        len <= longer,
        sample_count == more ==> len == longer,
{
    lemma2_to64();
    let e = choose|e: nat|
        {
            &&& 8 <= e <= 16
            &&& len == #[trigger] vstd::arithmetic::power2::pow2(e)
            &&& len <= sample_count / 8 || e == 8
            &&& sample_count / 8 < 2 * len || e == 16
        };
    let f = choose|f: nat|
        {
            &&& 8 <= f <= 16
            &&& longer == #[trigger] vstd::arithmetic::power2::pow2(f)
            &&& longer <= more / 8 || f == 8
            &&& more / 8 < 2 * longer || f == 16
        };
    lemma_segment_bounds(e);
    lemma_segment_bounds(f);
    assert(sample_count / 8 <= more / 8);
    if e > f {
        lemma_pow2_unfold(f + 1);
        if e > f + 1 {
            lemma_pow2_strictly_increases(f + 1, e);
        }
    }
    if f > e {
        lemma_pow2_unfold(e + 1);
        lemma_pow2_strictly_increases(e, f);
        if f > e + 1 {
            lemma_pow2_strictly_increases(e + 1, f);
        }
    }
}

proof fn lemma_segment_bounds(e: nat)
    requires
        8 <= e <= 16,
    ensures
        256 <= vstd::arithmetic::power2::pow2(e) <= 65_536,
{
    lemma2_to64();
    if e > 8 {
        lemma_pow2_strictly_increases(8, e);
    }
    if e < 16 {
        lemma_pow2_strictly_increases(e, 16);
    }
}

} // verus!
