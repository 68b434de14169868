//! The windows that a segment can be tapered with.

use vstd::prelude::*;

verus! {

/// How a segment is tapered.
#[derive(Debug, Clone, Copy, PartialEq, Eq, Structural)]
pub enum Window {
    /// Not at all.
    Rectangular,
    Hann,
    Hamming,
}

} // verus!
