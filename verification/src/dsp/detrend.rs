//! What is taken out of a segment before it is tapered.

use vstd::prelude::*;

verus! {

/// What is taken out of a segment.
#[derive(Debug, Clone, Copy, PartialEq, Eq, Structural)]
pub enum Detrend {
    /// Nothing.
    Unchanged,
    /// Its mean.
    Constant,
}

} // verus!
