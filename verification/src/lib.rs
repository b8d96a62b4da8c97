//! A persistent, balanced multi-way tree over bounded text buffers.
//!
//! The tree caches an additive summary in every node, so that it can be
//! indexed, sliced and iterated along several independent dimensions (byte
//! offsets, line offsets, and any other metric a caller defines) without
//! re-scanning leaf content. Leaves are gap-buffer chunks: two contiguous
//! byte segments separated by an unused gap.

use vstd::prelude::*;

pub mod count;
pub mod gap_buffer;
pub mod gap_slice;
pub mod iterators;
pub mod metrics;
pub mod node;
pub mod tree;
pub mod tree_slice;
pub mod traits;

verus! {

/// One end of a byte range, resolved by [`range_bounds_to_start_end`].
pub enum RangeBound {
    /// The bound names the first (respectively one-past-the-last) index itself.
    Included(usize),
    /// The bound names the index just before (respectively exactly at) the
    /// first excluded position.
    Excluded(usize),
    /// No bound was given; the enclosing limit applies.
    Unbounded,
}

/// Resolves a pair of optional range bounds against the limits `lo` and `hi`,
/// returning the half-open range `[start, end)` they describe.
pub fn range_bounds_to_start_end(start: RangeBound, end: RangeBound, lo: usize, hi: usize) -> (r: (
    usize,
    usize,
))
    requires
        (start matches RangeBound::Excluded(n) ==> n < usize::MAX),
        (end matches RangeBound::Included(n) ==> n < usize::MAX),
    ensures
        r.0 == match start {
            RangeBound::Included(n) => n as int,
            RangeBound::Excluded(n) => n + 1,
            RangeBound::Unbounded => lo as int,
        },
        r.1 == match end {
            RangeBound::Included(n) => n + 1,
            RangeBound::Excluded(n) => n as int,
            RangeBound::Unbounded => hi as int,
        },
{
    let s: usize = match start {
        RangeBound::Included(n) => n,
        RangeBound::Excluded(n) => n + 1,
        RangeBound::Unbounded => lo,
    };
    let e: usize = match end {
        RangeBound::Included(n) => n + 1,
        RangeBound::Excluded(n) => n,
        RangeBound::Unbounded => hi,
    };
    (s, e)
}

} // verus!
