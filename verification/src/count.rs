//! The simplest possible leaf: a single value counted as one item.
//!
//! Trees over such leaves exercise the balancing and traversal machinery
//! without any text attached: the content of a tree over `usize` leaves is
//! the sequence of the stored values themselves.

use vstd::prelude::*;

use crate::traits::Leaf;

verus! {

/// The summary of a run of counted items: how many there are.
#[derive(Clone, Copy, PartialEq, Eq, Structural, Debug)]
pub struct CountSummary {
    pub count: usize,
}

impl Leaf for usize {
    type Item = usize;

    type Summary = CountSummary;

    open spec fn inv(&self) -> bool {
        true
    }

    open spec fn model(&self) -> Seq<usize> {
        seq![*self]
    }

    open spec fn summary_of(m: Seq<usize>) -> CountSummary {
        CountSummary { count: m.len() as usize }
    }

    open spec fn fits(m: Seq<usize>) -> bool {
        m.len() <= usize::MAX
    }

    open spec fn add_summary(a: CountSummary, b: CountSummary) -> CountSummary {
        CountSummary { count: (a.count + b.count) as usize }
    }

    proof fn lemma_fits_empty() {
    }

    proof fn lemma_fits_subrange(m: Seq<usize>, i: int, j: int) {
    }

    proof fn lemma_add_summary(a: Seq<usize>, b: Seq<usize>) {
    }

    fn summarize(&self) -> (s: CountSummary) {
        CountSummary { count: 1 }
    }

    fn combine(
        s1: &CountSummary,
        s2: &CountSummary,
        Ghost(a): Ghost<Seq<usize>>,
        Ghost(b): Ghost<Seq<usize>>,
    ) -> (s: CountSummary) {
        CountSummary { count: s1.count + s2.count }
    }

    fn empty_summary() -> (s: CountSummary) {
        CountSummary { count: 0 }
    }

    fn base_len(s: &CountSummary, Ghost(m): Ghost<Seq<usize>>) -> (r: usize) {
        s.count
    }

    fn duplicate(&self) -> (r: usize) {
        *self
    }

    fn split_leaf(&self, at: usize) -> (r: (usize, usize)) {
        vstd::pervasive::unreached()
    }
}

} // verus!
