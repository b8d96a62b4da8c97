//! The built-in metrics: base items and line breaks.

use vstd::prelude::*;

use crate::gap_slice::{
    count_breaks, lemma_count_breaks_concat, lemma_count_breaks_le_len, lemma_count_breaks_push,
    nl, ChunkSummary, GapSlice,
};
use crate::traits::{Leaf, Metric};

verus! {

/// Counts one unit per item: byte offsets, for text chunks.
pub struct ByteMetric;

impl<L: Leaf> Metric<L> for ByteMetric {
    open spec fn spec_measure(m: Seq<L::Item>) -> int {
        m.len() as int
    }

    proof fn lemma_measure_concat(a: Seq<L::Item>, b: Seq<L::Item>) {
    }

    proof fn lemma_measure_bounds(m: Seq<L::Item>) {
    }

    fn measure(s: &L::Summary, Ghost(m): Ghost<Seq<L::Item>>) -> (r: usize) {
        L::base_len(s, Ghost(m))
    }

    fn split_one(leaf: &L, s: &L::Summary) -> (r: (L, L::Summary, Option<(L, L::Summary)>)) {
        let len = L::base_len(s, Ghost(leaf.model()));
        if len == 1 {
            let left = leaf.duplicate();
            let left_s = left.summarize();
            proof {
                assert(leaf.model().drop_last() =~= Seq::<L::Item>::empty());
            }
            (left, left_s, None)
        } else {
            let (left, right) = leaf.split_leaf(1);
            proof {
                L::lemma_fits_subrange(leaf.model(), 0, 1);
                L::lemma_fits_subrange(leaf.model(), 1, leaf.model().len() as int);
                assert(left.model() + right.model() =~= leaf.model());
                assert(left.model().drop_last() =~= Seq::<L::Item>::empty());
            }
            let left_s = left.summarize();
            let right_s = right.summarize();
            (left, left_s, Some((right, right_s)))
        }
    }
}

/// Counts one unit per line break.
pub struct LineMetric;

impl Metric<GapSlice> for LineMetric {
    open spec fn spec_measure(m: Seq<u8>) -> int {
        count_breaks(m)
    }

    proof fn lemma_measure_concat(a: Seq<u8>, b: Seq<u8>) {
        lemma_count_breaks_concat(a, b);
    }

    proof fn lemma_measure_bounds(m: Seq<u8>) {
        lemma_count_breaks_le_len(m);
    }

    fn measure(s: &ChunkSummary, Ghost(m): Ghost<Seq<u8>>) -> (r: usize) {
        proof {
            lemma_count_breaks_le_len(m);
        }
        s.line_breaks
    }

    fn split_one(leaf: &GapSlice, s: &ChunkSummary) -> (r: (
        GapSlice,
        ChunkSummary,
        Option<(GapSlice, ChunkSummary)>,
    )) {
        let ghost m = Leaf::model(leaf);
        proof {
            lemma_count_breaks_le_len(m);
            assert(m.take(0) =~= Seq::<u8>::empty());
        }
        let len = leaf.len();
        let mut i: usize = 0;
        while leaf.byte(i) != 10
            invariant
                leaf.wf(),
                m == Leaf::model(leaf),
                count_breaks(m) >= 1,
                0 <= i < len,
                len == m.len(),
                count_breaks(m.take(i as int)) == 0,
            decreases len - i,
        {
            proof {
                lemma_count_breaks_push(m.take(i as int), m[i as int]);
                assert(m.take(i + 1) =~= m.take(i as int).push(m[i as int]));
                if i + 1 == len {
                    assert(m.take(i + 1) =~= m);
                }
            }
            i += 1;
        }
        proof {
            lemma_count_breaks_push(m.take(i as int), m[i as int]);
            assert(m.take(i + 1) =~= m.take(i as int).push(m[i as int]));
            assert(count_breaks(m.take(i + 1)) == 1);
            assert(m.take(i + 1).drop_last() =~= m.take(i as int));
        }
        let (left, right) = leaf.split_at_offset(i + 1);
        let left_s = left.summarize();
        if i + 1 == len {
            proof {
                assert(left.model() =~= m);
            }
            (left, left_s, None)
        } else {
            let right_s = right.summarize();
            proof {
                assert(left.model() + right.model() =~= m);
            }
            (left, left_s, Some((right, right_s)))
        }
    }
}

} // verus!
