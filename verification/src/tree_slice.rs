//! Non-owning views over a contiguous span of a tree.
//!
//! A slice never copies the bytes of subtrees it covers whole: those stand
//! in it as reference-counted nodes. Only the two boundary leaves are held
//! as split-off leaf values.

use std::sync::Arc;

use vstd::prelude::*;

use crate::node::{
    arc_clone, lemma_height_nonneg, lemma_node_content_cases, lemma_node_prefix_split,
    lemma_nodes_content_concat, lemma_nodes_content_split, lemma_nodes_models_singleton, node_len,
    nodes_all_wf, nodes_content, nodes_models, Node,
};
use crate::traits::Leaf;
use crate::tree::Tree;

verus! {

/// The shape of a slice's span: nothing, a range within one leaf, or a run
/// of whole shared subtrees between two split boundary leaves.
pub enum SliceSpan<const N: usize, L: Leaf> {
    Empty,
    Single(L),
    Multi { start: (L, L::Summary), internals: Vec<Arc<Node<N, L>>>, end: (L, L::Summary) },
}

/// A view over a contiguous span of a tree snapshot, with the span's
/// aggregate summary.
pub struct TreeSlice<const N: usize, L: Leaf> {
    pub span: SliceSpan<N, L>,
    pub summary: L::Summary,
}

impl<const N: usize, L: Leaf> TreeSlice<N, L> {
    /// The content the span covers.
    pub open spec fn model(&self) -> Seq<L::Item> {
        match self.span {
            SliceSpan::Empty => Seq::empty(),
            SliceSpan::Single(l) => l.model(),
            SliceSpan::Multi { start, internals, end } => start.0.model() + nodes_content(
                internals@,
            ) + end.0.model(),
        }
    }

    /// The models of the span's leaves, in order: the start boundary leaf,
    /// every leaf under the shared internal run, the end boundary leaf.
    pub open spec fn leaf_models(&self) -> Seq<Seq<L::Item>> {
        match self.span {
            SliceSpan::Empty => Seq::empty(),
            SliceSpan::Single(l) => seq![l.model()],
            SliceSpan::Multi { start, internals, end } => seq![start.0.model()] + nodes_models(
                internals@,
            ) + seq![end.0.model()],
        }
    }

    /// Validity: the parts are valid, the cached summaries match the parts,
    /// and the whole summary matches the whole content.
    pub open spec fn wf(&self) -> bool {
        &&& self.summary == L::summary_of(self.model())
        &&& L::fits(self.model())
        &&& match self.span {
            SliceSpan::Empty => true,
            SliceSpan::Single(l) => l.inv(),
            SliceSpan::Multi { start, internals, end } => {
                &&& start.0.inv()
                &&& start.0.model().len() > 0
                &&& start.1 == L::summary_of(start.0.model())
                &&& nodes_all_wf(internals@)
                &&& end.0.inv()
                &&& end.0.model().len() > 0
                &&& end.1 == L::summary_of(end.0.model())
            },
        }
    }

    /// The aggregate summary of the span.
    pub fn summary(&self) -> (r: &L::Summary)
        requires
            self.wf(),
        ensures
            *r == L::summary_of(self.model()),
    {
        &self.summary
    }

    /// An empty view.
    pub fn empty() -> (r: Self)
        ensures
            r.wf(),
            r.model() == Seq::<L::Item>::empty(),
    {
        proof {
            L::lemma_fits_empty();
        }
        TreeSlice { span: SliceSpan::Empty, summary: L::empty_summary() }
    }
}

/// Locates the child of a run whose content contains the item at offset
/// `at`, returning its index and the content length of the children before
/// it.
#[verifier::loop_isolation(false)]
fn locate_start<const N: usize, L: Leaf>(children: &Vec<Arc<Node<N, L>>>, at: usize) -> (r: (
    usize,
    usize,
))
    requires
        nodes_all_wf(children@),
        L::fits(nodes_content(children@)),
        at < nodes_content(children@).len(),
        nodes_content(children@).len() <= usize::MAX,
    ensures
        r.0 < children@.len(),
        r.1 == nodes_content(children@.take(r.0 as int)).len(),
        r.1 <= at < r.1 + (*children@[r.0 as int]).content().len(),
{
    let ghost s = children@;
    let mut k: usize = 0;
    let mut offset: usize = 0;
    proof {
        assert(s.take(0) =~= Seq::<Arc<Node<N, L>>>::empty());
        assert(nodes_content(s.take(0)) =~= Seq::<L::Item>::empty());
    }
    while k < children.len()
        invariant
            k <= s.len(),
            offset == nodes_content(s.take(k as int)).len(),
            offset <= at,
        decreases s.len() - k,
    {
        proof {
            lemma_node_prefix_split(s, k as int);
        }
        let child_len = node_len(&children[k]);
        if at - offset < child_len {
            return (k, offset);
        }
        offset = offset + child_len;
        k += 1;
    }
    proof {
        assert(s.take(s.len() as int) =~= s);
    }
    vstd::pervasive::unreached()
}

/// Locates the child of a run whose content contains the item just before
/// offset `at`, returning its index and the content length of the children
/// before it.
#[verifier::loop_isolation(false)]
fn locate_end<const N: usize, L: Leaf>(children: &Vec<Arc<Node<N, L>>>, at: usize) -> (r: (
    usize,
    usize,
))
    requires
        nodes_all_wf(children@),
        L::fits(nodes_content(children@)),
        0 < at <= nodes_content(children@).len(),
        nodes_content(children@).len() <= usize::MAX,
    ensures
        r.0 < children@.len(),
        r.1 == nodes_content(children@.take(r.0 as int)).len(),
        r.1 < at <= r.1 + (*children@[r.0 as int]).content().len(),
{
    let ghost s = children@;
    let mut k: usize = 0;
    let mut offset: usize = 0;
    proof {
        assert(s.take(0) =~= Seq::<Arc<Node<N, L>>>::empty());
        assert(nodes_content(s.take(0)) =~= Seq::<L::Item>::empty());
    }
    while k < children.len()
        invariant
            k <= s.len(),
            offset == nodes_content(s.take(k as int)).len(),
            offset < at,
        decreases s.len() - k,
    {
        proof {
            lemma_node_prefix_split(s, k as int);
        }
        let child_len = node_len(&children[k]);
        if at - offset <= child_len {
            return (k, offset);
        }
        offset = offset + child_len;
        k += 1;
    }
    proof {
        assert(s.take(s.len() as int) =~= s);
    }
    vstd::pervasive::unreached()
}

/// The suffix of a subtree from offset `from` on: the split-off boundary
/// leaf, its summary, and the whole subtrees after it, shared by reference.
#[verifier::loop_isolation(false)]
fn slice_suffix<const N: usize, L: Leaf>(node: &Arc<Node<N, L>>, from: usize) -> (r: (
    L,
    L::Summary,
    Vec<Arc<Node<N, L>>>,
))
    requires
        (*node).wf(),
        from < (*node).content().len(),
    ensures
        r.0.inv(),
        r.0.model().len() > 0,
        r.1 == L::summary_of(r.0.model()),
        nodes_all_wf(r.2@),
        r.0.model() + nodes_content(r.2@) == (*node).content().skip(from as int),
    decreases (*node).height(),
{
    proof {
        lemma_height_nonneg(&**node);
        lemma_node_content_cases(&**node);
    }
    match &**node {
        Node::Leaf(l) => {
            let part = if from == 0 {
                l.value.duplicate()
            } else {
                let (_, right) = l.value.split_leaf(from);
                right
            };
            proof {
                L::lemma_fits_subrange(
                    l.value.model(),
                    from as int,
                    l.value.model().len() as int,
                );
                assert(part.model() =~= (*node).content().skip(from as int));
            }
            let s = part.summarize();
            let r = (part, s, Vec::new());
            proof {
                assert(r.0.model() + nodes_content(r.2@) =~= r.0.model());
            }
            r
        },
        Node::Internal(inode) => {
            let ghost s = inode.children@;
            let total = node_len(node);
            let (k, offset) = locate_start(&inode.children, from);
            proof {
                lemma_node_prefix_split(s, k as int);
                assert((*s[k as int]).wf());
                assert((*s[k as int]).height() == (*s[0]).height());
                lemma_height_nonneg(&*s[k as int]);
            }
            let (part, psum, mut internals) = slice_suffix(&inode.children[k], from - offset);
            let ghost inner = internals@;
            let mut j = k + 1;
            while j < inode.children.len()
                invariant
                    k < j <= s.len(),
                    internals@ == inner + s.subrange(k + 1, j as int),
                decreases s.len() - j,
            {
                internals.push(arc_clone(&inode.children[j]));
                proof {
                    assert(internals@ =~= inner + s.subrange(k + 1, j + 1));
                }
                j += 1;
            }
            proof {
                let tail = s.subrange(k + 1, s.len() as int);
                assert(s.skip(k as int) =~= seq![s[k as int]] + tail);
                assert(internals@ =~= inner + tail);
                lemma_nodes_content_concat(inner, tail);
                lemma_nodes_content_concat(seq![s[k as int]], tail);
                lemma_nodes_models_singleton(s[k as int]);
                assert(nodes_content(seq![s[k as int]]) == (*s[k as int]).content());
                assert(s =~= s.take(k as int) + s.skip(k as int));
                lemma_nodes_content_concat(s.take(k as int), s.skip(k as int));
                assert((*node).content() =~= nodes_content(s.take(k as int)) + ((
                *s[k as int]).content() + nodes_content(tail)));
                assert((*node).content().skip(from as int) =~= (*s[k as int]).content().skip(
                    (from - offset) as int,
                ) + nodes_content(tail));
                assert(nodes_content(internals@) =~= nodes_content(inner) + nodes_content(tail));
                assert(part.model() + nodes_content(internals@) =~= (*node).content().skip(
                    from as int,
                ));
            }
            (part, psum, internals)
        },
    }
}

/// The prefix of a subtree up to offset `to`: the whole subtrees before the
/// boundary, shared by reference, then the split-off boundary leaf with its
/// summary.
#[verifier::loop_isolation(false)]
fn slice_prefix<const N: usize, L: Leaf>(node: &Arc<Node<N, L>>, to: usize) -> (r: (
    Vec<Arc<Node<N, L>>>,
    L,
    L::Summary,
))
    requires
        (*node).wf(),
        0 < to <= (*node).content().len(),
    ensures
        r.1.inv(),
        r.1.model().len() > 0,
        r.2 == L::summary_of(r.1.model()),
        nodes_all_wf(r.0@),
        nodes_content(r.0@) + r.1.model() == (*node).content().take(to as int),
    decreases (*node).height(),
{
    proof {
        lemma_height_nonneg(&**node);
        lemma_node_content_cases(&**node);
    }
    match &**node {
        Node::Leaf(l) => {
            let llen = L::base_len(&l.summary, Ghost(l.value.model()));
            let part = if to == llen {
                l.value.duplicate()
            } else {
                let (left, _) = l.value.split_leaf(to);
                left
            };
            proof {
                L::lemma_fits_subrange(l.value.model(), 0, to as int);
                assert(part.model() =~= (*node).content().take(to as int));
            }
            let s = part.summarize();
            let r = (Vec::new(), part, s);
            proof {
                assert(nodes_content(r.0@) + r.1.model() =~= r.1.model());
            }
            r
        },
        Node::Internal(inode) => {
            let ghost s = inode.children@;
            let total = node_len(node);
            let (k, offset) = locate_end(&inode.children, to);
            proof {
                lemma_node_prefix_split(s, k as int);
                assert((*s[k as int]).wf());
                assert((*s[k as int]).height() == (*s[0]).height());
                lemma_height_nonneg(&*s[k as int]);
            }
            let (pre, part, psum) = slice_prefix(&inode.children[k], to - offset);
            let mut internals: Vec<Arc<Node<N, L>>> = Vec::new();
            let mut j: usize = 0;
            proof {
                assert(internals@ =~= s.subrange(0, 0));
            }
            while j < k
                invariant
                    j <= k < s.len(),
                    internals@ == s.subrange(0, j as int),
                decreases k - j,
            {
                internals.push(arc_clone(&inode.children[j]));
                proof {
                    assert(internals@ =~= s.subrange(0, j + 1));
                }
                j += 1;
            }
            let ghost mids = internals@;
            let mut i: usize = 0;
            while i < pre.len()
                invariant
                    i <= pre@.len(),
                    internals@ == mids + pre@.take(i as int),
                decreases pre@.len() - i,
            {
                internals.push(arc_clone(&pre[i]));
                proof {
                    assert(internals@ =~= mids + pre@.take(i + 1));
                }
                i += 1;
            }
            proof {
                assert(pre@.take(pre@.len() as int) =~= pre@);
                assert(internals@ =~= s.take(k as int) + pre@);
                lemma_nodes_content_concat(s.take(k as int), pre@);
                assert(nodes_content(internals@) =~= nodes_content(s.take(k as int))
                    + nodes_content(pre@));
                assert(s =~= s.take(k + 1) + s.skip(k + 1));
                lemma_nodes_content_concat(s.take(k + 1), s.skip(k + 1));
                assert((*node).content() =~= (nodes_content(s.take(k as int)) + (
                *s[k as int]).content()) + nodes_content(s.skip(k + 1)));
                assert((*node).content().take(to as int) =~= nodes_content(s.take(k as int)) + (
                *s[k as int]).content().take((to - offset) as int));
                assert(nodes_content(internals@) + part.model() =~= (*node).content().take(
                    to as int,
                ));
            }
            (internals, part, psum)
        },
    }
}

/// Folds the summaries of a run of whole subtrees onto a starting summary
/// of known content.
#[verifier::loop_isolation(false)]
fn sum_run<const N: usize, L: Leaf>(
    start_s: &L::Summary,
    Ghost(acc0): Ghost<Seq<L::Item>>,
    internals: &Vec<Arc<Node<N, L>>>,
) -> (r: L::Summary)
    requires
        *start_s == L::summary_of(acc0),
        nodes_all_wf(internals@),
        L::fits(acc0 + nodes_content(internals@)),
    ensures
        r == L::summary_of(acc0 + nodes_content(internals@)),
{
    let ghost s = internals@;
    let ghost full = acc0 + nodes_content(s);
    let mut acc = *start_s;
    let ghost mut accm = acc0;
    let mut i: usize = 0;
    proof {
        assert(s.take(0) =~= Seq::<Arc<Node<N, L>>>::empty());
        assert(nodes_content(s.take(0)) =~= Seq::<L::Item>::empty());
        assert(accm =~= acc0 + nodes_content(s.take(0)));
        assert(nodes_content(s) =~= full.subrange(acc0.len() as int, full.len() as int));
        L::lemma_fits_subrange(full, acc0.len() as int, full.len() as int);
    }
    while i < internals.len()
        invariant
            i <= s.len(),
            accm == acc0 + nodes_content(s.take(i as int)),
            acc == L::summary_of(accm),
        decreases s.len() - i,
    {
        let ghost child_content = (*s[i as int]).content();
        proof {
            lemma_node_prefix_split(s, i as int);
            assert(s =~= s.take(i + 1) + s.skip(i + 1));
            lemma_nodes_content_concat(s.take(i + 1), s.skip(i + 1));
            assert(accm + child_content =~= acc0 + nodes_content(s.take(i + 1)));
            assert(acc0 + nodes_content(s.take(i + 1)) =~= full.subrange(
                0,
                acc0.len() + nodes_content(s.take(i + 1)).len() as int,
            ));
            L::lemma_fits_subrange(
                full,
                0,
                acc0.len() + nodes_content(s.take(i + 1)).len() as int,
            );
        }
        let child_summary = (*internals[i]).summary();
        proof {
            lemma_node_content_cases(&*s[i as int]);
        }
        acc = L::combine(&acc, child_summary, Ghost(accm), Ghost(child_content));
        proof {
            accm = accm + child_content;
            assert(accm =~= acc0 + nodes_content(s.take(i + 1)));
        }
        i += 1;
    }
    proof {
        assert(s.take(s.len() as int) =~= s);
    }
    acc
}

/// A view over the byte-offset range `[start, end)` of a subtree: the same
/// shared-node assembly as [`Tree::slice`], one node down.
#[verifier::loop_isolation(false)]
pub fn node_slice<const N: usize, L: Leaf>(node: &Arc<Node<N, L>>, start: usize, end: usize) -> (r:
    TreeSlice<N, L>)
    requires
        (*node).wf(),
        start <= end <= (*node).content().len(),
    ensures
        r.wf(),
        r.model() == (*node).content().subrange(start as int, end as int),
    decreases (*node).height(),
{
    proof {
        lemma_height_nonneg(&**node);
        lemma_node_content_cases(&**node);
    }
    if start == end {
        let r = TreeSlice::empty();
        proof {
            assert(r.model() =~= (*node).content().subrange(start as int, end as int));
        }
        return r;
    }
    match &**node {
        Node::Leaf(l) => {
            let llen = L::base_len(&l.summary, Ghost(l.value.model()));
            let left = if end == llen {
                l.value.duplicate()
            } else {
                let (a, _) = l.value.split_leaf(end);
                a
            };
            proof {
                assert(left.model() =~= l.value.model().take(end as int));
                L::lemma_fits_subrange(l.value.model(), 0, end as int);
            }
            let part = if start == 0 {
                left
            } else {
                let (_, b) = left.split_leaf(start);
                b
            };
            proof {
                assert(part.model() =~= (*node).content().subrange(start as int, end as int));
                L::lemma_fits_subrange(l.value.model(), start as int, end as int);
                assert(part.model() =~= l.value.model().subrange(start as int, end as int));
            }
            let summary = part.summarize();
            TreeSlice { span: SliceSpan::Single(part), summary }
        },
        Node::Internal(inode) => {
            let ghost s = inode.children@;
            let total = node_len(node);
            let (k1, off1) = locate_start(&inode.children, start);
            let (k2, off2) = locate_end(&inode.children, end);
            proof {
                lemma_node_prefix_split(s, k1 as int);
                lemma_node_prefix_split(s, k2 as int);
                assert((*s[k1 as int]).wf());
                assert((*s[k2 as int]).wf());
                assert((*s[k1 as int]).height() == (*s[0]).height());
                lemma_height_nonneg(&*s[k1 as int]);
            }
            if k1 == k2 {
                let r = node_slice(&inode.children[k1], start - off1, end - off1);
                proof {
                    assert(s =~= s.take(k1 + 1) + s.skip(k1 + 1));
                    lemma_nodes_content_concat(s.take(k1 + 1), s.skip(k1 + 1));
                    assert((*node).content() =~= (nodes_content(s.take(k1 as int)) + (
                    *s[k1 as int]).content()) + nodes_content(s.skip(k1 + 1)));
                    assert((*s[k1 as int]).content().subrange(
                        start - off1,
                        end - off1,
                    ) =~= (*node).content().subrange(start as int, end as int));
                }
                return r;
            }
            proof {
                if k2 < k1 {
                    lemma_nodes_content_split(s, k2 + 1, k1 as int);
                }
                assert(k1 < k2);
            }
            let (start_leaf, ssum, mut internals) = slice_suffix(
                &inode.children[k1],
                start - off1,
            );
            let ghost inner1 = internals@;
            let mut j = k1 + 1;
            while j < k2
                invariant
                    k1 < j <= k2 <= s.len(),
                    internals@ == inner1 + s.subrange(k1 + 1, j as int),
                decreases k2 - j,
            {
                internals.push(arc_clone(&inode.children[j]));
                proof {
                    assert(internals@ =~= inner1 + s.subrange(k1 + 1, j + 1));
                }
                j += 1;
            }
            proof {
                assert((*s[k2 as int]).height() == (*s[0]).height());
                lemma_height_nonneg(&*s[k2 as int]);
            }
            let (pre, end_leaf, esum) = slice_prefix(&inode.children[k2], end - off2);
            let ghost mids = internals@;
            let mut i: usize = 0;
            while i < pre.len()
                invariant
                    i <= pre@.len(),
                    internals@ == mids + pre@.take(i as int),
                decreases pre@.len() - i,
            {
                internals.push(arc_clone(&pre[i]));
                proof {
                    assert(internals@ =~= mids + pre@.take(i + 1));
                }
                i += 1;
            }
            let ghost mid_nodes = s.subrange(k1 + 1, k2 as int);
            proof {
                assert(pre@.take(pre@.len() as int) =~= pre@);
                assert(internals@ =~= (inner1 + mid_nodes) + pre@);
                lemma_nodes_content_concat(inner1, mid_nodes);
                lemma_nodes_content_concat(inner1 + mid_nodes, pre@);
                // decompose the node's content around the two boundary children
                lemma_nodes_content_split(s, k1 + 1, k2 as int);
                assert(s =~= s.take(k2 + 1) + s.skip(k2 + 1));
                lemma_nodes_content_concat(s.take(k2 + 1), s.skip(k2 + 1));
                assert((*node).content() =~= nodes_content(s.take(k1 as int)) + (
                *s[k1 as int]).content() + nodes_content(mid_nodes) + (*s[k2 as int]).content()
                    + nodes_content(s.skip(k2 + 1)));
                assert(off2 == off1 + (*s[k1 as int]).content().len() + nodes_content(
                    mid_nodes,
                ).len());
                // the slice's parts line up with the content subrange
                assert(start_leaf.model() + nodes_content(internals@) + end_leaf.model() =~= (
                *s[k1 as int]).content().skip((start - off1) as int) + nodes_content(mid_nodes)
                    + (*s[k2 as int]).content().take((end - off2) as int));
                assert((*node).content().subrange(start as int, end as int) =~= (
                *s[k1 as int]).content().skip((start - off1) as int) + nodes_content(mid_nodes)
                    + (*s[k2 as int]).content().take((end - off2) as int));
                L::lemma_fits_subrange((*node).content(), start as int, end as int);
                assert(start_leaf.model() + nodes_content(internals@) =~= (
                *node).content().subrange(start as int, end as int).take(
                    start_leaf.model().len() + nodes_content(internals@).len() as int,
                ));
                L::lemma_fits_subrange(
                    (*node).content().subrange(start as int, end as int),
                    0,
                    start_leaf.model().len() + nodes_content(internals@).len() as int,
                );
            }
            let mid_sum = sum_run(&ssum, Ghost(start_leaf.model()), &internals);
            let summary = L::combine(
                &mid_sum,
                &esum,
                Ghost(start_leaf.model() + nodes_content(internals@)),
                Ghost(end_leaf.model()),
            );
            let r = TreeSlice {
                span: SliceSpan::Multi {
                    start: (start_leaf, ssum),
                    internals,
                    end: (end_leaf, esum),
                },
                summary,
            };
            proof {
                assert(r.model() =~= (*node).content().subrange(start as int, end as int));
            }
            r
        },
    }
}

/// Re-slicing is idempotent: any valid slice whose content is the full
/// range of another valid slice's content equals it — same content and the
/// very same summary — because a valid slice's summary is determined by its
/// content alone.
pub proof fn lemma_full_range_reslice_is_equal<const N: usize, L: Leaf>(
    outer: &TreeSlice<N, L>,
    inner: &TreeSlice<N, L>,
)
    requires
        outer.wf(),
        inner.wf(),
        inner.model() == outer.model().subrange(0, outer.model().len() as int),
    ensures
        inner.model() == outer.model(),
        inner.summary == outer.summary,
{
    assert(outer.model().subrange(0, outer.model().len() as int) =~= outer.model());
}

impl<const N: usize, L: Leaf> Tree<N, L> {
    /// A view over the range `[start, end)` of the tree's content, measured
    /// in base items. Whole subtrees inside the range are shared by
    /// reference; only the two boundary leaves are split. Callers slicing
    /// text keep both offsets on code-point boundaries.
    pub fn slice(&self, start: usize, end: usize) -> (r: TreeSlice<N, L>)
        requires
            self.wf(),
            start <= end <= self.content().len(),
        ensures
            r.wf(),
            r.model() == self.content().subrange(start as int, end as int),
    {
        node_slice(&self.root, start, end)
    }
}

/// The part of a leaf value from `from` on, with its summary.
fn leaf_suffix<L: Leaf>(l: &L, from: usize) -> (r: (L, L::Summary))
    requires
        l.inv(),
        L::fits(l.model()),
        from < l.model().len(),
    ensures
        r.0.inv(),
        r.0.model() == l.model().skip(from as int),
        r.0.model().len() > 0,
        r.1 == L::summary_of(r.0.model()),
{
    let part = if from == 0 {
        l.duplicate()
    } else {
        let (_, right) = l.split_leaf(from);
        right
    };
    proof {
        assert(part.model() =~= l.model().skip(from as int));
        assert(part.model() =~= l.model().subrange(from as int, l.model().len() as int));
        L::lemma_fits_subrange(l.model(), from as int, l.model().len() as int);
    }
    let s = part.summarize();
    (part, s)
}

/// The part of a leaf value up to `to`, with its summary.
fn leaf_prefix<L: Leaf>(l: &L, llen: usize, to: usize) -> (r: (L, L::Summary))
    requires
        l.inv(),
        L::fits(l.model()),
        llen == l.model().len(),
        0 < to <= llen,
    ensures
        r.0.inv(),
        r.0.model() == l.model().take(to as int),
        r.0.model().len() > 0,
        r.1 == L::summary_of(r.0.model()),
{
    let part = if to == llen {
        l.duplicate()
    } else {
        let (left, _) = l.split_leaf(to);
        left
    };
    proof {
        assert(part.model() =~= l.model().take(to as int));
        assert(part.model() =~= l.model().subrange(0, to as int));
        L::lemma_fits_subrange(l.model(), 0, to as int);
    }
    let s = part.summarize();
    (part, s)
}

/// The part of a leaf value inside `[a, b)`, with its summary.
fn leaf_range<L: Leaf>(l: &L, llen: usize, a: usize, b: usize) -> (r: (L, L::Summary))
    requires
        l.inv(),
        L::fits(l.model()),
        llen == l.model().len(),
        a < b <= llen,
    ensures
        r.0.inv(),
        r.0.model() == l.model().subrange(a as int, b as int),
        r.0.model().len() > 0,
        r.1 == L::summary_of(r.0.model()),
{
    let (left, _) = leaf_prefix(l, llen, b);
    proof {
        assert(left.model() =~= l.model().subrange(0, b as int));
        L::lemma_fits_subrange(l.model(), 0, b as int);
    }
    let r = leaf_suffix(&left, a);
    proof {
        assert(r.0.model() =~= l.model().subrange(a as int, b as int));
    }
    r
}

/// Like [`slice_suffix`], but over a root-level run of whole subtrees.
#[verifier::loop_isolation(false)]
fn run_suffix<const N: usize, L: Leaf>(children: &Vec<Arc<Node<N, L>>>, from: usize) -> (r: (
    L,
    L::Summary,
    Vec<Arc<Node<N, L>>>,
))
    requires
        nodes_all_wf(children@),
        L::fits(nodes_content(children@)),
        from < nodes_content(children@).len(),
        nodes_content(children@).len() <= usize::MAX,
    ensures
        r.0.inv(),
        r.0.model().len() > 0,
        r.1 == L::summary_of(r.0.model()),
        nodes_all_wf(r.2@),
        r.0.model() + nodes_content(r.2@) == nodes_content(children@).skip(from as int),
{
    let ghost s = children@;
    let (k, offset) = locate_start(children, from);
    proof {
        lemma_node_prefix_split(s, k as int);
        assert((*s[k as int]).wf());
    }
    let (part, psum, mut internals) = slice_suffix(&children[k], from - offset);
    let ghost inner = internals@;
    let n = children.len();
    let mut j = k + 1;
    while j < n
        invariant
            n == s.len(),
            k < j <= s.len(),
            internals@ == inner + s.subrange(k + 1, j as int),
        decreases s.len() - j,
    {
        internals.push(arc_clone(&children[j]));
        proof {
            assert(internals@ =~= inner + s.subrange(k + 1, j + 1));
        }
        j += 1;
    }
    proof {
        let tail = s.subrange(k + 1, s.len() as int);
        assert(s.skip(k as int) =~= seq![s[k as int]] + tail);
        assert(internals@ =~= inner + tail);
        lemma_nodes_content_concat(inner, tail);
        lemma_nodes_content_concat(seq![s[k as int]], tail);
        lemma_nodes_models_singleton(s[k as int]);
        assert(nodes_content(seq![s[k as int]]) == (*s[k as int]).content());
        assert(s =~= s.take(k as int) + s.skip(k as int));
        lemma_nodes_content_concat(s.take(k as int), s.skip(k as int));
        assert(nodes_content(s) =~= nodes_content(s.take(k as int)) + ((*s[k as int]).content()
            + nodes_content(tail)));
        assert(nodes_content(s).skip(from as int) =~= (*s[k as int]).content().skip(
            (from - offset) as int,
        ) + nodes_content(tail));
        assert(nodes_content(internals@) =~= nodes_content(inner) + nodes_content(tail));
        assert(part.model() + nodes_content(internals@) =~= nodes_content(s).skip(from as int));
    }
    (part, psum, internals)
}

/// Like [`slice_prefix`], but over a root-level run of whole subtrees.
#[verifier::loop_isolation(false)]
fn run_prefix<const N: usize, L: Leaf>(children: &Vec<Arc<Node<N, L>>>, to: usize) -> (r: (
    Vec<Arc<Node<N, L>>>,
    L,
    L::Summary,
))
    requires
        nodes_all_wf(children@),
        L::fits(nodes_content(children@)),
        0 < to <= nodes_content(children@).len(),
        nodes_content(children@).len() <= usize::MAX,
    ensures
        r.1.inv(),
        r.1.model().len() > 0,
        r.2 == L::summary_of(r.1.model()),
        nodes_all_wf(r.0@),
        nodes_content(r.0@) + r.1.model() == nodes_content(children@).take(to as int),
{
    let ghost s = children@;
    let (k, offset) = locate_end(children, to);
    proof {
        lemma_node_prefix_split(s, k as int);
        assert((*s[k as int]).wf());
    }
    let (pre, part, psum) = slice_prefix(&children[k], to - offset);
    let mut internals: Vec<Arc<Node<N, L>>> = Vec::new();
    let mut j: usize = 0;
    proof {
        assert(internals@ =~= s.subrange(0, 0));
    }
    while j < k
        invariant
            j <= k < s.len(),
            internals@ == s.subrange(0, j as int),
        decreases k - j,
    {
        internals.push(arc_clone(&children[j]));
        proof {
            assert(internals@ =~= s.subrange(0, j + 1));
        }
        j += 1;
    }
    let ghost mids = internals@;
    let mut i: usize = 0;
    while i < pre.len()
        invariant
            i <= pre@.len(),
            internals@ == mids + pre@.take(i as int),
        decreases pre@.len() - i,
    {
        internals.push(arc_clone(&pre[i]));
        proof {
            assert(internals@ =~= mids + pre@.take(i + 1));
        }
        i += 1;
    }
    proof {
        assert(pre@.take(pre@.len() as int) =~= pre@);
        assert(internals@ =~= s.take(k as int) + pre@);
        lemma_nodes_content_concat(s.take(k as int), pre@);
        assert(nodes_content(internals@) =~= nodes_content(s.take(k as int)) + nodes_content(
            pre@,
        ));
        assert(s =~= s.take(k + 1) + s.skip(k + 1));
        lemma_nodes_content_concat(s.take(k + 1), s.skip(k + 1));
        assert(nodes_content(s) =~= (nodes_content(s.take(k as int)) + (
        *s[k as int]).content()) + nodes_content(s.skip(k + 1)));
        assert(nodes_content(s).take(to as int) =~= nodes_content(s.take(k as int)) + (
        *s[k as int]).content().take((to - offset) as int));
        assert(nodes_content(internals@) + part.model() =~= nodes_content(s).take(to as int));
    }
    (internals, part, psum)
}

/// Assembles a multi-span slice from its parts, folding its summary.
fn assemble_multi<const N: usize, L: Leaf>(
    start_leaf: L,
    start_summary: L::Summary,
    internals: Vec<Arc<Node<N, L>>>,
    end_leaf: L,
    end_summary: L::Summary,
) -> (r: TreeSlice<N, L>)
    requires
        start_leaf.inv(),
        start_leaf.model().len() > 0,
        start_summary == L::summary_of(start_leaf.model()),
        nodes_all_wf(internals@),
        end_leaf.inv(),
        end_leaf.model().len() > 0,
        end_summary == L::summary_of(end_leaf.model()),
        L::fits(start_leaf.model() + nodes_content(internals@) + end_leaf.model()),
    ensures
        r.wf(),
        r.model() == start_leaf.model() + nodes_content(internals@) + end_leaf.model(),
{
    let ghost whole = start_leaf.model() + nodes_content(internals@) + end_leaf.model();
    proof {
        assert(start_leaf.model() + nodes_content(internals@) =~= whole.subrange(
            0,
            start_leaf.model().len() + nodes_content(internals@).len() as int,
        ));
        L::lemma_fits_subrange(
            whole,
            0,
            start_leaf.model().len() + nodes_content(internals@).len() as int,
        );
    }
    let mid = sum_run(&start_summary, Ghost(start_leaf.model()), &internals);
    let summary = L::combine(
        &mid,
        &end_summary,
        Ghost(start_leaf.model() + nodes_content(internals@)),
        Ghost(end_leaf.model()),
    );
    TreeSlice {
        span: SliceSpan::Multi {
            start: (start_leaf, start_summary),
            internals,
            end: (end_leaf, end_summary),
        },
        summary,
    }
}

/// A view over the range `[start, end)` of a root-level run of whole
/// subtrees: the same assembly as slicing below a single node.
#[verifier::loop_isolation(false)]
fn run_range<const N: usize, L: Leaf>(children: &Vec<Arc<Node<N, L>>>, start: usize, end: usize) -> (r:
    TreeSlice<N, L>)
    requires
        nodes_all_wf(children@),
        L::fits(nodes_content(children@)),
        start < end <= nodes_content(children@).len(),
        nodes_content(children@).len() <= usize::MAX,
    ensures
        r.wf(),
        r.model() == nodes_content(children@).subrange(start as int, end as int),
{
    let ghost s = children@;
    let ghost whole = nodes_content(s);
    let (k1, off1) = locate_start(children, start);
    let (k2, off2) = locate_end(children, end);
    proof {
        lemma_node_prefix_split(s, k1 as int);
        lemma_node_prefix_split(s, k2 as int);
        assert((*s[k1 as int]).wf());
        assert((*s[k2 as int]).wf());
    }
    if k1 == k2 {
        let r = node_slice(&children[k1], start - off1, end - off1);
        proof {
            assert(s =~= s.take(k1 + 1) + s.skip(k1 + 1));
            lemma_nodes_content_concat(s.take(k1 + 1), s.skip(k1 + 1));
            assert(whole =~= (nodes_content(s.take(k1 as int)) + (*s[k1 as int]).content())
                + nodes_content(s.skip(k1 + 1)));
            assert((*s[k1 as int]).content().subrange(start - off1, end - off1)
                =~= whole.subrange(start as int, end as int));
        }
        return r;
    }
    proof {
        if k2 < k1 {
            lemma_nodes_content_split(s, k2 + 1, k1 as int);
        }
        assert(k1 < k2);
    }
    let (start_leaf, ssum, mut internals) = slice_suffix(&children[k1], start - off1);
    let ghost inner1 = internals@;
    let mut j = k1 + 1;
    while j < k2
        invariant
            k1 < j <= k2 <= s.len(),
            internals@ == inner1 + s.subrange(k1 + 1, j as int),
        decreases k2 - j,
    {
        internals.push(arc_clone(&children[j]));
        proof {
            assert(internals@ =~= inner1 + s.subrange(k1 + 1, j + 1));
        }
        j += 1;
    }
    let (pre, end_leaf, esum) = slice_prefix(&children[k2], end - off2);
    let ghost mids = internals@;
    let mut i: usize = 0;
    while i < pre.len()
        invariant
            i <= pre@.len(),
            internals@ == mids + pre@.take(i as int),
        decreases pre@.len() - i,
    {
        internals.push(arc_clone(&pre[i]));
        proof {
            assert(internals@ =~= mids + pre@.take(i + 1));
        }
        i += 1;
    }
    let ghost mid_nodes = s.subrange(k1 + 1, k2 as int);
    proof {
        assert(pre@.take(pre@.len() as int) =~= pre@);
        assert(internals@ =~= (inner1 + mid_nodes) + pre@);
        lemma_nodes_content_concat(inner1, mid_nodes);
        lemma_nodes_content_concat(inner1 + mid_nodes, pre@);
        lemma_nodes_content_split(s, k1 + 1, k2 as int);
        assert(s =~= s.take(k2 + 1) + s.skip(k2 + 1));
        lemma_nodes_content_concat(s.take(k2 + 1), s.skip(k2 + 1));
        assert(whole =~= nodes_content(s.take(k1 as int)) + (*s[k1 as int]).content()
            + nodes_content(mid_nodes) + (*s[k2 as int]).content() + nodes_content(
            s.skip(k2 + 1),
        ));
        assert(off2 == off1 + (*s[k1 as int]).content().len() + nodes_content(mid_nodes).len());
        assert(start_leaf.model() + nodes_content(internals@) + end_leaf.model() =~= (
        *s[k1 as int]).content().skip((start - off1) as int) + nodes_content(mid_nodes) + (
        *s[k2 as int]).content().take((end - off2) as int));
        assert(whole.subrange(start as int, end as int) =~= (*s[k1 as int]).content().skip(
            (start - off1) as int,
        ) + nodes_content(mid_nodes) + (*s[k2 as int]).content().take((end - off2) as int));
        L::lemma_fits_subrange(whole, start as int, end as int);
        assert(L::fits(start_leaf.model() + nodes_content(internals@) + end_leaf.model()));
    }
    let r = assemble_multi(start_leaf, ssum, internals, end_leaf, esum);
    proof {
        assert(r.model() =~= whole.subrange(start as int, end as int));
    }
    r
}

impl<const N: usize, L: Leaf> TreeSlice<N, L> {
    /// A view over the range `[start, end)` of this slice's content: the
    /// same boundary-splitting, shared-subtree assembly as slicing a whole
    /// tree. In particular, slicing an already-produced slice by its full
    /// range yields an equal slice: same content, same summary.
    pub fn slice(&self, start: usize, end: usize) -> (r: TreeSlice<N, L>)
        requires
            self.wf(),
            start <= end <= self.model().len(),
        ensures
            r.wf(),
            r.model() == self.model().subrange(start as int, end as int),
    {
        proof {
            L::lemma_fits_empty();
            L::lemma_fits_subrange(self.model(), start as int, end as int);
        }
        if start == end {
            let r = TreeSlice::empty();
            proof {
                assert(r.model() =~= self.model().subrange(start as int, end as int));
            }
            return r;
        }
        let total = L::base_len(&self.summary, Ghost(self.model()));
        match &self.span {
            SliceSpan::Empty => vstd::pervasive::unreached(),
            SliceSpan::Single(l) => {
                let (part, psum) = leaf_range(l, total, start, end);
                TreeSlice { span: SliceSpan::Single(part), summary: psum }
            },
            SliceSpan::Multi { start: sp, internals, end: ep } => {
                let ghost a_seq = sp.0.model();
                let ghost b_seq = nodes_content(internals@);
                let ghost c_seq = ep.0.model();
                proof {
                    assert(self.model() =~= a_seq + b_seq + c_seq);
                    assert(a_seq =~= self.model().subrange(0, a_seq.len() as int));
                    L::lemma_fits_subrange(self.model(), 0, a_seq.len() as int);
                    assert(b_seq =~= self.model().subrange(
                        a_seq.len() as int,
                        a_seq.len() + b_seq.len() as int,
                    ));
                    L::lemma_fits_subrange(
                        self.model(),
                        a_seq.len() as int,
                        a_seq.len() + b_seq.len() as int,
                    );
                    assert(c_seq =~= self.model().subrange(
                        a_seq.len() + b_seq.len() as int,
                        self.model().len() as int,
                    ));
                    L::lemma_fits_subrange(
                        self.model(),
                        a_seq.len() + b_seq.len() as int,
                        self.model().len() as int,
                    );
                }
                let len_a = L::base_len(&sp.1, Ghost(a_seq));
                let len_c = L::base_len(&ep.1, Ghost(c_seq));
                let len_b = total - len_a - len_c;
                if end <= len_a {
                    let (part, psum) = leaf_range(&sp.0, len_a, start, end);
                    proof {
                        assert(part.model() =~= self.model().subrange(start as int, end as int));
                    }
                    TreeSlice { span: SliceSpan::Single(part), summary: psum }
                } else if start >= len_a + len_b {
                    let base = len_a + len_b;
                    let (part, psum) = leaf_range(&ep.0, len_c, start - base, end - base);
                    proof {
                        assert(part.model() =~= self.model().subrange(start as int, end as int));
                    }
                    TreeSlice { span: SliceSpan::Single(part), summary: psum }
                } else if start >= len_a && end <= len_a + len_b {
                    let r = run_range(internals, start - len_a, end - len_a);
                    proof {
                        assert(b_seq.subrange(start - len_a, end - len_a) =~= self.model().subrange(
                            start as int,
                            end as int,
                        ));
                    }
                    r
                } else if start < len_a && end <= len_a + len_b {
                    let (sl, ssum) = leaf_suffix(&sp.0, start);
                    let (pre, el, esum) = run_prefix(internals, end - len_a);
                    proof {
                        assert(sl.model() + nodes_content(pre@) + el.model() =~= a_seq.skip(
                            start as int,
                        ) + b_seq.take((end - len_a) as int));
                        assert(a_seq.skip(start as int) + b_seq.take((end - len_a) as int)
                            =~= self.model().subrange(start as int, end as int));
                        assert(sl.model() + nodes_content(pre@) + el.model() =~= self.model().subrange(
                            start as int,
                            end as int,
                        ));
                    }
                    let r = assemble_multi(sl, ssum, pre, el, esum);
                    proof {
                        assert(r.model() =~= self.model().subrange(start as int, end as int));
                    }
                    r
                } else if start < len_a {
                    let (sl, ssum) = leaf_suffix(&sp.0, start);
                    let ints = crate::node::clone_nodes(internals);
                    let (el, esum) = leaf_prefix(&ep.0, len_c, end - (len_a + len_b));
                    proof {
                        assert(sl.model() + nodes_content(ints@) + el.model() =~= self.model().subrange(
                            start as int,
                            end as int,
                        ));
                    }
                    let r = assemble_multi(sl, ssum, ints, el, esum);
                    proof {
                        assert(r.model() =~= self.model().subrange(start as int, end as int));
                    }
                    r
                } else {
                    let (sl, ssum, ints) = run_suffix(internals, start - len_a);
                    let (el, esum) = leaf_prefix(&ep.0, len_c, end - (len_a + len_b));
                    proof {
                        assert(sl.model() + nodes_content(ints@) + el.model() =~= self.model().subrange(
                            start as int,
                            end as int,
                        ));
                    }
                    let r = assemble_multi(sl, ssum, ints, el, esum);
                    proof {
                        assert(r.model() =~= self.model().subrange(start as int, end as int));
                    }
                    r
                }
            },
        }
    }
}

} // verus!
