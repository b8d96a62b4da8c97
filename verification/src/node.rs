//! Tree nodes: leaves carrying one value, internal nodes carrying children.
//!
//! Nodes are shared by reference counting: a subtree may belong to several
//! snapshots at once and is never mutated after publication, only replaced.
//! Every node caches the summary of its subtree; well-formedness ties that
//! cache to the content below it and keeps all leaves at the same depth.

use std::sync::Arc;

use vstd::prelude::*;
use vstd::seq_lib::lemma_flatten_concat;

use crate::traits::Leaf;

verus! {

/// Relies on std's `Arc::clone`: the returned handle refers to the same
/// allocation, so it carries the very same value.
#[verifier::external_body]
pub(crate) fn arc_clone<T>(a: &Arc<T>) -> (r: Arc<T>)
    ensures
        r == *a,
{
    Arc::clone(a)
}

/// A leaf node: one leaf value with its precomputed summary.
pub struct Lnode<L: Leaf> {
    pub value: L,
    pub summary: L::Summary,
}

/// An internal node: an ordered, non-empty run of children with the
/// precomputed summary of everything below them.
pub struct Inode<const N: usize, L: Leaf> {
    pub children: Vec<Arc<Node<N, L>>>,
    pub summary: L::Summary,
}

/// A tree node; the fanout `N` bounds how many children an internal node
/// may hold.
pub enum Node<const N: usize, L: Leaf> {
    Internal(Inode<N, L>),
    Leaf(Lnode<L>),
}

impl<const N: usize, L: Leaf> Node<N, L> {
    /// The models of this subtree's leaves, in order.
    pub open spec fn leaf_models(&self) -> Seq<Seq<L::Item>>
        decreases self,
    {
        match self {
            Node::Leaf(l) => seq![l.value.model()],
            Node::Internal(i) => nodes_models(i.children@),
        }
    }

    /// The content of this subtree: its leaves' models concatenated.
    pub open spec fn content(&self) -> Seq<L::Item> {
        self.leaf_models().flatten()
    }

    /// Leaves have height zero; an internal node stands one level above its
    /// first child.
    pub open spec fn height(&self) -> int
        decreases self,
    {
        match self {
            Node::Leaf(_) => 0,
            Node::Internal(i) => {
                if i.children@.len() == 0 {
                    1
                } else {
                    1 + (*i.children@[0]).height()
                }
            },
        }
    }

    /// Well-formedness: summaries match the content below, fanout stays
    /// within bounds, and all children of a node have equal height, so all
    /// leaves of a well-formed tree are equidistant from its root.
    pub open spec fn wf(&self) -> bool
        decreases self,
    {
        match self {
            Node::Leaf(l) => l.value.inv() && L::fits(l.value.model())
                && l.value.model().len() > 0 && l.summary == L::summary_of(l.value.model()),
            Node::Internal(i) => {
                &&& 1 <= i.children@.len() <= N
                &&& forall|k: int|
                    0 <= k < i.children@.len() ==> (#[trigger] (*i.children@[k])).wf()
                &&& forall|k: int|
                    0 <= k < i.children@.len() ==> (#[trigger] (*i.children@[k])).height() == (
                    *i.children@[0]).height()
                &&& L::fits(nodes_content(i.children@))
                &&& i.summary == L::summary_of(nodes_content(i.children@))
            },
        }
    }

    /// The cached summary of this subtree.
    pub fn summary(&self) -> (r: &L::Summary)
        requires
            self.wf(),
        ensures
            *r == L::summary_of(self.content()),
    {
        proof {
            lemma_node_content_cases(self);
        }
        match self {
            Node::Leaf(l) => &l.summary,
            Node::Internal(i) => &i.summary,
        }
    }

    /// Builds a leaf node over one value.
    pub fn leaf(value: L) -> (r: Self)
        requires
            value.inv(),
            L::fits(value.model()),
            value.model().len() > 0,
        ensures
            r.wf(),
            r.height() == 0,
            r.leaf_models() == seq![value.model()],
            r.content() == value.model(),
            r matches Node::Leaf(l) && l.value == value,
    {
        let summary = value.summarize();
        let r = Node::Leaf(Lnode { value, summary });
        proof {
            lemma_node_content_cases(&r);
        }
        r
    }
}

impl<const N: usize, L: Leaf> Node<N, L> {
    /// Builds an internal node over a run of equal-height children, folding
    /// their cached summaries into the new node's cache.
    pub fn internal(children: Vec<Arc<Node<N, L>>>, Ghost(h): Ghost<int>) -> (r: Self)
        requires
            1 <= children@.len() <= N,
            nodes_wf(children@, h),
            L::fits(nodes_content(children@)),
        ensures
            r.wf(),
            r.height() == h + 1,
            r.leaf_models() == nodes_models(children@),
            r.content() == nodes_content(children@),
    {
        let ghost s = children@;
        let mut summary = L::empty_summary();
        let ghost mut acc: Seq<L::Item> = Seq::<L::Item>::empty();
        proof {
            assert(s.take(0) =~= Seq::<Arc<Node<N, L>>>::empty());
            assert(nodes_content(s.take(0)) =~= Seq::<L::Item>::empty());
        }
        let mut i: usize = 0;
        while i < children.len()
            invariant
                0 <= i <= s.len() <= N,
                s == children@,
                nodes_wf(s, h),
                L::fits(nodes_content(s)),
                acc == nodes_content(s.take(i as int)),
                summary == L::summary_of(acc),
            decreases s.len() - i,
        {
            let ghost child_content = (*s[i as int]).content();
            proof {
                lemma_node_prefix_split(s, i as int);
            }
            let child_summary = children[i].summary();
            summary = L::combine(&summary, child_summary, Ghost(acc), Ghost(child_content));
            proof {
                acc = acc + child_content;
            }
            i += 1;
        }
        proof {
            assert(s.take(s.len() as int) =~= s);
        }
        let r = Node::Internal(Inode { children, summary });
        proof {
            lemma_node_content_cases(&r);
        }
        r
    }
}

/// Extending a prefix of a run by one subtree extends its content by that
/// subtree's, and the extended content still fits.
pub proof fn lemma_node_prefix_split<const N: usize, L: Leaf>(s: Seq<Arc<Node<N, L>>>, i: int)
    requires
        0 <= i < s.len(),
        L::fits(nodes_content(s)),
    ensures
        nodes_content(s.take(i + 1)) == nodes_content(s.take(i)) + (*s[i]).content(),
        L::fits(nodes_content(s.take(i + 1))),
        L::fits(nodes_content(s.take(i)) + (*s[i]).content()),
        L::fits((*s[i]).content()),
        nodes_content(s.take(i + 1)).len() <= nodes_content(s).len(),
{
    assert(s.take(i + 1) =~= s.take(i) + seq![s[i]]);
    lemma_nodes_content_concat(s.take(i), seq![s[i]]);
    lemma_nodes_models_singleton(s[i]);
    assert(s =~= s.take(i + 1) + s.skip(i + 1));
    lemma_nodes_content_concat(s.take(i + 1), s.skip(i + 1));
    let whole = nodes_content(s);
    let part = nodes_content(s.take(i + 1));
    assert(part =~= whole.subrange(0, part.len() as int));
    L::lemma_fits_subrange(whole, 0, part.len() as int);
    let head = nodes_content(s.take(i));
    assert((*s[i]).content() =~= part.subrange(head.len() as int, part.len() as int));
    L::lemma_fits_subrange(part, head.len() as int, part.len() as int);
}

/// The leaf models of a run of subtrees, in order.
pub open spec fn nodes_models<const N: usize, L: Leaf>(s: Seq<Arc<Node<N, L>>>) -> Seq<
    Seq<L::Item>,
>
    decreases s,
{
    if s.len() == 0 {
        Seq::empty()
    } else {
        (*s[0]).leaf_models() + nodes_models(s.drop_first())
    }
}

/// The content of a run of subtrees.
pub open spec fn nodes_content<const N: usize, L: Leaf>(s: Seq<Arc<Node<N, L>>>) -> Seq<L::Item> {
    nodes_models(s).flatten()
}

/// Whether every node of a run is well-formed and of height `h`.
pub open spec fn nodes_wf<const N: usize, L: Leaf>(s: Seq<Arc<Node<N, L>>>, h: int) -> bool {
    forall|k: int| 0 <= k < s.len() ==> (#[trigger] (*s[k])).wf() && (*s[k]).height() == h
}

/// Leaf models concatenate as runs do.
pub proof fn lemma_nodes_models_concat<const N: usize, L: Leaf>(
    a: Seq<Arc<Node<N, L>>>,
    b: Seq<Arc<Node<N, L>>>,
)
    ensures
        nodes_models(a + b) == nodes_models(a) + nodes_models(b),
    decreases a.len(),
{
    if a.len() == 0 {
        assert(a + b =~= b);
        assert(nodes_models(a) + nodes_models(b) =~= nodes_models(b));
    } else {
        assert((a + b).drop_first() =~= a.drop_first() + b);
        lemma_nodes_models_concat(a.drop_first(), b);
        assert(nodes_models(a + b) =~= nodes_models(a) + nodes_models(b));
    }
}

/// A single subtree's run has its leaf models.
pub proof fn lemma_nodes_models_singleton<const N: usize, L: Leaf>(x: Arc<Node<N, L>>)
    ensures
        nodes_models(seq![x]) == (*x).leaf_models(),
{
    assert(seq![x].drop_first() =~= Seq::<Arc<Node<N, L>>>::empty());
    assert(nodes_models(seq![x].drop_first()) == Seq::<Seq<L::Item>>::empty());
    assert(nodes_models(seq![x]) =~= (*x).leaf_models());
}

/// A run's tail: dropping the first subtree drops its leaf models.
pub proof fn lemma_nodes_models_skip<const N: usize, L: Leaf>(s: Seq<Arc<Node<N, L>>>, k: int)
    requires
        0 <= k < s.len(),
    ensures
        nodes_models(s.skip(k)) == (*s[k]).leaf_models() + nodes_models(s.skip(k + 1)),
{
    assert(s.skip(k).len() > 0);
    assert(s.skip(k)[0] == s[k]);
    assert(s.skip(k).drop_first() =~= s.skip(k + 1));
}

/// The content of one leaf node is its value's model; the content of an
/// internal node is its children's.
pub proof fn lemma_node_content_cases<const N: usize, L: Leaf>(n: &Node<N, L>)
    ensures
        n matches Node::Leaf(l) ==> n.content() == l.value.model(),
        n matches Node::Internal(i) ==> n.content() == nodes_content(i.children@),
    decreases n,
{
    match n {
        Node::Leaf(l) => {
            let singleton = seq![l.value.model()];
            assert(singleton.drop_first() =~= Seq::<Seq<L::Item>>::empty());
            assert(singleton.drop_first().flatten() == Seq::<L::Item>::empty());
            assert(singleton.flatten() =~= l.value.model());
        },
        Node::Internal(_) => {},
    }
}

/// The length of a well-formed subtree's content, read from its summary.
pub fn node_len<const N: usize, L: Leaf>(n: &Arc<Node<N, L>>) -> (r: usize)
    requires
        (*n).wf(),
    ensures
        r == (*n).content().len(),
        L::fits((*n).content()),
{
    proof {
        lemma_node_content_cases(&**n);
    }
    let s = (**n).summary();
    L::base_len(s, Ghost((**n).content()))
}

/// A fresh vector of handles to the same run of subtrees.
pub(crate) fn clone_nodes<const N: usize, L: Leaf>(v: &Vec<Arc<Node<N, L>>>) -> (r: Vec<
    Arc<Node<N, L>>,
>)
    ensures
        r@ == v@,
{
    let mut r: Vec<Arc<Node<N, L>>> = Vec::new();
    let mut i: usize = 0;
    while i < v.len()
        invariant
            0 <= i <= v@.len(),
            r@ == v@.take(i as int),
        decreases v@.len() - i,
    {
        r.push(arc_clone(&v[i]));
        proof {
            assert(r@ =~= v@.take(i + 1));
        }
        i += 1;
    }
    proof {
        assert(v@.take(v@.len() as int) =~= v@);
    }
    r
}

/// Whether every node of a run is well-formed, whatever its height.
pub open spec fn nodes_all_wf<const N: usize, L: Leaf>(s: Seq<Arc<Node<N, L>>>) -> bool {
    forall|k: int| 0 <= k < s.len() ==> (#[trigger] (*s[k])).wf()
}

/// Heights of well-formed nodes are never negative.
pub proof fn lemma_height_nonneg<const N: usize, L: Leaf>(n: &Node<N, L>)
    requires
        n.wf(),
    ensures
        n.height() >= 0,
    decreases n,
{
    match n {
        Node::Leaf(_) => {},
        Node::Internal(i) => {
            assert((*i.children@[0]).wf());
            lemma_height_nonneg(&*i.children@[0]);
        },
    }
}

/// The children of a well-formed internal node are all leaves or all
/// internal, according to the node's height.
pub proof fn lemma_run_kinds<const N: usize, L: Leaf>(n: &Node<N, L>)
    requires
        n.wf(),
        n is Internal,
    ensures
        n.height() >= 1,
        n.height() == 1 ==> forall|k: int|
            0 <= k < n->Internal_0.children@.len() ==> (#[trigger] (
            *n->Internal_0.children@[k])) is Leaf,
        n.height() >= 2 ==> forall|k: int|
            0 <= k < n->Internal_0.children@.len() ==> (#[trigger] (
            *n->Internal_0.children@[k])) is Internal,
{
    let i = n->Internal_0;
    assert((*i.children@[0]).wf());
    lemma_height_nonneg(&*i.children@[0]);
    assert forall|k: int| 0 <= k < i.children@.len() implies (n.height() == 1 ==> (#[trigger] (
    *i.children@[k])) is Leaf) && (n.height() >= 2 ==> (*i.children@[k]) is Internal) by {
        assert((*i.children@[k]).wf());
        lemma_height_nonneg(&*i.children@[k]);
        match &*i.children@[k] {
            Node::Leaf(_) => {},
            Node::Internal(ci) => {
                assert((*ci.children@[0]).wf());
                lemma_height_nonneg(&*ci.children@[0]);
            },
        }
    }
}

/// A run's content grows child by child; no bound on the whole is needed.
pub proof fn lemma_node_prefix_split_free<const N: usize, L: Leaf>(s: Seq<Arc<Node<N, L>>>, i: int)
    requires
        0 <= i < s.len(),
    ensures
        nodes_content(s.take(i + 1)) == nodes_content(s.take(i)) + (*s[i]).content(),
{
    assert(s.take(i + 1) =~= s.take(i) + seq![s[i]]);
    lemma_nodes_content_concat(s.take(i), seq![s[i]]);
    lemma_nodes_models_singleton(s[i]);
}

/// A run's tail content: dropping the first subtree drops its content.
pub proof fn lemma_nodes_content_skip<const N: usize, L: Leaf>(s: Seq<Arc<Node<N, L>>>, k: int)
    requires
        0 <= k < s.len(),
    ensures
        nodes_content(s.skip(k)) == (*s[k]).content() + nodes_content(s.skip(k + 1)),
{
    lemma_nodes_models_skip(s, k);
    lemma_flatten_concat((*s[k]).leaf_models(), nodes_models(s.skip(k + 1)));
}

/// A run's content splits at any index.
pub proof fn lemma_nodes_content_split<const N: usize, L: Leaf>(
    s: Seq<Arc<Node<N, L>>>,
    a: int,
    b: int,
)
    requires
        0 <= a <= b <= s.len(),
    ensures
        nodes_content(s.take(b)) == nodes_content(s.take(a)) + nodes_content(s.subrange(a, b)),
        nodes_content(s.take(a)).len() <= nodes_content(s.take(b)).len(),
{
    assert(s.take(b) =~= s.take(a) + s.subrange(a, b));
    lemma_nodes_content_concat(s.take(a), s.subrange(a, b));
}

/// Content concatenates as runs do.
pub proof fn lemma_nodes_content_concat<const N: usize, L: Leaf>(
    a: Seq<Arc<Node<N, L>>>,
    b: Seq<Arc<Node<N, L>>>,
)
    ensures
        nodes_content(a + b) == nodes_content(a) + nodes_content(b),
{
    lemma_nodes_models_concat(a, b);
    lemma_flatten_concat(nodes_models(a), nodes_models(b));
}

} // verus!
