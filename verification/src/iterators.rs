//! Iterators over trees and tree slices.
//!
//! Nodes carry no parent pointers — a subtree may have a different parent in
//! every snapshot that shares it — so each traversal carries its own explicit
//! ancestor stack of `(internal node, last visited child index)` pairs and
//! resumes exactly where the previous step stopped.

use std::sync::Arc;

use vstd::prelude::*;

use crate::node::{
    arc_clone, clone_nodes, lemma_node_content_cases, lemma_nodes_content_skip,
    lemma_nodes_models_singleton, lemma_nodes_models_skip, lemma_run_kinds, nodes_all_wf,
    nodes_content, nodes_models, Node,
};
use crate::traits::{Leaf, Metric};
use crate::tree::Tree;
use crate::tree_slice::{SliceSpan, TreeSlice};

verus! {

/// The children of an internal node.
pub open spec fn node_children<const N: usize, L: Leaf>(n: &Node<N, L>) -> Seq<Arc<Node<N, L>>> {
    n->Internal_0.children@
}

/// The leaf models an ancestor-stack frame still owes: those of the
/// children after the one being visited.
pub open spec fn frame_suffix<const N: usize, L: Leaf>(f: (Arc<Node<N, L>>, usize)) -> Seq<
    Seq<L::Item>,
> {
    match (*f.0) {
        Node::Internal(i) => nodes_models(i.children@.skip(f.1 + 1)),
        Node::Leaf(_) => Seq::empty(),
    }
}

/// A valid frame: a well-formed internal node whose children are internal
/// themselves, with the visited index in bounds.
pub open spec fn frame_wf<const N: usize, L: Leaf>(f: (Arc<Node<N, L>>, usize)) -> bool {
    &&& (*f.0).wf()
    &&& (*f.0) is Internal
    &&& (*f.0).height() >= 2
    &&& f.1 < (*f.0)->Internal_0.children@.len()
}

/// The leaf models still owed by a whole ancestor stack, deepest frame
/// first.
pub open spec fn path_remaining<const N: usize, L: Leaf>(
    path: Seq<(Arc<Node<N, L>>, usize)>,
) -> Seq<Seq<L::Item>>
    decreases path.len(),
{
    if path.len() == 0 {
        Seq::empty()
    } else {
        frame_suffix(path.last()) + path_remaining(path.drop_last())
    }
}

pub open spec fn path_wf<const N: usize, L: Leaf>(path: Seq<(Arc<Node<N, L>>, usize)>) -> bool {
    forall|k: int| 0 <= k < path.len() ==> frame_wf(#[trigger] path[k])
}

/// The leaf models still owed by the stack and the root-level run together.
pub open spec fn stack_remaining<const N: usize, L: Leaf>(
    roots: Seq<Arc<Node<N, L>>>,
    root_next: int,
    path: Seq<(Arc<Node<N, L>>, usize)>,
) -> Seq<Seq<L::Item>> {
    path_remaining(path) + nodes_models(roots.skip(root_next))
}

/// The models of an optional boundary leaf.
pub open spec fn opt_model_seq<L: Leaf>(o: Option<L>) -> Seq<Seq<L::Item>> {
    match o {
        Some(l) => seq![l.model()],
        None => Seq::empty(),
    }
}

/// An iterator over the leaves of a tree or tree slice, in order.
pub struct Leaves<const N: usize, L: Leaf> {
    /// The start boundary leaf of a slice, owed before anything else.
    pub start: Option<L>,
    pub start_been_yielded: bool,
    /// The root-level run the traversal walks through.
    pub root_nodes: Vec<Arc<Node<N, L>>>,
    /// The end boundary leaf of a slice, owed after everything else.
    pub end: Option<L>,
    pub end_been_yielded: bool,
    /// How many root-level nodes have been entered.
    pub forward_root_next: usize,
    /// The explicit ancestor stack.
    pub forward_path: Vec<(Arc<Node<N, L>>, usize)>,
    /// The run of sibling leaf nodes currently being consumed.
    pub forward_leaves: Vec<Arc<Node<N, L>>>,
    pub forward_leaf_idx: usize,
}

impl<const N: usize, L: Leaf> Leaves<N, L> {
    pub open spec fn wf(&self) -> bool {
        &&& self.forward_root_next <= self.root_nodes@.len()
        &&& nodes_all_wf(self.root_nodes@)
        &&& path_wf(self.forward_path@)
        &&& self.forward_leaf_idx <= self.forward_leaves@.len()
        &&& forall|k: int|
            0 <= k < self.forward_leaves@.len() ==> (#[trigger] (*self.forward_leaves@[k])).wf()
                && (*self.forward_leaves@[k]) is Leaf
        &&& (self.start matches Some(l) ==> l.inv())
        &&& (self.end matches Some(l) ==> l.inv())
    }

    /// The models of the leaves not yet yielded, in yield order.
    pub open spec fn remaining(&self) -> Seq<Seq<L::Item>> {
        (if !self.start_been_yielded {
            opt_model_seq(self.start)
        } else {
            Seq::empty()
        }) + nodes_models(self.forward_leaves@.skip(self.forward_leaf_idx as int))
            + stack_remaining(
            self.root_nodes@,
            self.forward_root_next as int,
            self.forward_path@,
        ) + (if !self.end_been_yielded {
            opt_model_seq(self.end)
        } else {
            Seq::empty()
        })
    }

    /// An iterator over all leaves of a tree.
    pub fn from_tree(tree: &Tree<N, L>) -> (r: Self)
        requires
            tree.wf(),
        ensures
            r.wf(),
            r.remaining() == tree.leaf_models(),
    {
        let (start, start_been_yielded, root_nodes) = match &*tree.root {
            Node::Leaf(leaf) => (Some(leaf.value.duplicate()), false, Vec::new()),
            Node::Internal(inode) => (None, true, clone_nodes(&inode.children)),
        };
        let r = Leaves {
            start,
            start_been_yielded,
            root_nodes,
            end: None,
            end_been_yielded: true,
            forward_root_next: 0,
            forward_path: Vec::new(),
            forward_leaves: Vec::new(),
            forward_leaf_idx: 0,
        };
        proof {
            assert(r.forward_leaves@.skip(0) =~= Seq::<Arc<Node<N, L>>>::empty());
            assert(r.root_nodes@.skip(0) =~= r.root_nodes@);
            assert(r.remaining() =~= tree.leaf_models());
        }
        r
    }

    /// An iterator over the leaves a tree slice covers, boundary leaves
    /// included.
    pub fn from_tree_slice(tree_slice: &TreeSlice<N, L>) -> (r: Self)
        requires
            tree_slice.wf(),
        ensures
            r.wf(),
            r.remaining() == tree_slice.leaf_models(),
    {
        let (start, start_been_yielded, root_nodes, end, end_been_yielded) = match &tree_slice.span {
            SliceSpan::Empty => (None, true, Vec::new(), None, true),
            SliceSpan::Single(slice) => (Some(slice.duplicate()), false, Vec::new(), None, true),
            SliceSpan::Multi { start, internals, end } => (
                Some(start.0.duplicate()),
                false,
                clone_nodes(internals),
                Some(end.0.duplicate()),
                false,
            ),
        };
        let r = Leaves {
            start,
            start_been_yielded,
            root_nodes,
            end,
            end_been_yielded,
            forward_root_next: 0,
            forward_path: Vec::new(),
            forward_leaves: Vec::new(),
            forward_leaf_idx: 0,
        };
        proof {
            assert(r.forward_leaves@.skip(0) =~= Seq::<Arc<Node<N, L>>>::empty());
            assert(r.root_nodes@.skip(0) =~= r.root_nodes@);
            assert(r.remaining() =~= tree_slice.leaf_models());
        }
        r
    }

    /// Yields the next leaf: the start boundary once, then every leaf under
    /// the root run in depth-first order, then the end boundary once. After
    /// the first `None` every further call keeps returning `None`.
    #[verifier::rlimit(30)]
    pub fn next(&mut self) -> (r: Option<L>)
        requires
            old(self).wf(),
        ensures
            final(self).wf(),
            match r {
                Some(l) => old(self).remaining().len() > 0 && l.inv() && l.model() == old(
                    self,
                ).remaining()[0] && final(self).remaining() == old(self).remaining().skip(1),
                None => old(self).remaining().len() == 0 && final(self).remaining() == old(
                    self,
                ).remaining(),
            },
    {
        let ghost r0 = old(self).remaining();
        if !self.start_been_yielded {
            self.start_been_yielded = true;
            match &self.start {
                Some(l) => {
                    let out = l.duplicate();
                    proof {
                        assert(r0 =~= seq![l.model()] + self.remaining());
                        assert(self.remaining() =~= r0.skip(1));
                    }
                    return Some(out);
                },
                None => {
                    proof {
                        assert(self.remaining() =~= r0);
                    }
                },
            }
        }
        if self.forward_leaf_idx == self.forward_leaves.len() {
            proof {
                assert(self.forward_leaves@.skip(self.forward_leaf_idx as int) =~= Seq::<
                    Arc<Node<N, L>>,
                >::empty());
            }
            let ghost pre_stack = stack_remaining(
                self.root_nodes@,
                self.forward_root_next as int,
                self.forward_path@,
            );
            let ghost end_part = if !self.end_been_yielded {
                opt_model_seq(self.end)
            } else {
                Seq::<Seq<L::Item>>::empty()
            };
            proof {
                assert(r0 =~= pre_stack + end_part);
            }
            match next_leaves_forward(
                &self.root_nodes,
                &mut self.forward_root_next,
                &mut self.forward_path,
            ) {
                Some(leaves) => {
                    self.forward_leaves = leaves;
                    self.forward_leaf_idx = 0;
                    proof {
                        assert(self.forward_leaves@.skip(0) =~= self.forward_leaves@);
                        assert(self.remaining() =~= r0);
                    }
                },
                None => {
                    proof {
                        assert(r0 =~= end_part);
                    }
                    if !self.end_been_yielded {
                        self.end_been_yielded = true;
                        match &self.end {
                            Some(l) => {
                                let out = l.duplicate();
                                proof {
                                    assert(r0 =~= seq![l.model()] + self.remaining());
                                    assert(self.remaining() =~= r0.skip(1));
                                }
                                return Some(out);
                            },
                            None => {
                                proof {
                                    assert(r0 =~= Seq::<Seq<L::Item>>::empty());
                                    assert(self.remaining() =~= r0);
                                }
                                return None;
                            },
                        }
                    } else {
                        proof {
                            assert(r0 =~= Seq::<Seq<L::Item>>::empty());
                            assert(self.remaining() =~= r0);
                        }
                        return None;
                    }
                },
            }
        }
        let idx = self.forward_leaf_idx;
        proof {
            assert(self.remaining() =~= r0);
            lemma_nodes_models_skip(self.forward_leaves@, idx as int);
        }
        match &*self.forward_leaves[idx] {
            Node::Leaf(leaf) => {
                let out = leaf.value.duplicate();
                self.forward_leaf_idx = idx + 1;
                proof {
                    assert(r0 =~= seq![out.model()] + self.remaining());
                    assert(self.remaining() =~= r0.skip(1));
                }
                Some(out)
            },
            Node::Internal(_) => vstd::pervasive::unreached(),
        }
    }
}

/// Advances the ancestor stack to the next unvisited run of sibling leaf
/// nodes: pops fully visited ancestors, enters the next root-level node when
/// the stack runs dry, and otherwise descends into the next unvisited
/// child's leftmost leaf run. Returns `None` exactly when no leaves remain.
pub fn next_leaves_forward<const N: usize, L: Leaf>(
    root_nodes: &Vec<Arc<Node<N, L>>>,
    forward_root_next: &mut usize,
    forward_path: &mut Vec<(Arc<Node<N, L>>, usize)>,
) -> (r: Option<Vec<Arc<Node<N, L>>>>)
    requires
        nodes_all_wf(root_nodes@),
        *old(forward_root_next) <= root_nodes@.len(),
        path_wf(old(forward_path)@),
    ensures
        *final(forward_root_next) <= root_nodes@.len(),
        path_wf(final(forward_path)@),
        match r {
            Some(run) => {
                &&& run@.len() > 0
                &&& forall|k: int|
                    0 <= k < run@.len() ==> (#[trigger] (*run@[k])).wf() && (*run@[k]) is Leaf
                &&& nodes_models(run@) + stack_remaining(
                    root_nodes@,
                    *final(forward_root_next) as int,
                    final(forward_path)@,
                ) == stack_remaining(
                    root_nodes@,
                    *old(forward_root_next) as int,
                    old(forward_path)@,
                )
            },
            None => stack_remaining(
                root_nodes@,
                *old(forward_root_next) as int,
                old(forward_path)@,
            ) == Seq::<Seq<L::Item>>::empty() && stack_remaining(
                root_nodes@,
                *final(forward_root_next) as int,
                final(forward_path)@,
            ) == Seq::<Seq<L::Item>>::empty(),
        },
{
    let ghost orig = stack_remaining(root_nodes@, *forward_root_next as int, forward_path@);
    proof {
        assert(orig == stack_remaining(
            root_nodes@,
            *old(forward_root_next) as int,
            old(forward_path)@,
        ));
    }
    let mut cur_opt: Option<Arc<Node<N, L>>> = None;
    loop
        invariant_except_break
            cur_opt is None,
        invariant
            nodes_all_wf(root_nodes@),
            *forward_root_next <= root_nodes@.len(),
            path_wf(forward_path@),
            orig == stack_remaining(
                root_nodes@,
                *old(forward_root_next) as int,
                old(forward_path)@,
            ),
            match cur_opt {
                Some(c) => (*c).wf() && (*c) is Internal && (*c).leaf_models() + stack_remaining(
                    root_nodes@,
                    *forward_root_next as int,
                    forward_path@,
                ) == orig,
                None => stack_remaining(
                    root_nodes@,
                    *forward_root_next as int,
                    forward_path@,
                ) == orig,
            },
        ensures
            cur_opt is Some,
        decreases forward_path@.len(),
    {
        if forward_path.len() == 0 {
            if *forward_root_next == root_nodes.len() {
                proof {
                    assert(root_nodes@.skip(root_nodes@.len() as int) =~= Seq::<
                        Arc<Node<N, L>>,
                    >::empty());
                    assert(orig =~= Seq::<Seq<L::Item>>::empty());
                }
                return None;
            }
            let rn = *forward_root_next;
            let root = arc_clone(&root_nodes[rn]);
            *forward_root_next = rn + 1;
            proof {
                lemma_nodes_models_skip(root_nodes@, rn as int);
            }
            let is_leaf = match &*root {
                Node::Leaf(_) => true,
                Node::Internal(_) => false,
            };
            if is_leaf {
                let mut run: Vec<Arc<Node<N, L>>> = Vec::new();
                run.push(root);
                proof {
                    assert(run@ =~= seq![run@[0]]);
                    lemma_nodes_models_singleton(run@[0]);
                    assert(nodes_models(run@) + stack_remaining(
                        root_nodes@,
                        *forward_root_next as int,
                        forward_path@,
                    ) =~= orig);
                }
                return Some(run);
            } else {
                proof {
                    lemma_run_kinds(&*root);
                    assert((*root).leaf_models() + stack_remaining(
                        root_nodes@,
                        *forward_root_next as int,
                        forward_path@,
                    ) =~= orig);
                }
                cur_opt = Some(root);
                break ;
            }
        } else {
            let ghost p0 = forward_path@;
            let (arc, visited) = match forward_path.pop() {
                Some(f) => f,
                None => vstd::pervasive::unreached(),
            };
            let ghost pmid = forward_path@;
            proof {
                assert(pmid =~= p0.drop_last());
                assert(p0.last() == (arc, visited));
                assert(frame_wf(p0.last()));
                assert(path_remaining(p0) == frame_suffix((arc, visited)) + path_remaining(pmid));
            }
            let clen = match &*arc {
                Node::Internal(i) => i.children.len(),
                Node::Leaf(_) => vstd::pervasive::unreached(),
            };
            if clen == visited + 1 {
                proof {
                    let children = node_children(&*arc);
                    assert(children.skip(visited + 1) =~= Seq::<Arc<Node<N, L>>>::empty());
                    assert(frame_suffix((arc, visited)) =~= Seq::<Seq<L::Item>>::empty());
                    assert(stack_remaining(
                        root_nodes@,
                        *forward_root_next as int,
                        forward_path@,
                    ) =~= orig);
                }
            } else {
                forward_path.push((arc_clone(&arc), visited + 1));
                let child = match &*arc {
                    Node::Internal(i) => arc_clone(&i.children[visited + 1]),
                    Node::Leaf(_) => vstd::pervasive::unreached(),
                };
                proof {
                    assert(forward_path@.drop_last() =~= pmid);
                    lemma_run_kinds(&*arc);
                    let children = node_children(&*arc);
                    assert((*child).wf() && (*child) is Internal);
                    lemma_nodes_models_skip(children, visited + 1);
                    assert(frame_suffix((arc, visited)) == nodes_models(
                        children.skip(visited + 1),
                    ));
                    assert(forward_path@.last() == (arc, (visited + 1) as usize));
                    assert(frame_suffix((arc, (visited + 1) as usize)) == nodes_models(
                        children.skip(visited + 2),
                    ));
                    assert(path_remaining(forward_path@) == frame_suffix(
                        (arc, (visited + 1) as usize),
                    ) + path_remaining(pmid));
                    assert((*child).leaf_models() + stack_remaining(
                        root_nodes@,
                        *forward_root_next as int,
                        forward_path@,
                    ) =~= orig);
                    assert forall|k: int|
                        0 <= k < forward_path@.len() implies frame_wf(
                        #[trigger] forward_path@[k],
                    ) by {
                        if k < forward_path@.len() - 1 {
                            assert(forward_path@[k] == p0[k]);
                        }
                    }
                }
                cur_opt = Some(child);
                break ;
            }
        }
    }
    let mut cur = match cur_opt {
        Some(c) => c,
        None => vstd::pervasive::unreached(),
    };
    loop
        invariant
            nodes_all_wf(root_nodes@),
            *forward_root_next <= root_nodes@.len(),
            path_wf(forward_path@),
            orig == stack_remaining(
                root_nodes@,
                *old(forward_root_next) as int,
                old(forward_path)@,
            ),
            (*cur).wf(),
            (*cur) is Internal,
            (*cur).leaf_models() + stack_remaining(
                root_nodes@,
                *forward_root_next as int,
                forward_path@,
            ) == orig,
        decreases (*cur).height(),
    {
        proof {
            lemma_run_kinds(&*cur);
        }
        let next_cur = match &*cur {
            Node::Internal(inode) => {
                let first_is_leaf = match &*inode.children[0] {
                    Node::Leaf(_) => true,
                    Node::Internal(_) => false,
                };
                if first_is_leaf {
                    let run = clone_nodes(&inode.children);
                    proof {
                        assert((*cur).height() == 1);
                        assert(nodes_models(run@) == (*cur).leaf_models());
                    }
                    return Some(run);
                } else {
                    let child = arc_clone(&inode.children[0]);
                    let ghost pmid = forward_path@;
                    forward_path.push((arc_clone(&cur), 0));
                    proof {
                        assert(forward_path@.drop_last() =~= pmid);
                        assert((*cur).height() >= 2);
                        assert(forward_path@.last() == (cur, 0usize));
                        assert(path_remaining(forward_path@) == frame_suffix((cur, 0usize))
                            + path_remaining(pmid));
                        assert(frame_suffix((cur, 0usize)) == nodes_models(
                            inode.children@.skip(1),
                        ));
                        lemma_nodes_models_skip(inode.children@, 0);
                        assert(inode.children@.skip(0) =~= inode.children@);
                        assert((*cur).leaf_models() =~= (*child).leaf_models() + nodes_models(
                            inode.children@.skip(1),
                        ));
                        assert((*child).leaf_models() + stack_remaining(
                            root_nodes@,
                            *forward_root_next as int,
                            forward_path@,
                        ) =~= orig);
                        assert forall|k: int|
                            0 <= k < forward_path@.len() implies frame_wf(
                            #[trigger] forward_path@[k],
                        ) by {
                            if k < forward_path@.len() - 1 {
                                assert(forward_path@[k] == pmid[k]);
                            }
                        }
                        assert((*child).height() == (*cur).height() - 1);
                    }
                    child
                }
            },
            Node::Leaf(_) => vstd::pervasive::unreached(),
        };
        cur = next_cur;
    }
}

/// The leaf models of an optional pending subtree.
pub open spec fn opt_node_models<const N: usize, L: Leaf>(o: Option<Arc<Node<N, L>>>) -> Seq<
    Seq<L::Item>,
> {
    match o {
        Some(c) => (*c).leaf_models(),
        None => Seq::empty(),
    }
}

/// A valid traversal frame for unit iteration: a well-formed internal node
/// with the visited index in bounds. Unlike leaf iteration, the frame's
/// children may be leaves.
pub open spec fn uframe_wf<const N: usize, L: Leaf>(f: (Arc<Node<N, L>>, usize)) -> bool {
    &&& (*f.0).wf()
    &&& (*f.0) is Internal
    &&& f.1 < node_children(&*f.0).len()
}

pub open spec fn upath_wf<const N: usize, L: Leaf>(path: Seq<(Arc<Node<N, L>>, usize)>) -> bool {
    forall|k: int| 0 <= k < path.len() ==> uframe_wf(#[trigger] path[k])
}

/// The content an ancestor-stack frame still owes.
pub open spec fn uframe_content<const N: usize, L: Leaf>(f: (Arc<Node<N, L>>, usize)) -> Seq<
    L::Item,
> {
    match (*f.0) {
        Node::Internal(i) => nodes_content(i.children@.skip(f.1 + 1)),
        Node::Leaf(_) => Seq::empty(),
    }
}

/// The content a whole ancestor stack still owes, deepest frame first.
pub open spec fn upath_content<const N: usize, L: Leaf>(
    path: Seq<(Arc<Node<N, L>>, usize)>,
) -> Seq<L::Item>
    decreases path.len(),
{
    if path.len() == 0 {
        Seq::empty()
    } else {
        uframe_content(path.last()) + upath_content(path.drop_last())
    }
}

/// The content the stack and the root-level run still owe together.
pub open spec fn ustack_content<const N: usize, L: Leaf>(
    roots: Seq<Arc<Node<N, L>>>,
    root_next: int,
    path: Seq<(Arc<Node<N, L>>, usize)>,
) -> Seq<L::Item> {
    upath_content(path) + nodes_content(roots.skip(root_next))
}

/// The content of an optional boundary leaf with its summary.
pub open spec fn opt_leaf_content<L: Leaf>(o: Option<(L, L::Summary)>) -> Seq<L::Item> {
    match o {
        Some(p) => p.0.model(),
        None => Seq::empty(),
    }
}

/// Validity of an optional boundary leaf: the cached summary matches its
/// non-empty content.
pub open spec fn opt_leaf_wf<L: Leaf>(o: Option<(L, L::Summary)>) -> bool {
    match o {
        Some(p) => p.0.inv() && L::fits(p.0.model()) && p.0.model().len() > 0 && p.1
            == L::summary_of(p.0.model()),
        None => true,
    }
}

/// Advances the traversal to the next leaf in depth-first order, yielding a
/// copy of its value and its summary. Returns `None` exactly when no
/// content remains on the stack.
pub fn next_something_forward<const N: usize, L: Leaf>(
    root_nodes: &Vec<Arc<Node<N, L>>>,
    forward_root_next: &mut usize,
    forward_path: &mut Vec<(Arc<Node<N, L>>, usize)>,
) -> (r: Option<(L, L::Summary)>)
    requires
        nodes_all_wf(root_nodes@),
        *old(forward_root_next) <= root_nodes@.len(),
        upath_wf(old(forward_path)@),
    ensures
        *final(forward_root_next) <= root_nodes@.len(),
        upath_wf(final(forward_path)@),
        match r {
            Some(pair) => {
                &&& pair.0.inv()
                &&& L::fits(pair.0.model())
                &&& pair.0.model().len() > 0
                &&& pair.1 == L::summary_of(pair.0.model())
                &&& pair.0.model() + ustack_content(
                    root_nodes@,
                    *final(forward_root_next) as int,
                    final(forward_path)@,
                ) == ustack_content(
                    root_nodes@,
                    *old(forward_root_next) as int,
                    old(forward_path)@,
                )
            },
            None => ustack_content(
                root_nodes@,
                *old(forward_root_next) as int,
                old(forward_path)@,
            ) == Seq::<L::Item>::empty() && ustack_content(
                root_nodes@,
                *final(forward_root_next) as int,
                final(forward_path)@,
            ) == Seq::<L::Item>::empty(),
        },
{
    let ghost orig = ustack_content(root_nodes@, *forward_root_next as int, forward_path@);
    let mut cur_opt: Option<Arc<Node<N, L>>> = None;
    loop
        invariant_except_break
            cur_opt is None,
        invariant
            nodes_all_wf(root_nodes@),
            *forward_root_next <= root_nodes@.len(),
            upath_wf(forward_path@),
            orig == ustack_content(
                root_nodes@,
                *old(forward_root_next) as int,
                old(forward_path)@,
            ),
            match cur_opt {
                Some(c) => (*c).wf() && (*c) is Internal && (*c).content() + ustack_content(
                    root_nodes@,
                    *forward_root_next as int,
                    forward_path@,
                ) == orig,
                None => ustack_content(
                    root_nodes@,
                    *forward_root_next as int,
                    forward_path@,
                ) == orig,
            },
        ensures
            cur_opt is Some,
        decreases forward_path@.len(),
    {
        if forward_path.len() == 0 {
            if *forward_root_next == root_nodes.len() {
                proof {
                    assert(root_nodes@.skip(root_nodes@.len() as int) =~= Seq::<
                        Arc<Node<N, L>>,
                    >::empty());
                    assert(orig =~= Seq::<L::Item>::empty());
                }
                return None;
            }
            let rn = *forward_root_next;
            let root = arc_clone(&root_nodes[rn]);
            *forward_root_next = rn + 1;
            proof {
                lemma_nodes_content_skip(root_nodes@, rn as int);
                lemma_node_content_cases(&*root);
            }
            match &*root {
                Node::Leaf(l) => {
                    let out = l.value.duplicate();
                    let s = l.summary;
                    proof {
                        assert(out.model() + ustack_content(
                            root_nodes@,
                            *forward_root_next as int,
                            forward_path@,
                        ) =~= orig);
                    }
                    return Some((out, s));
                },
                Node::Internal(_) => {
                    proof {
                        assert((*root).content() + ustack_content(
                            root_nodes@,
                            *forward_root_next as int,
                            forward_path@,
                        ) =~= orig);
                    }
                    cur_opt = Some(root);
                    break ;
                },
            }
        } else {
            let ghost p0 = forward_path@;
            let (arc, visited) = match forward_path.pop() {
                Some(f) => f,
                None => vstd::pervasive::unreached(),
            };
            let ghost pmid = forward_path@;
            proof {
                assert(pmid =~= p0.drop_last());
                assert(p0.last() == (arc, visited));
                assert(uframe_wf(p0.last()));
                assert(upath_content(p0) == uframe_content((arc, visited)) + upath_content(
                    pmid,
                ));
            }
            let clen = match &*arc {
                Node::Internal(i) => i.children.len(),
                Node::Leaf(_) => vstd::pervasive::unreached(),
            };
            if clen == visited + 1 {
                proof {
                    let children = node_children(&*arc);
                    assert(children.skip(visited + 1) =~= Seq::<Arc<Node<N, L>>>::empty());
                    assert(uframe_content((arc, visited)) =~= Seq::<L::Item>::empty());
                    assert(ustack_content(
                        root_nodes@,
                        *forward_root_next as int,
                        forward_path@,
                    ) =~= orig);
                }
            } else {
                forward_path.push((arc_clone(&arc), visited + 1));
                let child = match &*arc {
                    Node::Internal(i) => arc_clone(&i.children[visited + 1]),
                    Node::Leaf(_) => vstd::pervasive::unreached(),
                };
                proof {
                    assert(forward_path@.drop_last() =~= pmid);
                    let children = node_children(&*arc);
                    assert((*child).wf());
                    lemma_nodes_content_skip(children, visited + 1);
                    assert(uframe_content((arc, visited)) == nodes_content(
                        children.skip(visited + 1),
                    ));
                    assert(forward_path@.last() == (arc, (visited + 1) as usize));
                    assert(uframe_content((arc, (visited + 1) as usize)) == nodes_content(
                        children.skip(visited + 2),
                    ));
                    assert(upath_content(forward_path@) == uframe_content(
                        (arc, (visited + 1) as usize),
                    ) + upath_content(pmid));
                    assert forall|k: int|
                        0 <= k < forward_path@.len() implies uframe_wf(
                        #[trigger] forward_path@[k],
                    ) by {
                        if k < forward_path@.len() - 1 {
                            assert(forward_path@[k] == p0[k]);
                        }
                    }
                    lemma_node_content_cases(&*child);
                }
                match &*child {
                    Node::Leaf(l) => {
                        let out = l.value.duplicate();
                        let s = l.summary;
                        proof {
                            assert(out.model() + ustack_content(
                                root_nodes@,
                                *forward_root_next as int,
                                forward_path@,
                            ) =~= orig);
                        }
                        return Some((out, s));
                    },
                    Node::Internal(_) => {
                        proof {
                            assert((*child).content() + ustack_content(
                                root_nodes@,
                                *forward_root_next as int,
                                forward_path@,
                            ) =~= orig);
                        }
                        cur_opt = Some(child);
                        break ;
                    },
                }
            }
        }
    }
    let mut cur = match cur_opt {
        Some(c) => c,
        None => vstd::pervasive::unreached(),
    };
    loop
        invariant
            nodes_all_wf(root_nodes@),
            *forward_root_next <= root_nodes@.len(),
            upath_wf(forward_path@),
            orig == ustack_content(
                root_nodes@,
                *old(forward_root_next) as int,
                old(forward_path)@,
            ),
            (*cur).wf(),
            (*cur) is Internal,
            (*cur).content() + ustack_content(
                root_nodes@,
                *forward_root_next as int,
                forward_path@,
            ) == orig,
        decreases (*cur).height(),
    {
        proof {
            crate::node::lemma_height_nonneg(&*cur);
        }
        let next_cur = match &*cur {
            Node::Internal(inode) => {
                let child = arc_clone(&inode.children[0]);
                let ghost pmid = forward_path@;
                forward_path.push((arc_clone(&cur), 0));
                proof {
                    assert(forward_path@.drop_last() =~= pmid);
                    assert(forward_path@.last() == (cur, 0usize));
                    assert(upath_content(forward_path@) == uframe_content((cur, 0usize))
                        + upath_content(pmid));
                    assert(uframe_content((cur, 0usize)) == nodes_content(
                        inode.children@.skip(1),
                    ));
                    lemma_nodes_content_skip(inode.children@, 0);
                    assert(inode.children@.skip(0) =~= inode.children@);
                    lemma_node_content_cases(&*cur);
                    assert((*cur).content() =~= (*child).content() + nodes_content(
                        inode.children@.skip(1),
                    ));
                    assert forall|k: int|
                        0 <= k < forward_path@.len() implies uframe_wf(
                        #[trigger] forward_path@[k],
                    ) by {
                        if k < forward_path@.len() - 1 {
                            assert(forward_path@[k] == pmid[k]);
                        }
                    }
                    assert((*child).wf());
                    assert((*child).content() + ustack_content(
                        root_nodes@,
                        *forward_root_next as int,
                        forward_path@,
                    ) =~= orig);
                    lemma_node_content_cases(&*child);
                }
                match &*child {
                    Node::Leaf(l) => {
                        let out = l.value.duplicate();
                        let s = l.summary;
                        return Some((out, s));
                    },
                    Node::Internal(_) => {
                        proof {
                            assert((*child).height() == (*cur).height() - 1);
                            crate::node::lemma_height_nonneg(&*child);
                        }
                        child
                    },
                }
            },
            Node::Leaf(_) => vstd::pervasive::unreached(),
        };
        cur = next_cur;
    }
}

/// Drains everything the traversal still owes into `internals`, as whole
/// shared subtrees, accumulating their summaries onto `summary` (which
/// covers the ghost content `acc` on entry).
pub fn next_babagugu<const N: usize, L: Leaf>(
    root_nodes: &Vec<Arc<Node<N, L>>>,
    forward_root_next: &mut usize,
    forward_path: &mut Vec<(Arc<Node<N, L>>, usize)>,
    summary: &mut L::Summary,
    internals: &mut Vec<Arc<Node<N, L>>>,
    Ghost(acc): Ghost<Seq<L::Item>>,
)
    requires
        nodes_all_wf(root_nodes@),
        *old(forward_root_next) <= root_nodes@.len(),
        upath_wf(old(forward_path)@),
        *old(summary) == L::summary_of(acc),
        L::fits(
            acc + ustack_content(
                root_nodes@,
                *old(forward_root_next) as int,
                old(forward_path)@,
            ),
        ),
    ensures
        *final(forward_root_next) <= root_nodes@.len(),
        upath_wf(final(forward_path)@),
        final(internals)@.len() >= old(internals)@.len(),
        final(internals)@.take(old(internals)@.len() as int) == old(internals)@,
        nodes_all_wf(final(internals)@.skip(old(internals)@.len() as int)),
        nodes_content(final(internals)@.skip(old(internals)@.len() as int)) == ustack_content(
            root_nodes@,
            *old(forward_root_next) as int,
            old(forward_path)@,
        ),
        ustack_content(root_nodes@, *final(forward_root_next) as int, final(forward_path)@)
            == Seq::<L::Item>::empty(),
        *final(summary) == L::summary_of(
            acc + ustack_content(
                root_nodes@,
                *old(forward_root_next) as int,
                old(forward_path)@,
            ),
        ),
{
    let ghost orig = ustack_content(root_nodes@, *forward_root_next as int, forward_path@);
    let ghost base = internals@.len() as int;
    let ghost mut accm = acc;
    loop
        invariant
            nodes_all_wf(root_nodes@),
            *forward_root_next <= root_nodes@.len(),
            upath_wf(forward_path@),
            orig == ustack_content(
                root_nodes@,
                *old(forward_root_next) as int,
                old(forward_path)@,
            ),
            base == old(internals)@.len(),
            internals@.len() >= base,
            internals@.take(base) == old(internals)@,
            nodes_all_wf(internals@.skip(base)),
            accm == acc + nodes_content(internals@.skip(base)),
            *summary == L::summary_of(accm),
            L::fits(acc + orig),
            accm + ustack_content(
                root_nodes@,
                *forward_root_next as int,
                forward_path@,
            ) == acc + orig,
        ensures
            ustack_content(root_nodes@, *forward_root_next as int, forward_path@) == Seq::<
                L::Item,
            >::empty(),
        decreases
            root_nodes@.len() - *forward_root_next,
            forward_path@.len(),
            (if forward_path@.len() > 0 {
                node_children(&*forward_path@.last().0).len() - forward_path@.last().1
            } else {
                0
            }),
    {
        let ghost pre = internals@;
        if forward_path.len() == 0 {
            if *forward_root_next == root_nodes.len() {
                proof {
                    assert(root_nodes@.skip(root_nodes@.len() as int) =~= Seq::<
                        Arc<Node<N, L>>,
                    >::empty());
                    assert(ustack_content(
                        root_nodes@,
                        *forward_root_next as int,
                        forward_path@,
                    ) =~= Seq::<L::Item>::empty());
                }
                break ;
            }
            let rn = *forward_root_next;
            let node = arc_clone(&root_nodes[rn]);
            *forward_root_next = rn + 1;
            proof {
                lemma_nodes_content_skip(root_nodes@, rn as int);
                lemma_node_content_cases(&*node);
                assert(ustack_content(root_nodes@, rn as int, forward_path@) =~= (
                *node).content() + ustack_content(
                    root_nodes@,
                    *forward_root_next as int,
                    forward_path@,
                ));
                assert(accm + (*node).content() =~= (acc + orig).take(
                    accm.len() + (*node).content().len() as int,
                ));
                L::lemma_fits_subrange(
                    acc + orig,
                    0,
                    accm.len() + (*node).content().len() as int,
                );
                assert((acc + orig).take(accm.len() + (*node).content().len() as int) =~= (acc
                    + orig).subrange(0, accm.len() + (*node).content().len() as int));
            }
            let node_summary = *(*node).summary();
            *summary = L::combine(summary, &node_summary, Ghost(accm), Ghost((*node).content()));
            proof {
                accm = accm + (*node).content();
            }
            internals.push(node);
            proof {
                assert(internals@.take(base) =~= pre.take(base));
                assert(internals@.skip(base) =~= pre.skip(base) + seq![internals@.last()]);
                crate::node::lemma_nodes_content_concat(
                    pre.skip(base),
                    seq![internals@.last()],
                );
                lemma_nodes_models_singleton(internals@.last());
                lemma_node_content_cases(&*internals@.last());
                assert(accm =~= acc + nodes_content(internals@.skip(base)));
            }
        } else {
            let ghost p0 = forward_path@;
            let (arc, visited) = match forward_path.pop() {
                Some(f) => f,
                None => vstd::pervasive::unreached(),
            };
            let ghost pmid = forward_path@;
            proof {
                assert(pmid =~= p0.drop_last());
                assert(p0.last() == (arc, visited));
                assert(uframe_wf(p0.last()));
                assert(upath_content(p0) == uframe_content((arc, visited)) + upath_content(
                    pmid,
                ));
            }
            let clen = match &*arc {
                Node::Internal(i) => i.children.len(),
                Node::Leaf(_) => vstd::pervasive::unreached(),
            };
            if clen == visited + 1 {
                proof {
                    let children = node_children(&*arc);
                    assert(children.skip(visited + 1) =~= Seq::<Arc<Node<N, L>>>::empty());
                    assert(uframe_content((arc, visited)) =~= Seq::<L::Item>::empty());
                    assert(ustack_content(
                        root_nodes@,
                        *forward_root_next as int,
                        forward_path@,
                    ) =~= ustack_content(root_nodes@, *forward_root_next as int, p0));
                }
            } else {
                forward_path.push((arc_clone(&arc), visited + 1));
                let child = match &*arc {
                    Node::Internal(i) => arc_clone(&i.children[visited + 1]),
                    Node::Leaf(_) => vstd::pervasive::unreached(),
                };
                proof {
                    assert(forward_path@.drop_last() =~= pmid);
                    let children = node_children(&*arc);
                    assert((*child).wf());
                    lemma_nodes_content_skip(children, visited + 1);
                    assert(forward_path@.last() == (arc, (visited + 1) as usize));
                    assert(upath_content(forward_path@) == uframe_content(
                        (arc, (visited + 1) as usize),
                    ) + upath_content(pmid));
                    assert forall|k: int|
                        0 <= k < forward_path@.len() implies uframe_wf(
                        #[trigger] forward_path@[k],
                    ) by {
                        if k < forward_path@.len() - 1 {
                            assert(forward_path@[k] == p0[k]);
                        }
                    }
                    assert(ustack_content(root_nodes@, *forward_root_next as int, p0) =~= (
                    *child).content() + ustack_content(
                        root_nodes@,
                        *forward_root_next as int,
                        forward_path@,
                    ));
                    lemma_node_content_cases(&*child);
                    assert(accm + (*child).content() =~= (acc + orig).take(
                        accm.len() + (*child).content().len() as int,
                    ));
                    L::lemma_fits_subrange(
                        acc + orig,
                        0,
                        accm.len() + (*child).content().len() as int,
                    );
                }
                let child_summary = *(*child).summary();
                *summary = L::combine(
                    summary,
                    &child_summary,
                    Ghost(accm),
                    Ghost((*child).content()),
                );
                proof {
                    accm = accm + (*child).content();
                }
                internals.push(child);
                proof {
                    assert(internals@.take(base) =~= pre.take(base));
                    assert(internals@.skip(base) =~= pre.skip(base) + seq![internals@.last()]);
                    crate::node::lemma_nodes_content_concat(
                        pre.skip(base),
                        seq![internals@.last()],
                    );
                    lemma_nodes_models_singleton(internals@.last());
                    lemma_node_content_cases(&*internals@.last());
                    assert(accm =~= acc + nodes_content(internals@.skip(base)));
                }
            }
        }
    }
    proof {
        assert(accm + ustack_content(
            root_nodes@,
            *forward_root_next as int,
            forward_path@,
        ) =~= accm);
        assert(accm =~= acc + orig);
        let pushed = nodes_content(internals@.skip(base));
        assert(pushed =~= (acc + pushed).skip(acc.len() as int));
        assert(orig =~= (acc + orig).skip(acc.len() as int));
        assert(pushed =~= orig);
    }
}

/// Advances the traversal to the next unit boundary of the metric `M`:
/// zero-measure subtrees along the way are absorbed into `internals` (and
/// onto `summary`, which covers the ghost content `acc` on entry); the
/// first measured leaf is split right after its first unit. The split-off
/// piece is returned and the leaf's remainder becomes `next_start`. Returns
/// `None` exactly when everything left measured zero and was absorbed.
pub fn next_bubugaga<const N: usize, L: Leaf, M: Metric<L>>(
    root_nodes: &Vec<Arc<Node<N, L>>>,
    forward_root_next: &mut usize,
    forward_path: &mut Vec<(Arc<Node<N, L>>, usize)>,
    next_start: &mut Option<(L, L::Summary)>,
    summary: &mut L::Summary,
    internals: &mut Vec<Arc<Node<N, L>>>,
    Ghost(acc): Ghost<Seq<L::Item>>,
) -> (r: Option<(L, L::Summary)>)
    requires
        nodes_all_wf(root_nodes@),
        *old(forward_root_next) <= root_nodes@.len(),
        upath_wf(old(forward_path)@),
        *old(next_start) is None,
        *old(summary) == L::summary_of(acc),
        L::fits(
            acc + ustack_content(
                root_nodes@,
                *old(forward_root_next) as int,
                old(forward_path)@,
            ),
        ),
    ensures
        *final(forward_root_next) <= root_nodes@.len(),
        upath_wf(final(forward_path)@),
        final(internals)@.len() >= old(internals)@.len(),
        final(internals)@.take(old(internals)@.len() as int) == old(internals)@,
        nodes_all_wf(final(internals)@.skip(old(internals)@.len() as int)),
        M::spec_measure(
            nodes_content(final(internals)@.skip(old(internals)@.len() as int)),
        ) == 0,
        match r {
            Some(pair) => {
                &&& pair.0.inv()
                &&& L::fits(pair.0.model())
                &&& pair.0.model().len() > 0
                &&& pair.1 == L::summary_of(pair.0.model())
                &&& M::spec_measure(pair.0.model()) == 1
                &&& M::spec_measure(pair.0.model().drop_last()) == 0
                &&& opt_leaf_wf(*final(next_start))
                &&& ustack_content(
                    root_nodes@,
                    *old(forward_root_next) as int,
                    old(forward_path)@,
                ) == nodes_content(final(internals)@.skip(old(internals)@.len() as int))
                    + pair.0.model() + opt_leaf_content(*final(next_start)) + ustack_content(
                    root_nodes@,
                    *final(forward_root_next) as int,
                    final(forward_path)@,
                )
                &&& *final(summary) == L::summary_of(
                    acc + nodes_content(final(internals)@.skip(old(internals)@.len() as int))
                        + pair.0.model(),
                )
            },
            None => {
                &&& *final(next_start) is None
                &&& ustack_content(
                    root_nodes@,
                    *old(forward_root_next) as int,
                    old(forward_path)@,
                ) == nodes_content(final(internals)@.skip(old(internals)@.len() as int))
                &&& ustack_content(
                    root_nodes@,
                    *final(forward_root_next) as int,
                    final(forward_path)@,
                ) == Seq::<L::Item>::empty()
                &&& *final(summary) == L::summary_of(
                    acc + nodes_content(final(internals)@.skip(old(internals)@.len() as int)),
                )
            },
        },
{
    let ghost orig = ustack_content(root_nodes@, *forward_root_next as int, forward_path@);
    let ghost base = internals@.len() as int;
    let ghost mut accm = acc;
    proof {
        assert(internals@.skip(base) =~= Seq::<Arc<Node<N, L>>>::empty());
        assert(nodes_content(internals@.skip(base)) =~= Seq::<L::Item>::empty());
        M::lemma_measure_bounds(nodes_content(internals@.skip(base)));
        assert(internals@.take(base) =~= internals@);
        assert(accm =~= acc + nodes_content(internals@.skip(base)));
    }
    let mut cur_opt: Option<Arc<Node<N, L>>> = None;
    loop
        invariant_except_break
            cur_opt is None,
        invariant
            nodes_all_wf(root_nodes@),
            *forward_root_next <= root_nodes@.len(),
            upath_wf(forward_path@),
            orig == ustack_content(
                root_nodes@,
                *old(forward_root_next) as int,
                old(forward_path)@,
            ),
            base == old(internals)@.len(),
            internals@.len() >= base,
            internals@.take(base) == old(internals)@,
            nodes_all_wf(internals@.skip(base)),
            M::spec_measure(nodes_content(internals@.skip(base))) == 0,
            accm == acc + nodes_content(internals@.skip(base)),
            *summary == L::summary_of(accm),
            L::fits(acc + orig),
            *next_start is None,
            match cur_opt {
                Some(c) => (*c).wf() && M::spec_measure((*c).content()) >= 1 && accm + (
                *c).content() + ustack_content(
                    root_nodes@,
                    *forward_root_next as int,
                    forward_path@,
                ) == acc + orig,
                None => accm + ustack_content(
                    root_nodes@,
                    *forward_root_next as int,
                    forward_path@,
                ) == acc + orig,
            },
        ensures
            cur_opt is Some,
        decreases
            root_nodes@.len() - *forward_root_next,
            forward_path@.len(),
            (if forward_path@.len() > 0 {
                node_children(&*forward_path@.last().0).len() - forward_path@.last().1
            } else {
                0
            }),
    {
        let ghost pre = internals@;
        let candidate: Arc<Node<N, L>>;
        if forward_path.len() == 0 {
            if *forward_root_next == root_nodes.len() {
                proof {
                    assert(root_nodes@.skip(root_nodes@.len() as int) =~= Seq::<
                        Arc<Node<N, L>>,
                    >::empty());
                    assert(ustack_content(
                        root_nodes@,
                        *forward_root_next as int,
                        forward_path@,
                    ) =~= Seq::<L::Item>::empty());
                    assert(accm =~= acc + orig);
                    let pushed = nodes_content(internals@.skip(base));
                    assert(pushed =~= (acc + pushed).skip(acc.len() as int));
                    assert(orig =~= (acc + orig).skip(acc.len() as int));
                    assert(pushed =~= orig);
                }
                return None;
            }
            let rn = *forward_root_next;
            let node = arc_clone(&root_nodes[rn]);
            *forward_root_next = rn + 1;
            proof {
                lemma_nodes_content_skip(root_nodes@, rn as int);
                lemma_node_content_cases(&*node);
                assert(ustack_content(root_nodes@, rn as int, forward_path@) =~= (
                *node).content() + ustack_content(
                    root_nodes@,
                    *forward_root_next as int,
                    forward_path@,
                ));
            }
            candidate = node;
        } else {
            let ghost p0 = forward_path@;
            let (arc, visited) = match forward_path.pop() {
                Some(f) => f,
                None => vstd::pervasive::unreached(),
            };
            let ghost pmid = forward_path@;
            proof {
                assert(pmid =~= p0.drop_last());
                assert(p0.last() == (arc, visited));
                assert(uframe_wf(p0.last()));
                assert(upath_content(p0) == uframe_content((arc, visited)) + upath_content(
                    pmid,
                ));
            }
            let clen = match &*arc {
                Node::Internal(i) => i.children.len(),
                Node::Leaf(_) => vstd::pervasive::unreached(),
            };
            if clen == visited + 1 {
                proof {
                    let children = node_children(&*arc);
                    assert(children.skip(visited + 1) =~= Seq::<Arc<Node<N, L>>>::empty());
                    assert(uframe_content((arc, visited)) =~= Seq::<L::Item>::empty());
                    assert(ustack_content(
                        root_nodes@,
                        *forward_root_next as int,
                        forward_path@,
                    ) =~= ustack_content(root_nodes@, *forward_root_next as int, p0));
                }
                continue ;
            }
            forward_path.push((arc_clone(&arc), visited + 1));
            let child = match &*arc {
                Node::Internal(i) => arc_clone(&i.children[visited + 1]),
                Node::Leaf(_) => vstd::pervasive::unreached(),
            };
            proof {
                assert(forward_path@.drop_last() =~= pmid);
                let children = node_children(&*arc);
                assert((*child).wf());
                lemma_nodes_content_skip(children, visited + 1);
                assert(forward_path@.last() == (arc, (visited + 1) as usize));
                assert(upath_content(forward_path@) == uframe_content(
                    (arc, (visited + 1) as usize),
                ) + upath_content(pmid));
                assert forall|k: int|
                    0 <= k < forward_path@.len() implies uframe_wf(
                    #[trigger] forward_path@[k],
                ) by {
                    if k < forward_path@.len() - 1 {
                        assert(forward_path@[k] == p0[k]);
                    }
                }
                assert(ustack_content(root_nodes@, *forward_root_next as int, p0) =~= (
                *child).content() + ustack_content(
                    root_nodes@,
                    *forward_root_next as int,
                    forward_path@,
                ));
                lemma_node_content_cases(&*child);
            }
            candidate = child;
        }
        // absorb the candidate if it measures zero; otherwise hand it over
        proof {
            lemma_node_content_cases(&*candidate);
        }
        let cand_summary = *(*candidate).summary();
        let m = M::measure(&cand_summary, Ghost((*candidate).content()));
        if m == 0 {
            proof {
                assert(accm + (*candidate).content() =~= (acc + orig).take(
                    accm.len() + (*candidate).content().len() as int,
                ));
                L::lemma_fits_subrange(
                    acc + orig,
                    0,
                    accm.len() + (*candidate).content().len() as int,
                );
            }
            *summary = L::combine(
                summary,
                &cand_summary,
                Ghost(accm),
                Ghost((*candidate).content()),
            );
            proof {
                M::lemma_measure_concat(
                    nodes_content(internals@.skip(base)),
                    (*candidate).content(),
                );
                accm = accm + (*candidate).content();
            }
            internals.push(candidate);
            proof {
                assert(internals@.take(base) =~= pre.take(base));
                assert(internals@.skip(base) =~= pre.skip(base) + seq![internals@.last()]);
                crate::node::lemma_nodes_content_concat(
                    pre.skip(base),
                    seq![internals@.last()],
                );
                lemma_nodes_models_singleton(internals@.last());
                lemma_node_content_cases(&*internals@.last());
                assert(accm =~= acc + nodes_content(internals@.skip(base)));
            }
        } else {
            cur_opt = Some(candidate);
            break ;
        }
    }
    let mut cur = match cur_opt {
        Some(c) => c,
        None => vstd::pervasive::unreached(),
    };
    loop
        invariant
            nodes_all_wf(root_nodes@),
            *forward_root_next <= root_nodes@.len(),
            upath_wf(forward_path@),
            orig == ustack_content(
                root_nodes@,
                *old(forward_root_next) as int,
                old(forward_path)@,
            ),
            base == old(internals)@.len(),
            internals@.len() >= base,
            internals@.take(base) == old(internals)@,
            nodes_all_wf(internals@.skip(base)),
            M::spec_measure(nodes_content(internals@.skip(base))) == 0,
            accm == acc + nodes_content(internals@.skip(base)),
            *summary == L::summary_of(accm),
            L::fits(acc + orig),
            *next_start is None,
            (*cur).wf(),
            M::spec_measure((*cur).content()) >= 1,
            accm + (*cur).content() + ustack_content(
                root_nodes@,
                *forward_root_next as int,
                forward_path@,
            ) == acc + orig,
        decreases (*cur).height(),
    {
        proof {
            crate::node::lemma_height_nonneg(&*cur);
            lemma_node_content_cases(&*cur);
        }
        let next_cur = match &*cur {
            Node::Leaf(l) => {
                let (left, left_summary, right) = M::split_one(&l.value, &l.summary);
                proof {
                    assert(accm + left.model() =~= (acc + orig).take(
                        accm.len() + left.model().len() as int,
                    ));
                    L::lemma_fits_subrange(
                        acc + orig,
                        0,
                        accm.len() + left.model().len() as int,
                    );
                    match &right {
                        Some(p) => {
                            assert(p.0.model() =~= l.value.model().subrange(
                                left.model().len() as int,
                                l.value.model().len() as int,
                            ));
                            L::lemma_fits_subrange(
                                l.value.model(),
                                left.model().len() as int,
                                l.value.model().len() as int,
                            );
                            assert(left.model() =~= l.value.model().subrange(
                                0,
                                left.model().len() as int,
                            ));
                            L::lemma_fits_subrange(
                                l.value.model(),
                                0,
                                left.model().len() as int,
                            );
                        },
                        None => {},
                    }
                }
                *summary = L::combine(
                    summary,
                    &left_summary,
                    Ghost(accm),
                    Ghost(left.model()),
                );
                *next_start = right;
                proof {
                    let pushed = nodes_content(internals@.skip(base));
                    assert(ustack_content(
                        root_nodes@,
                        *old(forward_root_next) as int,
                        old(forward_path)@,
                    ) =~= (acc + orig).skip(acc.len() as int));
                    assert((acc + pushed + left.model() + opt_leaf_content(*next_start)
                        + ustack_content(
                        root_nodes@,
                        *forward_root_next as int,
                        forward_path@,
                    )) =~= acc + orig);
                    assert(orig =~= pushed + left.model() + opt_leaf_content(*next_start)
                        + ustack_content(
                        root_nodes@,
                        *forward_root_next as int,
                        forward_path@,
                    ));
                }
                return Some((left, left_summary));
            },
            Node::Internal(inode) => {
                let ghost s = inode.children@;
                let clen = inode.children.len();
                let mut idx: usize = 0;
                let mut found: Option<Arc<Node<N, L>>> = None;
                proof {
                    assert(s.skip(0) =~= s);
                }
                while idx < clen
                    invariant_except_break
                        found is None,
                    invariant
                        idx < clen == s.len(),
                        s == node_children(&*cur),
                        s == inode.children@,
                        (*cur).wf(),
                        (*cur) is Internal,
                        nodes_all_wf(root_nodes@),
                        *forward_root_next <= root_nodes@.len(),
                        upath_wf(forward_path@),
                        orig == ustack_content(
                            root_nodes@,
                            *old(forward_root_next) as int,
                            old(forward_path)@,
                        ),
                        L::fits(acc + orig),
                        *next_start is None,
                        base == old(internals)@.len(),
                        internals@.len() >= base,
                        internals@.take(base) == old(internals)@,
                        nodes_all_wf(internals@.skip(base)),
                        M::spec_measure(nodes_content(internals@.skip(base))) == 0,
                        accm == acc + nodes_content(internals@.skip(base)),
                        *summary == L::summary_of(accm),
                        M::spec_measure(nodes_content(s.skip(idx as int))) >= 1,
                        accm + nodes_content(s.skip(idx as int)) + ustack_content(
                            root_nodes@,
                            *forward_root_next as int,
                            forward_path@,
                        ) == acc + orig,
                        match found {
                            Some(c) => c == s[idx as int] && M::spec_measure(
                                (*c).content(),
                            ) >= 1,
                            None => true,
                        },
                    ensures
                        found matches Some(c) && idx < clen && c == s[idx as int]
                            && M::spec_measure((*c).content()) >= 1,
                    decreases clen - idx,
                {
                    let ghost pre = internals@;
                    let child = arc_clone(&inode.children[idx]);
                    proof {
                        assert(child == s[idx as int]);
                        assert((*node_children(&*cur)[idx as int]).wf());
                        lemma_nodes_content_skip(s, idx as int);
                        lemma_node_content_cases(&*child);
                    }
                    let child_summary = *(*child).summary();
                    let m = M::measure(&child_summary, Ghost((*child).content()));
                    if m == 0 {
                        proof {
                            assert(accm + (*child).content() =~= (acc + orig).take(
                                accm.len() + (*child).content().len() as int,
                            ));
                            L::lemma_fits_subrange(
                                acc + orig,
                                0,
                                accm.len() + (*child).content().len() as int,
                            );
                        }
                        *summary = L::combine(
                            summary,
                            &child_summary,
                            Ghost(accm),
                            Ghost((*child).content()),
                        );
                        proof {
                            M::lemma_measure_concat(
                                nodes_content(internals@.skip(base)),
                                (*child).content(),
                            );
                            M::lemma_measure_concat(
                                (*child).content(),
                                nodes_content(s.skip(idx + 1)),
                            );
                            accm = accm + (*child).content();
                        }
                        internals.push(child);
                        proof {
                            assert(internals@.take(base) =~= pre.take(base));
                            assert(internals@.skip(base) =~= pre.skip(base) + seq![
                                internals@.last(),
                            ]);
                            crate::node::lemma_nodes_content_concat(
                                pre.skip(base),
                                seq![internals@.last()],
                            );
                            lemma_nodes_models_singleton(internals@.last());
                            lemma_node_content_cases(&*internals@.last());
                            assert(accm =~= acc + nodes_content(internals@.skip(base)));
                            if idx + 1 == clen {
                                assert(s.skip(idx + 1) =~= Seq::<Arc<Node<N, L>>>::empty());
                                assert(nodes_content(s.skip(idx + 1)) =~= Seq::<
                                    L::Item,
                                >::empty());
                                M::lemma_measure_bounds(nodes_content(s.skip(idx + 1)));
                            }
                        }
                        idx += 1;
                    } else {
                        found = Some(child);
                        break ;
                    }
                }
                let child = match found {
                    Some(c) => c,
                    None => vstd::pervasive::unreached(),
                };
                let ghost pmid = forward_path@;
                forward_path.push((arc_clone(&cur), idx));
                proof {
                    assert(forward_path@.drop_last() =~= pmid);
                    assert(forward_path@.last() == (cur, idx));
                    assert(upath_content(forward_path@) == uframe_content((cur, idx))
                        + upath_content(pmid));
                    assert(uframe_content((cur, idx)) == nodes_content(s.skip(idx + 1)));
                    lemma_nodes_content_skip(s, idx as int);
                    assert forall|k: int|
                        0 <= k < forward_path@.len() implies uframe_wf(
                        #[trigger] forward_path@[k],
                    ) by {
                        if k < forward_path@.len() - 1 {
                            assert(forward_path@[k] == pmid[k]);
                        }
                    }
                    assert((*child).wf());
                    assert(accm + (*child).content() + ustack_content(
                        root_nodes@,
                        *forward_root_next as int,
                        forward_path@,
                    ) =~= acc + orig);
                    assert((*child).height() == (*cur).height() - 1);
                    crate::node::lemma_height_nonneg(&*child);
                }
                child
            },
        };
        cur = next_cur;
    }
}

/// An iterator over consecutive units of the metric `M`: each call yields a
/// tree slice covering exactly one unit, splitting only the leaves that
/// straddle a unit boundary and sharing every fully covered subtree by
/// reference. Content after the last unit boundary comes as one final
/// slice of measure zero.
pub struct Units<const N: usize, L: Leaf, M: Metric<L>> {
    /// The pending remainder of the leaf the previous unit ended in.
    pub start: Option<(L, L::Summary)>,
    /// The root-level run the traversal walks through.
    pub root_nodes: Vec<Arc<Node<N, L>>>,
    /// The end boundary leaf of a slice, owed last.
    pub end: Option<(L, L::Summary)>,
    /// How many root-level nodes have been entered.
    pub forward_root_next: usize,
    /// The explicit ancestor stack.
    pub forward_path: Vec<(Arc<Node<N, L>>, usize)>,
    /// How many units have been yielded.
    pub yielded_forward: usize,
    /// The measure of the whole tree or slice being iterated.
    pub total: usize,
    pub metric: core::marker::PhantomData<M>,
}

impl<const N: usize, L: Leaf, M: Metric<L>> Units<N, L, M> {
    /// The content not yet yielded.
    pub open spec fn remaining(&self) -> Seq<L::Item> {
        opt_leaf_content(self.start) + ustack_content(
            self.root_nodes@,
            self.forward_root_next as int,
            self.forward_path@,
        ) + opt_leaf_content(self.end)
    }

    pub open spec fn wf(&self) -> bool {
        &&& self.forward_root_next <= self.root_nodes@.len()
        &&& nodes_all_wf(self.root_nodes@)
        &&& upath_wf(self.forward_path@)
        &&& opt_leaf_wf(self.start)
        &&& opt_leaf_wf(self.end)
        &&& L::fits(self.remaining())
        &&& self.yielded_forward <= self.total
        &&& M::spec_measure(self.remaining()) == self.total - self.yielded_forward
    }

    /// An iterator over all units of a tree.
    pub fn from_tree(tree: &Tree<N, L>) -> (r: Self)
        requires
            tree.wf(),
        ensures
            r.wf(),
            r.remaining() == tree.content(),
            r.total == M::spec_measure(tree.content()),
    {
        proof {
            crate::node::lemma_node_content_cases(&*tree.root);
        }
        let total = M::measure(tree.summary(), Ghost(tree.content()));
        let (start, root_nodes): (Option<(L, L::Summary)>, Vec<Arc<Node<N, L>>>) = match &*tree.root {
            Node::Leaf(l) => (Some((l.value.duplicate(), l.summary)), Vec::new()),
            Node::Internal(inode) => (None, clone_nodes(&inode.children)),
        };
        let r = Units {
            start,
            root_nodes,
            end: None,
            forward_root_next: 0,
            forward_path: Vec::new(),
            yielded_forward: 0,
            total,
            metric: core::marker::PhantomData,
        };
        proof {
            assert(r.root_nodes@.skip(0) =~= r.root_nodes@);
            assert(r.remaining() =~= tree.content());
        }
        r
    }

    /// An iterator over all units of a tree slice.
    pub fn from_tree_slice(tree_slice: &TreeSlice<N, L>) -> (r: Self)
        requires
            tree_slice.wf(),
        ensures
            r.wf(),
            r.remaining() == tree_slice.model(),
            r.total == M::spec_measure(tree_slice.model()),
    {
        let total = M::measure(&tree_slice.summary, Ghost(tree_slice.model()));
        let (start, root_nodes, end): (
            Option<(L, L::Summary)>,
            Vec<Arc<Node<N, L>>>,
            Option<(L, L::Summary)>,
        ) = match &tree_slice.span {
            SliceSpan::Empty => (None, Vec::new(), None),
            SliceSpan::Single(slice) => {
                let len = L::base_len(&tree_slice.summary, Ghost(tree_slice.model()));
                if len == 0 {
                    (None, Vec::new(), None)
                } else {
                    (Some((slice.duplicate(), tree_slice.summary)), Vec::new(), None)
                }
            },
            SliceSpan::Multi { start, internals, end } => (
                Some((start.0.duplicate(), start.1)),
                clone_nodes(internals),
                Some((end.0.duplicate(), end.1)),
            ),
        };
        let r = Units {
            start,
            root_nodes,
            end,
            forward_root_next: 0,
            forward_path: Vec::new(),
            yielded_forward: 0,
            total,
            metric: core::marker::PhantomData,
        };
        proof {
            assert(r.root_nodes@.skip(0) =~= r.root_nodes@);
            assert(r.remaining() =~= tree_slice.model());
            match &tree_slice.span {
                SliceSpan::Multi { start, internals, end } => {
                    let whole = tree_slice.model();
                    assert(start.0.model() =~= whole.subrange(0, start.0.model().len() as int));
                    L::lemma_fits_subrange(whole, 0, start.0.model().len() as int);
                    assert(end.0.model() =~= whole.subrange(
                        whole.len() - end.0.model().len(),
                        whole.len() as int,
                    ));
                    L::lemma_fits_subrange(
                        whole,
                        whole.len() - end.0.model().len(),
                        whole.len() as int,
                    );
                },
                _ => {},
            }
        }
        r
    }

    /// Yields the next unit: a slice that measures exactly one under `M` and
    /// ends exactly at the unit boundary, or — once every boundary has been
    /// passed — one final slice holding whatever content is left. After the
    /// first `None` every further call keeps returning `None`.
    #[verifier::rlimit(100)]
    #[verifier::spinoff_prover]
    pub fn next(&mut self) -> (r: Option<TreeSlice<N, L>>)
        requires
            old(self).wf(),
        ensures
            final(self).wf(),
            match r {
                Some(ts) => {
                    &&& ts.wf()
                    &&& old(self).remaining().len() > 0
                    &&& ts.model().len() > 0
                    &&& old(self).remaining() == ts.model() + final(self).remaining()
                    &&& (M::spec_measure(old(self).remaining()) > 0 ==> M::spec_measure(
                        ts.model(),
                    ) == 1 && M::spec_measure(ts.model().drop_last()) == 0)
                    &&& (M::spec_measure(old(self).remaining()) == 0 ==> ts.model() == old(
                        self,
                    ).remaining() && final(self).remaining().len() == 0)
                },
                None => old(self).remaining().len() == 0 && final(self).remaining() == old(
                    self,
                ).remaining(),
            },
    {
        proof {
            L::lemma_fits_empty();
            M::lemma_measure_bounds(Seq::<L::Item>::empty());
        }
        let ghost r0 = old(self).remaining();
        let start_taken = self.start.take();
        let (start_slice, start_summary): (L, L::Summary) = match start_taken {
            Some(pair) => pair,
            None => {
                match next_something_forward(
                    &self.root_nodes,
                    &mut self.forward_root_next,
                    &mut self.forward_path,
                ) {
                    Some(pair) => pair,
                    None => {
                        // nothing before the end boundary: yield from it
                        match self.end.take() {
                            None => {
                                proof {
                                    assert(r0 =~= Seq::<L::Item>::empty());
                                    assert(self.remaining() =~= r0);
                                }
                                return None;
                            },
                            Some((end_slice, end_summary)) => {
                                proof {
                                    assert(r0 =~= end_slice.model());
                                }
                                let m = M::measure(&end_summary, Ghost(end_slice.model()));
                                if m == 0 {
                                    proof {
                                        assert(self.remaining() =~= Seq::<L::Item>::empty());
                                        assert(r0 + self.remaining() =~= r0);
                                    }
                                    return Some(
                                        TreeSlice {
                                            span: SliceSpan::Single(end_slice),
                                            summary: end_summary,
                                        },
                                    );
                                } else {
                                    self.yielded_forward = self.yielded_forward + 1;
                                    let (left, left_summary, right) = M::split_one(
                                        &end_slice,
                                        &end_summary,
                                    );
                                    proof {
                                        match &right {
                                            Some(p) => {
                                                assert(p.0.model() =~= end_slice.model().subrange(
                                                    left.model().len() as int,
                                                    end_slice.model().len() as int,
                                                ));
                                                L::lemma_fits_subrange(
                                                    end_slice.model(),
                                                    left.model().len() as int,
                                                    end_slice.model().len() as int,
                                                );
                                                assert(left.model() =~= end_slice.model().subrange(
                                                    0,
                                                    left.model().len() as int,
                                                ));
                                                L::lemma_fits_subrange(
                                                    end_slice.model(),
                                                    0,
                                                    left.model().len() as int,
                                                );
                                                M::lemma_measure_concat(
                                                    left.model(),
                                                    p.0.model(),
                                                );
                                            },
                                            None => {},
                                        }
                                    }
                                    self.end = right;
                                    proof {
                                        assert(r0 =~= left.model() + self.remaining());
                                    }
                                    return Some(
                                        TreeSlice {
                                            span: SliceSpan::Single(left),
                                            summary: left_summary,
                                        },
                                    );
                                }
                            },
                        }
                    },
                }
            },
        };
        let ghost sm_model = start_slice.model();
        proof {
            assert(r0 =~= start_slice.model() + (ustack_content(
                self.root_nodes@,
                self.forward_root_next as int,
                self.forward_path@,
            ) + opt_leaf_content(self.end)));
            assert(L::fits(sm_model)) by {
                assert(sm_model =~= r0.subrange(0, sm_model.len() as int));
                L::lemma_fits_subrange(r0, 0, sm_model.len() as int);
            }
        }
        let sm = M::measure(&start_summary, Ghost(sm_model));
        if sm > 0 {
            // the pending leaf itself holds the next boundary
            let (left, left_summary, right) = M::split_one(&start_slice, &start_summary);
            proof {
                match &right {
                    Some(p) => {
                        assert(p.0.model() =~= sm_model.subrange(
                            left.model().len() as int,
                            sm_model.len() as int,
                        ));
                        L::lemma_fits_subrange(
                            sm_model,
                            left.model().len() as int,
                            sm_model.len() as int,
                        );
                        assert(left.model() =~= sm_model.subrange(0, left.model().len() as int));
                        L::lemma_fits_subrange(sm_model, 0, left.model().len() as int);
                        M::lemma_measure_concat(left.model(), p.0.model());
                    },
                    None => {},
                }
            }
            self.start = right;
            proof {
                assert(r0 =~= left.model() + self.remaining());
                M::lemma_measure_concat(left.model(), self.remaining());
                M::lemma_measure_bounds(self.remaining());
                assert(self.remaining() =~= r0.subrange(
                    left.model().len() as int,
                    r0.len() as int,
                ));
                L::lemma_fits_subrange(r0, left.model().len() as int, r0.len() as int);
            }
            self.yielded_forward = self.yielded_forward + 1;
            return Some(TreeSlice { span: SliceSpan::Single(left), summary: left_summary });
        }
        // the pending leaf measures zero: it opens a wider unit
        let mut summary = start_summary;
        let mut internals: Vec<Arc<Node<N, L>>> = Vec::new();
        if self.yielded_forward == self.total {
            // every boundary has been passed: the rest is the final unit
            proof {
                M::lemma_measure_concat(sm_model, self.remaining());
                M::lemma_measure_bounds(sm_model);
                M::lemma_measure_bounds(self.remaining());
                assert(L::fits(sm_model + ustack_content(
                    self.root_nodes@,
                    self.forward_root_next as int,
                    self.forward_path@,
                ))) by {
                    let stacked = sm_model + ustack_content(
                        self.root_nodes@,
                        self.forward_root_next as int,
                        self.forward_path@,
                    );
                    assert(stacked =~= (r0.subrange(0, stacked.len() as int)));
                    L::lemma_fits_subrange(r0, 0, stacked.len() as int);
                }
            }
            let ghost stack0 = ustack_content(
                self.root_nodes@,
                self.forward_root_next as int,
                self.forward_path@,
            );
            next_babagugu(
                &self.root_nodes,
                &mut self.forward_root_next,
                &mut self.forward_path,
                &mut summary,
                &mut internals,
                Ghost(sm_model),
            );
            proof {
                assert(internals@.skip(0) =~= internals@);
                assert(nodes_content(internals@) == stack0);
            }
            match self.end.take() {
                Some((end_slice, end_summary)) => {
                    proof {
                        assert(r0 =~= (sm_model + stack0) + end_slice.model());
                    }
                    let slice_summary = L::combine(
                        &summary,
                        &end_summary,
                        Ghost(sm_model + stack0),
                        Ghost(end_slice.model()),
                    );
                    let ts = TreeSlice {
                        span: SliceSpan::Multi {
                            start: (start_slice, start_summary),
                            internals,
                            end: (end_slice, end_summary),
                        },
                        summary: slice_summary,
                    };
                    proof {
                        assert(ts.model() =~= r0);
                        assert(self.remaining() =~= Seq::<L::Item>::empty());
                        assert(r0 =~= ts.model() + self.remaining());
                        M::lemma_measure_bounds(self.remaining());
                    }
                    return Some(ts);
                },
                None => {
                    let ghost full = internals@;
                    let popped = internals.pop();
                    match popped {
                        None => {
                            proof {
                                assert(nodes_content(internals@) =~= Seq::<L::Item>::empty());
                                assert(stack0.len() == 0);
                                assert(r0 =~= sm_model);
                                assert(self.remaining() =~= Seq::<L::Item>::empty());
                                assert(r0 =~= sm_model + self.remaining());
                            }
                            return Some(
                                TreeSlice {
                                    span: SliceSpan::Single(start_slice),
                                    summary: start_summary,
                                },
                            );
                        },
                        Some(last) => {
                            proof {
                                assert(internals@ =~= full.drop_last());
                                assert(internals@ + seq![last] =~= full);
                                crate::node::lemma_nodes_content_concat(
                                    internals@,
                                    seq![last],
                                );
                                lemma_nodes_models_singleton(last);
                                lemma_node_content_cases(&*last);
                                assert(nodes_content(full) == stack0);
                                assert((*last).wf()) by {
                                    assert(last == full[full.len() - 1]);
                                }
                                assert forall|k: int|
                                    0 <= k < internals@.len() implies (#[trigger] (
                                *internals@[k])).wf() by {
                                    assert(internals@[k] == full[k]);
                                }
                            }
                            let mut node = last;
                            let ghost target = stack0;
                            let mut end_found: Option<(L, L::Summary)> = None;
                            loop
                                invariant_except_break
                                    end_found is None,
                                invariant
                                    (*node).wf(),
                                    nodes_all_wf(internals@),
                                    nodes_content(internals@) + (*node).content() == target,
                                    match end_found {
                                        Some(p) => p.0.inv() && L::fits(p.0.model())
                                            && p.0.model().len() > 0 && p.1 == L::summary_of(
                                            p.0.model(),
                                        ) && nodes_content(internals@) + p.0.model() == target,
                                        None => true,
                                    },
                                ensures
                                    end_found is Some,
                                decreases (*node).height(),
                            {
                                proof {
                                    crate::node::lemma_height_nonneg(&*node);
                                    lemma_node_content_cases(&*node);
                                }
                                let next_node = match &*node {
                                    Node::Leaf(l) => {
                                        end_found = Some((l.value.duplicate(), l.summary));
                                        break ;
                                    },
                                    Node::Internal(inode) => {
                                        let ghost cs = inode.children@;
                                        let ghost pre = internals@;
                                        let clen = inode.children.len();
                                        let mut j: usize = 0;
                                        while j < clen - 1
                                            invariant
                                                clen == cs.len(),
                                                cs == node_children(&*node),
                                                cs == inode.children@,
                                                (*node).wf(),
                                                (*node) is Internal,
                                                0 <= j <= clen - 1,
                                                internals@ == pre + cs.take(j as int),
                                                nodes_all_wf(internals@),
                                            decreases clen - 1 - j,
                                        {
                                            proof {
                                                assert((*node_children(
                                                    &*node,
                                                )[j as int]).wf());
                                            }
                                            internals.push(arc_clone(&inode.children[j]));
                                            proof {
                                                assert(internals@ =~= pre + cs.take(j + 1));
                                            }
                                            j += 1;
                                        }
                                        let tail = arc_clone(&inode.children[clen - 1]);
                                        proof {
                                            assert((*node_children(
                                                &*node,
                                            )[clen - 1]).wf());
                                            crate::node::lemma_node_prefix_split_free(
                                                cs,
                                                clen - 1,
                                            );
                                            assert(cs.take(clen as int) =~= cs);
                                            crate::node::lemma_nodes_content_concat(
                                                pre,
                                                cs.take(clen - 1),
                                            );
                                            assert(nodes_content(internals@)
                                                =~= nodes_content(pre) + nodes_content(
                                                cs.take(clen - 1),
                                            ));
                                            assert(nodes_content(internals@) + (
                                            *tail).content() =~= target);
                                            assert((*tail).height() == (*node).height()
                                                - 1);
                                            crate::node::lemma_height_nonneg(&*tail);
                                        }
                                        tail
                                    },
                                };
                                node = next_node;
                            }
                            let (end_slice, end_summary) = match end_found {
                                Some(p) => p,
                                None => vstd::pervasive::unreached(),
                            };
                            proof {
                                assert(r0 =~= (sm_model + nodes_content(internals@))
                                    + end_slice.model());
                                assert(r0 =~= sm_model + nodes_content(internals@)
                                    + end_slice.model());
                            }
                            let ts = TreeSlice {
                                span: SliceSpan::Multi {
                                    start: (start_slice, start_summary),
                                    internals,
                                    end: (end_slice, end_summary),
                                },
                                summary,
                            };
                            proof {
                                assert(ts.model() =~= r0);
                                assert(self.remaining() =~= Seq::<L::Item>::empty());
                                assert(r0 =~= ts.model() + self.remaining());
                                M::lemma_measure_bounds(self.remaining());
                            }
                            return Some(ts);
                        },
                    }
                },
            }
        }
        // boundaries remain ahead: collect zero-measure subtrees, then split
        proof {
            assert(L::fits(sm_model + ustack_content(
                self.root_nodes@,
                self.forward_root_next as int,
                self.forward_path@,
            ))) by {
                let stacked = sm_model + ustack_content(
                    self.root_nodes@,
                    self.forward_root_next as int,
                    self.forward_path@,
                );
                assert(stacked =~= (r0.subrange(0, stacked.len() as int)));
                L::lemma_fits_subrange(r0, 0, stacked.len() as int);
            }
        }
        let ghost stack0 = ustack_content(
            self.root_nodes@,
            self.forward_root_next as int,
            self.forward_path@,
        );
        let found = next_bubugaga::<N, L, M>(
            &self.root_nodes,
            &mut self.forward_root_next,
            &mut self.forward_path,
            &mut self.start,
            &mut summary,
            &mut internals,
            Ghost(sm_model),
        );
        proof {
            assert(internals@.skip(0) =~= internals@);
        }
        let (end_slice, end_summary): (L, L::Summary) = match found {
            Some(pair) => pair,
            None => {
                // the boundary must lie in the end leaf
                proof {
                    assert(nodes_content(internals@) == stack0);
                    M::lemma_measure_concat(sm_model, stack0 + opt_leaf_content(self.end));
                    M::lemma_measure_concat(stack0, opt_leaf_content(self.end));
                    assert(r0 =~= sm_model + (stack0 + opt_leaf_content(self.end)));
                }
                let (end_slice0, end_summary0) = match self.end.take() {
                    Some(p) => p,
                    None => {
                        proof {
                            assert(opt_leaf_content(self.end) =~= Seq::<L::Item>::empty());
                            M::lemma_measure_bounds(opt_leaf_content(self.end));
                        }
                        vstd::pervasive::unreached()
                    },
                };
                let (left, left_summary, right) = M::split_one(&end_slice0, &end_summary0);
                proof {
                    match &right {
                        Some(p) => {
                            assert(p.0.model() =~= end_slice0.model().subrange(
                                left.model().len() as int,
                                end_slice0.model().len() as int,
                            ));
                            L::lemma_fits_subrange(
                                end_slice0.model(),
                                left.model().len() as int,
                                end_slice0.model().len() as int,
                            );
                            assert(left.model() =~= end_slice0.model().subrange(
                                0,
                                left.model().len() as int,
                            ));
                            L::lemma_fits_subrange(
                                end_slice0.model(),
                                0,
                                left.model().len() as int,
                            );
                        },
                        None => {},
                    }
                    assert(L::fits((sm_model + stack0) + left.model())) by {
                        let head = (sm_model + stack0) + left.model();
                        assert(head =~= r0.subrange(0, head.len() as int));
                        L::lemma_fits_subrange(r0, 0, head.len() as int);
                    }
                }
                self.end = right;
                summary = L::combine(
                    &summary,
                    &left_summary,
                    Ghost(sm_model + stack0),
                    Ghost(left.model()),
                );
                (left, left_summary)
            },
        };
        self.yielded_forward = self.yielded_forward + 1;
        let ts = TreeSlice {
            span: SliceSpan::Multi {
                start: (start_slice, start_summary),
                internals,
                end: (end_slice, end_summary),
            },
            summary,
        };
        proof {
            assert(L::fits(ts.model())) by {
                assert(ts.model() =~= r0.subrange(0, ts.model().len() as int));
                L::lemma_fits_subrange(r0, 0, ts.model().len() as int);
            }
            assert(r0 =~= ts.model() + self.remaining());
            assert(self.remaining() =~= r0.subrange(ts.model().len() as int, r0.len() as int));
            L::lemma_fits_subrange(r0, ts.model().len() as int, r0.len() as int);
            M::lemma_measure_concat(sm_model, nodes_content(internals@));
            M::lemma_measure_concat(
                sm_model + nodes_content(internals@),
                end_slice.model(),
            );
            assert(ts.model() =~= (sm_model + nodes_content(internals@)) + end_slice.model());
            assert(M::spec_measure(ts.model()) == 1);
            assert(ts.model().drop_last() =~= (sm_model + nodes_content(internals@))
                + end_slice.model().drop_last());
            M::lemma_measure_concat(
                sm_model + nodes_content(internals@),
                end_slice.model().drop_last(),
            );
            M::lemma_measure_concat(ts.model(), self.remaining());
            M::lemma_measure_bounds(self.remaining());
        }
        Some(ts)
    }
}

impl<const N: usize, L: Leaf> Tree<N, L> {
    /// An iterator over this tree's leaves, in order.
    pub fn leaves(&self) -> (r: Leaves<N, L>)
        requires
            self.wf(),
        ensures
            r.wf(),
            r.remaining() == self.leaf_models(),
    {
        Leaves::from_tree(self)
    }

    /// An iterator over this tree's units of the metric `M`.
    pub fn units<M: Metric<L>>(&self) -> (r: Units<N, L, M>)
        requires
            self.wf(),
        ensures
            r.wf(),
            r.remaining() == self.content(),
            r.total == M::spec_measure(self.content()),
    {
        Units::from_tree(self)
    }
}

impl<const N: usize, L: Leaf> TreeSlice<N, L> {
    /// An iterator over the leaves this slice covers, boundary leaves
    /// included.
    pub fn leaves(&self) -> (r: Leaves<N, L>)
        requires
            self.wf(),
        ensures
            r.wf(),
            r.remaining() == self.leaf_models(),
    {
        Leaves::from_tree_slice(self)
    }

    /// An iterator over this slice's units of the metric `M`.
    pub fn units<M: Metric<L>>(&self) -> (r: Units<N, L, M>)
        requires
            self.wf(),
        ensures
            r.wf(),
            r.remaining() == self.model(),
            r.total == M::spec_measure(self.model()),
    {
        Units::from_tree_slice(self)
    }
}

impl<const N: usize, L: Leaf> Leaves<N, L> {
    /// Drains the iterator, returning every remaining leaf in order:
    /// concatenating the results' contents reproduces exactly the content
    /// the iterator still covered.
    pub fn collect_leaves(&mut self) -> (r: Vec<L>)
        requires
            old(self).wf(),
        ensures
            final(self).wf(),
            final(self).remaining().len() == 0,
            r@.map_values(|l: L| l.model()) == old(self).remaining(),
            forall|k: int| 0 <= k < r@.len() ==> (#[trigger] r@[k]).inv(),
    {
        let ghost r0 = self.remaining();
        let mut r: Vec<L> = Vec::new();
        proof {
            assert(r@.map_values(|l: L| l.model()) =~= r0.take(0));
        }
        loop
            invariant
                self.wf(),
                r@.len() <= r0.len(),
                r@.map_values(|l: L| l.model()) == r0.take(r@.len() as int),
                self.remaining() == r0.skip(r@.len() as int),
                forall|k: int| 0 <= k < r@.len() ==> (#[trigger] r@[k]).inv(),
            ensures
                self.wf(),
                self.remaining().len() == 0,
                r@.map_values(|l: L| l.model()) == r0,
            decreases r0.len() - r@.len(),
        {
            match self.next() {
                Some(l) => {
                    r.push(l);
                    proof {
                        assert(r@.map_values(|l: L| l.model()) =~= r0.take(r@.len() as int));
                        assert(self.remaining() =~= r0.skip(r@.len() as int));
                    }
                },
                None => {
                    proof {
                        assert(r0.skip(r@.len() as int) =~= self.remaining());
                        assert(r0.take(r@.len() as int) =~= r0);
                    }
                    break ;
                },
            }
        }
        r
    }
}

/// The sum of the measures of a run of contents, under the metric `M`.
pub open spec fn sum_measures<L: Leaf, M: Metric<L>>(ss: Seq<Seq<L::Item>>) -> int
    decreases ss.len(),
{
    if ss.len() == 0 {
        0
    } else {
        M::spec_measure(ss[0]) + sum_measures::<L, M>(ss.drop_first())
    }
}

/// Summing the measures of a run of contents measures their concatenation:
/// with [`Units::next`]'s postcondition, iterating all units of a tree and
/// summing each unit's measure gives the measure of the tree's whole
/// content.
pub proof fn lemma_sum_measures_is_measure_of_concat<L: Leaf, M: Metric<L>>(ss: Seq<Seq<L::Item>>)
    ensures
        sum_measures::<L, M>(ss) == M::spec_measure(ss.flatten()),
    decreases ss.len(),
{
    if ss.len() == 0 {
        M::lemma_measure_bounds(ss.flatten());
        assert(ss.flatten() =~= Seq::<L::Item>::empty());
        M::lemma_measure_bounds(Seq::<L::Item>::empty());
    } else {
        lemma_sum_measures_is_measure_of_concat::<L, M>(ss.drop_first());
        M::lemma_measure_concat(ss[0], ss.drop_first().flatten());
        assert(ss.flatten() == ss[0] + ss.drop_first().flatten());
    }
}

impl<const N: usize, L: Leaf, M: Metric<L>> Units<N, L, M> {
    /// Drains the iterator, returning every remaining unit in order:
    /// concatenating the results' contents reproduces exactly the content
    /// the iterator still covered, and the measures of the results sum to
    /// that content's measure.
    pub fn collect_units(&mut self) -> (r: Vec<TreeSlice<N, L>>)
        requires
            old(self).wf(),
        ensures
            final(self).wf(),
            final(self).remaining().len() == 0,
            r@.map_values(|ts: TreeSlice<N, L>| ts.model()).flatten() == old(self).remaining(),
            sum_measures::<L, M>(r@.map_values(|ts: TreeSlice<N, L>| ts.model()))
                == M::spec_measure(old(self).remaining()),
            forall|k: int| 0 <= k < r@.len() ==> (#[trigger] r@[k]).wf(),
    {
        let ghost r0 = self.remaining();
        let mut r: Vec<TreeSlice<N, L>> = Vec::new();
        proof {
            assert(r@.map_values(|ts: TreeSlice<N, L>| ts.model()).flatten() =~= Seq::<
                L::Item,
            >::empty());
        }
        loop
            invariant
                self.wf(),
                r@.map_values(|ts: TreeSlice<N, L>| ts.model()).flatten() + self.remaining()
                    == r0,
                forall|k: int| 0 <= k < r@.len() ==> (#[trigger] r@[k]).wf(),
            ensures
                self.wf(),
                self.remaining().len() == 0,
                r@.map_values(|ts: TreeSlice<N, L>| ts.model()).flatten() == r0,
            decreases self.remaining().len(),
        {
            let ghost before = r@.map_values(|ts: TreeSlice<N, L>| ts.model());
            match self.next() {
                Some(ts) => {
                    let ghost m = ts.model();
                    r.push(ts);
                    proof {
                        assert(r@.map_values(|ts: TreeSlice<N, L>| ts.model()) =~= before.push(
                            m,
                        ));
                        before.lemma_flatten_push(m);
                        assert(r@.map_values(|ts: TreeSlice<N, L>| ts.model()).flatten()
                            + self.remaining() =~= r0);
                    }
                },
                None => {
                    proof {
                        assert(r@.map_values(|ts: TreeSlice<N, L>| ts.model()).flatten()
                            =~= r0);
                    }
                    break ;
                },
            }
        }
        proof {
            lemma_sum_measures_is_measure_of_concat::<L, M>(
                r@.map_values(|ts: TreeSlice<N, L>| ts.model()),
            );
        }
        r
    }
}

/// A slice's content is exactly its leaves' contents concatenated: with
/// [`Tree::slice`]'s postcondition, iterating a slice's leaves and
/// concatenating what they hold reproduces the sliced byte range.
pub proof fn lemma_slice_content_is_leaf_concat<const N: usize, L: Leaf>(ts: &TreeSlice<N, L>)
    ensures
        ts.leaf_models().flatten() == ts.model(),
{
    match ts.span {
        SliceSpan::Empty => {
            assert(ts.leaf_models().flatten() =~= Seq::<L::Item>::empty());
        },
        SliceSpan::Single(l) => {
            seq![l.model()].lemma_flatten_one_element();
        },
        SliceSpan::Multi { start, internals, end } => {
            vstd::seq_lib::lemma_flatten_concat(
                seq![start.0.model()] + nodes_models(internals@),
                seq![end.0.model()],
            );
            vstd::seq_lib::lemma_flatten_concat(
                seq![start.0.model()],
                nodes_models(internals@),
            );
            seq![start.0.model()].lemma_flatten_one_element();
            seq![end.0.model()].lemma_flatten_one_element();
            assert((seq![start.0.model()] + nodes_models(internals@)) + seq![end.0.model()]
                =~= ts.leaf_models());
            assert(ts.leaf_models().flatten() =~= ts.model());
        },
    }
}

/// Slicing over the full content range is the identity on content: with
/// [`Tree::slice`]'s postcondition, `slice(0, len)` reproduces the entire
/// original content.
pub proof fn lemma_full_range_slice_is_content<const N: usize, L: Leaf>(
    t: &Tree<N, L>,
    ts: &TreeSlice<N, L>,
)
    requires
        ts.model() == t.content().subrange(0, t.content().len() as int),
    ensures
        ts.model() == t.content(),
{
    assert(t.content().subrange(0, t.content().len() as int) =~= t.content());
}

} // verus!
