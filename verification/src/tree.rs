//! The tree itself: bulk balanced construction and aggregate queries.

use std::sync::Arc;

use vstd::prelude::*;

use crate::node::{
    arc_clone, lemma_node_prefix_split, lemma_nodes_content_concat, lemma_nodes_models_concat,
    lemma_nodes_models_singleton, nodes_content, nodes_models, nodes_wf, Node,
};
use crate::traits::Leaf;

verus! {

/// The models of a run of leaf values, in order.
pub open spec fn leaf_values_models<L: Leaf>(leaves: Seq<L>) -> Seq<Seq<L::Item>> {
    leaves.map_values(|l: L| l.model())
}

/// A balanced `N`-ary tree over leaves, every node carrying the summary of
/// its subtree. Snapshots share unmodified subtrees by reference count.
pub struct Tree<const N: usize, L: Leaf> {
    pub root: Arc<Node<N, L>>,
}

impl<const N: usize, L: Leaf> Tree<N, L> {
    /// The root is well-formed: summaries match content everywhere and all
    /// leaves are equidistant from the root.
    pub open spec fn wf(&self) -> bool {
        (*self.root).wf()
    }

    /// The models of the tree's leaves, in order.
    pub open spec fn leaf_models(&self) -> Seq<Seq<L::Item>> {
        (*self.root).leaf_models()
    }

    /// The tree's content: its leaves' models concatenated.
    pub open spec fn content(&self) -> Seq<L::Item> {
        (*self.root).content()
    }

    /// Bulk balanced construction: wraps every leaf value in a leaf node,
    /// then repeatedly groups runs of up to `N` nodes under new parents
    /// until a single root remains. One bottom-up pass, no incremental
    /// rebalancing.
    pub fn from_leaves(leaves: Vec<L>) -> (r: Self)
        requires
            N >= 2,
            leaves@.len() >= 1,
            forall|k: int| 0 <= k < leaves@.len() ==> (#[trigger] leaves@[k]).inv(),
            forall|k: int|
                0 <= k < leaves@.len() ==> L::fits((#[trigger] leaves@[k]).model()),
            forall|k: int|
                0 <= k < leaves@.len() ==> (#[trigger] leaves@[k]).model().len() > 0,
            L::fits(leaf_values_models(leaves@).flatten()),
        ensures
            r.wf(),
            r.leaf_models() == leaf_values_models(leaves@),
            r.content() == leaf_values_models(leaves@).flatten(),
    {
        let ghost all_models = leaf_values_models(leaves@);
        let mut nodes: Vec<Arc<Node<N, L>>> = Vec::new();
        let mut i: usize = 0;
        while i < leaves.len()
            invariant
                0 <= i <= leaves@.len(),
                forall|k: int| 0 <= k < leaves@.len() ==> (#[trigger] leaves@[k]).inv(),
                forall|k: int|
                    0 <= k < leaves@.len() ==> L::fits((#[trigger] leaves@[k]).model()),
                forall|k: int|
                    0 <= k < leaves@.len() ==> (#[trigger] leaves@[k]).model().len() > 0,
                all_models == leaf_values_models(leaves@),
                nodes@.len() == i,
                nodes_wf(nodes@, 0),
                nodes_models(nodes@) == all_models.take(i as int),
            decreases leaves@.len() - i,
        {
            let node = Node::leaf(leaves[i].duplicate());
            let ghost prev = nodes@;
            nodes.push(Arc::new(node));
            proof {
                assert(nodes@ =~= prev + seq![nodes@.last()]);
                lemma_nodes_models_concat(prev, seq![nodes@.last()]);
                lemma_nodes_models_singleton(nodes@.last());
                assert(all_models.take(i + 1) =~= all_models.take(i as int) + seq![
                    all_models[i as int],
                ]);
                assert(nodes_models(nodes@) =~= all_models.take(i + 1));
            }
            i += 1;
        }
        proof {
            assert(all_models.take(leaves@.len() as int) =~= all_models);
        }
        let ghost mut h: int = 0;
        while nodes.len() > 1
            invariant
                N >= 2,
                nodes@.len() >= 1,
                nodes_wf(nodes@, h),
                nodes_models(nodes@) == all_models,
                L::fits(nodes_content(nodes@)),
            decreases nodes@.len(),
        {
            let ghost level = nodes@;
            let mut next: Vec<Arc<Node<N, L>>> = Vec::new();
            let mut j: usize = 0;
            proof {
                assert(level.skip(0) =~= level);
            }
            while j < nodes.len()
                invariant
                    N >= 2,
                    0 <= j <= level.len(),
                    level == nodes@,
                    2 <= level.len(),
                    nodes_wf(level, h),
                    nodes_wf(next@, h + 1),
                    L::fits(nodes_content(level)),
                    nodes_models(next@) + nodes_models(level.skip(j as int)) == nodes_models(
                        level,
                    ),
                    next@.len() == 0 ==> j == 0,
                    next@.len() >= 1 ==> next@.len() < j,
                decreases level.len() - j,
            {
                let hi = if nodes.len() - j >= N {
                    j + N
                } else {
                    nodes.len()
                };
                let mut group: Vec<Arc<Node<N, L>>> = Vec::new();
                let mut k = j;
                proof {
                    assert(level.subrange(j as int, j as int) =~= Seq::<
                        Arc<Node<N, L>>,
                    >::empty());
                }
                while k < hi
                    invariant
                        0 <= j <= k <= hi <= level.len(),
                        level == nodes@,
                        group@ == level.subrange(j as int, k as int),
                    decreases hi - k,
                {
                    group.push(arc_clone(&nodes[k]));
                    proof {
                        assert(group@ =~= level.subrange(j as int, k + 1));
                    }
                    k += 1;
                }
                proof {
                    assert(level.skip(j as int) =~= group@ + level.skip(hi as int));
                    lemma_nodes_models_concat(group@, level.skip(hi as int));
                    lemma_nodes_content_concat(group@, level.skip(hi as int));
                    lemma_nodes_models_concat(next@, level.skip(j as int));
                    lemma_nodes_content_concat(next@, level.skip(j as int));
                    assert(nodes_content(level) =~= nodes_content(next@) + (nodes_content(group@)
                        + nodes_content(level.skip(hi as int))));
                    assert(nodes_content(group@) =~= nodes_content(level).subrange(
                        nodes_content(next@).len() as int,
                        nodes_content(next@).len() + nodes_content(group@).len() as int,
                    ));
                    L::lemma_fits_subrange(
                        nodes_content(level),
                        nodes_content(next@).len() as int,
                        nodes_content(next@).len() + nodes_content(group@).len() as int,
                    );
                }
                let parent = Node::internal(group, Ghost(h));
                let ghost prev_next = next@;
                next.push(Arc::new(parent));
                proof {
                    assert(next@ =~= prev_next + seq![next@.last()]);
                    lemma_nodes_models_concat(prev_next, seq![next@.last()]);
                    lemma_nodes_models_singleton(next@.last());
                    assert(nodes_models(next@) + nodes_models(level.skip(hi as int))
                        =~= nodes_models(level));
                }
                j = hi;
            }
            proof {
                assert(level.skip(j as int) =~= Seq::<Arc<Node<N, L>>>::empty());
                assert(nodes_models(next@) =~= nodes_models(level));
            }
            nodes = next;
            proof {
                h = h + 1;
            }
        }
        let ghost last_level = nodes@;
        let root = match nodes.pop() {
            Some(root) => root,
            None => vstd::pervasive::unreached(),
        };
        proof {
            assert(last_level =~= seq![root]);
            lemma_nodes_models_singleton(root);
        }
        Tree { root }
    }

    /// The aggregate summary of the whole tree, read from the root's cache.
    pub fn summary(&self) -> (r: &L::Summary)
        requires
            self.wf(),
        ensures
            *r == L::summary_of(self.content()),
    {
        (*self.root).summary()
    }
}

/// The sum of a run of per-leaf summaries, folded from the left.
pub open spec fn sum_summaries<L: Leaf>(models: Seq<Seq<L::Item>>) -> L::Summary
    decreases models.len(),
{
    if models.len() == 0 {
        L::summary_of(Seq::<L::Item>::empty())
    } else {
        L::add_summary(L::summary_of(models[0]), sum_summaries::<L>(models.drop_first()))
    }
}

/// Summing per-leaf summaries gives the summary of the concatenated
/// content: with [`Tree::from_leaves`]'s postcondition, the summary of a
/// freshly built tree is the sum of the summaries of the leaves it was
/// given.
pub proof fn lemma_sum_summaries_is_summary_of_concat<L: Leaf>(models: Seq<Seq<L::Item>>)
    requires
        L::fits(models.flatten()),
    ensures
        sum_summaries::<L>(models) == L::summary_of(models.flatten()),
    decreases models.len(),
{
    if models.len() == 0 {
        assert(models.flatten() =~= Seq::<L::Item>::empty());
    } else {
        let rest = models.drop_first();
        assert(models.flatten() == models[0] + rest.flatten());
        L::lemma_fits_subrange(
            models.flatten(),
            models[0].len() as int,
            models.flatten().len() as int,
        );
        assert(rest.flatten() =~= models.flatten().subrange(
            models[0].len() as int,
            models.flatten().len() as int,
        ));
        lemma_sum_summaries_is_summary_of_concat::<L>(rest);
        L::lemma_add_summary(models[0], rest.flatten());
    }
}

} // verus!
