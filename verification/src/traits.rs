//! The leaf and metric capabilities the tree is generic over.
//!
//! A [`Leaf`] is a bounded container of items (bytes, for text chunks) whose
//! statistics — its [`Leaf::Summary`] — are a function of its content and add
//! up over concatenation. A [`Metric`] is one way of counting units across
//! summaries, together with the ability to split a leaf off right after its
//! first unit.

use vstd::prelude::*;

verus! {

/// A value stored at the bottom of the tree.
///
/// Every law the tree relies on is a proof obligation here: summaries are a
/// function of content, closed under addition; splitting partitions content.
pub trait Leaf: Sized {
    /// The elementary items the content is a sequence of.
    type Item;

    /// The additive statistics cached in every tree node.
    type Summary: Copy;

    /// The value's validity: what its constructors establish and every
    /// operation preserves.
    spec fn inv(&self) -> bool;

    /// The content of this leaf.
    spec fn model(&self) -> Seq<Self::Item>;

    /// The statistics of a content.
    spec fn summary_of(m: Seq<Self::Item>) -> Self::Summary;

    /// Whether a content is small enough for its statistics to be exact in
    /// machine integers.
    spec fn fits(m: Seq<Self::Item>) -> bool;

    /// Summary addition. Exact on contents that fit, by
    /// [`Leaf::lemma_add_summary`].
    spec fn add_summary(a: Self::Summary, b: Self::Summary) -> Self::Summary;

    /// No content always fits.
    proof fn lemma_fits_empty()
        ensures
            Self::fits(Seq::<Self::Item>::empty()),
    ;

    /// A part of a fitting content fits.
    proof fn lemma_fits_subrange(m: Seq<Self::Item>, i: int, j: int)
        requires
            Self::fits(m),
            0 <= i <= j <= m.len(),
        ensures
            Self::fits(m.subrange(i, j)),
    ;

    /// Summaries add as their contents concatenate.
    proof fn lemma_add_summary(a: Seq<Self::Item>, b: Seq<Self::Item>)
        requires
            Self::fits(a + b),
        ensures
            Self::add_summary(Self::summary_of(a), Self::summary_of(b)) == Self::summary_of(a + b),
    ;

    /// Computes this leaf's statistics.
    fn summarize(&self) -> (s: Self::Summary)
        requires
            self.inv(),
            Self::fits(self.model()),
        ensures
            s == Self::summary_of(self.model()),
    ;

    /// Adds two summaries of known contents.
    fn combine(
        s1: &Self::Summary,
        s2: &Self::Summary,
        Ghost(a): Ghost<Seq<Self::Item>>,
        Ghost(b): Ghost<Seq<Self::Item>>,
    ) -> (s: Self::Summary)
        requires
            *s1 == Self::summary_of(a),
            *s2 == Self::summary_of(b),
            Self::fits(a + b),
        ensures
            s == Self::summary_of(a + b),
    ;

    /// The summary of no content.
    fn empty_summary() -> (s: Self::Summary)
        ensures
            s == Self::summary_of(Seq::<Self::Item>::empty()),
    ;

    /// Reads a content's length back out of its summary.
    fn base_len(s: &Self::Summary, Ghost(m): Ghost<Seq<Self::Item>>) -> (r: usize)
        requires
            *s == Self::summary_of(m),
            Self::fits(m),
        ensures
            r == m.len(),
    ;

    /// A leaf with the same content.
    fn duplicate(&self) -> (r: Self)
        requires
            self.inv(),
        ensures
            r.inv(),
            r.model() == self.model(),
    ;

    /// Splits the content at an interior offset.
    fn split_leaf(&self, at: usize) -> (r: (Self, Self))
        requires
            self.inv(),
            Self::fits(self.model()),
            0 < at < self.model().len(),
        ensures
            r.0.inv(),
            r.1.inv(),
            r.0.model() == self.model().take(at as int),
            r.1.model() == self.model().skip(at as int),
    ;
}

/// One dimension along which content is counted: a measure of contents that
/// adds up over concatenation and never exceeds the item count.
pub trait Metric<L: Leaf>: Sized {
    /// How many units of this metric a content holds.
    spec fn spec_measure(m: Seq<L::Item>) -> int;

    /// The measure adds up over concatenation.
    proof fn lemma_measure_concat(a: Seq<L::Item>, b: Seq<L::Item>)
        ensures
            Self::spec_measure(a + b) == Self::spec_measure(a) + Self::spec_measure(b),
    ;

    /// The measure is non-negative and bounded by the item count.
    proof fn lemma_measure_bounds(m: Seq<L::Item>)
        ensures
            0 <= Self::spec_measure(m) <= m.len(),
    ;

    /// Reads the measure out of a summary.
    fn measure(s: &L::Summary, Ghost(m): Ghost<Seq<L::Item>>) -> (r: usize)
        requires
            *s == L::summary_of(m),
            L::fits(m),
        ensures
            r == Self::spec_measure(m),
    ;

    /// Splits a leaf right after its first unit: the left part measures
    /// exactly one, ends exactly at the unit boundary, and concatenating the
    /// parts reconstructs the leaf; the right remainder is absent exactly
    /// when the unit boundary is the leaf's end.
    fn split_one(leaf: &L, s: &L::Summary) -> (r: (L, L::Summary, Option<(L, L::Summary)>))
        requires
            leaf.inv(),
            *s == L::summary_of(leaf.model()),
            L::fits(leaf.model()),
            Self::spec_measure(leaf.model()) >= 1,
        ensures
            r.0.inv(),
            r.0.model().len() > 0,
            r.1 == L::summary_of(r.0.model()),
            Self::spec_measure(r.0.model()) == 1,
            Self::spec_measure(r.0.model().drop_last()) == 0,
            match r.2 {
                Some(rest) => r.0.model() + rest.0.model() == leaf.model() && rest.0.inv()
                    && rest.0.model().len() > 0 && rest.1 == L::summary_of(rest.0.model()),
                None => r.0.model() == leaf.model(),
            },
    ;
}

} // verus!
