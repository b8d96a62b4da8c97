//! Tests for the tree, its slices and its iterators.

use gaprope::count::CountSummary;
use gaprope::gap_buffer::GapBuffer;
use gaprope::gap_slice::{ChunkSummary, GapSlice};
use gaprope::metrics::{ByteMetric, LineMetric};
use gaprope::tree::Tree;
use gaprope::tree_slice::TreeSlice;

fn chunk(text: &[u8]) -> GapSlice {
    GapBuffer::<16>::from(text.to_vec()).as_slice()
}

fn chunk_tree(parts: &[&[u8]]) -> Tree<3, GapSlice> {
    let mut leaves = Vec::new();
    for part in parts {
        leaves.push(chunk(part));
    }
    Tree::<3, GapSlice>::from_leaves(leaves)
}

fn slice_bytes(s: &GapSlice) -> Vec<u8> {
    let mut out = Vec::new();
    let mut i = 0;
    while i < s.len() {
        out.push(s.byte(i));
        i += 1;
    }
    out
}

fn tree_slice_bytes(ts: &TreeSlice<3, GapSlice>) -> Vec<u8> {
    let mut leaves = ts.leaves();
    let mut out = Vec::new();
    for leaf in leaves.collect_leaves() {
        out.extend(slice_bytes(&leaf));
    }
    out
}

#[test]
fn leaves_1() {
    for n in 1..100 {
        let values: Vec<usize> = (0..n).collect();
        let tree = Tree::<2, usize>::from_leaves(values);
        let mut leaves = tree.leaves();
        let mut i = 0;
        while let Some(leaf) = leaves.next() {
            assert_eq!(i, leaf);
            i += 1;
        }
        assert_eq!(i, n);
        assert_eq!(None, leaves.next());
        assert_eq!(None, leaves.next());
    }
}

#[test]
fn summary_is_sum_of_leaf_summaries() {
    let tree = chunk_tree(&[b"ab\n", b"cd"]);
    assert_eq!(&ChunkSummary { bytes: 5, line_breaks: 1 }, tree.summary());

    let values: Vec<usize> = (0..7).collect();
    let counted = Tree::<2, usize>::from_leaves(values);
    assert_eq!(&CountSummary { count: 7 }, counted.summary());
}

#[test]
fn slice_reports_range_summary_and_content() {
    let tree = chunk_tree(&[b"hello ", b"world", b"!\n", b"bye"]);
    let slice = tree.slice(3, 8);
    assert_eq!(5, slice.summary().bytes);
    assert_eq!(b"lo wo".to_vec(), tree_slice_bytes(&slice));

    let across = tree.slice(0, 13);
    assert_eq!(13, across.summary().bytes);
    assert_eq!(1, across.summary().line_breaks);
    assert_eq!(b"hello world!\n".to_vec(), tree_slice_bytes(&across));

    let empty = tree.slice(4, 4);
    assert_eq!(0, empty.summary().bytes);
    assert_eq!(Vec::<u8>::new(), tree_slice_bytes(&empty));
}

#[test]
fn full_range_slice_reproduces_content() {
    let tree = chunk_tree(&[b"one\n", b"two\n", b"three"]);
    let total = tree.summary().bytes;
    let slice = tree.slice(0, total);
    assert_eq!(b"one\ntwo\nthree".to_vec(), tree_slice_bytes(&slice));
    assert_eq!(total, slice.summary().bytes);
}

#[test]
fn leaves_iterator_is_fused() {
    let tree = chunk_tree(&[b"a", b"b"]);
    let mut leaves = tree.leaves();
    assert!(leaves.next().is_some());
    assert!(leaves.next().is_some());
    assert!(leaves.next().is_none());
    assert!(leaves.next().is_none());
    assert!(leaves.next().is_none());
}

#[test]
fn units_by_line_split_at_breaks() {
    let tree = chunk_tree(&[b"aa\n", b"b\nc"]);
    assert_eq!(2, tree.summary().line_breaks);
    let mut units = tree.units::<LineMetric>();
    let all = units.collect_units();
    let mut contents = Vec::new();
    let mut measure_sum = 0;
    for unit in &all {
        contents.push(tree_slice_bytes(unit));
        measure_sum += unit.summary().line_breaks;
    }
    assert_eq!(
        vec![b"aa\n".to_vec(), b"b\n".to_vec(), b"c".to_vec()],
        contents
    );
    assert_eq!(2, measure_sum);
    assert!(units.next().is_none());
    assert!(units.next().is_none());
}

#[test]
fn units_concatenate_to_the_whole_content() {
    let tree = chunk_tree(&[b"x\ny", b"y\n", b"tail"]);
    let mut units = tree.units::<LineMetric>();
    let mut out = Vec::new();
    while let Some(unit) = units.next() {
        out.extend(tree_slice_bytes(&unit));
    }
    assert_eq!(b"x\nyy\ntail".to_vec(), out);
}

#[test]
fn units_by_base_item_visit_every_leaf() {
    let values: Vec<usize> = (0..5).collect();
    let tree = Tree::<2, usize>::from_leaves(values);
    let mut units = tree.units::<ByteMetric>();
    let mut count = 0;
    while let Some(unit) = units.next() {
        assert_eq!(1, unit.summary().count);
        count += 1;
    }
    assert_eq!(5, count);
    assert!(units.next().is_none());
}

#[test]
fn units_of_a_ranged_slice() {
    // a ranged view iterates by units just like a whole tree
    let tree = chunk_tree(&[b"ab\ncd\n", b"ef"]);
    let slice = tree.slice(1, 7);
    assert_eq!(b"b\ncd\ne".to_vec(), tree_slice_bytes(&slice));
    let mut units = slice.units::<LineMetric>();
    let collected = units.collect_units();
    let mut contents = Vec::new();
    for unit in collected {
        contents.push(tree_slice_bytes(&unit));
    }
    assert_eq!(
        vec![b"b\n".to_vec(), b"cd\n".to_vec(), b"e".to_vec()],
        contents
    );
}

#[test]
fn single_leaf_tree_round_trip() {
    let tree = chunk_tree(&[b"lonely"]);
    assert_eq!(6, tree.summary().bytes);
    let slice = tree.slice(0, 6);
    assert_eq!(b"lonely".to_vec(), tree_slice_bytes(&slice));
    let mut units = tree.units::<LineMetric>();
    let only = units.next().expect("one final unit");
    assert_eq!(b"lonely".to_vec(), tree_slice_bytes(&only));
    assert!(units.next().is_none());
}

#[test]
fn reslicing_full_range_is_identity() {
    let tree = chunk_tree(&[b"abc\n", b"defg", b"hi"]);
    let outer = tree.slice(2, 9);
    let inner = outer.slice(0, outer.summary().bytes);
    assert_eq!(tree_slice_bytes(&outer), tree_slice_bytes(&inner));
    assert_eq!(outer.summary(), inner.summary());
    // an interior re-slice composes with the original range
    let nested = outer.slice(1, 4);
    assert_eq!(tree_slice_bytes(&tree.slice(3, 6)), tree_slice_bytes(&nested));
}
