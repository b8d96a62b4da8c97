//! Tests for the gap-buffer chunk layer.

use gaprope::gap_buffer::GapBuffer;
use gaprope::gap_slice::{ChunkSummary, GapSlice};
use gaprope::{range_bounds_to_start_end, RangeBound};

fn slice_bytes(s: &GapSlice) -> Vec<u8> {
    let mut out = Vec::new();
    let mut i = 0;
    while i < s.len() {
        out.push(s.byte(i));
        i += 1;
    }
    out
}

#[test]
fn debug_slice() {
    let buffer = GapBuffer::<10>::from(b"Hello".to_vec());
    assert_eq!("\"He~~~~~llo\"", buffer.as_slice().debug_string());
}

#[test]
fn chunk_reports_length_content_and_gap() {
    let buffer = GapBuffer::<10>::from(b"Hello".to_vec());
    let s = buffer.as_slice();
    assert_eq!(5, s.len());
    assert_eq!(2, s.len_first_segment());
    assert_eq!(3, s.len_second_segment());
    assert_eq!(5, s.len_gap());
    let sub = s.byte_slice(0, 5);
    assert_eq!(b"Hello".to_vec(), slice_bytes(&sub));
    assert_eq!("\"He~~~~~llo\"", s.debug_string());
}

#[test]
fn byte_slice_segment_cases() {
    // first segment "He", gap, second segment "llo"
    let buffer = GapBuffer::<10>::from(b"Hello".to_vec());
    let s = buffer.as_slice();

    // fully inside the first segment
    let a = s.byte_slice(0, 2);
    assert_eq!(2, a.len_first_segment());
    assert_eq!(0, a.len_second_segment());
    assert_eq!(b"He".to_vec(), slice_bytes(&a));

    // straddling both segments
    let b = s.byte_slice(1, 4);
    assert_eq!(1, b.len_first_segment());
    assert_eq!(2, b.len_second_segment());
    assert_eq!(b"ell".to_vec(), slice_bytes(&b));

    // fully inside the second segment
    let c = s.byte_slice(3, 5);
    assert_eq!(0, c.len_first_segment());
    assert_eq!(2, c.len_second_segment());
    assert_eq!(b"lo".to_vec(), slice_bytes(&c));

    // every case sums to the sliced length
    assert_eq!(2, a.len());
    assert_eq!(3, b.len());
    assert_eq!(2, c.len());
}

#[test]
fn split_at_offset_partitions() {
    let buffer = GapBuffer::<8>::from(b"abcdef".to_vec());
    let s = buffer.as_slice();
    let (left, right) = s.split_at_offset(4);
    assert_eq!(b"abcd".to_vec(), slice_bytes(&left));
    assert_eq!(b"ef".to_vec(), slice_bytes(&right));
}

#[test]
fn summarize_counts_bytes_and_breaks() {
    let buffer = GapBuffer::<16>::from(b"ab\ncd\nef".to_vec());
    let s = buffer.as_slice();
    assert_eq!(ChunkSummary { bytes: 8, line_breaks: 2 }, s.summarize());
    let empty = GapSlice::empty();
    assert_eq!(ChunkSummary { bytes: 0, line_breaks: 0 }, empty.summarize());
}

#[test]
fn byte_of_line_probes_both_segments() {
    let buffer = GapBuffer::<16>::from(b"ab\ncd\nef".to_vec());
    let s = buffer.as_slice();
    assert_eq!(0, s.byte_of_line(0));
    assert_eq!(3, s.byte_of_line(1));
    assert_eq!(6, s.byte_of_line(2));
    // lines past the last break resolve to the content's end
    assert_eq!(8, s.byte_of_line(3));
    assert_eq!(8, s.byte_of_line(7));
}

#[test]
fn trailing_newline_looks_at_last_segment() {
    let with = GapBuffer::<8>::from(b"ab\n".to_vec());
    assert!(with.as_slice().has_trailing_newline());
    let without = GapBuffer::<8>::from(b"ab".to_vec());
    assert!(!without.as_slice().has_trailing_newline());
    assert!(!GapSlice::empty().has_trailing_newline());
}

#[test]
fn last_segment_prefers_the_second() {
    let buffer = GapBuffer::<10>::from(b"Hello".to_vec());
    assert_eq!(b"llo".to_vec(), buffer.as_slice().last_segment());
    let empty = GapSlice::empty();
    assert_eq!(Vec::<u8>::new(), empty.last_segment());
}

#[test]
fn char_boundaries_respect_continuation_bytes() {
    // one two-byte code point
    let buffer = GapBuffer::<4>::from(vec![0xC3, 0xA9]);
    let s = buffer.as_slice();
    assert!(s.is_char_boundary(0));
    assert!(!s.is_char_boundary(1));
    assert!(s.is_char_boundary(2));
}

#[test]
fn range_bounds_resolve_against_limits() {
    assert_eq!(
        (2, 7),
        range_bounds_to_start_end(RangeBound::Included(2), RangeBound::Excluded(7), 0, 9)
    );
    assert_eq!(
        (3, 8),
        range_bounds_to_start_end(RangeBound::Excluded(2), RangeBound::Included(7), 0, 9)
    );
    assert_eq!(
        (0, 9),
        range_bounds_to_start_end(RangeBound::Unbounded, RangeBound::Unbounded, 0, 9)
    );
}

#[test]
fn buffer_split_point_avoids_code_points() {
    // content "éx": the midpoint falls inside the two-byte code point and
    // must move past its continuation byte
    let buffer = GapBuffer::<4>::from(vec![0xC3, 0xA9, b'x']);
    let s = buffer.as_slice();
    assert_eq!(2, s.len_first_segment());
    assert_eq!(1, s.len_second_segment());
    assert_eq!(vec![0xC3, 0xA9, b'x'], {
        let mut out = Vec::new();
        let mut i = 0;
        while i < s.len() {
            out.push(s.byte(i));
            i += 1;
        }
        out
    });
}
