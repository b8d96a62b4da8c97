//! The mutable leaf buffer behind a [`GapSlice`].
//!
//! A buffer has a fixed byte capacity; its content is kept in two segments
//! with the unused capacity as a gap between them, so that small edits near
//! the gap need no full reallocation.

use vstd::prelude::*;

use crate::gap_slice::{seg_boundary, vec_subrange, GapSlice};

verus! {

/// The first index at or after `i` that does not continue a multi-byte code
/// point, or the content's end.
pub open spec fn next_boundary(m: Seq<u8>, i: int) -> int
    decreases m.len() - i,
    when 0 <= i <= m.len()
{
    if i == m.len() || !vstd::utf8::is_continuation_byte(m[i]) {
        i
    } else {
        next_boundary(m, i + 1)
    }
}

/// The first code-point boundary in `v` at or after `from`.
fn adjust_to_boundary(v: &Vec<u8>, from: usize) -> (r: usize)
    requires
        from <= v@.len(),
    ensures
        from <= r <= v@.len(),
        r == next_boundary(v@, from as int),
        seg_boundary(v@, r as int),
{
    let mut mid = from;
    while mid < v.len()
        invariant
            from <= mid <= v@.len(),
            next_boundary(v@, from as int) == next_boundary(v@, mid as int),
        decreases v@.len() - mid,
    {
        let b = v[mid];
        if !(0x80 <= b && b <= 0xbf) {
            return mid;
        }
        mid += 1;
    }
    mid
}

/// A text buffer of fixed capacity `MAX_BYTES`, laid out as
/// `[first segment][gap][second segment]`.
pub struct GapBuffer<const MAX_BYTES: usize> {
    pub bytes: Vec<u8>,
    pub len_first_segment: usize,
    pub len_second_segment: usize,
}

impl<const MAX_BYTES: usize> GapBuffer<MAX_BYTES> {
    /// The buffer fills its capacity exactly; the segments fit inside it.
    pub open spec fn wf(&self) -> bool {
        self.bytes@.len() == MAX_BYTES && self.len_first_segment + self.len_second_segment
            <= MAX_BYTES
    }

    /// The logical content: both segments, the gap left out.
    pub open spec fn model(&self) -> Seq<u8> {
        self.bytes@.subrange(0, self.len_first_segment as int) + self.bytes@.subrange(
            self.bytes@.len() - self.len_second_segment,
            self.bytes@.len() as int,
        )
    }

    /// A buffer holding `content`, the gap centered so that both segments
    /// absorb edits equally well: the first segment ends at the first
    /// code-point boundary at or past the midpoint.
    pub fn from(content: Vec<u8>) -> (r: Self)
        requires
            content@.len() <= MAX_BYTES,
        ensures
            r.wf(),
            r.model() == content@,
            r.len_first_segment == next_boundary(content@, content@.len() as int / 2),
    {
        let len = content.len();
        let mid = adjust_to_boundary(&content, len / 2);
        let mut bytes = vec_subrange(&content, 0, mid);
        let mut filled = mid;
        while filled < MAX_BYTES - (len - mid)
            invariant
                len == content@.len(),
                mid <= len <= MAX_BYTES,
                mid <= filled <= MAX_BYTES - (len - mid),
                bytes@.len() == filled,
                bytes@.subrange(0, mid as int) == content@.subrange(0, mid as int),
            decreases MAX_BYTES - (len - mid) - filled,
        {
            bytes.push(0);
            proof {
                assert(bytes@.subrange(0, mid as int) =~= content@.subrange(0, mid as int));
            }
            filled += 1;
        }
        let mut j = mid;
        while j < len
            invariant
                len == content@.len(),
                mid <= j <= len <= MAX_BYTES,
                bytes@.len() == MAX_BYTES - (len - mid) + (j - mid),
                bytes@.subrange(0, mid as int) == content@.subrange(0, mid as int),
                bytes@.subrange(MAX_BYTES - (len - mid) as int, bytes@.len() as int)
                    == content@.subrange(mid as int, j as int),
            decreases len - j,
        {
            bytes.push(content[j]);
            proof {
                assert(bytes@.subrange(0, mid as int) =~= content@.subrange(0, mid as int));
                assert(bytes@.subrange(MAX_BYTES - (len - mid) as int, bytes@.len() as int) =~= content@.subrange(
                    mid as int,
                    j + 1,
                ));
            }
            j += 1;
        }
        let r = GapBuffer { bytes, len_first_segment: mid, len_second_segment: len - mid };
        proof {
            assert(r.model() =~= content@);
        }
        r
    }

    /// The read-only view over the whole buffer.
    pub fn as_slice(&self) -> (r: GapSlice)
        requires
            self.wf(),
        ensures
            r.wf(),
            r.model() == self.model(),
            r.len_first_segment == self.len_first_segment,
            r.len_second_segment == self.len_second_segment,
            r.bytes@.len() == MAX_BYTES,
    {
        let r = GapSlice {
            bytes: vec_subrange(&self.bytes, 0, self.bytes.len()),
            len_first_segment: self.len_first_segment,
            len_second_segment: self.len_second_segment,
        };
        proof {
            assert(r.bytes@ =~= self.bytes@);
            assert(r.model() =~= self.model());
        }
        r
    }

    /// The logical length of the content.
    pub fn len(&self) -> (r: usize)
        requires
            self.wf(),
        ensures
            r == self.model().len(),
    {
        self.len_first_segment + self.len_second_segment
    }
}

} // verus!
