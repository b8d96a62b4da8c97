//! Gap-buffer chunks and their read-only views.
//!
//! A [`GapBuffer`] stores text as `[first segment][gap][second segment]`
//! inside a buffer of fixed capacity; the gap has no defined content and is
//! never read. A [`GapSlice`] is the read-only view of such a buffer that
//! tree leaves hold: its logical content is the first segment followed by
//! the second, and it is described purely by the two segment lengths.

use vstd::prelude::*;

use crate::traits::Leaf;

verus! {

/// The additive statistics of one chunk: its byte length and the number of
/// line breaks (`\n`) it contains.
#[derive(Clone, Copy, PartialEq, Eq, Structural, Debug)]
pub struct ChunkSummary {
    pub bytes: usize,
    pub line_breaks: usize,
}

/// The line-feed byte.
pub open spec fn nl() -> u8 {
    10
}

/// How many line breaks `m` contains.
pub open spec fn count_breaks(m: Seq<u8>) -> int
    decreases m.len(),
{
    if m.len() == 0 {
        0
    } else {
        (if m[0] == nl() {
            1int
        } else {
            0int
        }) + count_breaks(m.drop_first())
    }
}

/// The byte offset at which the zero-based line `k` of `m` starts: `0` for
/// line `0`, the offset just after the `k`-th line break otherwise, or
/// `m.len()` if `m` holds fewer than `k` breaks.
pub open spec fn line_start(m: Seq<u8>, k: int) -> int
    decreases m.len(),
{
    if k <= 0 || m.len() == 0 {
        0
    } else if m[0] == nl() {
        1 + line_start(m.drop_first(), k - 1)
    } else {
        1 + line_start(m.drop_first(), k)
    }
}

/// There are never more line breaks than bytes.
pub proof fn lemma_count_breaks_le_len(m: Seq<u8>)
    ensures
        0 <= count_breaks(m) <= m.len(),
    decreases m.len(),
{
    if m.len() > 0 {
        lemma_count_breaks_le_len(m.drop_first());
    }
}

/// Line breaks add up over concatenation.
pub proof fn lemma_count_breaks_concat(a: Seq<u8>, b: Seq<u8>)
    ensures
        count_breaks(a + b) == count_breaks(a) + count_breaks(b),
    decreases a.len(),
{
    if a.len() == 0 {
        assert(a + b =~= b);
    } else {
        assert((a + b).drop_first() =~= a.drop_first() + b);
        lemma_count_breaks_concat(a.drop_first(), b);
    }
}

/// Appending one byte adds one break exactly when that byte is a line feed.
pub proof fn lemma_count_breaks_push(m: Seq<u8>, x: u8)
    ensures
        count_breaks(m.push(x)) == count_breaks(m) + if x == nl() {
            1int
        } else {
            0int
        },
{
    assert(m.push(x) =~= m + seq![x]);
    lemma_count_breaks_concat(m, seq![x]);
    assert(count_breaks(seq![x]) == if x == nl() {
        1int
    } else {
        0int
    }) by {
        reveal_with_fuel(count_breaks, 2);
        assert(seq![x].drop_first() =~= Seq::<u8>::empty());
    }
}

/// Locating a line in a concatenation: the probe stays in `a` when it lands
/// strictly inside it, and otherwise continues into `b` with the breaks
/// already consumed in `a` subtracted.
pub proof fn lemma_line_start_concat(a: Seq<u8>, b: Seq<u8>, k: int)
    ensures
        line_start(a + b, k) == if line_start(a, k) < a.len() {
            line_start(a, k)
        } else {
            a.len() + line_start(b, k - count_breaks(a))
        },
    decreases a.len(),
{
    lemma_count_breaks_le_len(a);
    if a.len() == 0 {
        assert(a + b =~= b);
    } else if k <= 0 {
        assert(line_start(a, k) == 0);
    } else {
        assert((a + b).drop_first() =~= a.drop_first() + b);
        if a[0] == nl() {
            lemma_line_start_concat(a.drop_first(), b, k - 1);
        } else {
            lemma_line_start_concat(a.drop_first(), b, k);
        }
    }
}

/// A read-only view of a gap buffer: `bytes` holds the first segment, then
/// an unused gap, then the second segment. The logical content is the two
/// segments concatenated; the gap is never read.
pub struct GapSlice {
    pub bytes: Vec<u8>,
    pub len_first_segment: usize,
    pub len_second_segment: usize,
}

impl GapSlice {
    /// The segment lengths fit inside the buffer.
    pub open spec fn wf(&self) -> bool {
        self.len_first_segment + self.len_second_segment <= self.bytes@.len()
    }

    /// The first segment's bytes.
    pub open spec fn first_segment_spec(&self) -> Seq<u8> {
        self.bytes@.subrange(0, self.len_first_segment as int)
    }

    /// The second segment's bytes: the final `len_second_segment` bytes of
    /// the buffer.
    pub open spec fn second_segment_spec(&self) -> Seq<u8> {
        self.bytes@.subrange(
            self.bytes@.len() - self.len_second_segment,
            self.bytes@.len() as int,
        )
    }

    /// The logical content: both segments, with the gap left out.
    pub open spec fn model(&self) -> Seq<u8> {
        self.first_segment_spec() + self.second_segment_spec()
    }

    pub open spec fn spec_len(&self) -> int {
        self.len_first_segment + self.len_second_segment
    }

    /// An empty view.
    pub fn empty() -> (r: GapSlice)
        ensures
            r.wf(),
            r.model() == Seq::<u8>::empty(),
            r.len_first_segment == 0,
            r.len_second_segment == 0,
            r.bytes@.len() == 0,
    {
        let r = GapSlice { bytes: Vec::new(), len_first_segment: 0, len_second_segment: 0 };
        proof {
            assert(r.model() =~= Seq::<u8>::empty());
        }
        r
    }

    /// The logical length: both segment lengths, the gap not counted.
    pub fn len(&self) -> (r: usize)
        requires
            self.wf(),
        ensures
            r == self.model().len(),
            r == self.spec_len(),
    {
        let capacity = self.bytes.len();
        assert(self.len_first_segment + self.len_second_segment <= capacity);
        self.len_first_segment + self.len_second_segment
    }

    pub fn len_first_segment(&self) -> (r: usize)
        ensures
            r == self.len_first_segment,
    {
        self.len_first_segment
    }

    pub fn len_second_segment(&self) -> (r: usize)
        ensures
            r == self.len_second_segment,
    {
        self.len_second_segment
    }

    /// How many bytes of the buffer belong to the gap.
    pub fn len_gap(&self) -> (r: usize)
        requires
            self.wf(),
        ensures
            r == self.bytes@.len() - self.spec_len(),
    {
        self.bytes.len() - self.len()
    }

    /// The byte at logical index `byte_index`, read from whichever segment
    /// contains it.
    pub fn byte(&self, byte_index: usize) -> (r: u8)
        requires
            self.wf(),
            byte_index < self.spec_len(),
        ensures
            r == self.model()[byte_index as int],
    {
        if byte_index < self.len_first_segment {
            self.bytes[byte_index]
        } else {
            let i = self.bytes.len() - self.len_second_segment + (byte_index
                - self.len_first_segment);
            self.bytes[i]
        }
    }

    /// A new view over the logical byte range `[start, end)`, with the
    /// segment split recomputed at the boundary between the two segments:
    /// the range lies entirely in the first segment, straddles both, or lies
    /// entirely in the second.
    pub fn byte_slice(&self, start: usize, end: usize) -> (r: GapSlice)
        requires
            self.wf(),
            start <= end,
            end <= self.spec_len(),
        ensures
            r.wf(),
            r.model() == self.model().subrange(start as int, end as int),
            r.spec_len() == end - start,
            end <= self.len_first_segment ==> r.len_first_segment == end - start
                && r.len_second_segment == 0,
            start <= self.len_first_segment < end ==> r.len_first_segment
                == self.len_first_segment - start && r.len_second_segment == end
                - self.len_first_segment,
            self.len_first_segment < start ==> r.len_first_segment == 0 && r.len_second_segment
                == end - start,
    {
        let start_in_first = start <= self.len_first_segment;
        let end_in_first = end <= self.len_first_segment;
        if start_in_first && end_in_first {
            let r = GapSlice {
                bytes: vec_subrange(&self.bytes, start, end),
                len_first_segment: end - start,
                len_second_segment: 0,
            };
            proof {
                assert(r.model() =~= self.model().subrange(start as int, end as int));
            }
            r
        } else if start_in_first {
            let gap = self.bytes.len() - self.len();
            let r = GapSlice {
                bytes: vec_subrange(&self.bytes, start, end + gap),
                len_first_segment: self.len_first_segment - start,
                len_second_segment: end - self.len_first_segment,
            };
            proof {
                assert(r.first_segment_spec() =~= self.model().subrange(
                    start as int,
                    self.len_first_segment as int,
                ));
                assert(r.second_segment_spec() =~= self.model().subrange(
                    self.len_first_segment as int,
                    end as int,
                ));
                assert(r.model() =~= self.model().subrange(start as int, end as int));
            }
            r
        } else {
            let gap = self.bytes.len() - self.len();
            let r = GapSlice {
                bytes: vec_subrange(&self.bytes, start + gap, end + gap),
                len_first_segment: 0,
                len_second_segment: end - start,
            };
            proof {
                assert(r.first_segment_spec() =~= Seq::<u8>::empty());
                assert(r.second_segment_spec() =~= self.model().subrange(
                    start as int,
                    end as int,
                ));
                assert(r.model() =~= self.model().subrange(start as int, end as int));
            }
            r
        }
    }

    /// Splits the view at a logical offset: the part before it and the part
    /// from it on.
    pub fn split_at_offset(&self, byte_offset: usize) -> (r: (GapSlice, GapSlice))
        requires
            self.wf(),
            byte_offset <= self.spec_len(),
        ensures
            r.0.wf(),
            r.1.wf(),
            r.0.model() == self.model().take(byte_offset as int),
            r.1.model() == self.model().skip(byte_offset as int),
    {
        let len = self.len();
        let r = (self.byte_slice(0, byte_offset), self.byte_slice(byte_offset, len));
        proof {
            assert(self.model().take(byte_offset as int) =~= self.model().subrange(
                0,
                byte_offset as int,
            ));
            assert(self.model().skip(byte_offset as int) =~= self.model().subrange(
                byte_offset as int,
                self.model().len() as int,
            ));
        }
        r
    }
}

/// Whether a slice of bytes may be cut just before index `i` without
/// separating a continuation byte from the code point it belongs to.
pub open spec fn seg_boundary(m: Seq<u8>, i: int) -> bool {
    i == 0 || i == m.len() || !vstd::utf8::is_continuation_byte(m[i])
}

impl GapSlice {
    /// Where offset `i` falls relative to the two segments: the boundary
    /// question is delegated to whichever segment contains it, with the
    /// offset adjusted for the second segment.
    pub open spec fn is_boundary(&self, i: int) -> bool {
        if i <= self.len_first_segment {
            seg_boundary(self.first_segment_spec(), i)
        } else {
            seg_boundary(self.second_segment_spec(), i - self.len_first_segment)
        }
    }

    /// Whether the logical offset lies on a code-point boundary of the
    /// segment containing it.
    pub fn is_char_boundary(&self, byte_offset: usize) -> (r: bool)
        requires
            self.wf(),
            byte_offset <= self.spec_len(),
        ensures
            r == self.is_boundary(byte_offset as int),
    {
        if byte_offset <= self.len_first_segment {
            byte_offset == 0 || byte_offset == self.len_first_segment || {
                let b = self.bytes[byte_offset];
                !(0x80 <= b && b <= 0xbf)
            }
        } else {
            let local = byte_offset - self.len_first_segment;
            local == self.len_second_segment || {
                let b = self.bytes[self.bytes.len() - self.len_second_segment + local];
                !(0x80 <= b && b <= 0xbf)
            }
        }
    }

    /// A fresh vector holding the first segment.
    pub fn first_segment(&self) -> (r: Vec<u8>)
        requires
            self.wf(),
        ensures
            r@ == self.first_segment_spec(),
    {
        vec_subrange(&self.bytes, 0, self.len_first_segment)
    }

    /// A fresh vector holding the second segment.
    pub fn second_segment(&self) -> (r: Vec<u8>)
        requires
            self.wf(),
        ensures
            r@ == self.second_segment_spec(),
    {
        vec_subrange(&self.bytes, self.bytes.len() - self.len_second_segment, self.bytes.len())
    }

    /// The second segment if it is not empty, the first one otherwise.
    pub fn last_segment(&self) -> (r: Vec<u8>)
        requires
            self.wf(),
        ensures
            r@ == if self.second_segment_spec().len() > 0 {
                self.second_segment_spec()
            } else {
                self.first_segment_spec()
            },
    {
        if self.len_second_segment > 0 {
            self.second_segment()
        } else {
            self.first_segment()
        }
    }

    /// Whether the content ends with a line feed (so also for CRLF endings).
    pub fn has_trailing_newline(&self) -> (r: bool)
        requires
            self.wf(),
        ensures
            r == (self.model().len() > 0 && self.model().last() == nl()),
    {
        if self.len_second_segment > 0 {
            let b = self.bytes[self.bytes.len() - 1];
            proof {
                assert(self.model().last() == self.second_segment_spec().last());
            }
            b == 10
        } else if self.len_first_segment > 0 {
            let b = self.bytes[self.len_first_segment - 1];
            proof {
                assert(self.model() =~= self.first_segment_spec());
            }
            b == 10
        } else {
            false
        }
    }

    /// The statistics of this view: its length and its line-break count.
    pub fn summarize(&self) -> (r: ChunkSummary)
        requires
            self.wf(),
        ensures
            r == summary_of_chunk(self.model()),
    {
        let breaks_first = count_breaks_in(&self.bytes, 0, self.len_first_segment);
        let from = self.bytes.len() - self.len_second_segment;
        let breaks_second = count_breaks_in(&self.bytes, from, self.bytes.len());
        proof {
            lemma_count_breaks_le_len(self.first_segment_spec());
            lemma_count_breaks_le_len(self.second_segment_spec());
            lemma_count_breaks_concat(self.first_segment_spec(), self.second_segment_spec());
        }
        ChunkSummary { bytes: self.len(), line_breaks: breaks_first + breaks_second }
    }

    /// The byte offset at which the zero-based line `line_index` starts. The
    /// first segment's breaks are probed first; if the requested line starts
    /// beyond them, the search continues in the second segment with the
    /// breaks already consumed subtracted. Lines past the last break all
    /// resolve to the content's end.
    pub fn byte_of_line(&self, line_index: usize) -> (r: usize)
        requires
            self.wf(),
        ensures
            r == line_start(self.model(), line_index as int),
    {
        proof {
            lemma_line_start_concat(
                self.first_segment_spec(),
                self.second_segment_spec(),
                line_index as int,
            );
            lemma_line_start_le_len(self.first_segment_spec(), line_index as int);
            lemma_line_start_le_len(self.second_segment_spec(), line_index as int);
            lemma_count_breaks_le_len(self.first_segment_spec());
        }
        let offset_first_segment = line_start_in(&self.bytes, 0, self.len_first_segment, line_index);
        if offset_first_segment < self.len_first_segment {
            offset_first_segment
        } else {
            let line_breaks_in_first_segment = count_breaks_in(
                &self.bytes,
                0,
                self.len_first_segment,
            );
            let remaining = if line_index >= line_breaks_in_first_segment {
                line_index - line_breaks_in_first_segment
            } else {
                0
            };
            proof {
                lemma_line_start_le_len(self.second_segment_spec(), remaining as int);
            }
            let from = self.bytes.len() - self.len_second_segment;
            let in_second = line_start_in(&self.bytes, from, self.bytes.len(), remaining);
            self.len_first_segment + in_second
        }
    }
}

/// A line offset never lies past the end.
pub proof fn lemma_line_start_le_len(m: Seq<u8>, k: int)
    ensures
        0 <= line_start(m, k) <= m.len(),
    decreases m.len(),
{
    if !(k <= 0 || m.len() == 0) {
        lemma_line_start_le_len(m.drop_first(), k - 1);
        lemma_line_start_le_len(m.drop_first(), k);
    }
}

/// The summary of a chunk's content.
pub open spec fn summary_of_chunk(m: Seq<u8>) -> ChunkSummary {
    ChunkSummary { bytes: m.len() as usize, line_breaks: count_breaks(m) as usize }
}

/// Counts the line breaks in `v[from..to]`.
fn count_breaks_in(v: &Vec<u8>, from: usize, to: usize) -> (r: usize)
    requires
        from <= to <= v@.len(),
    ensures
        r == count_breaks(v@.subrange(from as int, to as int)),
{
    proof {
        lemma_count_breaks_le_len(v@.subrange(from as int, to as int));
    }
    let ghost seg = v@.subrange(from as int, to as int);
    let mut r: usize = 0;
    let mut i: usize = 0;
    while i < to - from
        invariant
            from <= to <= v@.len(),
            0 <= i <= to - from,
            seg == v@.subrange(from as int, to as int),
            r == count_breaks(seg.take(i as int)),
            r <= i,
        decreases to - from - i,
    {
        proof {
            lemma_count_breaks_push(seg.take(i as int), seg[i as int]);
            assert(seg.take(i + 1) =~= seg.take(i as int).push(seg[i as int]));
        }
        if v[from + i] == 10 {
            r += 1;
        }
        i += 1;
    }
    proof {
        assert(seg.take((to - from) as int) =~= seg);
    }
    r
}

/// The relative offset in `v[from..to]` at which line `k` of that range
/// starts.
fn line_start_in(v: &Vec<u8>, from: usize, to: usize, k: usize) -> (r: usize)
    requires
        from <= to <= v@.len(),
    ensures
        r == line_start(v@.subrange(from as int, to as int), k as int),
{
    let ghost seg = v@.subrange(from as int, to as int);
    proof {
        assert(seg.skip(0) =~= seg);
    }
    let mut i: usize = 0;
    let mut remaining = k;
    while i < to - from && remaining > 0
        invariant
            from <= to <= v@.len(),
            0 <= i <= to - from,
            remaining <= k,
            seg == v@.subrange(from as int, to as int),
            line_start(seg, k as int) == i + line_start(
                seg.skip(i as int),
                remaining as int,
            ),
        decreases to - from - i,
    {
        proof {
            assert(seg.skip(i as int).drop_first() =~= seg.skip(i + 1));
            assert(seg.skip(i as int)[0] == seg[i as int]);
            lemma_line_start_le_len(seg.skip(i + 1), remaining as int);
            lemma_line_start_le_len(seg.skip(i + 1), remaining - 1);
        }
        if v[from + i] == 10 {
            remaining -= 1;
        }
        i += 1;
    }
    proof {
        if i == to - from {
            assert(seg.skip(i as int) =~= Seq::<u8>::empty());
        }
    }
    i
}

/// Relies on std's `String::push`: it appends exactly the given character.
pub assume_specification[ String::push ](s: &mut String, ch: char)
    ensures
        final(s)@ == old(s)@.push(ch),
;

impl GapSlice {
    /// The text this view renders as: the two segments with every gap byte
    /// shown as a `~` filler, between quotes. Each byte is rendered as the
    /// character with its code-point value.
    pub open spec fn render(&self) -> Seq<char> {
        seq!['"'] + self.first_segment_spec().map_values(|b: u8| b as char) + Seq::new(
            (self.bytes@.len() - self.spec_len()) as nat,
            |i: int| '~',
        ) + self.second_segment_spec().map_values(|b: u8| b as char) + seq!['"']
    }

    /// A rendering of the buffer layout for inspection: the two segments
    /// between quotes, with the gap drawn as `~` fillers.
    pub fn debug_string(&self) -> (r: String)
        requires
            self.wf(),
        ensures
            r@ == self.render(),
    {
        let ghost first_chars = self.first_segment_spec().map_values(|b: u8| b as char);
        let ghost gap_chars = Seq::new((self.bytes@.len() - self.spec_len()) as nat, |i: int| '~');
        let ghost second_chars = self.second_segment_spec().map_values(|b: u8| b as char);
        let mut r = String::new();
        r.push('"');
        proof {
            assert(r@ =~= seq!['"'] + first_chars.take(0));
        }
        let mut i: usize = 0;
        while i < self.len_first_segment
            invariant
                self.wf(),
                0 <= i <= self.len_first_segment,
                first_chars == self.first_segment_spec().map_values(|b: u8| b as char),
                r@ == seq!['"'] + first_chars.take(i as int),
            decreases self.len_first_segment - i,
        {
            r.push(self.bytes[i] as char);
            proof {
                assert(r@ =~= seq!['"'] + first_chars.take(i + 1));
            }
            i += 1;
        }
        proof {
            assert(first_chars.take(self.len_first_segment as int) =~= first_chars);
        }
        let gap = self.bytes.len() - self.len();
        let mut g: usize = 0;
        while g < gap
            invariant
                0 <= g <= gap,
                gap == self.bytes@.len() - self.spec_len(),
                r@ == seq!['"'] + first_chars + gap_chars.take(g as int),
                gap_chars == Seq::new((self.bytes@.len() - self.spec_len()) as nat, |i: int| '~'),
            decreases gap - g,
        {
            r.push('~');
            proof {
                assert(r@ =~= seq!['"'] + first_chars + gap_chars.take(g + 1));
            }
            g += 1;
        }
        proof {
            assert(gap_chars.take(gap as int) =~= gap_chars);
        }
        let n = self.bytes.len();
        let from = n - self.len_second_segment;
        let mut j: usize = 0;
        while j < self.len_second_segment
            invariant
                self.wf(),
                0 <= j <= self.len_second_segment,
                n == self.bytes@.len(),
                from == self.bytes@.len() - self.len_second_segment,
                second_chars == self.second_segment_spec().map_values(|b: u8| b as char),
                r@ == seq!['"'] + first_chars + gap_chars + second_chars.take(j as int),
            decreases self.len_second_segment - j,
        {
            r.push(self.bytes[from + j] as char);
            proof {
                assert(r@ =~= seq!['"'] + first_chars + gap_chars + second_chars.take(j + 1));
            }
            j += 1;
        }
        proof {
            assert(second_chars.take(self.len_second_segment as int) =~= second_chars);
        }
        r.push('"');
        proof {
            assert(r@ =~= self.render());
        }
        r
    }
}

impl Leaf for GapSlice {
    type Item = u8;

    type Summary = ChunkSummary;

    open spec fn inv(&self) -> bool {
        self.wf()
    }

    open spec fn model(&self) -> Seq<u8> {
        self.first_segment_spec() + self.second_segment_spec()
    }

    open spec fn summary_of(m: Seq<u8>) -> ChunkSummary {
        summary_of_chunk(m)
    }

    open spec fn fits(m: Seq<u8>) -> bool {
        m.len() <= usize::MAX
    }

    open spec fn add_summary(a: ChunkSummary, b: ChunkSummary) -> ChunkSummary {
        ChunkSummary {
            bytes: (a.bytes + b.bytes) as usize,
            line_breaks: (a.line_breaks + b.line_breaks) as usize,
        }
    }

    proof fn lemma_fits_empty() {
    }

    proof fn lemma_fits_subrange(m: Seq<u8>, i: int, j: int) {
    }

    proof fn lemma_add_summary(a: Seq<u8>, b: Seq<u8>) {
        lemma_count_breaks_concat(a, b);
        lemma_count_breaks_le_len(a);
        lemma_count_breaks_le_len(b);
    }

    fn summarize(&self) -> (s: ChunkSummary) {
        GapSlice::summarize(self)
    }

    fn combine(
        s1: &ChunkSummary,
        s2: &ChunkSummary,
        Ghost(a): Ghost<Seq<u8>>,
        Ghost(b): Ghost<Seq<u8>>,
    ) -> (s: ChunkSummary) {
        proof {
            lemma_count_breaks_concat(a, b);
            lemma_count_breaks_le_len(a);
            lemma_count_breaks_le_len(b);
        }
        ChunkSummary {
            bytes: s1.bytes + s2.bytes,
            line_breaks: s1.line_breaks + s2.line_breaks,
        }
    }

    fn empty_summary() -> (s: ChunkSummary) {
        ChunkSummary { bytes: 0, line_breaks: 0 }
    }

    fn base_len(s: &ChunkSummary, Ghost(m): Ghost<Seq<u8>>) -> (r: usize) {
        s.bytes
    }

    fn duplicate(&self) -> (r: GapSlice) {
        let r = GapSlice {
            bytes: vec_subrange(&self.bytes, 0, self.bytes.len()),
            len_first_segment: self.len_first_segment,
            len_second_segment: self.len_second_segment,
        };
        proof {
            assert(r.bytes@ =~= self.bytes@);
        }
        r
    }

    fn split_leaf(&self, at: usize) -> (r: (GapSlice, GapSlice)) {
        self.split_at_offset(at)
    }
}

/// A fresh vector holding `v[start..end]`.
pub(crate) fn vec_subrange(v: &Vec<u8>, start: usize, end: usize) -> (r: Vec<u8>)
    requires
        start <= end <= v@.len(),
    ensures
        r@ == v@.subrange(start as int, end as int),
{
    let mut r: Vec<u8> = Vec::new();
    let mut i = start;
    while i < end
        invariant
            start <= i <= end <= v@.len(),
            r@ == v@.subrange(start as int, i as int),
        decreases end - i,
    {
        r.push(v[i]);
        proof {
            assert(r@ =~= v@.subrange(start as int, i + 1));
        }
        i += 1;
    }
    r
}

} // verus!
