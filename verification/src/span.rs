//! Locations of substrings within a source string.
use vstd::prelude::*;
use vstd::string::StringSliceAdditionalSpecFns;
use vstd::utf8::*;

use crate::text::{bytes_text, lemma_str_view_bytes, valid_byte_range};

verus! {

/// Describes the location of a substring within a string, as byte offsets.
#[derive(Copy, Clone, PartialEq, Eq, Structural, Debug)]
pub struct Span {
    /// The start of the substring.
    pub start: u32,
    /// The end of the substring.
    pub end: u32,
}

/// A span together with the source it points into.
#[derive(Clone, Debug)]
pub struct SpanWithSource<T> {
    /// The location within `src` to refer to.
    pub span: Span,
    /// The entire source string.
    pub src: T,
}

pub open spec fn spec_max(a: u32, b: u32) -> u32 {
    if a >= b {
        a
    } else {
        b
    }
}

pub open spec fn spec_min(a: u32, b: u32) -> u32 {
    if a <= b {
        a
    } else {
        b
    }
}

/// The span that lies within both `a` and `b`, if they meet.
pub open spec fn spec_overlap(a: Span, b: Span) -> Option<Span> {
    let start = spec_max(a.start, b.start);
    let end = spec_min(a.end, b.end);
    if start <= end {
        Some(Span { start, end })
    } else {
        None
    }
}

impl Span {
    /// Create a new span.
    pub fn new(start: u32, end: u32) -> (r: Span)
        ensures
            r.start == start,
            r.end == end,
    {
        Span { start, end }
    }

    /// Link the underlying span with its source.
    pub fn with_src<T>(self, src: T) -> (r: SpanWithSource<T>)
        ensures
            r.span == self,
            r.src == src,
    {
        SpanWithSource { span: self, src }
    }

    /// Expand the current span to `end`. If `end` is less than the current end, then `self` is
    /// returned.
    pub fn extend_end(self, end: u32) -> (r: Span)
        ensures
            r.start == self.start,
            r.end == spec_max(self.end, end),
    {
        Span { start: self.start, end: if self.end >= end { self.end } else { end } }
    }

    /// Get the next window: it starts at the end of `self` and is `len` long.
    pub fn next_window(self, len: u32) -> (r: Span)
        requires
            self.end + len <= u32::MAX,
        ensures
            r.start == self.end,
            r.end == self.end + len,
    {
        Span { start: self.end, end: self.end + len }
    }

    /// Returns a span that overlaps with both `self` and `other` or `None` if there is no overlap.
    pub fn overlap(self, other: Span) -> (r: Option<Span>)
        ensures
            r == spec_overlap(self, other),
    {
        let start = if self.start >= other.start {
            self.start
        } else {
            other.start
        };
        let end = if self.end <= other.end {
            self.end
        } else {
            other.end
        };
        if start <= end {
            Some(Span { start, end })
        } else {
            None
        }
    }
}

/// Whether two spans overlap does not depend on the order they are asked in.
pub proof fn lemma_overlap_symmetric(a: Span, b: Span)
    ensures
        spec_overlap(a, b) == spec_overlap(b, a),
{
}

/// A span overlaps itself exactly.
pub proof fn lemma_overlap_self(a: Span)
    requires
        a.start <= a.end,
    ensures
        spec_overlap(a, a) == Some(a),
{
}

/// The overlap of two spans lies within each of them.
pub proof fn lemma_overlap_within(a: Span, b: Span)
    ensures
        spec_overlap(a, b) matches Some(o) ==> a.start <= o.start && o.end <= a.end && b.start
            <= o.start && o.end <= b.end && o.start <= o.end,
{
}

/// Extending a span to an end it already reaches leaves it unchanged.
pub proof fn lemma_extend_end_within(a: Span, end: u32)
    requires
        end <= a.end,
    ensures
        (Span { start: a.start, end: spec_max(a.end, end) }) == a,
{
}

impl<'a> SpanWithSource<&'a str> {
    /// Get the `str` for the string pointed to by `span` within `src`.
    pub fn as_str(&self) -> (r: &'a str)
        requires
            valid_byte_range(self.src.spec_bytes(), self.span.start as int, self.span.end as int),
        ensures
            r@ == bytes_text(self.src.spec_bytes(), self.span.start as int, self.span.end as int),
    {
        str_slice(self.src, self.span.start as usize, self.span.end as usize)
    }
}

/// `&s[start..end]`.
pub fn str_slice<'a>(s: &'a str, start: usize, end: usize) -> (r: &'a str)
    requires
        valid_byte_range(s.spec_bytes(), start as int, end as int),
    ensures
        r@ == bytes_text(s.spec_bytes(), start as int, end as int),
        r.spec_bytes() == s.spec_bytes().subrange(start as int, end as int),
{
    proof {
        lemma_str_view_bytes(s);
    }
    let (_, rest) = s.split_at(start);
    proof {
        lemma_str_view_bytes(rest);
        let b = s.spec_bytes();
        assert(b.subrange(start as int, b.len() as int).subrange(0, end - start) =~= b.subrange(
            start as int,
            end as int,
        ));
        // `end - start` is a boundary of the rest: split the decoding at `end`.
        lemma_boundary_shift(b, start as int, end as int);
    }
    let (mid, _) = rest.split_at(end - start);
    proof {
        lemma_str_view_bytes(mid);
    }
    mid
}

/// A boundary `e` of `b` stays a boundary once the first `st` bytes (a boundary too) are removed.
pub proof fn lemma_boundary_shift(b: Seq<u8>, st: int, e: int)
    requires
        valid_utf8(b),
        valid_byte_range(b, st, e),
    ensures
        is_char_boundary(b.subrange(st, b.len() as int), e - st),
    decreases st,
{
    if st > 0 {
        let len1 = length_of_first_scalar(b);
        let tail = pop_first_scalar(b);
        reveal_with_fuel(is_char_boundary, 2);
        assert(len1 <= st) by {
            lemma_first_scalar_len_le(b, st);
        }
        assert(valid_utf8(tail));
        assert(is_char_boundary(tail, st - len1));
        assert(is_char_boundary(tail, e - len1)) by {
            lemma_first_scalar_len_le(b, e);
        }
        lemma_boundary_shift(tail, st - len1, e - len1);
        assert(tail.subrange(st - len1, tail.len() as int) =~= b.subrange(st, b.len() as int));
    } else {
        assert(b.subrange(st, b.len() as int) =~= b);
    }
}

proof fn lemma_first_scalar_len_le(b: Seq<u8>, k: int)
    requires
        valid_utf8(b),
        is_char_boundary(b, k),
        k > 0,
    ensures
        length_of_first_scalar(b) <= k,
        is_char_boundary(pop_first_scalar(b), k - length_of_first_scalar(b)),
{
    reveal_with_fuel(is_char_boundary, 2);
}

} // verus!
