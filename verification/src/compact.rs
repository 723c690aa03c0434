//! The `compact_str` string type, as the library uses it.
use compact_str::CompactString;
use vstd::prelude::*;

verus! {

#[verifier::external_type_specification]
#[verifier::external_body]
pub struct ExCompactString(CompactString);

/// The characters that a `CompactString` holds.
pub uninterp spec fn compact_chars(s: CompactString) -> Seq<char>;

/// `CompactString::with_capacity`: an empty string; the capacity is only a hint to the allocator.
#[verifier::external_body]
pub(crate) fn compact_with_capacity(capacity: usize) -> (r: CompactString)
    ensures
        compact_chars(r) == Seq::<char>::empty(),
{
    CompactString::with_capacity(capacity)
}

/// `CompactString::push`: appends one character.
#[verifier::external_body]
pub(crate) fn compact_push(s: &mut CompactString, c: char)
    ensures
        compact_chars(*final(s)) == compact_chars(*old(s)).push(c),
{
    s.push(c)
}

/// `CompactString::new`: holds the characters of `text`.
#[verifier::external_body]
pub(crate) fn compact_new(text: &str) -> (r: CompactString)
    ensures
        compact_chars(r) == text@,
{
    CompactString::new(text)
}

/// `CompactString::push_str`: appends the characters of `text`.
#[verifier::external_body]
pub(crate) fn compact_push_str(s: &mut CompactString, text: &str)
    ensures
        compact_chars(*final(s)) == compact_chars(*old(s)) + text@,
{
    s.push_str(text)
}

/// `CompactString::default`: an empty string.
#[verifier::external_body]
pub(crate) fn compact_default() -> (r: CompactString)
    ensures
        compact_chars(r) == Seq::<char>::empty(),
{
    CompactString::default()
}

/// `CompactString::as_str`: the characters held, borrowed as a `str`.
#[verifier::external_body]
pub(crate) fn compact_as_str(s: &CompactString) -> (r: &str)
    ensures
        r@ == compact_chars(*s),
{
    s.as_str()
}

/// `CompactString::clone`: holds the same characters.
#[verifier::external_body]
pub(crate) fn compact_clone(s: &CompactString) -> (r: CompactString)
    ensures
        compact_chars(r) == compact_chars(*s),
{
    s.clone()
}

} // verus!
