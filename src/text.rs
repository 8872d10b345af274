use vstd::prelude::*;

use ropey::Rope;

verus! {

#[verifier::external_type_specification]
#[verifier::external_body]
pub struct ExRope(Rope);

/// The characters held by a rope.
pub uninterp spec fn rope_text(r: Rope) -> Seq<char>;

/// Relies on `Rope::from_str`: the rope holds the characters of `s`.
#[verifier::external_body]
pub(crate) fn rope_from_str(s: &str) -> (r: Rope)
    ensures
        rope_text(r) == s@,
{
    Rope::from_str(s)
}

/// Relies on `Rope::len_chars`: the number of characters in the rope.
#[verifier::external_body]
pub(crate) fn rope_len(r: &Rope) -> (n: usize)
    ensures
        n == rope_text(*r).len(),
{
    r.len_chars()
}

/// Relies on `Rope::char`: the character at index `i` (it panics past the end).
#[verifier::external_body]
pub(crate) fn rope_char(r: &Rope, i: usize) -> (c: char)
    requires
        i < rope_text(*r).len(),
    ensures
        c == rope_text(*r)[i as int],
{
    r.char(i)
}

/// Relies on `Rope::slice` and `From<RopeSlice> for String`: the characters from
/// `start` up to `end`, as a string (it panics on a range that is reversed or past the end).
#[verifier::external_body]
pub(crate) fn rope_slice_string(r: &Rope, start: usize, end: usize) -> (s: String)
    requires
        start <= end <= rope_text(*r).len(),
    ensures
        s@ == rope_text(*r).subrange(start as int, end as int),
{
    String::from(r.slice(start..end))
}

/// Relies on `Rope::remove`: the characters from `start` up to `end` are taken out
/// (it panics on a range that is reversed or past the end).
#[verifier::external_body]
pub(crate) fn rope_remove(r: &mut Rope, start: usize, end: usize)
    requires
        start <= end <= rope_text(*old(r)).len(),
    ensures
        rope_text(*final(r)) == rope_text(*old(r)).subrange(0, start as int) + rope_text(*old(r)).subrange(
            end as int,
            rope_text(*old(r)).len() as int,
        ),
{
    r.remove(start..end)
}

/// Relies on `Rope::insert`: the characters of `s` are put in at index `at`
/// (it panics past the end).
#[verifier::external_body]
pub(crate) fn rope_insert(r: &mut Rope, at: usize, s: &str)
    requires
        at <= rope_text(*old(r)).len(),
    ensures
        rope_text(*final(r)) == rope_text(*old(r)).subrange(0, at as int) + s@ + rope_text(*old(r)).subrange(
            at as int,
            rope_text(*old(r)).len() as int,
        ),
{
    r.insert(at, s)
}

/// Relies on `From<&Rope> for String`: the characters of the rope, as a string.
#[verifier::external_body]
pub(crate) fn rope_to_string(r: &Rope) -> (s: String)
    ensures
        s@ == rope_text(*r),
{
    String::from(r)
}

} // verus!
