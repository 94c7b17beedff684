use vstd::prelude::*;

verus! {

/// What `char::is_whitespace` answers for `c`: whether `c` has the Unicode
/// property White_Space.
pub uninterp spec fn whitespace(c: char) -> bool;

/// What `char::is_alphabetic` answers for `c`: whether `c` has the Unicode
/// property Alphabetic.
pub uninterp spec fn alphabetic(c: char) -> bool;

/// What `char::is_alphanumeric` answers for `c`: whether `c` is alphabetic or
/// a number in the sense of Unicode.
pub uninterp spec fn alphanumeric(c: char) -> bool;

/// `char::is_whitespace`. The answer depends on `c` alone.
#[verifier::external_body]
pub(crate) fn is_whitespace(c: char) -> (res: bool)
    ensures
        res == whitespace(c),
{
    c.is_whitespace()
}

/// `char::is_alphabetic`. The answer depends on `c` alone.
#[verifier::external_body]
pub(crate) fn is_alphabetic(c: char) -> (res: bool)
    ensures
        res == alphabetic(c),
{
    c.is_alphabetic()
}

/// `char::is_alphanumeric`. The answer depends on `c` alone.
#[verifier::external_body]
pub(crate) fn is_alphanumeric(c: char) -> (res: bool)
    ensures
        res == alphanumeric(c),
{
    c.is_alphanumeric()
}

/// The number of characters at the front of `s` that are whitespace.
pub open spec fn leading_whitespace(s: Seq<char>) -> nat
    decreases s.len(),
{
    if s.len() > 0 && whitespace(s[0]) {
        1 + leading_whitespace(s.drop_first())
    } else {
        0
    }
}

/// The leading whitespace of a text is part of the text.
pub proof fn lemma_leading_whitespace_bound(s: Seq<char>)
    ensures
        leading_whitespace(s) <= s.len(),
    decreases s.len(),
{
    if s.len() > 0 {
        lemma_leading_whitespace_bound(s.drop_first());
    }
}

} // verus!
