//! The few operations on standard strings and characters that the library
//! takes on trust.

use vstd::prelude::*;

verus! {

/// Whether the character `c` is numeric, as `char::is_numeric` of the
/// standard library decides it from the Unicode tables.
pub uninterp spec fn numeric(c: char) -> bool;

/// Tells whether `c` is numeric. This is `char::is_numeric` of the standard
/// library; all that is claimed is that its answer depends on `c` alone.
#[verifier::external_body]
pub(crate) fn is_numeric(c: char) -> (r: bool)
    ensures
        r == numeric(c),
{
    c.is_numeric()
}

/// Appends the character `c` to `s`. This is `String::push` of the
/// standard library: the text grows by exactly that character at its end.
#[verifier::external_body]
pub(crate) fn push_char(s: &mut String, c: char)
    ensures
        final(s)@ == old(s)@.push(c),
{
    s.push(c)
}

/// Takes the last character off `s`. This is `String::pop` of the standard
/// library: it removes and returns the last character, and returns `None`
/// and leaves `s` as it is where `s` is empty.
#[verifier::external_body]
pub(crate) fn pop_char(s: &mut String) -> (r: Option<char>)
    ensures
        old(s)@.len() == 0 ==> r is None && final(s)@ == old(s)@,
        old(s)@.len() > 0 ==> r == Some(old(s)@.last()) && final(s)@ == old(s)@.drop_last(),
{
    s.pop()
}

} // verus!
