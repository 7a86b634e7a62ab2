//! Building text piece by piece.

use vstd::prelude::*;

verus! {

/// Calls `String::push_str`, which appends a string slice to the end of a
/// `String`: afterwards the text is what it was, followed by `more`.
#[verifier::external_body]
pub(crate) fn append(text: &mut String, more: &str)
    ensures
        final(text)@ == old(text)@ + more@,
{
    text.push_str(more);
}

} // verus!
