//! Text in byte strings.
use vstd::prelude::*;

verus! {

/// Calls `core::str::from_utf8`. Claimed of it: it succeeds exactly on byte strings that are valid
/// UTF-8.
#[verifier::external_body]
pub(crate) fn is_utf8(bytes: &[u8]) -> (valid: bool)
    ensures
        valid == vstd::utf8::valid_utf8(bytes@),
{
    core::str::from_utf8(bytes).is_ok()
}

/// Whether a byte string starts with another.
pub fn starts_with(text: &[u8], prefix: &[u8]) -> (starts: bool)
    ensures
        starts == (prefix@.len() <= text@.len() && text@.take(prefix@.len() as int) == prefix@),
{
    if text.len() < prefix.len() {
        return false;
    }
    let head = vstd::slice::slice_subrange(text, 0, prefix.len());
    assert(head@ =~= text@.take(prefix@.len() as int));
    crate::bytes::same_bytes(head, prefix)
}

} // verus!
