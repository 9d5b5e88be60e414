use vstd::prelude::*;

verus! {

/// Interprets `bytes` as UTF-8 text, through `std::str::from_utf8`.
/// Trusted: `from_utf8` succeeds exactly on valid UTF-8 and the returned
/// string slice consists of the same bytes, as its documentation says.
#[verifier::external_body]
pub(crate) fn utf8_str(bytes: &[u8]) -> (r: Option<&str>)
    ensures
        r is Some <==> vstd::utf8::valid_utf8(bytes@),
        r matches Some(s) ==> s@ == vstd::utf8::decode_utf8(bytes@),
{
    std::str::from_utf8(bytes).ok()
}

} // verus!
