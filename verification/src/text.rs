use vstd::prelude::*;
use vstd::utf8::{decode_utf8, valid_utf8};

verus! {

/// The text that lossy UTF-8 decoding makes of a byte string.
pub uninterp spec fn utf8_lossy(bytes: Seq<u8>) -> Seq<char>;

/// Lossy decoding, as far as it can be said in a line: bytes that are valid
/// UTF-8 decode to the characters they encode; for any others the result is
/// only named.
pub open spec fn lossy_text(bytes: Seq<u8>) -> Seq<char> {
    if valid_utf8(bytes) {
        decode_utf8(bytes)
    } else {
        utf8_lossy(bytes)
    }
}

/// Calls `String::from_utf8_lossy` and takes the result as an owned string.
/// The contract names the result and claims that valid UTF-8 decodes to the
/// characters it encodes. What invalid sequences are replaced by is not
/// stated. None of this is proved.
#[verifier::external_body]
pub(crate) fn lossy_string(bytes: &[u8]) -> (s: String)
    ensures
        s@ == utf8_lossy(bytes@),
        valid_utf8(bytes@) ==> s@ == decode_utf8(bytes@),
{
    String::from_utf8_lossy(bytes).into_owned()
}

} // verus!
