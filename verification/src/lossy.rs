//! Text out of bytes that need not be valid UTF-8.

use vstd::prelude::*;
use vstd::utf8::{decode_utf8, valid_utf8};

verus! {

/// The text that the standard library's lossy decoding makes of bytes that
/// are not valid UTF-8: the characters of the valid parts, with U+FFFD in
/// place of every part that is not valid.
pub uninterp spec fn utf8_replaced(bytes: Seq<u8>) -> Seq<char>;

/// The text that the standard library's lossy decoding makes of `bytes`:
/// the text that they encode, where they are valid UTF-8.
pub open spec fn utf8_lossy(bytes: Seq<u8>) -> Seq<char> {
    if valid_utf8(bytes) {
        decode_utf8(bytes)
    } else {
        utf8_replaced(bytes)
    }
}

/// Calls `String::from_utf8_lossy`.
///
/// Nothing is proved of the decoding. The contract claims that valid UTF-8
/// is decoded as it stands, and gives the result for other bytes a name,
/// which rests on the decoding being a function of the bytes alone.
#[verifier::external_body]
pub(crate) fn from_utf8_lossy(bytes: &[u8]) -> (text: String)
    ensures
        text@ == utf8_lossy(bytes@),
        !valid_utf8(bytes@) ==> text@ == utf8_replaced(bytes@),
{
    String::from_utf8_lossy(bytes).into_owned()
}

} // verus!
