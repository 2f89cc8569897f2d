//! Texts out of bytes.

use vstd::prelude::*;
use vstd::utf8::encode_utf8;

verus! {

/// What `String::from_utf8_lossy` makes of bytes.
pub uninterp spec fn lossy_text(b: Seq<u8>) -> Seq<char>;

/// Calls `String::from_utf8_lossy`: the text is a function of the bytes, named `lossy_text`;
/// the bytes of a text give that text.
#[verifier::external_body]
pub(crate) fn text_of_bytes(b: &[u8]) -> (r: String)
    ensures
        r@ == lossy_text(b@),
        forall|s: Seq<char>| #[trigger] encode_utf8(s) == b@ ==> r@ == s,
{
    String::from_utf8_lossy(b).into_owned()
}

} // verus!
