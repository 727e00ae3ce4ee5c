//! Turning the bytes of a source into text.
use vstd::prelude::*;

verus! {

/// The text that a lossy UTF-8 decoding makes of a byte sequence.
pub uninterp spec fn lossy_text(b: Seq<u8>) -> Seq<char>;

/// Every byte is ASCII.
pub open spec fn all_ascii(b: Seq<u8>) -> bool {
    forall|i: int| 0 <= i < b.len() ==> b[i] < 128u8
}

/// The characters that stand for a sequence of ASCII bytes, one for one.
pub open spec fn ascii_chars(b: Seq<u8>) -> Seq<char> {
    Seq::new(b.len(), |i: int| b[i] as char)
}

/// The text that bytes `b` decode to: the characters of the bytes one for
/// one when they are all ASCII, and their lossy UTF-8 decoding otherwise
/// (which is the same thing for ASCII bytes).
pub open spec fn decoded(b: Seq<u8>) -> Seq<char> {
    if all_ascii(b) {
        ascii_chars(b)
    } else {
        lossy_text(b)
    }
}

/// Relies on `String::from_utf8_lossy`: the result depends on the bytes
/// alone, and bytes that are valid UTF-8 (ASCII in particular) are kept as
/// they are.
#[verifier::external_body]
pub(crate) fn text_of(b: &[u8]) -> (r: String)
    ensures
        r@ == lossy_text(b@),
        all_ascii(b@) ==> r@ == ascii_chars(b@),
        r@ == decoded(b@),
{
    String::from_utf8_lossy(b).into_owned()
}

} // verus!
