//! Permissive reading of archive bytes as text, for display.
//!
//! Tags and names are byte strings in no fixed encoding. Decoding never
//! decides anything: it only turns them into something that can be shown.

use vstd::prelude::*;
use vstd::utf8::{decode_utf8, valid_utf8};

verus! {

/// The text that `String::from_utf8_lossy` makes of `bytes`: their UTF-8
/// decoding, with each ill-formed sequence replaced by U+FFFD.
pub uninterp spec fn lossy_text(bytes: Seq<u8>) -> Seq<char>;

/// Decodes `bytes` with `String::from_utf8_lossy` and takes ownership of
/// the result.
///
/// Not proved, but taken from the documentation of that function: the
/// result depends on `bytes` alone, and bytes that are well-formed UTF-8
/// decode to the characters that they encode.
#[verifier::external_body]
pub(crate) fn decode_lossy(bytes: &[u8]) -> (text: String)
    ensures
        text@ == lossy_text(bytes@),
        valid_utf8(bytes@) ==> text@ == decode_utf8(bytes@),
{
    String::from_utf8_lossy(bytes).into_owned()
}

} // verus!
