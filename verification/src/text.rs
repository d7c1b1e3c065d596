//! Text from bytes and back: what the standard library and the
//! `unicode-normalization` crate do for the manifest.
//!
//! Nothing in this file is proved: each contract states what the
//! documentation of the function it names says.

use unicode_normalization::UnicodeNormalization;
use vstd::prelude::*;
use vstd::utf8::{decode_utf8, valid_utf8};

verus! {

/// The canonical composition (Unicode Normalization Form C) of a text, as the
/// `unicode-normalization` crate computes it from its tables.
pub uninterp spec fn nfc_text(text: Seq<char>) -> Seq<char>;

/// `UnicodeNormalization::nfc` on a string, collected into a `String`.
#[verifier::external_body]
pub(crate) fn nfc(text: &str) -> (composed: String)
    ensures
        composed@ == nfc_text(text@),
{
    text.nfc().collect::<String>()
}

/// `String::from_utf8`: the text that `bytes` encode, if they are valid UTF-8.
#[verifier::external_body]
pub(crate) fn text_from_utf8(bytes: &[u8]) -> (text: Option<String>)
    ensures
        text is Some <==> valid_utf8(bytes@),
        text matches Some(decoded) ==> decoded@ == decode_utf8(bytes@),
{
    String::from_utf8(bytes.to_vec()).ok()
}

} // verus!
