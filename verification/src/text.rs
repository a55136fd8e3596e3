//! Label text: how the raw bytes of a label become a string.

use std::borrow::Cow;
use vstd::prelude::*;
use vstd::utf8::*;

verus! {

/// The characters that `String::from_utf8_lossy` yields for a byte sequence
/// that is not well-formed UTF-8: the well-formed parts decoded, each
/// ill-formed part replaced by U+FFFD. The result depends on the bytes alone.
pub uninterp spec fn utf8_replaced(bytes: Seq<u8>) -> Seq<char>;

/// The text of a label with the given raw bytes. Well-formed UTF-8 is decoded
/// as it stands; anything else is decoded with replacement characters.
pub open spec fn lossy_text(bytes: Seq<u8>) -> Seq<char> {
    if valid_utf8(bytes) {
        decode_utf8(bytes)
    } else {
        utf8_replaced(bytes)
    }
}

/// Calls `String::from_utf8_lossy`. Trusted: on well-formed UTF-8 the standard
/// library hands the input back as a string slice, so its characters are the
/// decoding of the bytes; on other input the result is only given a name.
#[verifier::external_body]
pub(crate) fn decode_lossy<'a>(bytes: &'a [u8]) -> (text: Cow<'a, str>)
    ensures
        text@ == (if valid_utf8(bytes@) {
            decode_utf8(bytes@)
        } else {
            utf8_replaced(bytes@)
        }),
{
    String::from_utf8_lossy(bytes)
}

/// Text survives a trip through its UTF-8 bytes.
pub proof fn lemma_lossy_text_of_encoding(text: Seq<char>)
    ensures
        lossy_text(encode_utf8(text)) == text,
{
    encode_utf8_valid_utf8(text);
    encode_utf8_decode_utf8(text);
}

/// An owned copy of a label.
pub fn to_owned_label(label: &Cow<str>) -> (s: String)
    ensures
        s@ == label@,
{
    match label {
        Cow::Borrowed(b) => (*b).to_owned(),
        Cow::Owned(o) => o.clone(),
    }
}

} // verus!
