//! What the standard library computes from the Unicode tables.

use vstd::prelude::*;
use vstd::utf8::{decode_utf8, encode_utf8, encode_utf8_decode_utf8, encode_utf8_valid_utf8};
use vstd::utf8::{is_ascii_chars, valid_utf8};

use crate::text::{in_lower, only_letters_have_a_lower_case};

verus! {

/// The text that `String::from_utf8_lossy` makes of `bytes`.
pub uninterp spec fn lossy_text(bytes: Seq<u8>) -> Seq<char>;

/// Calls `String::from_utf8_lossy`. The result is a function of the bytes alone, and bytes that
/// are valid UTF-8 give the text that they encode. How much of an invalid sequence each
/// replacement character stands for is left unsaid.
#[verifier::external_body]
fn decode_lossy(bytes: &[u8]) -> (text: String)
    ensures
        text@ == lossy_text(bytes@),
        valid_utf8(bytes@) ==> text@ == decode_utf8(bytes@),
{
    String::from_utf8_lossy(bytes).into_owned()
}

/// The lower case of `text` after the Unicode tables.
pub uninterp spec fn lower_text(text: Seq<char>) -> Seq<char>;

/// Calls `str::to_lowercase`. The result is a function of the text alone, and of a text that is
/// all ASCII only the letters `A` to `Z` change.
#[verifier::external_body]
fn to_lower(text: &str) -> (lower: String)
    ensures
        lower@ == lower_text(text@),
        is_ascii_chars(text@) ==> lower@ == in_lower(text@),
{
    text.to_lowercase()
}

/// The text that bytes are taken for: what they encode where they are valid UTF-8, else with
/// replacement characters in it.
pub open spec fn decoded(bytes: Seq<u8>) -> Seq<char> {
    if valid_utf8(bytes) {
        decode_utf8(bytes)
    } else {
        lossy_text(bytes)
    }
}

/// The text that bytes are taken for.
pub fn decode(bytes: &[u8]) -> (text: String)
    ensures
        text@ == decoded(bytes@),
{
    decode_lossy(bytes)
}

/// `text` in lower case: letter by letter where it is all ASCII, else after the Unicode tables.
pub open spec fn lowered(text: Seq<char>) -> Seq<char> {
    if is_ascii_chars(text) {
        in_lower(text)
    } else {
        lower_text(text)
    }
}

/// `text` in lower case.
pub fn lower_case(text: &str) -> (lower: String)
    ensures
        lower@ == lowered(text@),
{
    to_lower(text)
}

/// A text that is encoded as UTF-8 is read back as it was.
pub proof fn encoded_text_is_read_back(text: Seq<char>)
    ensures
        decoded(encode_utf8(text)) == text,
{
    encode_utf8_valid_utf8(text);
    encode_utf8_decode_utf8(text);
}

/// In a text that is all ASCII, the lower case changes the letters from `A` to `Z` and nothing
/// else.
pub proof fn ascii_is_lowered_letter_by_letter(text: Seq<char>, i: int)
    requires
        is_ascii_chars(text),
        0 <= i < text.len(),
    ensures
        lowered(text).len() == text.len(),
        'A' <= text[i] <= 'Z' ==> lowered(text)[i] as u32 == text[i] as u32 + 32,
        !('A' <= text[i] <= 'Z') ==> lowered(text)[i] == text[i],
{
    only_letters_have_a_lower_case(text, i);
}

} // verus!
