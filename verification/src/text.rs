//! Text decoded from bytes off the wire.
use vstd::prelude::*;
use vstd::utf8::{
    decode_utf8, encode_utf8, encode_utf8_decode_utf8, encode_utf8_valid_utf8,
    is_ascii_chars_encode_utf8, valid_utf8,
};

verus! {

/// The text that bytes stand for: the characters that they encode where they
/// are valid UTF-8, and elsewhere what `String::from_utf8_lossy` makes of
/// them.
pub open spec fn text_of(bytes: Seq<u8>) -> Seq<char> {
    if valid_utf8(bytes) {
        decode_utf8(bytes)
    } else {
        utf8_lossy(bytes)
    }
}

/// The characters that `String::from_utf8_lossy` makes of `bytes`.
pub uninterp spec fn utf8_lossy(bytes: Seq<u8>) -> Seq<char>;

/// Decodes bytes by `String::from_utf8_lossy`.
///
/// The result is named [`utf8_lossy`]: it depends on the bytes alone. Bytes
/// that are valid UTF-8 come out as the characters they encode. Only invalid
/// sequences are replaced, and a byte below 0x80 is a character by itself
/// wherever it stands, so such a byte at the end comes out as the last
/// character. What the invalid sequences of a text are is left unsaid.
#[verifier::external_body]
pub(crate) fn decode_utf8_lossy(bytes: &Vec<u8>) -> (text: String)
    ensures
        text@ == utf8_lossy(bytes@),
        valid_utf8(bytes@) ==> text@ == decode_utf8(bytes@),
        bytes@.len() > 0 && bytes@.last() < 0x80 ==> text@.len() > 0 && text@.last()
            == bytes@.last() as char,
{
    String::from_utf8_lossy(bytes).into_owned()
}

/// ASCII bytes stand for the characters of the same numbers.
pub proof fn law_ascii_text(bytes: Seq<u8>)
    requires
        forall|i: int| 0 <= i < bytes.len() ==> #[trigger] bytes[i] < 0x80,
    ensures
        text_of(bytes) == bytes.map_values(|b: u8| b as char),
{
    let chars = bytes.map_values(|b: u8| b as char);
    assert forall|i: int| 0 <= i < chars.len() implies 0 <= (#[trigger] chars[i] as nat) < 128 by {
        assert(bytes[i] < 0x80);
    }
    is_ascii_chars_encode_utf8(chars);
    assert(encode_utf8(chars) =~= bytes);
    encode_utf8_valid_utf8(chars);
    encode_utf8_decode_utf8(chars);
}

} // verus!
