use vstd::prelude::*;
use vstd::utf8::{decode_utf8, encode_utf8, is_ascii_chars, is_ascii_chars_encode_utf8, valid_utf8};

verus! {

/// What `String::from_utf8_lossy` makes of the bytes `bytes`: their UTF-8
/// decoding, with each invalid sequence replaced by U+FFFD.
pub uninterp spec fn lossy_utf8(bytes: Seq<u8>) -> Seq<char>;

/// What `str::to_lowercase` makes of the characters `chars` (Unicode
/// lowercase mapping).
pub uninterp spec fn lowercase(chars: Seq<char>) -> Seq<char>;

/// The ASCII lowercase of `c`: `A` to `Z` become `a` to `z`, every other
/// character stays.
pub open spec fn ascii_lower(c: char) -> char {
    if 'A' <= c <= 'Z' {
        ((c as u32) + 32) as char
    } else {
        c
    }
}

/// Bytes that are all ASCII (below 0x80).
pub open spec fn ascii_bytes(bytes: Seq<u8>) -> bool {
    forall|i: int| 0 <= i < bytes.len() ==> #[trigger] bytes[i] < 0x80
}

/// Text made of ASCII characters none of which is an uppercase letter, which
/// ASCII lowercasing leaves as it is.
pub open spec fn lowercase_ascii(cs: Seq<char>) -> bool {
    &&& is_ascii_chars(cs)
    &&& forall|i: int| 0 <= i < cs.len() ==> !('A' <= #[trigger] cs[i] <= 'Z')
}

/// The text that a label with the raw bytes `bytes` contributes to a domain
/// name read from a packet: decoded leniently, then lowercased. For ASCII
/// bytes that is each byte as a character, in ASCII lowercase.
pub open spec fn label_text(bytes: Seq<u8>) -> Seq<char> {
    if ascii_bytes(bytes) {
        bytes.map_values(|x: u8| ascii_lower(x as char))
    } else {
        lowercase(lossy_utf8(bytes))
    }
}

/// ASCII bytes are valid UTF-8 and decode to themselves, one character per
/// byte.
pub proof fn lemma_ascii_decode(bytes: Seq<u8>)
    requires
        ascii_bytes(bytes),
    ensures
        valid_utf8(bytes),
        decode_utf8(bytes) == bytes.map_values(|x: u8| x as char),
        is_ascii_chars(bytes.map_values(|x: u8| x as char)),
{
    let cs = bytes.map_values(|x: u8| x as char);
    assert(is_ascii_chars(cs));
    is_ascii_chars_encode_utf8(cs);
    assert(encode_utf8(cs) =~= bytes);
    vstd::utf8::encode_utf8_valid_utf8(cs);
    vstd::utf8::encode_utf8_decode_utf8(cs);
}

/// The UTF-8 bytes of lowercase ASCII text are ASCII, and their ASCII
/// lowercase, one character per byte, is the text itself.
pub proof fn lemma_lowercase_ascii_bytes(cs: Seq<char>)
    requires
        lowercase_ascii(cs),
    ensures
        ascii_bytes(encode_utf8(cs)),
        encode_utf8(cs).map_values(|x: u8| ascii_lower(x as char)) == cs,
{
    is_ascii_chars_encode_utf8(cs);
    let b = encode_utf8(cs);
    assert forall|i: int| 0 <= i < b.len() implies #[trigger] b[i] < 0x80 by {
        assert(cs[i] as u8 == b[i]);
    }
    assert forall|i: int| 0 <= i < cs.len() implies (b[i] as char) == cs[i] by {
        assert(cs[i] as u8 == b[i]);
        let c = cs[i];
        assert((c as u8) as char == c) by {
            assert('\0' <= c <= '\u{7f}');
        }
    }
    assert(b.map_values(|x: u8| ascii_lower(x as char)) =~= cs);
}

/// Calls `String::from_utf8_lossy` and takes ownership of its result.
/// Claimed: the result is `lossy_utf8` of the bytes, and for valid UTF-8 it
/// is exactly their decoding (std documents that valid input is returned
/// unchanged). Nothing is said of how invalid sequences are replaced.
#[verifier::external_body]
pub(crate) fn utf8_lossy(bytes: &[u8]) -> (s: String)
    ensures
        s@ == lossy_utf8(bytes@),
        valid_utf8(bytes@) ==> s@ == decode_utf8(bytes@),
{
    String::from_utf8_lossy(bytes).into_owned()
}

/// Calls `str::to_lowercase`. Claimed: the result depends on the
/// characters alone and is named `lowercase` of them; for ASCII text it is
/// the ASCII lowercase of each character (the Unicode lowercase mapping
/// takes `A` to `Z` to `a` to `z` and leaves every other ASCII character
/// as it is). What the mapping does to other characters is left unsaid.
#[verifier::external_body]
pub(crate) fn to_lowercase(s: &str) -> (r: String)
    ensures
        r@ == lowercase(s@),
        is_ascii_chars(s@) ==> r@ == s@.map_values(|c: char| ascii_lower(c)),
{
    s.to_lowercase()
}

} // verus!
