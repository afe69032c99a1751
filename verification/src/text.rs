//! Text produced by the library: byte vectors turned into strings.
use vstd::prelude::*;
use vstd::utf8::*;

verus! {

/// Whether every byte is ASCII.
pub open spec fn all_ascii(v: Seq<u8>) -> bool {
    forall|i: int| 0 <= i < v.len() ==> v[i] < 128
}

/// The characters that ASCII bytes stand for.
pub open spec fn ascii_chars(v: Seq<u8>) -> Seq<char> {
    Seq::new(v.len(), |i: int| v[i] as char)
}

/// The string that UTF-8 bytes encode, or `None` when they are not valid UTF-8.
///
/// Calls `String::from_utf8`, which by its documentation returns `Ok` exactly for valid UTF-8
/// and then holds the characters that the bytes encode.
#[verifier::external_body]
pub(crate) fn utf8_to_string(v: Vec<u8>) -> (r: Option<String>)
    ensures
        r is Some <==> valid_utf8(v@),
        r matches Some(s) ==> s@ == decode_utf8(v@),
{
    String::from_utf8(v).ok()
}

/// ASCII bytes are valid UTF-8 and decode to the characters of the same codes.
pub proof fn lemma_ascii_utf8(v: Seq<u8>)
    requires
        all_ascii(v),
    ensures
        valid_utf8(v),
        decode_utf8(v) == ascii_chars(v),
{
    let chars = ascii_chars(v);
    assert(is_ascii_chars(chars)) by {
        assert forall|i| 0 <= i < chars.len() implies '\0' <= #[trigger] chars[i] <= '\u{7f}' by {
            assert(v[i] < 128);
        }
    }
    is_ascii_chars_encode_utf8(chars);
    assert forall|i| 0 <= i < v.len() implies encode_utf8(chars)[i] == v[i] by {
        assert(chars[i] as u8 == encode_utf8(chars)[i]);
        assert(chars[i] == v[i] as char);
        let b = v[i];
        assert((b as char) as u8 == b);
    }
    assert(encode_utf8(chars) =~= v);
    encode_utf8_valid_utf8(chars);
    encode_utf8_decode_utf8(chars);
}

/// The string of ASCII bytes.
pub fn ascii_to_string(v: Vec<u8>) -> (r: String)
    requires
        all_ascii(v@),
    ensures
        r@ == ascii_chars(v@),
{
    proof { lemma_ascii_utf8(v@); }
    match utf8_to_string(v) {
        Some(s) => s,
        None => String::new(),
    }
}

} // verus!
