//! Byte-level text building. All text this crate produces is ASCII; it is
//! assembled as bytes, proved exact, and converted to `String` at the end.

use vstd::prelude::*;

verus! {

/// The characters an ASCII byte sequence denotes.
pub open spec fn chars_of(bs: Seq<u8>) -> Seq<char> {
    bs.map_values(|b: u8| b as char)
}

pub open spec fn all_ascii(bs: Seq<u8>) -> bool {
    forall|i: int| 0 <= i < bs.len() ==> bs[i] < 128
}

/// Relies on String::from_utf8: ASCII bytes are valid UTF-8 and decode to
/// one character per byte, each the character with that code.
#[verifier::external_body]
pub fn ascii_to_string(v: Vec<u8>) -> (r: String)
    requires
        all_ascii(v@),
    ensures
        r@ == chars_of(v@),
{
    String::from_utf8(v).unwrap_or_default()
}

/// ASCII bytes survive the trip through characters and UTF-8 encoding.
pub proof fn lemma_ascii_encode(bs: Seq<u8>)
    requires
        all_ascii(bs),
    ensures
        vstd::utf8::encode_utf8(chars_of(bs)) == bs,
{
    let cs = chars_of(bs);
    assert(vstd::utf8::is_ascii_chars(cs)) by {
        assert forall|i: int| 0 <= i < cs.len() implies '\0' <= #[trigger] cs[i] <= '\u{7f}' by {
            assert(cs[i] == bs[i] as char);
            assert(bs[i] < 128);
        }
    }
    vstd::utf8::is_ascii_chars_encode_utf8(cs);
    assert(vstd::utf8::encode_utf8(cs) =~= bs) by {
        assert forall|i: int| 0 <= i < bs.len() implies vstd::utf8::encode_utf8(cs)[i]
            == bs[i] by {
            assert(cs[i] as u8 == vstd::utf8::encode_utf8(cs)[i]);
            assert(cs[i] == bs[i] as char);
            assert((bs[i] as char) as u8 == bs[i]);
        }
    }
}

} // verus!
