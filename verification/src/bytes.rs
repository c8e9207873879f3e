//! Text as bytes, and bytes as text.

use crate::framing::{NEWLINE, is_record, is_space};
use crate::json::is_one_line;
use vstd::prelude::*;
use vstd::utf8::{
    char_is_scalar, encode_scalar, encode_utf8, encode_utf8_decode_utf8, encode_utf8_valid_utf8,
    has_width_1_encoding, valid_utf8,
};

verus! {

/// `String::from_utf8`: the text bytes are in UTF-8, or nothing for bytes that
/// are not UTF-8.
#[verifier::external_body]
pub(crate) fn utf8_text(bytes: &Vec<u8>) -> (r: Option<String>)
    ensures
        r is Some <==> valid_utf8(bytes@),
        r is Some ==> encode_utf8(r->0@) == bytes@,
{
    String::from_utf8(bytes.clone()).ok()
}

/// What `String::from_utf8_lossy` makes of bytes.
pub uninterp spec fn lossy(bytes: Seq<u8>) -> Seq<char>;

/// `String::from_utf8_lossy`, named [`lossy`]: the text itself where the bytes
/// are UTF-8.
#[verifier::external_body]
pub(crate) fn lossy_text(bytes: &Vec<u8>) -> (r: String)
    ensures
        r@ == lossy(bytes@),
        valid_utf8(bytes@) ==> encode_utf8(r@) == bytes@,
{
    String::from_utf8_lossy(bytes).into_owned()
}

/// The bytes of `text` in UTF-8.
pub fn text_bytes(text: &str) -> (r: Vec<u8>)
    ensures
        r@ == encode_utf8(text@),
{
    let bytes = text.as_bytes();
    let mut out: Vec<u8> = Vec::new();
    let mut i: usize = 0;
    while i < bytes.len()
        invariant
            i <= bytes@.len(),
            out@ =~= bytes@.take(i as int),
        decreases bytes@.len() - i,
    {
        out.push(bytes[i]);
        i += 1;
    }
    proof {
        assert(out@ =~= bytes@);
    }
    out
}

/// A character's bytes: itself below 128, and none below 128 otherwise.
proof fn lemma_scalar_bytes(c: char)
    ensures
        encode_scalar(c as u32).len() > 0,
        (c as u32) < 128 ==> encode_scalar(c as u32).len() == 1 && encode_scalar(
            c as u32,
        )[0] as u32 == c as u32,
        (c as u32) >= 128 ==> forall|i: int|
            0 <= i < encode_scalar(c as u32).len() ==> #[trigger] encode_scalar(c as u32)[i]
                >= 128,
{
    char_is_scalar(c);
    let s = c as u32;
    let bytes = encode_scalar(s);
    if has_width_1_encoding(s) {
        assert((s & 0x7f) as u8 as u32 == s) by (bit_vector)
            requires
                s <= 0x7f,
        ;
        assert(bytes[0] == (s & 0x7f) as u8);
    } else {
        let b = (s & 0x3f) as u8;
        let d = ((s >> 6) & 0x3f) as u8;
        let e = ((s >> 12) & 0x3f) as u8;
        let f = ((s >> 6) & 0x1f) as u8;
        let g = ((s >> 12) & 0x0f) as u8;
        let h = ((s >> 18) & 0x7) as u8;
        assert(0x80 | b >= 128) by (bit_vector);
        assert(0x80 | d >= 128) by (bit_vector);
        assert(0x80 | e >= 128) by (bit_vector);
        assert(0xc0 | f >= 128) by (bit_vector);
        assert(0xe0 | g >= 128) by (bit_vector);
        assert(0xf0 | h >= 128) by (bit_vector);
    }
}

/// One line of text is a record: no newline among its bytes, and more than
/// white space.
pub proof fn lemma_line_is_record(text: Seq<char>)
    requires
        is_one_line(text),
    ensures
        is_record(encode_utf8(text)),
{
    lemma_no_newline(text);
    lemma_scalar_bytes(text[0]);
    let first = encode_scalar(text[0] as u32);
    let bytes = encode_utf8(text);
    assert(bytes =~= first + encode_utf8(text.drop_first()));
    assert(bytes[0] == first[0]);
    assert(encode_scalar(text[0] as u32)[0] as u32 == text[0] as u32 || encode_scalar(
        text[0] as u32,
    )[0] >= 128);
    assert(!is_space(bytes[0]));
}

proof fn lemma_no_newline(text: Seq<char>)
    requires
        forall|i: int| 0 <= i < text.len() ==> #[trigger] text[i] as u32 >= 0x20,
    ensures
        !encode_utf8(text).contains(NEWLINE),
    decreases text.len(),
{
    if text.len() > 0 {
        let rest = text.drop_first();
        assert forall|i: int| 0 <= i < rest.len() implies #[trigger] rest[i] as u32 >= 0x20 by {
            assert(rest[i] == text[i + 1]);
        }
        lemma_no_newline(rest);
        lemma_scalar_bytes(text[0]);
        let first = encode_scalar(text[0] as u32);
        let bytes = encode_utf8(text);
        assert(bytes =~= first + encode_utf8(rest));
        if bytes.contains(NEWLINE) {
            let k = choose|k: int| 0 <= k < bytes.len() && bytes[k] == NEWLINE;
            if k < first.len() {
                assert(first[k] == NEWLINE);
                assert(text[0] as u32 >= 0x20);
                assert(encode_scalar(text[0] as u32)[k] as u32 == text[0] as u32 || encode_scalar(
                    text[0] as u32,
                )[k] >= 128);
            } else {
                assert(encode_utf8(rest)[k - first.len()] == NEWLINE);
            }
        }
    }
}

} // verus!
