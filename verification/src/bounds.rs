//! The payload bounds, and the three cutting rules over them.
//!
//! The emitter keeps the head of every top-level text of a payload, a producer
//! keeps the tail of a text of its own, and a one-line summary keeps its first
//! characters with white space collapsed.

use crate::json::{Json, JsonView, fields_view, group_json_views, set_field, with_field};
use crate::text::{byte_len, chars_of, join, joined, string_of, words, words_of};
use vstd::prelude::*;
use vstd::utf8::{
    char_is_scalar, encode_scalar, encode_utf8, has_width_1_encoding, has_width_2_encoding,
    has_width_3_encoding,
};

verus! {

/// The byte bound on a payload text.
pub const MAX_PAYLOAD_TEXT_BYTES: usize = 4096;

/// The character bound on a one-line summary.
pub const MAX_ACTIVITY_DETAIL_CHARS: usize = 160;

/// The key a payload carries, set to `true`, once one of its values was cut.
pub const TRUNCATED_KEY: &'static str = "truncated";

/// The longest tail of `text` that is no more than `limit` bytes.
pub open spec fn tail_within(text: Seq<char>, limit: nat) -> Seq<char>
    decreases text.len(),
{
    if text.len() == 0 || encode_utf8(text).len() <= limit {
        text
    } else {
        tail_within(text.skip(1), limit)
    }
}

/// The longest head of `text` that is no more than `limit` bytes.
pub open spec fn head_within(text: Seq<char>, limit: nat) -> Seq<char>
    decreases text.len(),
{
    if text.len() == 0 || encode_utf8(text).len() <= limit {
        text
    } else {
        head_within(text.drop_last(), limit)
    }
}

/// How many bytes a character is.
pub open spec fn char_width(c: char) -> nat {
    encode_scalar(c as u32).len()
}

/// How many bytes a character is.
fn width_of(c: char) -> (r: usize)
    ensures
        r == char_width(c),
        1 <= r <= 4,
{
    proof {
        char_is_scalar(c);
    }
    let code: u32 = c as u32;
    if code <= 0x7f {
        1
    } else if code <= 0x7ff {
        2
    } else if code <= 0xffff {
        3
    } else {
        4
    }
}

proof fn lemma_skip_width(text: Seq<char>)
    requires
        text.len() > 0,
    ensures
        encode_utf8(text).len() == char_width(text[0]) + encode_utf8(text.skip(1)).len(),
{
    assert(text.drop_first() =~= text.skip(1));
}

pub proof fn lemma_drop_width(text: Seq<char>)
    requires
        text.len() > 0,
    ensures
        encode_utf8(text).len() == encode_utf8(text.drop_last()).len() + char_width(text.last()),
    decreases text.len(),
{
    let rest = text.drop_first();
    if rest.len() > 0 {
        lemma_drop_width(rest);
        assert(rest.drop_last() =~= text.drop_last().drop_first());
    } else {
        assert(text.drop_last() =~= Seq::<char>::empty());
        assert(rest =~= Seq::<char>::empty());
        reveal_with_fuel(encode_utf8, 2);
    }
}

/// Bounds one text, keeping its tail, and says whether it had to be cut.
pub fn bound_text(text: &str) -> (r: (String, bool))
    ensures
        r.0@ == tail_within(text@, MAX_PAYLOAD_TEXT_BYTES as nat),
        r.1 == (encode_utf8(text@).len() > MAX_PAYLOAD_TEXT_BYTES),
{
    let total = byte_len(text);
    if total <= MAX_PAYLOAD_TEXT_BYTES {
        return (text.to_owned(), false);
    }
    let chars = chars_of(text);
    let len: usize = chars.len();
    let mut start: usize = 0;
    let mut left: usize = total;
    proof {
        assert(text@.skip(0) =~= text@);
    }
    while start < len && left > MAX_PAYLOAD_TEXT_BYTES
        invariant
            start <= len == chars@.len(),
            chars@ == text@,
            left == encode_utf8(text@.skip(start as int)).len(),
            tail_within(text@, MAX_PAYLOAD_TEXT_BYTES as nat) == tail_within(
                text@.skip(start as int),
                MAX_PAYLOAD_TEXT_BYTES as nat,
            ),
        decreases len - start,
    {
        proof {
            lemma_skip_width(text@.skip(start as int));
            assert(text@.skip(start as int).skip(1) =~= text@.skip(start + 1));
        }
        left = left - width_of(chars[start]);
        start += 1;
    }
    let r = string_of(&chars, start, len);
    proof {
        assert(r@ =~= text@.skip(start as int));
    }
    (r, true)
}

/// The longest head of `text` that is no more than `limit` bytes.
pub fn cut_head(text: &str, limit: usize) -> (r: String)
    ensures
        r@ == head_within(text@, limit as nat),
{
    let chars = chars_of(text);
    let mut end: usize = chars.len();
    let mut left: usize = byte_len(text);
    proof {
        assert(text@.take(end as int) =~= text@);
    }
    while end > 0 && left > limit
        invariant
            end <= chars@.len(),
            chars@ == text@,
            left == encode_utf8(text@.take(end as int)).len(),
            head_within(text@, limit as nat) == head_within(text@.take(end as int), limit as nat),
        decreases end,
    {
        proof {
            lemma_drop_width(text@.take(end as int));
            assert(text@.take(end as int).drop_last() =~= text@.take(end - 1));
        }
        left = left - width_of(chars[end - 1]);
        end = end - 1;
    }
    let r = string_of(&chars, 0, end);
    proof {
        assert(r@ =~= text@.take(end as int));
    }
    r
}

/// Whether a value is a text past the bound.
pub open spec fn is_past_bound(value: JsonView) -> bool {
    match value {
        JsonView::Str(text) => encode_utf8(text).len() > MAX_PAYLOAD_TEXT_BYTES,
        _ => false,
    }
}

/// A value within the bound: a text past it cut to its head.
pub open spec fn bounded_value(value: JsonView) -> JsonView {
    match value {
        JsonView::Str(text) => JsonView::Str(head_within(text, MAX_PAYLOAD_TEXT_BYTES as nat)),
        other => other,
    }
}

/// The values of a payload, each within the bound.
pub open spec fn bounded_values(payload: Seq<(Seq<char>, JsonView)>) -> Seq<(Seq<char>, JsonView)> {
    Seq::new(payload.len(), |i: int| (payload[i].0, bounded_value(payload[i].1)))
}

/// Whether any value of a payload is past the bound.
pub open spec fn any_past_bound(payload: Seq<(Seq<char>, JsonView)>) -> bool {
    exists|i: int| 0 <= i < payload.len() && is_past_bound((#[trigger] payload[i]).1)
}

/// A payload within the bound, marked where anything was cut.
pub open spec fn bounded_payload(payload: Seq<(Seq<char>, JsonView)>) -> Seq<
    (Seq<char>, JsonView),
> {
    if any_past_bound(payload) {
        with_field(bounded_values(payload), TRUNCATED_KEY@, JsonView::Bool(true))
    } else {
        bounded_values(payload)
    }
}

/// Bounds every top-level text of a payload to its head, and marks the payload
/// when any was cut. Other values and nested ones are carried untouched.
pub fn bound_payload(payload: &Vec<(String, Json)>) -> (r: Vec<(String, Json)>)
    ensures
        fields_view(r@) == bounded_payload(fields_view(payload@)),
{
    broadcast use group_json_views;

    let ghost all = fields_view(payload@);
    let mut out: Vec<(String, Json)> = Vec::new();
    let mut truncated = false;
    let mut i: usize = 0;
    while i < payload.len()
        invariant
            i <= payload@.len(),
            all == fields_view(payload@),
            truncated == exists|k: int| 0 <= k < i && is_past_bound((#[trigger] all[k]).1),
            fields_view(out@) =~= bounded_values(all).take(i as int),
        decreases payload@.len() - i,
    {
        let ghost before = fields_view(out@);
        proof {
            assert(all[i as int] == (payload@[i as int].0@, payload@[i as int].1@));
        }
        let value = match &payload[i].1 {
            Json::Str(text) => {
                if byte_len(text.as_str()) > MAX_PAYLOAD_TEXT_BYTES {
                    truncated = true;
                }
                Json::Str(cut_head(text.as_str(), MAX_PAYLOAD_TEXT_BYTES))
            },
            other => other.copied(),
        };
        let ghost kept = (payload@[i as int].0@, value@);
        out.push((payload[i].0.clone(), value));
        proof {
            assert(fields_view(out@) =~= before.push(kept));
            assert(bounded_values(all)[i as int] == kept);
        }
        i += 1;
    }
    proof {
        assert(fields_view(out@) =~= bounded_values(all));
    }
    if truncated {
        set_field(&mut out, TRUNCATED_KEY, Json::Bool(true));
    }
    out
}

/// A summary with its white space collapsed.
pub open spec fn collapsed(detail: Seq<char>) -> Seq<char> {
    joined(words(detail), " "@)
}

/// Bounds a one-line summary, and says whether it had to be cut.
pub fn bound_detail(detail: &str) -> (r: (String, bool))
    ensures
        r.1 == (collapsed(detail@).len() > MAX_ACTIVITY_DETAIL_CHARS),
        r.0@ == if r.1 {
            collapsed(detail@).take(MAX_ACTIVITY_DETAIL_CHARS as int)
        } else {
            collapsed(detail@)
        },
{
    let parts = words_of(detail);
    let line = join(&parts, " ");
    let chars = chars_of(line.as_str());
    if chars.len() <= MAX_ACTIVITY_DETAIL_CHARS {
        return (line, false);
    }
    let cut = string_of(&chars, 0, MAX_ACTIVITY_DETAIL_CHARS);
    proof {
        assert(cut@ =~= collapsed(detail@).take(MAX_ACTIVITY_DETAIL_CHARS as int));
    }
    (cut, true)
}

/// A head is within its bound, starts the text, and is all of it where that is
/// within the bound.
pub proof fn head_is_within(text: Seq<char>, limit: nat)
    ensures
        encode_utf8(head_within(text, limit)).len() <= limit,
        head_within(text, limit).len() <= text.len(),
        head_within(text, limit) == text.take(head_within(text, limit).len() as int),
        encode_utf8(text).len() <= limit ==> head_within(text, limit) == text,
    decreases text.len(),
{
    if text.len() > 0 && encode_utf8(text).len() > limit {
        head_is_within(text.drop_last(), limit);
        let head = head_within(text, limit);
        assert(text.drop_last().take(head.len() as int) =~= text.take(head.len() as int));
    } else {
        assert(text.take(text.len() as int) =~= text);
    }
}

/// A tail is within its bound, ends the text, and is all of it where that is
/// within the bound.
pub proof fn tail_is_within(text: Seq<char>, limit: nat)
    ensures
        encode_utf8(tail_within(text, limit)).len() <= limit,
        tail_within(text, limit).len() <= text.len(),
        tail_within(text, limit) == text.skip(text.len() - tail_within(text, limit).len()),
        encode_utf8(text).len() <= limit ==> tail_within(text, limit) == text,
    decreases text.len(),
{
    if text.len() > 0 && encode_utf8(text).len() > limit {
        tail_is_within(text.skip(1), limit);
        let tail = tail_within(text, limit);
        assert(text.skip(1).skip(text.len() - 1 - tail.len()) =~= text.skip(
            text.len() - tail.len(),
        ));
    } else {
        assert(text.skip(0) =~= text);
    }
}

/// A payload within its bound passes unchanged, with no mark.
pub proof fn payload_within_bound_is_unchanged(payload: Seq<(Seq<char>, JsonView)>)
    requires
        !any_past_bound(payload),
    ensures
        bounded_payload(payload) == payload,
{
    assert forall|i: int| 0 <= i < payload.len() implies #[trigger] bounded_values(payload)[i]
        == payload[i] by {
        assert(!is_past_bound(payload[i].1));
        if let JsonView::Str(text) = payload[i].1 {
            head_is_within(text, MAX_PAYLOAD_TEXT_BYTES as nat);
        }
    }
    assert(bounded_values(payload) =~= payload);
}

} // verus!
