//! The projection document: an event queue's fold, stamped with how much of the
//! log it accounts for and sealed, so that the next reader folds only what the
//! log grew by.

use crate::bytes::text_bytes;
use crate::event_log::{bytes_read, read_bytes};
use crate::fold::{Folded, FoldedView, optional_view};
use crate::fold_laws::lemma_field_none;
use crate::json::{
    Json, JsonView, NumberView, field, fields_view, get_field, group_json_views, items_view,
    json_pretty, keys_distinct, nests_within, reads_as, settled, text_of, whole,
};
use crate::text::{chars_of, hex_char, hex_char_of, is_digit};
use vstd::bytes::{spec_u64_to_le_bytes, u64_to_le_bytes};
use vstd::prelude::*;
use vstd::utf8::{
    decode_utf8, encode_utf8, encode_utf8_decode_utf8, encode_utf8_valid_utf8, valid_utf8,
};

verus! {

// ---------------------------------------------------------------------------
// The seal.
// ---------------------------------------------------------------------------

/// FNV-1a's 128-bit offset basis: the digest of no bytes.
pub const NOTHING_DIGESTED: u128 = 0x6c62272e07bb014262b821756295c58d;

/// FNV-1a's 128-bit prime, `2^88 + 0x13b`.
pub const FNV_PRIME: u128 = 0x1000000000000000000013b;

/// FNV-1a over `bytes`, continuing from `from`.
pub open spec fn digest(from: u128, bytes: Seq<u8>) -> u128
    decreases bytes.len(),
{
    if bytes.len() == 0 {
        from
    } else {
        (digest(from, bytes.drop_last()) ^ (bytes.last() as u128)).wrapping_mul(FNV_PRIME)
    }
}

/// FNV-1a over `bytes`, continuing from `from`.
pub fn digested(from: u128, bytes: &Vec<u8>) -> (r: u128)
    ensures
        r == digest(from, bytes@),
{
    let mut out: u128 = from;
    let mut i: usize = 0;
    proof {
        assert(bytes@.take(0) =~= Seq::<u8>::empty());
    }
    while i < bytes.len()
        invariant
            i <= bytes@.len(),
            out == digest(from, bytes@.take(i as int)),
        decreases bytes@.len() - i,
    {
        proof {
            assert(bytes@.take(i + 1).drop_last() =~= bytes@.take(i as int));
        }
        let byte: u128 = bytes[i] as u128;
        let mixed: u128 = out ^ byte;
        out = mixed.wrapping_mul(FNV_PRIME);
        i += 1;
    }
    proof {
        assert(bytes@.take(i as int) =~= bytes@);
    }
    out
}

/// A value, or `null`.
pub open spec fn or_null(value: Option<JsonView>) -> JsonView {
    match value {
        Some(value) => value,
        None => JsonView::Null,
    }
}

/// What a projection claims, as one value.
pub open spec fn claims(folded: FoldedView) -> JsonView {
    JsonView::Array(
        seq![
            JsonView::Array(folded.waiting),
            or_null(folded.pending),
            JsonView::Number(NumberView::Int(folded.next_id as int)),
        ],
    )
}

/// The seal over what is claimed, and over how much of the log it accounts for.
#[verifier::opaque]
pub open spec fn seal_of(folded: FoldedView, accounted: u64) -> u128 {
    digest(
        digest(NOTHING_DIGESTED, encode_utf8(text_of(claims(folded)))),
        spec_u64_to_le_bytes(accounted),
    )
}

/// What a projection is.
pub struct ProjectionView {
    pub folded: FoldedView,
    pub accounted: Option<u64>,
    pub seal: Option<u128>,
}

/// What `folded` says as a projection.
pub open spec fn projection_of(folded: Folded) -> ProjectionView {
    ProjectionView { folded: folded@, accounted: folded.accounted, seal: folded.seal }
}

/// A projection of `folded` that accounts for the log up to `accounted`, sealed.
pub open spec fn sealed_at(folded: FoldedView, accounted: u64) -> ProjectionView {
    ProjectionView {
        folded,
        accounted: Some(accounted),
        seal: Some(seal_of(folded, accounted)),
    }
}

/// Whether what is claimed is as a writer left it: unstamped, or stamped with a
/// seal that still matches.
pub open spec fn intact(projection: ProjectionView) -> bool {
    match projection.accounted {
        None => true,
        Some(accounted) => projection.seal == Some(seal_of(projection.folded, accounted)),
    }
}

/// A copy of an optional value.
pub fn copied_option(value: &Option<Json>) -> (r: Option<Json>)
    ensures
        optional_view(r) == optional_view(*value),
{
    match value {
        Some(value) => Some(value.copied()),
        None => None,
    }
}

/// A copy of several values.
pub fn copied_items(items: &Vec<Json>) -> (r: Vec<Json>)
    ensures
        items_view(r@) == items_view(items@),
{
    let mut out: Vec<Json> = Vec::new();
    let mut i: usize = 0;
    while i < items.len()
        invariant
            i <= items@.len(),
            items_view(out@) =~= items_view(items@).take(i as int),
        decreases items@.len() - i,
    {
        let ghost before = items_view(out@);
        out.push(items[i].copied());
        proof {
            assert(items_view(out@) =~= before.push(items@[i as int]@));
        }
        i += 1;
    }
    proof {
        assert(items_view(out@) =~= items_view(items@));
    }
    out
}

impl Folded {
    /// The seal over what is claimed, for a stamped projection.
    pub fn sealed(&self) -> (r: Option<u128>)
        ensures
            r == match self.accounted {
                Some(accounted) => Some(seal_of(self@, accounted)),
                None => None,
            },
    {
        broadcast use group_json_views;

        let accounted = match self.accounted {
            Some(accounted) => accounted,
            None => {
                return None;
            },
        };
        let mut parts: Vec<Json> = Vec::new();
        parts.push(Json::Array(copied_items(&self.waiting)));
        parts.push(
            match &self.pending {
                Some(held) => held.copied(),
                None => Json::Null,
            },
        );
        parts.push(Json::whole(self.next_id));
        proof {
            reveal(seal_of);
            assert(items_view(parts@) =~= claims(self@)->Array_0);
        }
        let text = Json::Array(parts).render();
        let bytes = text_bytes(text.as_str());
        let stamp = u64_to_le_bytes(accounted);
        let over_claims: u128 = digested(NOTHING_DIGESTED, &bytes);
        Some(digested(over_claims, &stamp))
    }

    /// Seals what is claimed.
    pub fn seal(&mut self)
        ensures
            final(self)@ == old(self)@,
            final(self).accounted == old(self).accounted,
            final(self).seal == match old(self).accounted {
                Some(accounted) => Some(seal_of(old(self)@, accounted)),
                None => None,
            },
            intact(projection_of(*final(self))),
    {
        let seal = self.sealed();
        self.seal = seal;
    }

    /// Whether what is claimed is as a writer left it.
    pub fn is_intact(&self) -> (r: bool)
        ensures
            r == intact(projection_of(*self)),
    {
        match self.accounted {
            None => true,
            Some(_) => match (self.seal, self.sealed()) {
                (Some(held), Some(expected)) => held == expected,
                _ => false,
            },
        }
    }
}

// ---------------------------------------------------------------------------
// The seal as text.
// ---------------------------------------------------------------------------

/// The last `digits` hexadecimal digits of `n`.
pub open spec fn hex_digits(n: nat, digits: nat) -> Seq<char>
    decreases digits,
{
    if digits == 0 {
        Seq::empty()
    } else {
        hex_digits(n / 16, (digits - 1) as nat).push(hex_char(n % 16))
    }
}

/// Whether `c` is a lower-case hexadecimal digit.
pub open spec fn is_hex_char(c: char) -> bool {
    is_digit(c) || ('a' <= c <= 'f')
}

/// The number a hexadecimal digit is.
pub open spec fn hex_digit_value(c: char) -> nat {
    if is_digit(c) {
        (c as u32 - 48) as nat
    } else {
        (c as u32 - 87) as nat
    }
}

/// The number hexadecimal digits write.
pub open spec fn hex_value(text: Seq<char>) -> nat
    decreases text.len(),
{
    if text.len() == 0 {
        0
    } else {
        hex_value(text.drop_last()) * 16 + hex_digit_value(text.last())
    }
}

/// Whether `text` is a seal: 32 lower-case hexadecimal digits.
pub open spec fn is_seal_text(text: Seq<char>) -> bool {
    text.len() == 32 && forall|i: int| 0 <= i < text.len() ==> is_hex_char(#[trigger] text[i])
}

/// 16 to a power.
pub open spec fn sixteens(digits: nat) -> nat
    decreases digits,
{
    if digits == 0 {
        1
    } else {
        16 * sixteens((digits - 1) as nat)
    }
}

proof fn lemma_hex_digits(n: nat, digits: nat)
    requires
        n < sixteens(digits),
    ensures
        hex_digits(n, digits).len() == digits,
        forall|i: int|
            0 <= i < digits ==> is_hex_char(#[trigger] hex_digits(n, digits)[i]),
        hex_value(hex_digits(n, digits)) == n,
    decreases digits,
{
    reveal_with_fuel(hex_value, 2);
    if digits > 0 {
        let fewer = (digits - 1) as nat;
        lemma_hex_digits(n / 16, fewer);
        let all = hex_digits(n, digits);
        assert(all.drop_last() =~= hex_digits(n / 16, fewer));
        let last = hex_char(n % 16);
        assert(is_hex_char(last) && hex_digit_value(last) == n % 16);
        assert forall|i: int| 0 <= i < digits implies is_hex_char(#[trigger] all[i]) by {
            if i < fewer {
                assert(all[i] == hex_digits(n / 16, fewer)[i]);
            }
        }
    }
}

proof fn lemma_sixteens()
    ensures
        sixteens(32) == u128::MAX + 1,
{
    reveal_with_fuel(sixteens, 33);
}

proof fn lemma_hex_value_bound(text: Seq<char>)
    requires
        forall|i: int| 0 <= i < text.len() ==> is_hex_char(#[trigger] text[i]),
    ensures
        hex_value(text) < sixteens(text.len()),
    decreases text.len(),
{
    if text.len() > 0 {
        lemma_hex_value_bound(text.drop_last());
        assert(is_hex_char(text[text.len() - 1]));
    }
}

/// A seal written as text reads as the seal again.
pub proof fn seal_text_round_trip(seal: u128)
    ensures
        is_seal_text(hex_digits(seal as nat, 32)),
        hex_value(hex_digits(seal as nat, 32)) == seal,
{
    lemma_sixteens();
    lemma_hex_digits(seal as nat, 32);
}

/// A seal as text.
fn seal_text(seal: u128) -> (r: String)
    ensures
        r@ == hex_digits(seal as nat, 32),
{
    hex_digits_of(seal, 32)
}

fn hex_digits_of(n: u128, digits: usize) -> (r: String)
    ensures
        r@ == hex_digits(n as nat, digits as nat),
    decreases digits,
{
    if digits == 0 {
        return String::new();
    }
    let mut out = hex_digits_of(n / 16, digits - 1);
    out.push(hex_char_of((n % 16) as u8));
    out
}

/// The seal `text` writes.
fn parse_seal(text: &str) -> (r: Option<u128>)
    ensures
        match r {
            Some(seal) => is_seal_text(text@) && seal == hex_value(text@),
            None => !is_seal_text(text@),
        },
{
    let chars = chars_of(text);
    if chars.len() != 32 {
        return None;
    }
    let mut value: u128 = 0;
    let mut i: usize = 0;
    proof {
        assert(text@.take(0) =~= Seq::<char>::empty());
        lemma_sixteens();
    }
    while i < 32
        invariant
            i <= 32,
            chars@ == text@,
            chars@.len() == 32,
            sixteens(32) == u128::MAX + 1,
            forall|k: int| 0 <= k < i ==> is_hex_char(#[trigger] text@[k]),
            value == hex_value(text@.take(i as int)),
        decreases 32 - i,
    {
        let c = chars[i];
        let d: u32 = if '0' <= c && c <= '9' {
            c as u32 - 48
        } else if 'a' <= c && c <= 'f' {
            c as u32 - 87
        } else {
            proof {
                assert(!is_hex_char(text@[i as int]));
            }
            return None;
        };
        proof {
            let next = text@.take(i + 1);
            assert(next.drop_last() =~= text@.take(i as int));
            assert(next.last() == c);
            assert forall|k: int| 0 <= k < next.len() implies is_hex_char(#[trigger] next[k]) by {
                assert(next[k] == text@[k]);
            }
            lemma_hex_value_bound(next);
            lemma_sixteens_grow(next.len(), 32);
            assert(hex_value(next) == value * 16 + d);
        }
        value = value * 16 + d as u128;
        i += 1;
    }
    proof {
        assert(text@.take(i as int) =~= text@);
    }
    Some(value)
}

proof fn lemma_sixteens_grow(a: nat, b: nat)
    requires
        a <= b,
    ensures
        sixteens(a) <= sixteens(b),
    decreases b,
{
    if a < b {
        lemma_sixteens_grow(a, (b - 1) as nat);
    }
}

// ---------------------------------------------------------------------------
// The document.
// ---------------------------------------------------------------------------

/// The document a projection is written as.
pub open spec fn document_value(projection: ProjectionView) -> JsonView {
    let base = seq![
        ("waiting"@, JsonView::Array(projection.folded.waiting)),
        ("pending"@, or_null(projection.folded.pending)),
        ("next_id"@, JsonView::Number(NumberView::Int(projection.folded.next_id as int))),
    ];
    let stamped = match projection.accounted {
        Some(accounted) => base.push(
            ("accounted"@, JsonView::Number(NumberView::Int(accounted as int))),
        ),
        None => base,
    };
    JsonView::Object(
        match projection.seal {
            Some(seal) => stamped.push(("seal"@, JsonView::Str(hex_digits(seal as nat, 32)))),
            None => stamped,
        },
    )
}

/// The projection a document's members are, or nothing where one of them is not
/// what a projection holds there.
pub open spec fn fields_project(fields: Seq<(Seq<char>, JsonView)>) -> Option<ProjectionView> {
    let waiting = match field(fields, "waiting"@) {
        None => Some(Seq::<JsonView>::empty()),
        Some(JsonView::Array(records)) => Some(records),
        Some(_) => None,
    };
    let pending = match field(fields, "pending"@) {
        None => None,
        Some(JsonView::Null) => None,
        Some(record) => Some(record),
    };
    let next_id = match field(fields, "next_id"@) {
        None => Some(0u64),
        Some(value) => whole(value),
    };
    let accounted: Option<Option<u64>> = match field(fields, "accounted"@) {
        None => Some(None),
        Some(JsonView::Null) => Some(None),
        Some(value) => match whole(value) {
            Some(n) => Some(Some(n)),
            None => None,
        },
    };
    let seal: Option<Option<u128>> = match field(fields, "seal"@) {
        None => Some(None),
        Some(JsonView::Null) => Some(None),
        Some(JsonView::Str(text)) => if is_seal_text(text) {
            Some(Some(hex_value(text) as u128))
        } else {
            None
        },
        Some(_) => None,
    };
    if waiting is Some && next_id is Some && accounted is Some && seal is Some {
        Some(
            ProjectionView {
                folded: FoldedView { waiting: waiting->0, pending, next_id: next_id->0 },
                accounted: accounted->0,
                seal: seal->0,
            },
        )
    } else {
        None
    }
}

/// The bytes a projection is written as.
pub open spec fn projection_bytes(projection: ProjectionView) -> Seq<u8> {
    encode_utf8(json_pretty(settled(document_value(projection))))
}

/// The projection a document's bytes write.
pub open spec fn projection_reads(bytes: Seq<u8>) -> Option<ProjectionView> {
    match bytes_read(bytes) {
        Some(JsonView::Object(fields)) => fields_project(fields),
        _ => None,
    }
}

/// The projection a document's bytes write.
pub fn parse_projection(bytes: &Vec<u8>) -> (r: Option<Folded>)
    ensures
        match r {
            Some(folded) => projection_reads(bytes@) == Some(projection_of(folded)),
            None => projection_reads(bytes@) is None,
        },
{
    broadcast use group_json_views;

    let value = match read_bytes(bytes) {
        Some(value) => value,
        None => {
            return None;
        },
    };
    let fields = match &value {
        Json::Object(fields) => fields,
        _ => {
            return None;
        },
    };
    let waiting = match get_field(fields, "waiting") {
        None => {
            let none: Vec<Json> = Vec::new();
            proof {
                assert(items_view(none@) =~= Seq::<JsonView>::empty());
            }
            none
        },
        Some(Json::Array(records)) => copied_items(records),
        Some(_) => {
            return None;
        },
    };
    let pending = match get_field(fields, "pending") {
        None => None,
        Some(Json::Null) => None,
        Some(record) => Some(record.copied()),
    };
    let next_id: u64 = match get_field(fields, "next_id") {
        None => 0,
        Some(value) => match value.as_u64() {
            Some(n) => n,
            None => {
                return None;
            },
        },
    };
    let accounted = match get_field(fields, "accounted") {
        None => None,
        Some(Json::Null) => None,
        Some(value) => match value.as_u64() {
            Some(n) => Some(n),
            None => {
                return None;
            },
        },
    };
    let seal = match get_field(fields, "seal") {
        None => None,
        Some(Json::Null) => None,
        Some(Json::Str(text)) => match parse_seal(text.as_str()) {
            Some(seal) => Some(seal),
            None => {
                return None;
            },
        },
        Some(_) => {
            return None;
        },
    };
    Some(Folded { waiting, pending, next_id, accounted, seal })
}

/// Whether a projection is one a document gives back as it was: its records
/// write no key twice, none is deeper than is read, and the pending one is not
/// `null`.
pub open spec fn is_keepable(folded: FoldedView) -> bool {
    &&& forall|i: int|
        0 <= i < folded.waiting.len() ==> keys_distinct(#[trigger] folded.waiting[i])
            && nests_within(folded.waiting[i], 125)
    &&& folded.pending is Some ==> !(folded.pending->0 is Null) && keys_distinct(
        folded.pending->0,
    ) && nests_within(folded.pending->0, 126)
}

/// The names a projection's members go by differ.
proof fn lemma_member_names()
    ensures
        "waiting"@ != "pending"@,
        "waiting"@ != "next_id"@,
        "waiting"@ != "accounted"@,
        "waiting"@ != "seal"@,
        "pending"@ != "next_id"@,
        "pending"@ != "accounted"@,
        "pending"@ != "seal"@,
        "next_id"@ != "accounted"@,
        "next_id"@ != "seal"@,
        "accounted"@ != "seal"@,
{
    reveal_strlit("waiting");
    reveal_strlit("pending");
    reveal_strlit("next_id");
    reveal_strlit("accounted");
    reveal_strlit("seal");
    assert("waiting"@[0] != "pending"@[0]);
    assert("waiting"@[0] != "next_id"@[0]);
    assert("pending"@[0] != "next_id"@[0]);
    assert("waiting"@.len() != "accounted"@.len());
    assert("waiting"@.len() != "seal"@.len());
    assert("accounted"@.len() != "seal"@.len());
    assert("pending"@.len() != "accounted"@.len());
    assert("next_id"@.len() != "accounted"@.len());
    assert("pending"@.len() != "seal"@.len());
    assert("next_id"@.len() != "seal"@.len());
}

proof fn lemma_field_at(fields: Seq<(Seq<char>, JsonView)>, at: int)
    requires
        0 <= at < fields.len(),
        forall|k: int| 0 <= k < at ==> (#[trigger] fields[k]).0 != fields[at].0,
    ensures
        field(fields, fields[at].0) == Some(fields[at].1),
    decreases at,
{
    if at > 0 {
        let rest = fields.skip(1);
        assert forall|k: int| 0 <= k < at - 1 implies (#[trigger] rest[k]).0 != rest[at - 1].0 by {
            assert(rest[k] == fields[k + 1]);
        }
        lemma_field_at(rest, at - 1);
        assert(fields[0].0 != fields[at].0);
    }
}

/// What a projection is written as reads as the projection again.
pub proof fn lemma_document_projects(projection: ProjectionView)
    requires
        is_keepable(projection.folded),
    ensures
        fields_project(document_value(projection)->Object_0) == Some(projection),
        keys_distinct(document_value(projection)),
        nests_within(document_value(projection), 127),
{
    let fields = document_value(projection)->Object_0;
    lemma_member_names();
    lemma_field_at(fields, 0);
    lemma_field_at(fields, 1);
    lemma_field_at(fields, 2);
    if projection.accounted is Some {
        lemma_field_at(fields, 3);
    } else {
        lemma_field_none(fields, "accounted"@);
    }
    if let Some(seal) = projection.seal {
        seal_text_round_trip(seal);
        lemma_field_at(fields, fields.len() - 1);
    } else {
        lemma_field_none(fields, "seal"@);
    }
    let waiting = JsonView::Array(projection.folded.waiting);
    assert(keys_distinct(waiting));
    assert(nests_within(waiting, 126));
    assert forall|i: int| 0 <= i < fields.len() implies keys_distinct((#[trigger] fields[i]).1)
        && nests_within(fields[i].1, 126) by {}
}

impl Folded {
    /// The document this is written as, which reads as this again.
    pub fn render(&self) -> (r: Vec<u8>)
        ensures
            r@ == encode_utf8(json_pretty(settled(document_value(projection_of(*self))))),
            is_keepable(self@) ==> projection_reads(r@) == Some(projection_of(*self)),
    {
        broadcast use group_json_views;

        let mut document: Vec<(String, Json)> = Vec::new();
        document.push(("waiting".to_owned(), Json::Array(copied_items(&self.waiting))));
        document.push(
            (
                "pending".to_owned(),
                match &self.pending {
                    Some(held) => held.copied(),
                    None => Json::Null,
                },
            ),
        );
        document.push(("next_id".to_owned(), Json::whole(self.next_id)));
        if let Some(accounted) = self.accounted {
            document.push(("accounted".to_owned(), Json::whole(accounted)));
        }
        if let Some(seal) = self.seal {
            document.push(("seal".to_owned(), Json::Str(seal_text(seal))));
        }
        proof {
            assert(fields_view(document@) =~= document_value(projection_of(*self))->Object_0);
        }
        let value = Json::Object(document);
        let text = value.render_pretty();
        proof {
            encode_utf8_valid_utf8(text@);
            encode_utf8_decode_utf8(text@);
            if is_keepable(self@) {
                lemma_document_projects(projection_of(*self));
                assert(reads_as(text@, value@));
            }
        }
        text_bytes(text.as_str())
    }
}

} // verus!
