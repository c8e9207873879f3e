//! JSON values, as the library holds them: objects keep the order their
//! members were written in.
//!
//! Reading a value from text and writing one to text are `serde_json`'s. The
//! items that call it stand first.

use crate::text::{decimal, is_white_space};
use vstd::prelude::*;

verus! {

// ---------------------------------------------------------------------------
// What is taken on trust of `serde_json`.
// ---------------------------------------------------------------------------

/// `serde_json::Number`, held as it is.
#[verifier::external_type_specification]
#[verifier::external_body]
pub struct ExNumber(serde_json::Number);

/// `serde_json::Value`, held as it is.
#[verifier::external_type_specification]
#[verifier::external_body]
pub struct ExValue(serde_json::Value);

/// What a JSON number is: an integer, or the text a fraction is written as.
pub enum NumberView {
    Int(int),
    Fraction(Seq<char>),
}

/// What a JSON value is.
pub enum JsonView {
    Null,
    Bool(bool),
    Number(NumberView),
    Str(Seq<char>),
    Array(Seq<JsonView>),
    Object(Seq<(Seq<char>, JsonView)>),
}

/// What a `serde_json::Number` holds.
pub uninterp spec fn number_view(number: serde_json::Number) -> NumberView;

/// What a `serde_json::Value` holds.
pub uninterp spec fn value_json(value: serde_json::Value) -> JsonView;

/// What `serde_json::from_str` reads `text` as, or the words it refuses it in.
pub uninterp spec fn parsed_json(text: Seq<char>) -> Result<JsonView, Seq<char>>;

/// Whether `text` reads as `value`.
pub open spec fn reads_as(text: Seq<char>, value: JsonView) -> bool {
    parsed_json(text) is Ok && parsed_json(text)->Ok_0 == value
}

/// Whether `text` reads as no value, refused in the words `why`.
pub open spec fn refused_as(text: Seq<char>, why: Seq<char>) -> bool {
    parsed_json(text) is Err && parsed_json(text)->Err_0 == why
}

/// The compact text `serde_json` writes a value as.
pub uninterp spec fn json_text(value: JsonView) -> Seq<char>;

/// The number as a `u64`, when it is an integer one holds.
pub open spec fn whole_number(number: NumberView) -> Option<u64> {
    match number {
        NumberView::Int(n) => if 0 <= n <= u64::MAX {
            Some(n as u64)
        } else {
            None
        },
        NumberView::Fraction(_) => None,
    }
}

/// Whether `text` is how a fraction of zero is written.
pub open spec fn is_zero_text(text: Seq<char>) -> bool {
    text == "0.0"@ || text == "-0.0"@
}

/// Whether two numbers are equal: two integers of one value, or two fractions
/// of one value. An integer equals no fraction.
pub open spec fn same_number(a: NumberView, b: NumberView) -> bool {
    match (a, b) {
        (NumberView::Int(m), NumberView::Int(n)) => m == n,
        (NumberView::Fraction(s), NumberView::Fraction(t)) => s == t || (is_zero_text(s)
            && is_zero_text(t)),
        _ => false,
    }
}

/// `serde_json::Number::as_u64`: the number as a `u64`, when it is an integer
/// one holds.
#[verifier::external_body]
fn number_as_u64(number: &serde_json::Number) -> (r: Option<u64>)
    ensures
        r == whole_number(number_view(*number)),
{
    number.as_u64()
}

/// `serde_json::Number::from`: the number a `u64` is.
#[verifier::external_body]
fn number_from_u64(n: u64) -> (r: serde_json::Number)
    ensures
        number_view(r) == NumberView::Int(n as int),
{
    serde_json::Number::from(n)
}

/// `serde_json::Number::clone`: the same number.
pub assume_specification[ <serde_json::Number as Clone>::clone ](
    number: &serde_json::Number,
) -> (r: serde_json::Number)
    ensures
        number_view(r) == number_view(*number),
;

/// `serde_json::Number`'s `==`: two integers of one value, or two fractions of
/// one value.
#[verifier::external_body]
fn numbers_equal(a: &serde_json::Number, b: &serde_json::Number) -> (r: bool)
    ensures
        r == same_number(number_view(*a), number_view(*b)),
{
    a == b
}

/// `serde_json::from_str`, into a `serde_json::Value`: what it reads, or the
/// words of its error, named [`parsed_json`].
#[verifier::external_body]
fn value_from_text(text: &str) -> (r: Result<serde_json::Value, String>)
    ensures
        match r {
            Ok(value) => parsed_json(text@) is Ok && parsed_json(text@)->Ok_0 == value_json(value),
            Err(why) => parsed_json(text@) is Err && parsed_json(text@)->Err_0 == why@,
        },
{
    serde_json::from_str(text).map_err(|failure| failure.to_string())
}

/// `serde_json::Value`'s `Display`: its compact text, named [`json_text`], which
/// holds no control character, does not start with white space, is the decimal
/// digits of a whole number, and which `serde_json::from_str` reads back as the
/// same value wherever its nesting is within the limit of 127.
#[verifier::external_body]
fn value_to_text(value: &serde_json::Value) -> (r: String)
    ensures
        r@ == json_text(value_json(*value)),
        r@.len() > 0,
        !is_white_space(r@[0]),
        forall|i: int| 0 <= i < r@.len() ==> #[trigger] r@[i] as u32 >= 0x20,
        whole(value_json(*value)) is Some ==> r@ == decimal(
            whole(value_json(*value))->0 as nat,
        ),
        nests_within(value_json(*value), 127) ==> (parsed_json(r@) is Ok
            && parsed_json(r@)->Ok_0 == value_json(*value)),
{
    value.to_string()
}

/// The indented text `serde_json` writes a value as.
pub uninterp spec fn json_pretty(value: JsonView) -> Seq<char>;

/// `serde_json::Value`'s alternate `Display`: its indented text, named
/// [`json_pretty`], which `serde_json::from_str` reads back as the same value
/// wherever its nesting is within the limit of 127.
#[verifier::external_body]
fn value_to_pretty(value: &serde_json::Value) -> (r: String)
    ensures
        r@ == json_pretty(value_json(*value)),
        nests_within(value_json(*value), 127) ==> (parsed_json(r@) is Ok
            && parsed_json(r@)->Ok_0 == value_json(*value)),
{
    format!("{value:#}")
}

/// Takes a `serde_json::Value` apart: the same value as the library holds it.
#[verifier::external_body]
pub(crate) fn json_from_value(value: serde_json::Value) -> (r: Json)
    ensures
        r@ == value_json(value),
{
    match value {
        serde_json::Value::Null => Json::Null,
        serde_json::Value::Bool(b) => Json::Bool(b),
        serde_json::Value::Number(n) => Json::Number(n),
        serde_json::Value::String(text) => Json::Str(text),
        serde_json::Value::Array(items) => {
            Json::Array(items.into_iter().map(json_from_value).collect())
        },
        serde_json::Value::Object(fields) => Json::Object(
            fields.into_iter().map(|(key, value)| (key, json_from_value(value))).collect(),
        ),
    }
}

/// Builds a `serde_json::Value`: the same value, each object's members inserted
/// in order into a `serde_json::Map`, where a key written again replaces the
/// value under it.
#[verifier::external_body]
pub(crate) fn value_from_json(json: &Json) -> (r: serde_json::Value)
    ensures
        value_json(r) == settled(json@),
{
    match json {
        Json::Null => serde_json::Value::Null,
        Json::Bool(b) => serde_json::Value::Bool(*b),
        Json::Number(n) => serde_json::Value::Number(n.clone()),
        Json::Str(text) => serde_json::Value::String(text.clone()),
        Json::Array(items) => serde_json::Value::Array(items.iter().map(value_from_json).collect()),
        Json::Object(fields) => serde_json::Value::Object(
            fields.iter().map(|(key, value)| (key.clone(), value_from_json(value))).collect(),
        ),
    }
}

// ---------------------------------------------------------------------------
// Values.
// ---------------------------------------------------------------------------

/// A JSON value.
#[derive(Debug, PartialEq)]
pub enum Json {
    /// `null`.
    Null,
    /// `true` or `false`.
    Bool(bool),
    /// A number.
    Number(serde_json::Number),
    /// Text.
    Str(String),
    /// A list.
    Array(Vec<Json>),
    /// An object: its members, in the order they were written.
    Object(Vec<(String, Json)>),
}

impl View for Json {
    type V = JsonView;

    open spec fn view(&self) -> JsonView {
        json_view(*self)
    }
}

/// What a value is.
pub open spec fn json_view(j: Json) -> JsonView
    decreases j,
{
    match j {
        Json::Null => JsonView::Null,
        Json::Bool(b) => JsonView::Bool(b),
        Json::Number(n) => JsonView::Number(number_view(n)),
        Json::Str(t) => JsonView::Str(t@),
        Json::Array(items) => JsonView::Array(
            Seq::new(
                items@.len(),
                |i: int|
                    if 0 <= i < items@.len() {
                        json_view(items@[i])
                    } else {
                        JsonView::Null
                    },
            ),
        ),
        Json::Object(fields) => JsonView::Object(
            Seq::new(
                fields@.len(),
                |i: int|
                    if 0 <= i < fields@.len() {
                        (fields@[i].0@, json_view(fields@[i].1))
                    } else {
                        (Seq::empty(), JsonView::Null)
                    },
            ),
        ),
    }
}

/// What the items of a list are.
pub open spec fn items_view(items: Seq<Json>) -> Seq<JsonView> {
    Seq::new(items.len(), |i: int| items[i]@)
}

/// What the members of an object are.
pub open spec fn fields_view(fields: Seq<(String, Json)>) -> Seq<(Seq<char>, JsonView)> {
    Seq::new(fields.len(), |i: int| (fields[i].0@, fields[i].1@))
}

pub broadcast proof fn lemma_array_view(items: Vec<Json>)
    ensures
        #[trigger] json_view(Json::Array(items)) == JsonView::Array(items_view(items@)),
{
    assert(json_view(Json::Array(items))->Array_0 =~= items_view(items@));
}

pub broadcast proof fn lemma_object_view(fields: Vec<(String, Json)>)
    ensures
        #[trigger] json_view(Json::Object(fields)) == JsonView::Object(fields_view(fields@)),
{
    assert(json_view(Json::Object(fields))->Object_0 =~= fields_view(fields@));
}

pub broadcast group group_json_views {
    lemma_array_view,
    lemma_object_view,
}

// ---------------------------------------------------------------------------
// The members of an object.
// ---------------------------------------------------------------------------

/// The value under `key`.
pub open spec fn field(fields: Seq<(Seq<char>, JsonView)>, key: Seq<char>) -> Option<JsonView>
    decreases fields.len(),
{
    if fields.len() == 0 {
        None
    } else if fields[0].0 == key {
        Some(fields[0].1)
    } else {
        field(fields.skip(1), key)
    }
}

/// The members with `value` under `key`: in place of what was there, or last.
pub open spec fn with_field(
    fields: Seq<(Seq<char>, JsonView)>,
    key: Seq<char>,
    value: JsonView,
) -> Seq<(Seq<char>, JsonView)>
    decreases fields.len(),
{
    if fields.len() == 0 {
        seq![(key, value)]
    } else if fields[0].0 == key {
        seq![(key, value)] + fields.skip(1)
    } else {
        seq![fields[0]] + with_field(fields.skip(1), key, value)
    }
}

/// Whether a member is under another key.
pub open spec fn not_under(key: Seq<char>) -> spec_fn((Seq<char>, JsonView)) -> bool {
    |f: (Seq<char>, JsonView)| f.0 != key
}

/// The members without those under `key`, the rest in their order.
pub open spec fn without_field(
    fields: Seq<(Seq<char>, JsonView)>,
    key: Seq<char>,
) -> Seq<(Seq<char>, JsonView)> {
    fields.filter(not_under(key))
}

/// The value an object holds under `key`; nothing of any other value.
pub open spec fn member(value: JsonView, key: Seq<char>) -> Option<JsonView> {
    match value {
        JsonView::Object(fields) => field(fields, key),
        _ => None,
    }
}

/// `value` with every object's members as inserted one by one: a key written
/// again replaces the value under it, where it first stood.
pub open spec fn settled(value: JsonView) -> JsonView
    decreases value, 0nat,
{
    match value {
        JsonView::Array(items) => JsonView::Array(
            Seq::new(
                items.len(),
                |i: int|
                    if 0 <= i < items.len() {
                        settled(items[i])
                    } else {
                        JsonView::Null
                    },
            ),
        ),
        JsonView::Object(fields) => JsonView::Object(settled_fields(fields)),
        _ => value,
    }
}

/// `fields` inserted one by one, each value settled.
pub open spec fn settled_fields(fields: Seq<(Seq<char>, JsonView)>) -> Seq<(Seq<char>, JsonView)>
    decreases fields, fields.len(),
{
    if fields.len() == 0 {
        fields
    } else {
        with_field(settled_fields(fields.drop_last()), fields.last().0, settled(fields.last().1))
    }
}

/// Whether no object within `value` writes a key twice.
pub open spec fn keys_distinct(value: JsonView) -> bool
    decreases value,
{
    match value {
        JsonView::Array(items) => forall|i: int|
            0 <= i < items.len() ==> keys_distinct(#[trigger] items[i]),
        JsonView::Object(fields) => {
            &&& forall|i: int, j: int|
                0 <= i < j < fields.len() ==> (#[trigger] fields[i]).0 != (#[trigger] fields[j]).0
            &&& forall|i: int|
                0 <= i < fields.len() ==> keys_distinct((#[trigger] fields[i]).1)
        },
        _ => true,
    }
}

/// Whether lists and objects nest within `value` no deeper than `limit`.
pub open spec fn nests_within(value: JsonView, limit: nat) -> bool
    decreases value,
{
    match value {
        JsonView::Array(items) => limit > 0 && forall|i: int|
            0 <= i < items.len() ==> nests_within(#[trigger] items[i], (limit - 1) as nat),
        JsonView::Object(fields) => limit > 0 && forall|i: int|
            0 <= i < fields.len() ==> nests_within((#[trigger] fields[i]).1, (limit - 1) as nat),
        _ => true,
    }
}

/// Whether text is one line that is not blank: no control character in it, and
/// no white space first.
pub open spec fn is_one_line(text: Seq<char>) -> bool {
    &&& text.len() > 0
    &&& !is_white_space(text[0])
    &&& forall|i: int| 0 <= i < text.len() ==> #[trigger] text[i] as u32 >= 0x20
}

/// The text a value is written as.
pub open spec fn text_of(value: JsonView) -> Seq<char> {
    json_text(settled(value))
}

/// A key not among the members goes last.
pub proof fn lemma_with_new_field(
    fields: Seq<(Seq<char>, JsonView)>,
    key: Seq<char>,
    value: JsonView,
)
    requires
        forall|i: int| 0 <= i < fields.len() ==> (#[trigger] fields[i]).0 != key,
    ensures
        with_field(fields, key, value) == fields.push((key, value)),
    decreases fields.len(),
{
    if fields.len() > 0 {
        assert forall|i: int| 0 <= i < fields.skip(1).len() implies (#[trigger] fields.skip(1)[i]).0
            != key by {
            assert(fields.skip(1)[i] == fields[i + 1]);
        }
        lemma_with_new_field(fields.skip(1), key, value);
        assert(seq![fields[0]] + fields.skip(1).push((key, value)) =~= fields.push((key, value)));
    } else {
        assert(seq![(key, value)] =~= fields.push((key, value)));
    }
}

/// Inserting members one by one changes nothing where no key is written twice.
pub proof fn lemma_settled_of_distinct(value: JsonView)
    requires
        keys_distinct(value),
    ensures
        settled(value) == value,
    decreases value, 0nat,
{
    match value {
        JsonView::Array(items) => {
            assert forall|i: int| 0 <= i < items.len() implies settled(#[trigger] items[i])
                == items[i] by {
                assert(keys_distinct(items[i]));
                lemma_settled_of_distinct(items[i]);
            }
            assert(settled(value)->Array_0 =~= items);
        },
        JsonView::Object(fields) => {
            lemma_settled_fields_of_distinct(fields);
        },
        _ => {},
    }
}

proof fn lemma_settled_fields_of_distinct(fields: Seq<(Seq<char>, JsonView)>)
    requires
        forall|i: int, j: int|
            0 <= i < j < fields.len() ==> (#[trigger] fields[i]).0 != (#[trigger] fields[j]).0,
        forall|i: int| 0 <= i < fields.len() ==> keys_distinct((#[trigger] fields[i]).1),
    ensures
        settled_fields(fields) == fields,
    decreases fields, fields.len(),
{
    if fields.len() > 0 {
        let rest = fields.drop_last();
        lemma_settled_fields_of_distinct(rest);
        assert(keys_distinct(fields[fields.len() - 1].1));
        lemma_settled_of_distinct(fields.last().1);
        lemma_with_new_field(rest, fields.last().0, fields.last().1);
        assert(rest.push((fields.last().0, fields.last().1)) =~= fields);
    }
}

// ---------------------------------------------------------------------------
// Equality.
// ---------------------------------------------------------------------------

/// Whether two values are equal: objects whatever the order of their members.
pub open spec fn same(a: JsonView, b: JsonView) -> bool
    decreases a,
{
    match (a, b) {
        (JsonView::Null, JsonView::Null) => true,
        (JsonView::Bool(x), JsonView::Bool(y)) => x == y,
        (JsonView::Number(x), JsonView::Number(y)) => same_number(x, y),
        (JsonView::Str(x), JsonView::Str(y)) => x == y,
        (JsonView::Array(x), JsonView::Array(y)) => x.len() == y.len() && forall|i: int|
            0 <= i < x.len() ==> same(#[trigger] x[i], y[i]),
        (JsonView::Object(x), JsonView::Object(y)) => x.len() == y.len() && forall|i: int|
            0 <= i < x.len() ==> match field(y, (#[trigger] x[i]).0) {
                Some(other) => same(x[i].1, other),
                None => false,
            },
        _ => false,
    }
}

/// Where `key` first stands among `fields`.
fn find_field(fields: &Vec<(String, Json)>, key: &str) -> (r: Option<usize>)
    ensures
        match r {
            Some(at) => at < fields@.len() && fields@[at as int].0@ == key@ && field(
                fields_view(fields@),
                key@,
            ) == Some(fields@[at as int].1@) && forall|k: int|
                0 <= k < at ==> (#[trigger] fields@[k]).0@ != key@,
            None => field(fields_view(fields@), key@) is None && forall|k: int|
                0 <= k < fields@.len() ==> (#[trigger] fields@[k]).0@ != key@,
        },
{
    let ghost all = fields_view(fields@);
    let mut i: usize = 0;
    proof {
        assert(all.skip(0) =~= all);
    }
    while i < fields.len()
        invariant
            i <= fields@.len(),
            all == fields_view(fields@),
            field(all, key@) == field(all.skip(i as int), key@),
            forall|k: int| 0 <= k < i ==> (#[trigger] fields@[k]).0@ != key@,
        decreases fields@.len() - i,
    {
        if crate::text::same_text(fields[i].0.as_str(), key) {
            return Some(i);
        }
        proof {
            assert(all.skip(i as int).skip(1) =~= all.skip(i + 1));
        }
        i += 1;
    }
    None
}

/// The value under `key` among `fields`.
pub fn get_field<'a>(fields: &'a Vec<(String, Json)>, key: &str) -> (r: Option<&'a Json>)
    ensures
        match r {
            Some(value) => field(fields_view(fields@), key@) == Some(value@),
            None => field(fields_view(fields@), key@) is None,
        },
{
    match find_field(fields, key) {
        Some(at) => Some(&fields[at].1),
        None => None,
    }
}

proof fn lemma_with_field_at(
    fields: Seq<(Seq<char>, JsonView)>,
    key: Seq<char>,
    value: JsonView,
    at: int,
)
    requires
        0 <= at < fields.len(),
        fields[at].0 == key,
        forall|k: int| 0 <= k < at ==> (#[trigger] fields[k]).0 != key,
    ensures
        with_field(fields, key, value) == fields.update(at, (key, value)),
    decreases fields.len(),
{
    if at == 0 {
        assert(seq![(key, value)] + fields.skip(1) =~= fields.update(at, (key, value)));
    } else {
        assert forall|k: int| 0 <= k < at - 1 implies (#[trigger] fields.skip(1)[k]).0 != key by {
            assert(fields.skip(1)[k] == fields[k + 1]);
        }
        lemma_with_field_at(fields.skip(1), key, value, at - 1);
        assert(fields[0].0 != key);
        assert(seq![fields[0]] + fields.skip(1).update(at - 1, (key, value)) =~= fields.update(
            at,
            (key, value),
        ));
    }
}

/// Sets `key` to `value` among `fields`: in place, or last.
pub fn set_field(fields: &mut Vec<(String, Json)>, key: &str, value: Json)
    ensures
        fields_view(final(fields)@) == with_field(fields_view(old(fields)@), key@, value@),
{
    let ghost before = fields_view(fields@);
    match find_field(fields, key) {
        Some(at) => {
            proof {
                assert forall|k: int| 0 <= k < at implies (#[trigger] before[k]).0 != key@ by {
                    assert(fields@[k].0@ != key@);
                }
                lemma_with_field_at(before, key@, value@, at as int);
            }
            let ghost was = fields@;
            fields[at] = (key.to_owned(), value);
            proof {
                assert(fields_view(fields@) =~= before.update(at as int, (key@, value@)));
            }
        },
        None => {
            proof {
                assert forall|k: int| 0 <= k < before.len() implies (#[trigger] before[k]).0
                    != key@ by {
                    assert(fields@[k].0@ != key@);
                }
                lemma_with_new_field(before, key@, value@);
            }
            fields.push((key.to_owned(), value));
            proof {
                assert(fields_view(fields@) =~= before.push((key@, value@)));
            }
        },
    }
}

/// A copy of `fields` without those under `key`.
pub fn fields_without(fields: &Vec<(String, Json)>, key: &str) -> (r: Vec<(String, Json)>)
    ensures
        fields_view(r@) == without_field(fields_view(fields@), key@),
{
    let ghost all = fields_view(fields@);
    let ghost kept = not_under(key@);
    let mut out: Vec<(String, Json)> = Vec::new();
    let mut i: usize = 0;
    proof {
        assert(fields_view(out@) =~= all.take(0).filter(kept));
    }
    while i < fields.len()
        invariant
            i <= fields@.len(),
            all == fields_view(fields@),
            kept == not_under(key@),
            fields_view(out@) == all.take(i as int).filter(kept),
        decreases fields@.len() - i,
    {
        let ghost before = fields_view(out@);
        proof {
            assert(all.take(i + 1).drop_last() =~= all.take(i as int));
            reveal_with_fuel(Seq::filter, 2);
        }
        if !crate::text::same_text(fields[i].0.as_str(), key) {
            let value = fields[i].1.copied();
            out.push((fields[i].0.clone(), value));
            proof {
                assert(fields_view(out@) =~= before.push(all[i as int]));
            }
        }
        i += 1;
    }
    proof {
        assert(all.take(i as int) =~= all);
        assert(fields_view(out@) == all.filter(kept));
    }
    out
}

/// A copy of `fields`.
pub fn copied_fields(fields: &Vec<(String, Json)>) -> (r: Vec<(String, Json)>)
    ensures
        fields_view(r@) == fields_view(fields@),
{
    let mut out: Vec<(String, Json)> = Vec::new();
    let mut i: usize = 0;
    while i < fields.len()
        invariant
            i <= fields@.len(),
            fields_view(out@) =~= fields_view(fields@).take(i as int),
        decreases fields@.len() - i,
    {
        let ghost before = fields_view(out@);
        let value = fields[i].1.copied();
        out.push((fields[i].0.clone(), value));
        proof {
            assert(fields_view(out@) =~= before.push(fields_view(fields@)[i as int]));
        }
        i += 1;
    }
    proof {
        assert(fields_view(out@) =~= fields_view(fields@));
    }
    out
}

impl Json {
    /// The same value.
    pub fn copied(&self) -> (r: Json)
        ensures
            r@ == self@,
        decreases self,
    {
        broadcast use group_json_views;

        match self {
            Json::Null => Json::Null,
            Json::Bool(b) => Json::Bool(*b),
            Json::Number(n) => Json::Number(n.clone()),
            Json::Str(t) => Json::Str(t.clone()),
            Json::Array(items) => {
                let mut out: Vec<Json> = Vec::new();
                let mut i: usize = 0;
                while i < items.len()
                    invariant
                        *self == Json::Array(*items),
                        i <= items@.len(),
                        items_view(out@) =~= items_view(items@).take(i as int),
                    decreases items@.len() - i,
                {
                    proof {
                        assert(decreases_to!(self->Array_0 => self->Array_0[i as int]));
                    }
                    let ghost before = items_view(out@);
                    let item = items[i].copied();
                    out.push(item);
                    proof {
                        assert(items_view(out@) =~= before.push(items_view(items@)[i as int]));
                    }
                    i += 1;
                }
                proof {
                    assert(items_view(out@) =~= items_view(items@));
                }
                Json::Array(out)
            },
            Json::Object(fields) => {
                let mut out: Vec<(String, Json)> = Vec::new();
                let mut i: usize = 0;
                while i < fields.len()
                    invariant
                        *self == Json::Object(*fields),
                        i <= fields@.len(),
                        fields_view(out@) =~= fields_view(fields@).take(i as int),
                    decreases fields@.len() - i,
                {
                    proof {
                        assert(decreases_to!(self->Object_0 => self->Object_0[i as int]));
                    }
                    let ghost before = fields_view(out@);
                    let value = fields[i].1.copied();
                    out.push((fields[i].0.clone(), value));
                    proof {
                        assert(fields_view(out@) =~= before.push(fields_view(fields@)[i as int]));
                    }
                    i += 1;
                }
                proof {
                    assert(fields_view(out@) =~= fields_view(fields@));
                }
                Json::Object(out)
            },
        }
    }

    /// The text of `text`.
    pub fn text(text: &str) -> (r: Json)
        ensures
            r@ == JsonView::Str(text@),
    {
        Json::Str(text.to_owned())
    }

    /// The number `n`.
    pub fn whole(n: u64) -> (r: Json)
        ensures
            r@ == JsonView::Number(NumberView::Int(n as int)),
    {
        Json::Number(number_from_u64(n))
    }

    /// The value under `key`, when this is an object that holds one.
    pub fn get(&self, key: &str) -> (r: Option<&Json>)
        ensures
            match r {
                Some(value) => member(self@, key@) == Some(value@),
                None => member(self@, key@) is None,
            },
    {
        broadcast use group_json_views;

        match self {
            Json::Object(fields) => get_field(fields, key),
            _ => None,
        }
    }

    /// The text this is.
    pub fn as_str(&self) -> (r: Option<&str>)
        ensures
            match r {
                Some(text) => self@ == JsonView::Str(text@),
                None => !(self@ is Str),
            },
    {
        match self {
            Json::Str(text) => Some(text.as_str()),
            _ => None,
        }
    }

    /// The whole number this is.
    pub fn as_u64(&self) -> (r: Option<u64>)
        ensures
            r == whole(self@),
    {
        match self {
            Json::Number(number) => number_as_u64(number),
            _ => None,
        }
    }

    /// Whether this is `true`.
    pub fn is_true(&self) -> (r: bool)
        ensures
            r == (self@ == JsonView::Bool(true)),
    {
        match self {
            Json::Bool(b) => *b,
            _ => false,
        }
    }

    /// Whether this is an object.
    pub fn is_object(&self) -> (r: bool)
        ensures
            r == (self@ is Object),
    {
        match self {
            Json::Object(_) => true,
            _ => false,
        }
    }

    /// Whether this is `null`.
    pub fn is_null(&self) -> (r: bool)
        ensures
            r == (self@ is Null),
    {
        match self {
            Json::Null => true,
            _ => false,
        }
    }

    /// Whether this equals `other`: objects whatever the order of their members.
    pub fn equals(&self, other: &Json) -> (r: bool)
        ensures
            r == same(self@, other@),
        decreases self,
    {
        broadcast use group_json_views;

        match (self, other) {
            (Json::Null, Json::Null) => true,
            (Json::Bool(x), Json::Bool(y)) => *x == *y,
            (Json::Number(x), Json::Number(y)) => numbers_equal(x, y),
            (Json::Str(x), Json::Str(y)) => crate::text::same_text(x.as_str(), y.as_str()),
            (Json::Array(x), Json::Array(y)) => {
                if x.len() != y.len() {
                    return false;
                }
                let mut i: usize = 0;
                while i < x.len()
                    invariant
                        *self == Json::Array(*x),
                        *other == Json::Array(*y),
                        self@ == JsonView::Array(items_view(x@)),
                        other@ == JsonView::Array(items_view(y@)),
                        x@.len() == y@.len(),
                        i <= x@.len(),
                        forall|k: int|
                            0 <= k < i ==> same(#[trigger] items_view(x@)[k], items_view(y@)[k]),
                    decreases x@.len() - i,
                {
                    proof {
                        assert(decreases_to!(self->Array_0 => self->Array_0[i as int]));
                    }
                    if !x[i].equals(&y[i]) {
                        proof {
                            assert(!same(items_view(x@)[i as int], items_view(y@)[i as int]));
                        }
                        return false;
                    }
                    i += 1;
                }
                true
            },
            (Json::Object(x), Json::Object(y)) => {
                if x.len() != y.len() {
                    return false;
                }
                let mut i: usize = 0;
                while i < x.len()
                    invariant
                        *self == Json::Object(*x),
                        *other == Json::Object(*y),
                        self@ == JsonView::Object(fields_view(x@)),
                        other@ == JsonView::Object(fields_view(y@)),
                        x@.len() == y@.len(),
                        i <= x@.len(),
                        forall|k: int|
                            0 <= k < i ==> match field(
                                fields_view(y@),
                                (#[trigger] fields_view(x@)[k]).0,
                            ) {
                                Some(o) => same(fields_view(x@)[k].1, o),
                                None => false,
                            },
                    decreases x@.len() - i,
                {
                    proof {
                        assert(decreases_to!(self->Object_0 => self->Object_0[i as int]));
                        assert(fields_view(x@)[i as int] == (x@[i as int].0@, x@[i as int].1@));
                    }
                    match get_field(y, x[i].0.as_str()) {
                        Some(value) => {
                            if !x[i].1.equals(value) {
                                return false;
                            }
                        },
                        None => {
                            return false;
                        },
                    }
                    i += 1;
                }
                true
            },
            _ => false,
        }
    }

    /// The text this is written as: compact, on one line.
    pub fn render(&self) -> (r: String)
        ensures
            r@ == text_of(self@),
            is_one_line(r@),
            whole(self@) is Some ==> r@ == decimal(whole(self@)->0 as nat),
            keys_distinct(self@) && nests_within(self@, 127) ==> reads_as(r@, self@),
    {
        proof {
            if keys_distinct(self@) {
                lemma_settled_of_distinct(self@);
            }
        }
        let value = value_from_json(self);
        value_to_text(&value)
    }

    /// The text this is written as, indented.
    pub fn render_pretty(&self) -> (r: String)
        ensures
            r@ == json_pretty(settled(self@)),
            keys_distinct(self@) && nests_within(self@, 127) ==> reads_as(r@, self@),
    {
        proof {
            if keys_distinct(self@) {
                lemma_settled_of_distinct(self@);
            }
        }
        let value = value_from_json(self);
        value_to_pretty(&value)
    }

    /// The value `text` reads as, or why it is not one.
    pub fn parse(text: &str) -> (r: Result<Json, String>)
        ensures
            match r {
                Ok(json) => reads_as(text@, json@),
                Err(why) => refused_as(text@, why@),
            },
    {
        match value_from_text(text) {
            Ok(value) => Ok(json_from_value(value)),
            Err(why) => Err(why),
        }
    }
}

impl Clone for Json {
    fn clone(&self) -> (r: Self)
        ensures
            r@ == self@,
    {
        self.copied()
    }
}

/// The whole number `value` is.
pub open spec fn whole(value: JsonView) -> Option<u64> {
    match value {
        JsonView::Number(number) => whole_number(number),
        _ => None,
    }
}

} // verus!
