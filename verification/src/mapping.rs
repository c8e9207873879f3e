//! What a codec's templates may hold, and the response an answered question is
//! put together from.

use crate::json::{
    Json, JsonView, field, fields_view, get_field, group_json_views, items_view, member,
    set_field, with_field,
};
use crate::template::{
    Piece, PieceView, dotted, is_dotted, parse_template, path, pieces_view, render, rendered,
    template, valid_path,
};
use crate::text::{chars_of, same_text, starts, starts_with, string_of, texts};
use vstd::prelude::*;

verus! {

/// Whether any part is filled in from the reply.
pub open spec fn asks_reply(pieces: Seq<PieceView>) -> bool {
    exists|i: int|
        0 <= i < pieces.len() && (match #[trigger] pieces[i] {
            PieceView::Field { reply, .. } => reply,
            PieceView::Char(_) => false,
        })
}

/// What is wrong with one text: that it is no template, or that it asks for the
/// reply where there is none.
pub open spec fn string_fault(text: Seq<char>, allow_reply: bool) -> Option<Seq<char>> {
    match template(text) {
        Err(why) => Some(why),
        Ok(pieces) => if !allow_reply && asks_reply(pieces) {
            Some("a `reply` placeholder is only allowed in an ask response"@)
        } else {
            None
        },
    }
}

/// What is wrong with the first text within a value that has something wrong.
pub open spec fn strings_fault(value: JsonView, allow_reply: bool) -> Option<Seq<char>>
    decreases value, 0nat,
{
    match value {
        JsonView::Str(text) => string_fault(text, allow_reply),
        JsonView::Array(items) => items_fault(items, allow_reply),
        JsonView::Object(fields) => members_fault(fields, allow_reply),
        _ => None,
    }
}

/// What is wrong with the first of several values.
pub open spec fn items_fault(items: Seq<JsonView>, allow_reply: bool) -> Option<Seq<char>>
    decreases items, items.len(),
{
    if items.len() == 0 {
        None
    } else {
        match items_fault(items.drop_last(), allow_reply) {
            Some(why) => Some(why),
            None => strings_fault(items.last(), allow_reply),
        }
    }
}

/// What is wrong with the first of several members.
pub open spec fn members_fault(
    fields: Seq<(Seq<char>, JsonView)>,
    allow_reply: bool,
) -> Option<Seq<char>>
    decreases fields, fields.len(),
{
    if fields.len() == 0 {
        None
    } else {
        match members_fault(fields.drop_last(), allow_reply) {
            Some(why) => Some(why),
            None => strings_fault(fields.last().1, allow_reply),
        }
    }
}

proof fn lemma_items_fault(items: Seq<JsonView>, n: int, allow_reply: bool)
    requires
        0 <= n <= items.len(),
        items_fault(items.take(n), allow_reply) is Some,
    ensures
        items_fault(items, allow_reply) == items_fault(items.take(n), allow_reply),
    decreases items.len(),
{
    if n == items.len() {
        assert(items.take(n) =~= items);
    } else {
        assert(items.drop_last().take(n) =~= items.take(n));
        lemma_items_fault(items.drop_last(), n, allow_reply);
    }
}

proof fn lemma_members_fault(fields: Seq<(Seq<char>, JsonView)>, n: int, allow_reply: bool)
    requires
        0 <= n <= fields.len(),
        members_fault(fields.take(n), allow_reply) is Some,
    ensures
        members_fault(fields, allow_reply) == members_fault(fields.take(n), allow_reply),
    decreases fields.len(),
{
    if n == fields.len() {
        assert(fields.take(n) =~= fields);
    } else {
        assert(fields.drop_last().take(n) =~= fields.take(n));
        lemma_members_fault(fields.drop_last(), n, allow_reply);
    }
}

/// Refuses one text that is no template, or that asks for a reply there is not.
pub fn visit_string(text: &str, allow_reply: bool) -> (r: Result<(), String>)
    ensures
        match r {
            Ok(()) => string_fault(text@, allow_reply) is None,
            Err(why) => string_fault(text@, allow_reply) == Some(why@),
        },
{
    let pieces = match parse_template(text) {
        Ok(pieces) => pieces,
        Err(why) => {
            return Err(why);
        },
    };
    if allow_reply {
        return Ok(());
    }
    let ghost all = pieces_view(pieces@);
    let mut i: usize = 0;
    while i < pieces.len()
        invariant
            i <= pieces@.len(),
            all == pieces_view(pieces@),
            template(text@) is Ok,
            template(text@)->Ok_0 == all,
            !allow_reply,
            forall|k: int|
                0 <= k < i ==> !(match #[trigger] all[k] {
                    PieceView::Field { reply, .. } => reply,
                    PieceView::Char(_) => false,
                }),
        decreases pieces@.len() - i,
    {
        proof {
            assert(all[i as int] == pieces@[i as int]@);
        }
        if let Piece::Field { reply, .. } = &pieces[i] {
            if *reply {
                return Err("a `reply` placeholder is only allowed in an ask response".to_owned());
            }
        }
        i += 1;
    }
    Ok(())
}

/// Refuses a value with a text in it that is no template, or that asks for a
/// reply there is not.
pub fn visit_strings(value: &Json, allow_reply: bool) -> (r: Result<(), String>)
    ensures
        match r {
            Ok(()) => strings_fault(value@, allow_reply) is None,
            Err(why) => strings_fault(value@, allow_reply) == Some(why@),
        },
    decreases value,
{
    broadcast use group_json_views;

    match value {
        Json::Str(text) => visit_string(text.as_str(), allow_reply),
        Json::Array(items) => {
            let ghost all = items_view(items@);
            let mut i: usize = 0;
            proof {
                assert(all.take(0) =~= Seq::<JsonView>::empty());
            }
            while i < items.len()
                invariant
                    *value == Json::Array(*items),
                    i <= items@.len(),
                    all == items_view(items@),
                    value@ == JsonView::Array(all),
                    items_fault(all.take(i as int), allow_reply) is None,
                decreases items@.len() - i,
            {
                proof {
                    assert(decreases_to!(value->Array_0 => value->Array_0[i as int]));
                    assert(all.take(i + 1).drop_last() =~= all.take(i as int));
                    assert(all.take(i + 1).last() == items@[i as int]@);
                }
                if let Err(why) = visit_strings(&items[i], allow_reply) {
                    proof {
                        lemma_items_fault(all, i + 1, allow_reply);
                    }
                    return Err(why);
                }
                i += 1;
            }
            proof {
                assert(all.take(i as int) =~= all);
            }
            Ok(())
        },
        Json::Object(fields) => {
            let ghost all = fields_view(fields@);
            let mut i: usize = 0;
            proof {
                assert(all.take(0) =~= Seq::<(Seq<char>, JsonView)>::empty());
            }
            while i < fields.len()
                invariant
                    *value == Json::Object(*fields),
                    i <= fields@.len(),
                    all == fields_view(fields@),
                    value@ == JsonView::Object(all),
                    members_fault(all.take(i as int), allow_reply) is None,
                decreases fields@.len() - i,
            {
                proof {
                    assert(decreases_to!(value->Object_0 => value->Object_0[i as int]));
                    assert(all.take(i + 1).drop_last() =~= all.take(i as int));
                    assert(all.take(i + 1).last().1 == fields@[i as int].1@);
                }
                if let Err(why) = visit_strings(&fields[i].1, allow_reply) {
                    proof {
                        lemma_members_fault(all, i + 1, allow_reply);
                    }
                    return Err(why);
                }
                i += 1;
            }
            proof {
                assert(all.take(i as int) =~= all);
            }
            Ok(())
        },
        _ => Ok(()),
    }
}

// ---------------------------------------------------------------------------
// Mappings.
// ---------------------------------------------------------------------------

/// Whether every key is one a mapping has.
pub open spec fn mapping_keys(fields: Seq<(Seq<char>, JsonView)>) -> bool {
    forall|i: int|
        0 <= i < fields.len() ==> (#[trigger] fields[i]).0 == "from"@ || fields[i].0 == "default"@
}

/// Whether every key is one a mapping has.
fn only_mapping_keys(fields: &Vec<(String, Json)>) -> (r: bool)
    ensures
        r == mapping_keys(fields_view(fields@)),
{
    let ghost all = fields_view(fields@);
    let mut i: usize = 0;
    while i < fields.len()
        invariant
            i <= fields@.len(),
            all == fields_view(fields@),
            forall|k: int|
                0 <= k < i ==> (#[trigger] all[k]).0 == "from"@ || all[k].0 == "default"@,
        decreases fields@.len() - i,
    {
        let key = fields[i].0.as_str();
        proof {
            assert(all[i as int].0 == key@);
        }
        if !same_text(key, "from") && !same_text(key, "default") {
            return false;
        }
        i += 1;
    }
    true
}

/// The texts of a list, or nothing where one of them is not text.
pub open spec fn all_texts(items: Seq<JsonView>) -> Option<Seq<Seq<char>>>
    decreases items.len(),
{
    if items.len() == 0 {
        Some(Seq::empty())
    } else {
        match (all_texts(items.drop_last()), items.last()) {
            (Some(before), JsonView::Str(text)) => Some(before.push(text)),
            _ => None,
        }
    }
}

proof fn lemma_all_texts_none(items: Seq<JsonView>, n: int)
    requires
        0 <= n <= items.len(),
        all_texts(items.take(n)) is None,
    ensures
        all_texts(items) is None,
    decreases items.len(),
{
    if n == items.len() {
        assert(items.take(n) =~= items);
    } else {
        assert(items.drop_last().take(n) =~= items.take(n));
        lemma_all_texts_none(items.drop_last(), n);
    }
}

/// The texts of a list.
fn texts_in(items: &Vec<Json>) -> (r: Option<Vec<String>>)
    ensures
        match r {
            Some(found) => all_texts(items_view(items@)) == Some(texts(found@)),
            None => all_texts(items_view(items@)) is None,
        },
{
    let ghost all = items_view(items@);
    let mut out: Vec<String> = Vec::new();
    let mut i: usize = 0;
    proof {
        assert(all.take(0) =~= Seq::<JsonView>::empty());
        assert(texts(out@) =~= Seq::<Seq<char>>::empty());
    }
    while i < items.len()
        invariant
            i <= items@.len(),
            all == items_view(items@),
            all_texts(all.take(i as int)) == Some(texts(out@)),
        decreases items@.len() - i,
    {
        let ghost before = texts(out@);
        proof {
            assert(all.take(i + 1).drop_last() =~= all.take(i as int));
            assert(all.take(i + 1).last() == items@[i as int]@);
        }
        match &items[i] {
            Json::Str(text) => {
                out.push(text.clone());
                proof {
                    assert(texts(out@) =~= before.push(text@));
                }
            },
            _ => {
                proof {
                    lemma_all_texts_none(all, i + 1);
                }
                return None;
            },
        }
        i += 1;
    }
    proof {
        assert(all.take(i as int) =~= all);
    }
    Some(out)
}

/// Whether a path is one under the reply.
pub open spec fn is_reply_path(path: Seq<char>) -> bool {
    starts(path, "reply."@) && is_dotted(path.skip(6))
}

/// Whether a path is one under the reply.
fn reply_path(path: &str) -> (r: bool)
    ensures
        r == is_reply_path(path@),
{
    if !starts_with(path, "reply.") {
        return false;
    }
    let chars = chars_of(path);
    proof {
        reveal_strlit("reply.");
    }
    let len: usize = chars.len();
    let rest = string_of(&chars, 6, len);
    proof {
        assert(rest@ =~= path@.skip(6));
    }
    valid_path(rest.as_str())
}

/// The paths a mapping takes its value from: one, or several.
pub open spec fn from_paths(from: JsonView) -> Option<Seq<Seq<char>>> {
    match from {
        JsonView::Str(path) => Some(seq![path]),
        JsonView::Array(items) => all_texts(items),
        _ => None,
    }
}

/// What is wrong with the paths a mapping takes its value from.
pub open spec fn from_fault(from: JsonView) -> Option<Seq<char>> {
    let paths = from_paths(from);
    match from {
        JsonView::Array(items) if items.len() > 0 && all_texts(items) is None => Some(
            "a `from` list contains a non-string path"@,
        ),
        _ => if paths is None || (from is Array && from->Array_0.len() == 0) {
            Some("`from` is not a path or non-empty list of paths"@)
        } else if exists|i: int|
            0 <= i < paths->0.len() && !is_reply_path(#[trigger] paths->0[i]) {
            Some("a `from` path is not under `reply`"@)
        } else {
            None
        },
    }
}

/// What is wrong with the first mapping within a value.
pub open spec fn mappings_fault(value: JsonView) -> Option<Seq<char>>
    decreases value, 0nat,
{
    match value {
        JsonView::Array(items) => items_mapping_fault(items),
        JsonView::Object(fields) => match field(fields, "from"@) {
            Some(from) => if !mapping_keys(fields) {
                Some("a mapping has a key other than `from` and `default`"@)
            } else {
                match from_fault(from) {
                    Some(why) => Some(why),
                    None => match field(fields, "default"@) {
                        Some(default) => strings_fault(default, true),
                        None => None,
                    },
                }
            },
            None => members_mapping_fault(fields),
        },
        _ => None,
    }
}

/// What is wrong with the first mapping within several values.
pub open spec fn items_mapping_fault(items: Seq<JsonView>) -> Option<Seq<char>>
    decreases items, items.len(),
{
    if items.len() == 0 {
        None
    } else {
        match items_mapping_fault(items.drop_last()) {
            Some(why) => Some(why),
            None => mappings_fault(items.last()),
        }
    }
}

/// What is wrong with the first mapping within several members.
pub open spec fn members_mapping_fault(fields: Seq<(Seq<char>, JsonView)>) -> Option<Seq<char>>
    decreases fields, fields.len(),
{
    if fields.len() == 0 {
        None
    } else {
        match members_mapping_fault(fields.drop_last()) {
            Some(why) => Some(why),
            None => mappings_fault(fields.last().1),
        }
    }
}

proof fn lemma_items_mapping(items: Seq<JsonView>, n: int)
    requires
        0 <= n <= items.len(),
        items_mapping_fault(items.take(n)) is Some,
    ensures
        items_mapping_fault(items) == items_mapping_fault(items.take(n)),
    decreases items.len(),
{
    if n == items.len() {
        assert(items.take(n) =~= items);
    } else {
        assert(items.drop_last().take(n) =~= items.take(n));
        lemma_items_mapping(items.drop_last(), n);
    }
}

proof fn lemma_members_mapping(fields: Seq<(Seq<char>, JsonView)>, n: int)
    requires
        0 <= n <= fields.len(),
        members_mapping_fault(fields.take(n)) is Some,
    ensures
        members_mapping_fault(fields) == members_mapping_fault(fields.take(n)),
    decreases fields.len(),
{
    if n == fields.len() {
        assert(fields.take(n) =~= fields);
    } else {
        assert(fields.drop_last().take(n) =~= fields.take(n));
        lemma_members_mapping(fields.drop_last(), n);
    }
}

/// Refuses paths a mapping may not take its value from.
fn check_from(from: &Json) -> (r: Result<(), String>)
    ensures
        match r {
            Ok(()) => from_fault(from@) is None,
            Err(why) => from_fault(from@) == Some(why@),
        },
{
    broadcast use group_json_views;

    let paths = match from {
        Json::Str(path) => {
            let mut one: Vec<String> = Vec::new();
            one.push(path.clone());
            proof {
                assert(texts(one@) =~= seq![path@]);
            }
            one
        },
        Json::Array(items) => {
            proof {
                assert(items_view(items@).len() == items@.len());
            }
            if items.len() == 0 {
                return Err("`from` is not a path or non-empty list of paths".to_owned());
            }
            match texts_in(items) {
                Some(paths) => paths,
                None => {
                    return Err("a `from` list contains a non-string path".to_owned());
                },
            }
        },
        _ => {
            return Err("`from` is not a path or non-empty list of paths".to_owned());
        },
    };
    let ghost all = texts(paths@);
    let mut i: usize = 0;
    while i < paths.len()
        invariant
            i <= paths@.len(),
            all == texts(paths@),
            from_paths(from@) == Some(all),
            from@ is Array ==> from@->Array_0.len() > 0,
            forall|k: int| 0 <= k < i ==> is_reply_path(#[trigger] all[k]),
        decreases paths@.len() - i,
    {
        if !reply_path(paths[i].as_str()) {
            proof {
                assert(!is_reply_path(from_paths(from@)->0[i as int]));
            }
            return Err("a `from` path is not under `reply`".to_owned());
        }
        proof {
            assert(all[i as int] == paths@[i as int]@);
        }
        i += 1;
    }
    Ok(())
}

/// Refuses a value with a mapping in it that is not one.
pub fn validate_mappings(value: &Json) -> (r: Result<(), String>)
    ensures
        match r {
            Ok(()) => mappings_fault(value@) is None,
            Err(why) => mappings_fault(value@) == Some(why@),
        },
    decreases value,
{
    broadcast use group_json_views;

    match value {
        Json::Array(items) => {
            let ghost all = items_view(items@);
            let mut i: usize = 0;
            proof {
                assert(all.take(0) =~= Seq::<JsonView>::empty());
            }
            while i < items.len()
                invariant
                    *value == Json::Array(*items),
                    i <= items@.len(),
                    all == items_view(items@),
                    value@ == JsonView::Array(all),
                    items_mapping_fault(all.take(i as int)) is None,
                decreases items@.len() - i,
            {
                proof {
                    assert(decreases_to!(value->Array_0 => value->Array_0[i as int]));
                    assert(all.take(i + 1).drop_last() =~= all.take(i as int));
                    assert(all.take(i + 1).last() == items@[i as int]@);
                }
                if let Err(why) = validate_mappings(&items[i]) {
                    proof {
                        lemma_items_mapping(all, i + 1);
                    }
                    return Err(why);
                }
                i += 1;
            }
            proof {
                assert(all.take(i as int) =~= all);
            }
            Ok(())
        },
        Json::Object(fields) => {
            if let Some(from) = get_field(fields, "from") {
                if !only_mapping_keys(fields) {
                    return Err("a mapping has a key other than `from` and `default`".to_owned());
                }
                if let Err(why) = check_from(from) {
                    return Err(why);
                }
                return match get_field(fields, "default") {
                    Some(default) => visit_strings(default, true),
                    None => Ok(()),
                };
            }
            let ghost all = fields_view(fields@);
            let mut i: usize = 0;
            proof {
                assert(all.take(0) =~= Seq::<(Seq<char>, JsonView)>::empty());
            }
            while i < fields.len()
                invariant
                    *value == Json::Object(*fields),
                    i <= fields@.len(),
                    all == fields_view(fields@),
                    value@ == JsonView::Object(all),
                    field(all, "from"@) is None,
                    members_mapping_fault(all.take(i as int)) is None,
                decreases fields@.len() - i,
            {
                proof {
                    assert(decreases_to!(value->Object_0 => value->Object_0[i as int]));
                    assert(all.take(i + 1).drop_last() =~= all.take(i as int));
                    assert(all.take(i + 1).last().1 == fields@[i as int].1@);
                }
                if let Err(why) = validate_mappings(&fields[i].1) {
                    proof {
                        lemma_members_mapping(all, i + 1);
                    }
                    return Err(why);
                }
                i += 1;
            }
            proof {
                assert(all.take(i as int) =~= all);
            }
            Ok(())
        },
        _ => Ok(()),
    }
}

// ---------------------------------------------------------------------------
// Responses.
// ---------------------------------------------------------------------------

/// What a record rules: its `reply`, or the record itself where it has none.
pub open spec fn ruling_of(value: JsonView) -> JsonView {
    match member(value, "reply"@) {
        Some(reply) => reply,
        None => value,
    }
}

/// What a record rules.
pub fn ruling(value: &Json) -> (r: &Json)
    ensures
        r@ == ruling_of(value@),
{
    match value.get("reply") {
        Some(reply) => reply,
        None => value,
    }
}

/// A path as it is looked up in the reply.
pub open spec fn within_reply(path: Seq<char>) -> Seq<char> {
    if starts(path, "reply."@) {
        path.skip(6)
    } else {
        path
    }
}

/// The first of several paths the reply holds something other than `""` at.
pub open spec fn first_filled(paths: Seq<Seq<char>>, reply: JsonView) -> Option<JsonView>
    decreases paths.len(),
{
    if paths.len() == 0 {
        None
    } else {
        match dotted(reply, within_reply(paths[0])) {
            Some(value) => if value == JsonView::Str(Seq::empty()) {
                first_filled(paths.skip(1), reply)
            } else {
                Some(value)
            },
            None => first_filled(paths.skip(1), reply),
        }
    }
}

/// The first of several paths the reply holds something at.
fn first_filled_of<'a>(paths: &Vec<String>, reply: &'a Json) -> (r: Option<&'a Json>)
    ensures
        match r {
            Some(value) => first_filled(texts(paths@), reply@) == Some(value@),
            None => first_filled(texts(paths@), reply@) is None,
        },
{
    let ghost all = texts(paths@);
    let mut i: usize = 0;
    proof {
        assert(all.skip(0) =~= all);
        reveal_strlit("reply.");
    }
    while i < paths.len()
        invariant
            i <= paths@.len(),
            all == texts(paths@),
            "reply."@.len() == 6,
            first_filled(all, reply@) == first_filled(all.skip(i as int), reply@),
        decreases paths@.len() - i,
    {
        let whole_path = paths[i].as_str();
        proof {
            assert(all.skip(i as int).skip(1) =~= all.skip(i + 1));
            assert(all.skip(i as int)[0] == whole_path@);
        }
        let candidate = if starts_with(whole_path, "reply.") {
            let chars = chars_of(whole_path);
            let len: usize = chars.len();
            let rest = string_of(&chars, 6, len);
            proof {
                assert(rest@ =~= whole_path@.skip(6));
            }
            rest
        } else {
            whole_path.to_owned()
        };
        if let Some(value) = path(reply, candidate.as_str()) {
            let empty = match value {
                Json::Str(text) => text.as_str().is_empty(),
                _ => false,
            };
            proof {
                if let Json::Str(text) = value {
                    if text@.len() == 0 {
                        assert(text@ =~= Seq::<char>::empty());
                    }
                }
            }
            if !empty {
                return Some(value);
            }
        }
        i += 1;
    }
    None
}

/// The response a reply makes of `value`: a mapping takes the first of its paths
/// the reply holds something at, or its default, and a value with a mapping that
/// finds neither is no response at all.
pub open spec fn resolved(value: JsonView, frame: JsonView, reply: JsonView) -> Result<
    Option<JsonView>,
    Seq<char>,
>
    decreases value, 0nat,
{
    match value {
        JsonView::Object(fields) => if field(fields, "from"@) is Some && mapping_keys(fields) {
            let from = field(fields, "from"@)->0;
            match from_paths(from) {
                None => Err(
                    if from is Array {
                        "an ask response `from` list contains a non-string path"@
                    } else {
                        "an ask response `from` is not a path or list of paths"@
                    },
                ),
                Some(paths) => match first_filled(paths, reply) {
                    Some(value) => Ok(Some(value)),
                    None => match field(fields, "default"@) {
                        None => Ok(None),
                        Some(default) => match rendered(default, frame, Some(reply)) {
                            Ok(value) => Ok(Some(value)),
                            Err(why) => Err(why),
                        },
                    },
                },
            }
        } else {
            match resolved_fields(fields, frame, reply) {
                Err(why) => Err(why),
                Ok(None) => Ok(None),
                Ok(Some(out)) => Ok(Some(JsonView::Object(out))),
            }
        },
        _ => match rendered(value, frame, Some(reply)) {
            Ok(value) => Ok(Some(value)),
            Err(why) => Err(why),
        },
    }
}

/// The response a reply makes of an object's members, each inserted in turn: the
/// first that fails, or is none, decides.
pub open spec fn resolved_fields(
    fields: Seq<(Seq<char>, JsonView)>,
    frame: JsonView,
    reply: JsonView,
) -> Result<Option<Seq<(Seq<char>, JsonView)>>, Seq<char>>
    decreases fields, fields.len(),
{
    if fields.len() == 0 {
        Ok(Some(Seq::empty()))
    } else {
        match resolved_fields(fields.drop_last(), frame, reply) {
            Err(why) => Err(why),
            Ok(None) => Ok(None),
            Ok(Some(before)) => match resolved(fields.last().1, frame, reply) {
                Err(why) => Err(why),
                Ok(None) => Ok(None),
                Ok(Some(value)) => Ok(Some(with_field(before, fields.last().0, value))),
            },
        }
    }
}

proof fn lemma_resolved_fields(
    fields: Seq<(Seq<char>, JsonView)>,
    n: int,
    frame: JsonView,
    reply: JsonView,
)
    requires
        0 <= n <= fields.len(),
        resolved_fields(fields.take(n), frame, reply) is Err || resolved_fields(
            fields.take(n),
            frame,
            reply,
        )->Ok_0 is None,
    ensures
        resolved_fields(fields, frame, reply) == resolved_fields(fields.take(n), frame, reply),
    decreases fields.len(),
{
    if n == fields.len() {
        assert(fields.take(n) =~= fields);
    } else {
        assert(fields.drop_last().take(n) =~= fields.take(n));
        lemma_resolved_fields(fields.drop_last(), n, frame, reply);
    }
}

/// Whether what a mapping or a response came to is what `goal` says.
pub open spec fn comes_to(
    result: Result<Option<Json>, String>,
    goal: Result<Option<JsonView>, Seq<char>>,
) -> bool {
    match result {
        Ok(Some(value)) => goal is Ok && goal->Ok_0 == Some(value@),
        Ok(None) => goal is Ok && goal->Ok_0 is None,
        Err(why) => goal is Err && goal->Err_0 == why@,
    }
}

/// The response a reply makes of `value`.
pub fn resolve_ask(value: &Json, frame: &Json, reply: &Json) -> (r: Result<Option<Json>, String>)
    ensures
        comes_to(r, resolved(value@, frame@, reply@)),
    decreases value,
{
    broadcast use group_json_views;

    let fields = match value {
        Json::Object(fields) => fields,
        _ => {
            return match render(value, frame, Some(reply)) {
                Ok(value) => Ok(Some(value)),
                Err(why) => Err(why),
            };
        },
    };
    let ghost all = fields_view(fields@);
    if let Some(from) = get_field(fields, "from") {
        if only_mapping_keys(fields) {
            let paths = match from {
                Json::Str(path) => {
                    let mut one: Vec<String> = Vec::new();
                    one.push(path.clone());
                    proof {
                        assert(texts(one@) =~= seq![path@]);
                    }
                    one
                },
                Json::Array(items) => match texts_in(items) {
                    Some(paths) => paths,
                    None => {
                        return Err(
                            "an ask response `from` list contains a non-string path".to_owned(),
                        );
                    },
                },
                _ => {
                    return Err(
                        "an ask response `from` is not a path or list of paths".to_owned(),
                    );
                },
            };
            if let Some(found) = first_filled_of(&paths, reply) {
                return Ok(Some(found.copied()));
            }
            return match get_field(fields, "default") {
                None => Ok(None),
                Some(default) => match render(default, frame, Some(reply)) {
                    Ok(value) => Ok(Some(value)),
                    Err(why) => Err(why),
                },
            };
        }
    }
    let mut out: Vec<(String, Json)> = Vec::new();
    let mut i: usize = 0;
    proof {
        assert(all.take(0) =~= Seq::<(Seq<char>, JsonView)>::empty());
        assert(fields_view(out@) =~= Seq::<(Seq<char>, JsonView)>::empty());
    }
    while i < fields.len()
        invariant
            *value == Json::Object(*fields),
            i <= fields@.len(),
            all == fields_view(fields@),
            value@ == JsonView::Object(all),
            !(field(all, "from"@) is Some && mapping_keys(all)),
            resolved_fields(all.take(i as int), frame@, reply@) is Ok,
            resolved_fields(all.take(i as int), frame@, reply@)->Ok_0 == Some(fields_view(out@)),
        decreases fields@.len() - i,
    {
        proof {
            assert(decreases_to!(value->Object_0 => value->Object_0[i as int]));
            assert(all.take(i + 1).drop_last() =~= all.take(i as int));
            assert(all.take(i + 1).last() == (fields@[i as int].0@, fields@[i as int].1@));
        }
        match resolve_ask(&fields[i].1, frame, reply) {
            Err(why) => {
                proof {
                    lemma_resolved_fields(all, i + 1, frame@, reply@);
                }
                return Err(why);
            },
            Ok(None) => {
                proof {
                    lemma_resolved_fields(all, i + 1, frame@, reply@);
                }
                return Ok(None);
            },
            Ok(Some(inner)) => {
                set_field(&mut out, fields[i].0.as_str(), inner);
            },
        }
        i += 1;
    }
    proof {
        assert(all.take(i as int) =~= all);
    }
    Ok(Some(Json::Object(out)))
}

} // verus!
