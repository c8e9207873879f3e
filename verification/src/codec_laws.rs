//! What holds of templates, mappings and the bindings that answer a frame.

use crate::codec::{
    Binding, BindingAction, CodecFailure, ConfiguredCodec, FrameConfig, Opening, after_ask,
    binding_holds, opening,
};
use crate::correlation::Answer;
use crate::event_log::frame;
use crate::fold::lemma_field_of_with;
use crate::json::{Json, JsonView, field, member, same, settled, text_of};
use crate::json_laws::paths_lead_key_by_key;
use crate::mapping::{
    all_texts, first_filled, from_paths, mapping_keys, resolve_ask, resolved, resolved_fields,
    ruling_of, within_reply,
};
use crate::schema::{Registry, held, schema_admits};
use crate::table::lookup;
use crate::template::{
    PieceView, dotted, doubled, filled, filled_piece, filler, inline_text, is_dotted,
    lemma_closing_is, pieces_from, placeholder_of, preceded, rendered, rendered_fields,
    rendered_items, rendered_text, template,
};
use crate::text::{first_at, is_char, lemma_split_nonempty, split_on, starts};
use vstd::prelude::*;

verus! {

proof fn lemma_split_plain(text: Seq<char>, sep: char)
    requires
        !text.contains(sep),
    ensures
        split_on(text, sep) == seq![text],
    decreases text.len(),
{
    if text.len() > 0 {
        let rest = text.drop_last();
        assert(text[text.len() - 1] == text.last());
        assert(text.last() != sep);
        if rest.contains(sep) {
            let k = choose|k: int| 0 <= k < rest.len() && rest[k] == sep;
            assert(text[k] == sep);
        }
        lemma_split_plain(rest, sep);
        let before = split_on(rest, sep);
        assert(before.len() == 1);
        assert(before[0] == rest);
        assert(rest.push(text.last()) =~= text);
        assert(split_on(text, sep) =~= seq![text]);
    } else {
        assert(text =~= Seq::<char>::empty());
        assert(split_on(text, sep) =~= seq![text]);
    }
}

proof fn lemma_split_first(key: Seq<char>, rest: Seq<char>, sep: char)
    requires
        !key.contains(sep),
    ensures
        split_on(key + seq![sep] + rest, sep) == seq![key] + split_on(rest, sep),
    decreases rest.len(),
{
    let text = key + seq![sep] + rest;
    lemma_split_nonempty(rest, is_char(sep));
    if rest.len() == 0 {
        lemma_split_plain(key, sep);
        assert(text.drop_last() =~= key);
        assert(text.last() == sep);
        assert(split_on(text, sep) =~= seq![key] + split_on(rest, sep));
    } else {
        lemma_split_first(key, rest.drop_last(), sep);
        assert(text.drop_last() =~= key + seq![sep] + rest.drop_last());
        assert(text.last() == rest.last());
        let before = split_on(rest.drop_last(), sep);
        lemma_split_nonempty(rest.drop_last(), is_char(sep));
        let all = seq![key] + before;
        assert(all.last() == before.last());
        assert(all.drop_last() =~= seq![key] + before.drop_last());
        assert(split_on(text, sep) =~= seq![key] + split_on(rest, sep));
    }
}

/// A dotted path of one key leads to the member under it, and one of more to where the
/// rest leads from there; a path with an empty part leads nowhere.
pub proof fn dotted_paths_lead_key_by_key(value: JsonView, key: Seq<char>, rest: Seq<char>)
    requires
        !key.contains('.'),
    ensures
        key.len() > 0 ==> dotted(value, key) == member(value, key),
        key.len() == 0 ==> dotted(value, key) is None && dotted(value, key + seq!['.'] + rest) is None,
        key.len() > 0 ==> dotted(value, key + seq!['.'] + rest) == match member(value, key) {
            Some(inner) => dotted(inner, rest),
            None => None,
        },
{
    lemma_split_plain(key, '.');
    lemma_split_first(key, rest, '.');
    let whole = key + seq!['.'] + rest;
    let parts = split_on(rest, '.');
    let all = split_on(whole, '.');
    assert(seq![key][0] == key);
    assert(all[0] == key);
    assert(all.skip(1) =~= parts);
    paths_lead_key_by_key(value, key, Seq::empty(), Seq::empty());
    if is_dotted(rest) && key.len() > 0 {
        assert forall|i: int| 0 <= i < all.len() implies (#[trigger] all[i]).len() > 0 by {
            if i > 0 {
                assert(all[i] == parts[i - 1]);
            }
        }
    }
    if is_dotted(whole) {
        assert forall|i: int| 0 <= i < parts.len() implies (#[trigger] parts[i]).len() > 0 by {
            assert(all[i + 1] == parts[i]);
        }
    }
}

/// Whether `from` names `paths`, each under the reply: one as text, or several in a list.
pub open spec fn names_paths(from: JsonView, paths: Seq<Seq<char>>) -> bool {
    ||| paths.len() == 1 && from == JsonView::Str("reply."@ + paths[0])
    ||| from is Array && from->Array_0.len() == paths.len() && forall|i: int|
        0 <= i < paths.len() ==> #[trigger] from->Array_0[i] == JsonView::Str(
            "reply."@ + paths[i],
        )
}

/// Whether a reply holds something at a path: anything but `""`.
pub open spec fn holds_at(reply: JsonView, path: Seq<char>) -> bool {
    dotted(reply, path) is Some && dotted(reply, path) != Some(JsonView::Str(Seq::empty()))
}

/// Whether an object is a mapping: it has a `from`, and nothing but that and a `default`.
pub open spec fn is_mapping(fields: Seq<(Seq<char>, JsonView)>) -> bool {
    &&& field(fields, "from"@) is Some
    &&& forall|i: int|
        0 <= i < fields.len() ==> (#[trigger] fields[i]).0 == "from"@ || fields[i].0 == "default"@
}

proof fn lemma_from_paths(from: JsonView, paths: Seq<Seq<char>>)
    requires
        names_paths(from, paths),
    ensures
        from_paths(from) is Some,
        from_paths(from)->0.len() == paths.len(),
        forall|i: int|
            0 <= i < paths.len() ==> within_reply(#[trigger] from_paths(from)->0[i]) == paths[i],
{
    reveal_strlit("reply.");
    assert forall|p: Seq<char>| within_reply(#[trigger] ("reply."@ + p)) == p by {
        let whole = "reply."@ + p;
        assert(whole.subrange(0, 6) =~= "reply."@);
        assert(whole.skip(6) =~= p);
        assert(starts(whole, "reply."@));
    }
    if from is Str {
        assert(from_paths(from)->0[0] == "reply."@ + paths[0]);
    } else {
        lemma_all_texts_of(from->Array_0, paths);
    }
}

proof fn lemma_all_texts_of(items: Seq<JsonView>, paths: Seq<Seq<char>>)
    requires
        items.len() == paths.len(),
        forall|i: int|
            0 <= i < paths.len() ==> #[trigger] items[i] == JsonView::Str("reply."@ + paths[i]),
    ensures
        all_texts(items) is Some,
        all_texts(items)->0.len() == paths.len(),
        forall|i: int|
            0 <= i < paths.len() ==> #[trigger] all_texts(items)->0[i] == "reply."@ + paths[i],
    decreases items.len(),
{
    if items.len() > 0 {
        let rest = items.drop_last();
        let fewer = paths.drop_last();
        assert forall|i: int| 0 <= i < fewer.len() implies #[trigger] rest[i] == JsonView::Str(
            "reply."@ + fewer[i],
        ) by {
            assert(rest[i] == items[i]);
        }
        lemma_all_texts_of(rest, fewer);
        assert(items.last() == items[items.len() - 1]);
        let all = all_texts(items)->0;
        assert forall|i: int| 0 <= i < paths.len() implies #[trigger] all[i] == "reply."@ + paths[i] by {
            if i < fewer.len() {
                assert(all_texts(rest)->0[i] == "reply."@ + fewer[i]);
            }
        }
    }
}

proof fn lemma_first_filled(
    written: Seq<Seq<char>>,
    paths: Seq<Seq<char>>,
    reply: JsonView,
    k: int,
)
    requires
        written.len() == paths.len(),
        forall|i: int| 0 <= i < paths.len() ==> within_reply(#[trigger] written[i]) == paths[i],
        0 <= k <= paths.len(),
        forall|i: int| 0 <= i < k ==> !holds_at(reply, #[trigger] paths[i]),
        k < paths.len() ==> holds_at(reply, paths[k]),
    ensures
        first_filled(written, reply) == if k < paths.len() {
            dotted(reply, paths[k])
        } else {
            None
        },
    decreases paths.len(),
{
    if paths.len() > 0 {
        assert(within_reply(written[0]) == paths[0]);
        if k > 0 {
            let rest = written.skip(1);
            let fewer = paths.skip(1);
            assert(!holds_at(reply, paths[0]));
            assert forall|i: int| 0 <= i < fewer.len() implies within_reply(#[trigger] rest[i])
                == fewer[i] by {
                assert(rest[i] == written[i + 1]);
            }
            assert forall|i: int| 0 <= i < k - 1 implies !holds_at(reply, #[trigger] fewer[i]) by {
                assert(fewer[i] == paths[i + 1]);
            }
            lemma_first_filled(rest, fewer, reply, k - 1);
        }
    }
}

/// A mapping resolves to what the reply holds at the first of its paths that it holds
/// something at, whether or not it has a default.
pub proof fn mappings_take_what_the_reply_holds(
    value: &Json,
    frame: &Json,
    reply: &Json,
    r: Result<Option<Json>, String>,
    paths: Seq<Seq<char>>,
    k: int,
)
    requires
        call_ensures(resolve_ask, (value, frame, reply), r),
        value@ is Object,
        is_mapping(value@->Object_0),
        names_paths(field(value@->Object_0, "from"@)->0, paths),
        0 <= k < paths.len(),
        holds_at(reply@, paths[k]),
        forall|i: int| 0 <= i < k ==> !holds_at(reply@, #[trigger] paths[i]),
    ensures
        r is Ok,
        r->Ok_0 is Some,
        dotted(reply@, paths[k]) == Some(r->Ok_0->0@),
{
    let fields = value@->Object_0;
    let from = field(fields, "from"@)->0;
    lemma_from_paths(from, paths);
    lemma_first_filled(from_paths(from)->0, paths, reply@, k);
    assert(mapping_keys(fields));
}

/// A mapping whose reply holds something at none of its paths resolves to its default,
/// filled in, and to nothing where it has none.
pub proof fn mappings_default_where_the_reply_holds_nothing(
    value: &Json,
    frame: &Json,
    reply: &Json,
    r: Result<Option<Json>, String>,
    paths: Seq<Seq<char>>,
)
    requires
        call_ensures(resolve_ask, (value, frame, reply), r),
        value@ is Object,
        is_mapping(value@->Object_0),
        names_paths(field(value@->Object_0, "from"@)->0, paths),
        forall|i: int| 0 <= i < paths.len() ==> !holds_at(reply@, #[trigger] paths[i]),
    ensures
        match field(value@->Object_0, "default"@) {
            None => r is Ok && r->Ok_0 is None,
            Some(default) => match rendered(default, frame@, Some(reply@)) {
                Ok(filled) => r is Ok && r->Ok_0 is Some && r->Ok_0->0@ == filled,
                Err(why) => r is Err && r->Err_0@ == why,
            },
        },
{
    let fields = value@->Object_0;
    let from = field(fields, "from"@)->0;
    lemma_from_paths(from, paths);
    lemma_first_filled(from_paths(from)->0, paths, reply@, paths.len() as int);
    assert(mapping_keys(fields));
}

/// An object that is no mapping resolves member by member: each under its own key to what
/// it resolves to itself, and to nothing where one of them does.
pub proof fn responses_resolve_member_by_member(
    fields: Seq<(Seq<char>, JsonView)>,
    frame: JsonView,
    reply: JsonView,
    i: int,
)
    requires
        !is_mapping(fields),
        0 <= i < fields.len(),
        forall|k: int| i < k < fields.len() ==> (#[trigger] fields[k]).0 != fields[i].0,
    ensures
        ({
            let whole = resolved(JsonView::Object(fields), frame, reply);
            let part = resolved(fields[i].1, frame, reply);
            &&& whole is Ok && whole->Ok_0 is Some ==> part is Ok && part->Ok_0 is Some && member(
                whole->Ok_0->0,
                fields[i].0,
            ) == part->Ok_0
            &&& part is Err || part->Ok_0 is None ==> whole is Err || whole->Ok_0 is None
        }),
{
    if field(fields, "from"@) is Some {
        assert(!mapping_keys(fields));
    }
    lemma_resolved_member(fields, frame, reply, i);
}

proof fn lemma_resolved_member(
    fields: Seq<(Seq<char>, JsonView)>,
    frame: JsonView,
    reply: JsonView,
    i: int,
)
    requires
        0 <= i < fields.len(),
        forall|k: int| i < k < fields.len() ==> (#[trigger] fields[k]).0 != fields[i].0,
    ensures
        ({
            let whole = resolved_fields(fields, frame, reply);
            let part = resolved(fields[i].1, frame, reply);
            &&& whole is Ok && whole->Ok_0 is Some ==> part is Ok && part->Ok_0 is Some && field(
                whole->Ok_0->0,
                fields[i].0,
            ) == part->Ok_0
            &&& part is Err || part->Ok_0 is None ==> whole is Err || whole->Ok_0 is None
        }),
    decreases fields.len(),
{
    let rest = fields.drop_last();
    let last = fields.last();
    assert(last == fields[fields.len() - 1]);
    let before = resolved_fields(rest, frame, reply);
    let inner = resolved(last.1, frame, reply);
    if before is Ok && before->Ok_0 is Some && inner is Ok && inner->Ok_0 is Some {
        lemma_field_of_with(before->Ok_0->0, last.0, inner->Ok_0->0, fields[i].0);
    }
    if i < rest.len() {
        assert(last.0 != fields[i].0);
        assert forall|k: int| i < k < rest.len() implies (#[trigger] rest[k]).0 != rest[i].0 by {
            assert(rest[k] == fields[k]);
        }
        lemma_resolved_member(rest, frame, reply, i);
        assert(rest[i] == fields[i]);
    }
}

/// A record rules what it holds under `reply`, and itself where it holds nothing there.
pub proof fn records_rule_by_their_reply(record: JsonView)
    ensures
        member(record, "reply"@) is Some ==> Some(ruling_of(record)) == member(record, "reply"@),
        member(record, "reply"@) is None ==> ruling_of(record) == record,
{
}

/// Filling in keeps the shape of a value: numbers, truth values and `null` are themselves,
/// a list has as many items and an object the same keys in the same order, each filled in.
pub proof fn filling_in_keeps_the_shape(
    value: JsonView,
    frame: JsonView,
    reply: Option<JsonView>,
    i: int,
)
    ensures
        value is Null || value is Bool || value is Number ==> rendered(value, frame, reply)
            == Ok::<JsonView, Seq<char>>(value),
        match value {
            JsonView::Array(items) => rendered(value, frame, reply) is Ok ==> {
                let out = rendered(value, frame, reply)->Ok_0;
                &&& out is Array
                &&& out->Array_0.len() == items.len()
                &&& 0 <= i < items.len() ==> rendered(items[i], frame, reply) == Ok::<
                    JsonView,
                    Seq<char>,
                >(out->Array_0[i])
            },
            JsonView::Object(fields) => rendered(value, frame, reply) is Ok ==> {
                let out = rendered(value, frame, reply)->Ok_0;
                &&& out is Object
                &&& out->Object_0.len() == fields.len()
                &&& 0 <= i < fields.len() ==> out->Object_0[i].0 == fields[i].0 && rendered(
                    fields[i].1,
                    frame,
                    reply,
                ) == Ok::<JsonView, Seq<char>>(out->Object_0[i].1)
            },
            _ => true,
        },
{
    match value {
        JsonView::Array(items) => {
            lemma_rendered_items(items, frame, reply, i);
        },
        JsonView::Object(fields) => {
            lemma_rendered_fields(fields, frame, reply, i);
        },
        _ => {},
    }
}

proof fn lemma_rendered_items(
    items: Seq<JsonView>,
    frame: JsonView,
    reply: Option<JsonView>,
    i: int,
)
    ensures
        rendered_items(items, frame, reply) is Ok ==> {
            let out = rendered_items(items, frame, reply)->Ok_0;
            &&& out.len() == items.len()
            &&& 0 <= i < items.len() ==> rendered(items[i], frame, reply) == Ok::<
                JsonView,
                Seq<char>,
            >(out[i])
        },
    decreases items.len(),
{
    if items.len() > 0 {
        lemma_rendered_items(items.drop_last(), frame, reply, i);
        assert(items.last() == items[items.len() - 1]);
        if 0 <= i < items.len() - 1 {
            assert(items.drop_last()[i] == items[i]);
        }
    }
}

proof fn lemma_rendered_fields(
    fields: Seq<(Seq<char>, JsonView)>,
    frame: JsonView,
    reply: Option<JsonView>,
    i: int,
)
    ensures
        rendered_fields(fields, frame, reply) is Ok ==> {
            let out = rendered_fields(fields, frame, reply)->Ok_0;
            &&& out.len() == fields.len()
            &&& 0 <= i < fields.len() ==> out[i].0 == fields[i].0 && rendered(
                fields[i].1,
                frame,
                reply,
            ) == Ok::<JsonView, Seq<char>>(out[i].1)
        },
    decreases fields.len(),
{
    if fields.len() > 0 {
        lemma_rendered_fields(fields.drop_last(), frame, reply, i);
        assert(fields.last() == fields[fields.len() - 1]);
        if 0 <= i < fields.len() - 1 {
            assert(fields.drop_last()[i] == fields[i]);
        }
    }
}

/// Whether text has no brace in it.
pub open spec fn is_braceless(text: Seq<char>) -> bool {
    !text.contains('{') && !text.contains('}')
}

proof fn lemma_filled_join(
    a: Seq<PieceView>,
    b: Seq<PieceView>,
    frame: JsonView,
    reply: Option<JsonView>,
)
    ensures
        filled(a + b, frame, reply) == filled(a, frame, reply) + filled(b, frame, reply),
    decreases b.len(),
{
    if b.len() == 0 {
        assert(a + b =~= a);
        assert(filled(a, frame, reply) + filled(b, frame, reply) =~= filled(a, frame, reply));
    } else {
        lemma_filled_join(a, b.drop_last(), frame, reply);
        assert((a + b).drop_last() =~= a + b.drop_last());
        assert((a + b).last() == b.last());
        assert(filled(a, frame, reply) + filled(b, frame, reply) =~= filled(a + b.drop_last(), frame, reply)
            + filled_piece(b.last(), frame, reply));
    }
}

proof fn lemma_filled_first(
    first: PieceView,
    rest: Seq<PieceView>,
    frame: JsonView,
    reply: Option<JsonView>,
)
    ensures
        filled(seq![first] + rest, frame, reply) == filled_piece(first, frame, reply) + filled(
            rest,
            frame,
            reply,
        ),
        (seq![first] + rest).len() == 1 + rest.len(),
        (seq![first] + rest)[0] == first,
{
    let one = seq![first];
    lemma_filled_join(one, rest, frame, reply);
    assert(one.drop_last() =~= Seq::<PieceView>::empty());
    assert(filled(one.drop_last(), frame, reply) =~= Seq::<char>::empty());
    assert(one.last() == first);
    assert(filled(one, frame, reply) =~= filled_piece(first, frame, reply));
}

/// Characters that are no braces are parts of their own, up to where the rest starts.
proof fn lemma_pieces_past(
    text: Seq<char>,
    from: int,
    to: int,
    frame: JsonView,
    reply: Option<JsonView>,
)
    requires
        0 <= from <= to <= text.len(),
        forall|i: int| from <= i < to ==> #[trigger] text[i] != '{' && text[i] != '}',
        pieces_from(text, to) is Ok,
    ensures
        ({
            let here = pieces_from(text, from);
            let rest = pieces_from(text, to)->Ok_0;
            &&& here is Ok
            &&& here->Ok_0.len() == (to - from) + rest.len()
            &&& from == to ==> here->Ok_0 == rest
            &&& from < to ==> here->Ok_0[0] == PieceView::Char(text[from])
            &&& filled(here->Ok_0, frame, reply) == text.subrange(from, to) + filled(
                rest,
                frame,
                reply,
            )
        }),
    decreases to - from,
{
    let rest = pieces_from(text, to)->Ok_0;
    if from < to {
        lemma_pieces_past(text, from + 1, to, frame, reply);
        assert(text[from] != '{' && text[from] != '}');
        let more = pieces_from(text, from + 1)->Ok_0;
        let first = PieceView::Char(text[from]);
        let here = pieces_from(text, from)->Ok_0;
        assert(!doubled(text, from, '{') && !doubled(text, from, '}'));
        assert(pieces_from(text, from) == preceded(first, pieces_from(text, from + 1)));
        assert(here == seq![first] + more);
        lemma_filled_first(first, more, frame, reply);
        assert(filled_piece(first, frame, reply) =~= seq![text[from]]);
        assert(filled(here, frame, reply) =~= text.subrange(from, to) + filled(rest, frame, reply));
    } else {
        assert(filled(rest, frame, reply) =~= text.subrange(from, to) + filled(
            rest,
            frame,
            reply,
        ));
    }
}

/// Text with no brace in it is filled in to itself.
pub proof fn plain_text_is_filled_in_to_itself(
    text: Seq<char>,
    frame: JsonView,
    reply: Option<JsonView>,
)
    requires
        is_braceless(text),
    ensures
        rendered_text(text, frame, reply) == Ok::<JsonView, Seq<char>>(JsonView::Str(text)),
{
    let n = text.len() as int;
    lemma_pieces_past(text, 0, n, frame, reply);
    let rest = pieces_from(text, n)->Ok_0;
    assert(filled(rest, frame, reply) =~= Seq::<char>::empty());
    let pieces = template(text)->Ok_0;
    assert(filled(pieces, frame, reply) =~= text);
}

/// A place alone is filled in to the value there itself, whatever it is, and to `""` where
/// nothing is there; a place within text to the text of the value, nothing where nothing
/// is there. A frame's places are filled from the frame, a reply's from the reply.
pub proof fn places_are_filled_from_their_root(
    before: Seq<char>,
    path: Seq<char>,
    after: Seq<char>,
    from_reply: bool,
    frame: JsonView,
    reply: JsonView,
)
    requires
        is_braceless(before),
        is_braceless(path),
        is_braceless(after),
        is_dotted(path),
    ensures
        ({
            let place = if from_reply {
                "{reply."@ + path + "}"@
            } else {
                "{frame."@ + path + "}"@
            };
            let there = if from_reply {
                dotted(reply, path)
            } else {
                dotted(frame, path)
            };
            let alone = before.len() == 0 && after.len() == 0;
            rendered_text(before + place + after, frame, Some(reply)) == Ok::<JsonView, Seq<char>>(
                match there {
                    Some(value) => if alone {
                        value
                    } else if value is Str {
                        JsonView::Str(before + value->Str_0 + after)
                    } else {
                        JsonView::Str(before + text_of(value) + after)
                    },
                    None => JsonView::Str(before + after),
                },
            )
        }),
{
    reveal_strlit("{reply.");
    reveal_strlit("{frame.");
    reveal_strlit("}");
    reveal_strlit("reply");
    reveal_strlit("frame");
    let root = if from_reply {
        "reply"@
    } else {
        "frame"@
    };
    let place = if from_reply {
        "{reply."@ + path + "}"@
    } else {
        "{frame."@ + path + "}"@
    };
    let inner = root + seq!['.'] + path;
    assert(place =~= seq!['{'] + inner + seq!['}']);
    let text = before + place + after;
    let b = before.len() as int;
    let end = b + 1 + inner.len();
    lemma_place(text, b, inner, root, path, from_reply);
    assert forall|i: int| end < i < text.len() implies #[trigger] text[i] != '{' && text[i] != '}' by {
        assert(text[i] == after[i - end - 1]);
    }
    assert forall|i: int| 0 <= i < b implies #[trigger] text[i] != '{' && text[i] != '}' by {
        assert(text[i] == before[i]);
    }
    assert(text.subrange(0, b) =~= before);
    assert(text.subrange(end + 1, text.len() as int) =~= after);
    lemma_filled_around(text, b, end, path, from_reply, frame, Some(reply));
    if dotted(if from_reply { reply } else { frame }, path) is None {
        assert(before + Seq::<char>::empty() + after =~= before + after);
        if before.len() == 0 && after.len() == 0 {
            assert(before + after =~= Seq::<char>::empty());
        }
    }
}

proof fn lemma_place(
    text: Seq<char>,
    b: int,
    inner: Seq<char>,
    root: Seq<char>,
    path: Seq<char>,
    from_reply: bool,
)
    requires
        0 <= b,
        b + 1 + inner.len() < text.len(),
        text[b] == '{',
        text[b + 1 + inner.len()] == '}',
        forall|i: int| 0 <= i < inner.len() ==> text[b + 1 + i] == #[trigger] inner[i],
        root == if from_reply {
            "reply"@
        } else {
            "frame"@
        },
        inner == root + seq!['.'] + path,
        is_braceless(path),
        is_dotted(path),
    ensures
        ({
            let end = b + 1 + inner.len();
            pieces_from(text, b) == preceded(
                PieceView::Field { reply: from_reply, path },
                pieces_from(text, end + 1),
            )
        }),
{
    reveal_strlit("reply");
    reveal_strlit("frame");
    let end = b + 1 + inner.len();
    assert(inner[0] == root[0]);
    assert(text[b + 1] == inner[0]);
    assert(!doubled(text, b, '{'));
    assert forall|i: int| b + 1 <= i < end implies #[trigger] text[i] != '}' by {
        let j = i - b - 1;
        assert(text[b + 1 + j] == inner[j]);
        if j >= 6 {
            assert(inner[j] == path[j - 6]);
        } else {
            assert(inner[j] == (root + seq!['.'])[j]);
        }
    }
    lemma_closing_is(text, b + 1, end);
    assert(text.subrange(b + 1, end) =~= inner);
    assert(inner[5] == '.');
    lemma_first_dot(inner, 5);
    assert(inner.take(5) =~= root);
    assert(inner.skip(6) =~= path);
    assert("reply"@[0] != "frame"@[0]);
    assert(placeholder_of(inner) == Ok::<PieceView, Seq<char>>(
        PieceView::Field { reply: from_reply, path },
    ));
}

proof fn lemma_filled_around(
    text: Seq<char>,
    b: int,
    end: int,
    path: Seq<char>,
    from_reply: bool,
    frame: JsonView,
    reply: Option<JsonView>,
)
    requires
        0 <= b < end < text.len(),
        reply is Some,
        forall|i: int| 0 <= i < b ==> #[trigger] text[i] != '{' && text[i] != '}',
        forall|i: int| end < i < text.len() ==> #[trigger] text[i] != '{' && text[i] != '}',
        pieces_from(text, b) == preceded(
            PieceView::Field { reply: from_reply, path },
            pieces_from(text, end + 1),
        ),
    ensures
        ({
            let there = dotted(
                if from_reply {
                    reply->0
                } else {
                    frame
                },
                path,
            );
            let before = text.subrange(0, b);
            let after = text.subrange(end + 1, text.len() as int);
            rendered_text(text, frame, reply) == Ok::<JsonView, Seq<char>>(
                if b == 0 && end + 1 == text.len() {
                    match there {
                        Some(value) => value,
                        None => JsonView::Str(Seq::empty()),
                    }
                } else {
                    JsonView::Str(before + inline_text(there) + after)
                },
            )
        }),
{
    let n = text.len() as int;
    let piece = PieceView::Field { reply: from_reply, path };
    let before = text.subrange(0, b);
    let after = text.subrange(end + 1, n);
    lemma_pieces_past(text, end + 1, n, frame, reply);
    let tail = pieces_from(text, end + 1)->Ok_0;
    let none = pieces_from(text, n)->Ok_0;
    assert(filled(none, frame, reply) =~= Seq::<char>::empty());
    assert(filled(tail, frame, reply) =~= after);
    assert(tail.len() == n - end - 1);
    let mid = seq![piece] + tail;
    lemma_filled_first(piece, tail, frame, reply);
    lemma_pieces_past(text, 0, b, frame, reply);
    let pieces = template(text)->Ok_0;
    assert(pieces.len() == b + 1 + tail.len());
    assert(filled_piece(piece, frame, reply) == inline_text(filler(piece, frame, reply)));
    assert(filled(pieces, frame, reply) =~= before + inline_text(filler(piece, frame, reply))
        + after);
    if b == 0 && end + 1 == n {
        assert(pieces == mid);
        assert(mid[0] == piece);
    } else if pieces.len() == 1 {
        assert(false);
    }
}

proof fn lemma_first_dot(text: Seq<char>, at: int)
    requires
        0 <= at < text.len(),
        text[at] == '.',
        forall|i: int| 0 <= i < at ==> #[trigger] text[i] != '.',
    ensures
        first_at(text, '.') == Some(at),
    decreases at,
{
    if at > 0 {
        let rest = text.skip(1);
        assert(text[0] != '.');
        assert forall|i: int| 0 <= i < at - 1 implies #[trigger] rest[i] != '.' by {
            assert(rest[i] == text[i + 1]);
        }
        lemma_first_dot(rest, at - 1);
    }
}

/// A doubled brace is filled in to one.
pub proof fn doubled_braces_are_filled_in_to_one(
    after: Seq<char>,
    frame: JsonView,
    reply: Option<JsonView>,
)
    requires
        is_braceless(after),
    ensures
        rendered_text("{{"@ + after, frame, reply) == Ok::<JsonView, Seq<char>>(
            JsonView::Str("{"@ + after),
        ),
        rendered_text("}}"@ + after, frame, reply) == Ok::<JsonView, Seq<char>>(
            JsonView::Str("}"@ + after),
        ),
{
    reveal_strlit("{{");
    reveal_strlit("}}");
    reveal_strlit("{");
    reveal_strlit("}");
    lemma_doubled("{{"@ + after, '{', after, frame, reply);
    lemma_doubled("}}"@ + after, '}', after, frame, reply);
    assert("{"@ + after =~= seq!['{'] + after);
    assert("}"@ + after =~= seq!['}'] + after);
}

proof fn lemma_doubled(
    text: Seq<char>,
    brace: char,
    after: Seq<char>,
    frame: JsonView,
    reply: Option<JsonView>,
)
    requires
        is_braceless(after),
        brace == '{' || brace == '}',
        text.len() == after.len() + 2,
        text[0] == brace,
        text[1] == brace,
        forall|i: int| 0 <= i < after.len() ==> text[i + 2] == #[trigger] after[i],
    ensures
        rendered_text(text, frame, reply) == Ok::<JsonView, Seq<char>>(
            JsonView::Str(seq![brace] + after),
        ),
{
    let n = text.len() as int;
    assert forall|i: int| 2 <= i < n implies #[trigger] text[i] != '{' && text[i] != '}' by {
        assert(text[i] == after[i - 2]);
    }
    lemma_pieces_past(text, 2, n, frame, reply);
    let none = pieces_from(text, n)->Ok_0;
    assert(filled(none, frame, reply) =~= Seq::<char>::empty());
    assert(text.subrange(2, n) =~= after);
    let rest = pieces_from(text, 2)->Ok_0;
    let piece = PieceView::Char(brace);
    lemma_filled_first(piece, rest, frame, reply);
    let pieces = template(text)->Ok_0;
    assert(pieces == seq![piece] + rest);
    assert(pieces[0] == piece);
    assert(filled(pieces, frame, reply) =~= seq![brace] + after);
}

/// Whether a binding holds of a frame: it asks nothing, or the frame holds what it asks for
/// where it asks.
pub open spec fn asks_nothing_else(binding: Binding, frame: JsonView) -> bool {
    binding.when is None || (dotted(frame, binding.when->0.field@) is Some && same(
        dotted(frame, binding.when->0.field@)->0,
        binding.when->0.equals@,
    ))
}

/// A frame is answered by the first binding that holds of it, of the entry the word it
/// selects by names, once the entry's schema admits it; by none where none holds.
pub proof fn frames_are_answered_by_the_first_binding_that_holds(
    codec: &ConfiguredCodec,
    frame: &Json,
    registry: &Registry,
    r: Result<&Binding, CodecFailure>,
    word: Seq<char>,
    entry: FrameConfig,
    i: int,
)
    requires
        call_ensures(ConfiguredCodec::select, (codec, frame, registry), r),
        dotted(frame@, codec.configured().select@) == Some(JsonView::Str(word)),
        lookup(codec.configured().frames@, word) == Some(entry),
        held(registry@, entry.schema@) is Some,
        schema_admits(settled(held(registry@, entry.schema@)->0), settled(frame@)),
        0 <= i <= entry.bindings@.len(),
        i < entry.bindings@.len() ==> asks_nothing_else(entry.bindings@[i], frame@),
        forall|k: int|
            0 <= k < i ==> !asks_nothing_else(#[trigger] entry.bindings@[k], frame@),
    ensures
        r is Ok <==> i < entry.bindings@.len(),
        r is Ok ==> *r->Ok_0 == entry.bindings@[i],
{
    assert forall|b: Binding| #[trigger] binding_holds(b, frame@) == asks_nothing_else(b, frame@) by {}
    if let Ok(binding) = r {
        let at = choose|at: int|
            {
                &&& 0 <= at < entry.bindings@.len()
                &&& #[trigger] entry.bindings@[at] == *binding
                &&& binding_holds(*binding, frame@)
                &&& forall|k: int|
                    0 <= k < at ==> !binding_holds(#[trigger] entry.bindings@[k], frame@)
            };
        if i < at {
            assert(!binding_holds(entry.bindings@[i], frame@));
        }
    } else if i < entry.bindings@.len() {
        assert(binding_holds(entry.bindings@[i], frame@));
    }
}

/// A frame that selects by no word, by a word no entry has, or that its entry's schema does
/// not admit is answered by no binding.
pub proof fn unselected_frames_are_refused(
    codec: &ConfiguredCodec,
    frame: &Json,
    registry: &Registry,
    r: Result<&Binding, CodecFailure>,
)
    requires
        call_ensures(ConfiguredCodec::select, (codec, frame, registry), r),
        ({
            let selected = dotted(frame@, codec.configured().select@);
            ||| selected is None
            ||| !(selected->0 is Str)
            ||| lookup(codec.configured().frames@, selected->0->Str_0) is None
            ||| held(
                registry@,
                lookup(codec.configured().frames@, selected->0->Str_0)->0.schema@,
            ) is None
        }),
    ensures
        r is Err,
{
}

/// What a binding opens with is what it is configured to, filled in from the frame: a
/// response, a record to raise, or a question, blocking where it says so; a refusal opens
/// nothing.
pub proof fn bindings_open_as_configured(
    action: &BindingAction,
    frame: &Json,
    r: Result<Opening, CodecFailure>,
)
    requires
        call_ensures(opening, (action, frame), r),
        r is Ok,
    ensures
        match *action {
            BindingAction::Answer { response } => r->Ok_0 is Respond && rendered(
                response@,
                frame@,
                None,
            ) == Ok::<JsonView, Seq<char>>(r->Ok_0->Respond_0@),
            BindingAction::Refuse { .. } => false,
            BindingAction::Raise { record, .. } => r->Ok_0 is Raise && rendered(
                record@,
                frame@,
                None,
            ) == Ok::<JsonView, Seq<char>>(r->Ok_0->Raise_0@),
            BindingAction::Ask { record, blocking, .. } => match r->Ok_0 {
                Opening::Ask { record: asked, blocking: blocks } => rendered(
                    record@,
                    frame@,
                    None,
                ) == Ok::<JsonView, Seq<char>>(asked@) && blocks == blocking,
                _ => false,
            },
        },
{
}

/// A question that was answered is responded to with what the reply resolves to, and with
/// the response for no answer where it was not, or where the reply resolves to nothing.
pub proof fn answers_decide_the_response(
    response: &Json,
    unanswered: &Json,
    frame: &Json,
    answer: Result<Answer<Json>, String>,
    r: Result<Json, CodecFailure>,
)
    requires
        call_ensures(after_ask, (response, unanswered, frame, answer), r),
        r is Ok,
    ensures
        match answer {
            Ok(Answer::Reply(reply)) => {
                let ruled = match member(reply@, "reply"@) {
                    Some(inner) => inner,
                    None => reply@,
                };
                let said = resolved(response@, frame@, ruled);
                said is Ok && (said->Ok_0 == Some(r->Ok_0@) || (said->Ok_0 is None && rendered(
                    unanswered@,
                    frame@,
                    None,
                ) == Ok::<JsonView, Seq<char>>(r->Ok_0@)))
            },
            Ok(Answer::Timeout) | Ok(Answer::Abandoned) => rendered(unanswered@, frame@, None)
                == Ok::<JsonView, Seq<char>>(r->Ok_0@),
            Ok(Answer::Refused(_)) => false,
            Err(_) => false,
        },
{
}

} // verus!
