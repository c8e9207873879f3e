//! The lines of an event queue's log: what happened, and the record it happened
//! to, as one object.

use crate::bytes::{lemma_line_is_record, text_bytes, utf8_text};
use crate::fold::{Event, event_word, id_of, lemma_event_words, record_id, word_event};
use crate::fold_laws::lemma_field_none;
use crate::framing::{is_record, lemma_filter_all};
use crate::json::{
    Json, JsonView, field, fields_view, fields_without, get_field, group_json_views,
    keys_distinct, lemma_with_new_field, member, nests_within, not_under, parsed_json, reads_as,
    set_field, text_of, with_field, without_field,
};
use vstd::prelude::*;
use vstd::utf8::{decode_utf8, encode_utf8, encode_utf8_decode_utf8, encode_utf8_valid_utf8, valid_utf8};

verus! {

/// Members with others inserted after them, one by one.
pub open spec fn extended(
    base: Seq<(Seq<char>, JsonView)>,
    fields: Seq<(Seq<char>, JsonView)>,
) -> Seq<(Seq<char>, JsonView)>
    decreases fields.len(),
{
    if fields.len() == 0 {
        base
    } else {
        with_field(extended(base, fields.drop_last()), fields.last().0, fields.last().1)
    }
}

/// The members of an object; none of any other value.
pub open spec fn members(value: JsonView) -> Seq<(Seq<char>, JsonView)> {
    match value {
        JsonView::Object(fields) => fields,
        _ => Seq::empty(),
    }
}

/// The line that says `event` happened to `record`.
pub open spec fn line_of(event: Event, record: JsonView) -> JsonView {
    JsonView::Object(
        extended(seq![("event"@, JsonView::Str(event_word(event)))], members(record)),
    )
}

/// What bytes read as: the JSON they write in UTF-8.
pub open spec fn bytes_read(bytes: Seq<u8>) -> Option<JsonView> {
    if valid_utf8(bytes) && parsed_json(decode_utf8(bytes)) is Ok {
        Some(parsed_json(decode_utf8(bytes))->Ok_0)
    } else {
        None
    }
}

/// What a line reads as: what it says happened, where it says, and the record.
/// Nothing for a line that is no object, names no event there is, or whose
/// record has no id.
pub open spec fn line_reads(bytes: Seq<u8>) -> Option<(Option<Event>, JsonView)> {
    match bytes_read(bytes) {
        Some(JsonView::Object(fields)) => {
            let record = JsonView::Object(without_field(fields, "event"@));
            if id_of(record) is None {
                None
            } else {
                match field(fields, "event"@) {
                    None => Some((None, record)),
                    Some(JsonView::Null) => Some((None, record)),
                    Some(JsonView::Str(word)) => match word_event(word) {
                        Some(event) => Some((Some(event), record)),
                        None => None,
                    },
                    Some(_) => None,
                }
            }
        },
        _ => None,
    }
}

/// What bytes read as.
pub fn read_bytes(bytes: &Vec<u8>) -> (r: Option<Json>)
    ensures
        match r {
            Some(value) => bytes_read(bytes@) == Some(value@),
            None => bytes_read(bytes@) is None,
        },
{
    match utf8_text(bytes) {
        None => None,
        Some(text) => {
            proof {
                encode_utf8_decode_utf8(text@);
            }
            match Json::parse(text.as_str()) {
                Ok(value) => Some(value),
                Err(_) => None,
            }
        },
    }
}

/// What a line reads as.
pub fn parse_line(bytes: &Vec<u8>) -> (r: Option<(Option<Event>, Json)>)
    ensures
        match r {
            Some((event, record)) => line_reads(bytes@) == Some((event, record@)),
            None => line_reads(bytes@) is None,
        },
{
    broadcast use group_json_views;

    let value = match read_bytes(bytes) {
        Some(value) => value,
        None => {
            return None;
        },
    };
    match &value {
        Json::Object(fields) => {
            let record = Json::Object(fields_without(fields, "event"));
            if record_id(&record).is_none() {
                return None;
            }
            match get_field(fields, "event") {
                None => Some((None, record)),
                Some(Json::Null) => Some((None, record)),
                Some(Json::Str(word)) => match Event::of_word(word.as_str()) {
                    Some(event) => Some((Some(event), record)),
                    None => None,
                },
                Some(_) => None,
            }
        },
        _ => None,
    }
}

/// Puts a copy of each of `more` among `fields`, one by one.
pub fn extend_fields(fields: &mut Vec<(String, Json)>, more: &Vec<(String, Json)>)
    ensures
        fields_view(final(fields)@) == extended(fields_view(old(fields)@), fields_view(more@)),
{
    let ghost base = fields_view(fields@);
    let ghost all = fields_view(more@);
    let mut i: usize = 0;
    proof {
        assert(all.take(0) =~= Seq::<(Seq<char>, JsonView)>::empty());
    }
    while i < more.len()
        invariant
            i <= more@.len(),
            all == fields_view(more@),
            fields_view(fields@) == extended(base, all.take(i as int)),
        decreases more@.len() - i,
    {
        proof {
            assert(all.take(i + 1).drop_last() =~= all.take(i as int));
        }
        let value = more[i].1.copied();
        set_field(fields, more[i].0.as_str(), value);
        i += 1;
    }
    proof {
        assert(all.take(i as int) =~= all);
    }
}

/// Whether a record is one a line gives back as it was: an object with an id,
/// no `event` of its own, no key twice, and no deeper than is read.
pub open spec fn is_loggable(record: JsonView) -> bool {
    &&& record is Object
    &&& id_of(record) is Some
    &&& member(record, "event"@) is None
    &&& keys_distinct(record)
    &&& nests_within(record, 127)
}

proof fn lemma_extended_new(
    base: Seq<(Seq<char>, JsonView)>,
    fields: Seq<(Seq<char>, JsonView)>,
)
    requires
        forall|i: int, j: int|
            0 <= i < j < fields.len() ==> (#[trigger] fields[i]).0 != (#[trigger] fields[j]).0,
        forall|i: int, j: int|
            0 <= i < base.len() && 0 <= j < fields.len() ==> (#[trigger] base[i]).0 != (
            #[trigger] fields[j]).0,
    ensures
        extended(base, fields) == base + fields,
    decreases fields.len(),
{
    if fields.len() == 0 {
        assert(base + fields =~= base);
    } else {
        let before = fields.drop_last();
        lemma_extended_new(base, before);
        let so_far = base + before;
        assert forall|i: int| 0 <= i < so_far.len() implies (#[trigger] so_far[i]).0
            != fields.last().0 by {
            if i < base.len() {
                assert(base[i].0 != fields[fields.len() - 1].0);
            } else {
                assert(so_far[i] == fields[i - base.len()]);
                assert(fields[i - base.len()].0 != fields[fields.len() - 1].0);
            }
        }
        lemma_with_new_field(so_far, fields.last().0, fields.last().1);
        assert(so_far.push((fields.last().0, fields.last().1)) =~= base + fields);
    }
}

/// What the log is told is what it says: the line of a loggable record is an
/// object that writes no key twice, and reads as the event and the record.
pub proof fn lemma_line_of(event: Event, record: JsonView)
    requires
        is_loggable(record),
    ensures
        ({
            let line = line_of(event, record);
            &&& keys_distinct(line)
            &&& nests_within(line, 127)
            &&& field(line->Object_0, "event"@) == Some(JsonView::Str(event_word(event)))
            &&& without_field(line->Object_0, "event"@) == members(record)
        }),
{
    let fields = members(record);
    let key = "event"@;
    let one = (key, JsonView::Str(event_word(event)));
    let base = seq![one];
    lemma_field_none(fields, key);
    assert forall|i: int, j: int| 0 <= i < base.len() && 0 <= j < fields.len() implies (
    #[trigger] base[i]).0 != (#[trigger] fields[j]).0 by {
        assert(fields[j].0 != key);
    }
    lemma_extended_new(base, fields);
    let all = base + fields;
    assert(line_of(event, record) == JsonView::Object(all));
    assert forall|i: int, j: int| 0 <= i < j < all.len() implies (#[trigger] all[i]).0 != (
    #[trigger] all[j]).0 by {
        assert(all[j] == fields[j - 1]);
        if i > 0 {
            assert(all[i] == fields[i - 1]);
        }
    }
    assert forall|i: int| 0 <= i < all.len() implies keys_distinct((#[trigger] all[i]).1) by {
        if i > 0 {
            assert(all[i] == fields[i - 1]);
            assert(keys_distinct(fields[i - 1].1));
        }
    }
    assert forall|i: int| 0 <= i < all.len() implies nests_within((#[trigger] all[i]).1, 126) by {
        if i > 0 {
            assert(all[i] == fields[i - 1]);
            assert(nests_within(fields[i - 1].1, 126));
        }
    }
    assert(all[0] == one);
    lemma_filter_drops_first(one, fields, not_under(key));
    lemma_filter_all(fields, not_under(key));
}

/// An item a filter does not pass is left out from the start.
pub proof fn lemma_filter_drops_first<A>(first: A, items: Seq<A>, pred: spec_fn(A) -> bool)
    requires
        !pred(first),
    ensures
        (seq![first] + items).filter(pred) == items.filter(pred),
    decreases items.len(),
{
    reveal_with_fuel(Seq::filter, 2);
    let all = seq![first] + items;
    if items.len() == 0 {
        assert(all.drop_last() =~= Seq::<A>::empty());
    } else {
        lemma_filter_drops_first(first, items.drop_last(), pred);
        assert(all.drop_last() =~= seq![first] + items.drop_last());
    }
}

/// The line that says `event` happened to `record`, as bytes: a record of the
/// log, and one that reads as the event and the record again.
pub fn frame(event: Event, record: &Json) -> (r: Vec<u8>)
    ensures
        r@ == encode_utf8(text_of(line_of(event, record@))),
        is_record(r@),
        is_loggable(record@) ==> line_reads(r@) == Some((Some(event), record@)),
{
    broadcast use group_json_views;

    let mut line: Vec<(String, Json)> = Vec::new();
    line.push(("event".to_owned(), Json::Str(event.word().to_owned())));
    proof {
        assert(fields_view(line@) =~= seq![("event"@, JsonView::Str(event_word(event)))]);
    }
    match record {
        Json::Object(fields) => {
            extend_fields(&mut line, fields);
        },
        _ => {},
    }
    let whole_line = Json::Object(line);
    let text = whole_line.render();
    proof {
        lemma_line_is_record(text@);
        encode_utf8_valid_utf8(text@);
        encode_utf8_decode_utf8(text@);
        lemma_event_words(event);
        if is_loggable(record@) {
            lemma_line_of(event, record@);
            assert(reads_as(text@, whole_line@));
            assert(JsonView::Object(members(record@)) == record@);
        }
    }
    text_bytes(text.as_str())
}

} // verus!
