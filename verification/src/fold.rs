//! An event queue's log, folded: what is waiting, what is pending, and the id
//! the next record takes.
//!
//! Every state a record reaches is one more line of the log. One place says
//! what a line does to the fold, so a writer folding what it appended and a
//! reader folding what the log grew by agree.

use crate::json::{
    Json, JsonView, NumberView, copied_fields, field, fields_view, fields_without, get_field,
    group_json_views, items_view, member, same, set_field, whole, with_field, without_field,
};
use crate::policy::{Policy, PolicyView, Supersede, SupersedeView, supersede_view};
use crate::predicate::{admits, admitted, at_path};
use crate::text::{blank, is_blank, same_text};
use vstd::prelude::*;


verus! {

// ---------------------------------------------------------------------------
// Records.
// ---------------------------------------------------------------------------

/// The id of a record.
pub open spec fn id_of(record: JsonView) -> Option<u64> {
    match member(record, "id"@) {
        Some(value) => whole(value),
        None => None,
    }
}

/// Whether a record blocks whoever raised it.
pub open spec fn blocks(record: JsonView) -> bool {
    member(record, "blocking"@) == Some(JsonView::Bool(true))
}

/// Whether nobody is listening for a record's answer any more.
pub open spec fn abandoned_is(record: JsonView) -> bool {
    member(record, "abandoned"@) == Some(JsonView::Bool(true))
}

/// Who raised a record.
pub open spec fn asker_is(record: JsonView) -> Option<Seq<char>> {
    match member(record, "asker"@) {
        Some(JsonView::Str(name)) => if is_blank(name) {
            None
        } else {
            Some(name)
        },
        _ => None,
    }
}

/// A record marked abandoned, or not: `abandoned` is last while it is `true`,
/// and left out otherwise.
pub open spec fn marked(record: JsonView, abandoned: bool) -> JsonView {
    match record {
        JsonView::Object(fields) => {
            let rest = without_field(fields, "abandoned"@);
            JsonView::Object(
                if abandoned {
                    with_field(rest, "abandoned"@, JsonView::Bool(true))
                } else {
                    rest
                },
            )
        },
        _ => record,
    }
}

/// What kind of value something is, in words.
pub open spec fn shape_is(value: JsonView) -> Seq<char> {
    match value {
        JsonView::Null => "null"@,
        JsonView::Bool(_) => "a boolean"@,
        JsonView::Number(_) => "a number"@,
        JsonView::Str(_) => "a string"@,
        JsonView::Array(_) => "an array"@,
        JsonView::Object(_) => "an object"@,
    }
}

/// The id of a record.
pub fn record_id(record: &Json) -> (r: Option<u64>)
    ensures
        r == id_of(record@),
{
    match record.get("id") {
        Some(value) => value.as_u64(),
        None => None,
    }
}

/// Whether a record blocks whoever raised it.
pub fn is_blocking(record: &Json) -> (r: bool)
    ensures
        r == blocks(record@),
{
    match record.get("blocking") {
        Some(value) => value.is_true(),
        None => false,
    }
}

/// Whether nobody is listening for a record's answer any more.
pub fn is_abandoned(record: &Json) -> (r: bool)
    ensures
        r == abandoned_is(record@),
{
    match record.get("abandoned") {
        Some(value) => value.is_true(),
        None => false,
    }
}

/// Who raised a record.
pub fn asker_of(record: &Json) -> (r: Option<&str>)
    ensures
        match r {
            Some(name) => asker_is(record@) == Some(name@),
            None => asker_is(record@) is None,
        },
{
    match record.get("asker") {
        Some(value) => match value.as_str() {
            Some(name) => if blank(name) {
                None
            } else {
                Some(name)
            },
            None => None,
        },
        None => None,
    }
}

/// What kind of value something is, in words.
pub fn shape_word(value: &Json) -> (r: &'static str)
    ensures
        r@ == shape_is(value@),
{
    match value {
        Json::Null => "null",
        Json::Bool(_) => "a boolean",
        Json::Number(_) => "a number",
        Json::Str(_) => "a string",
        Json::Array(_) => "an array",
        Json::Object(_) => "an object",
    }
}

/// A record marked abandoned, or not.
pub fn with_abandoned(record: &Json, abandoned: bool) -> (r: Json)
    ensures
        r@ == marked(record@, abandoned),
{
    broadcast use group_json_views;

    match record {
        Json::Object(fields) => {
            let mut rest = fields_without(fields, "abandoned");
            if abandoned {
                set_field(&mut rest, "abandoned", Json::Bool(true));
            }
            Json::Object(rest)
        },
        _ => record.copied(),
    }
}

/// `record` with `id` as its id: in place where it has one, first where it has
/// none. Nothing for a record that is not an object.
pub open spec fn identified(record: JsonView, id: u64) -> Option<JsonView> {
    let value = JsonView::Number(NumberView::Int(id as int));
    match record {
        JsonView::Object(fields) => Some(
            JsonView::Object(
                if field(fields, "id"@) is Some {
                    with_field(fields, "id"@, value)
                } else {
                    seq![("id"@, value)] + fields
                },
            ),
        ),
        _ => None,
    }
}

/// `record` with `id` as its id.
pub fn with_id(record: &Json, id: u64) -> (r: Option<Json>)
    ensures
        match r {
            Some(numbered) => identified(record@, id) == Some(numbered@),
            None => identified(record@, id) is None,
        },
{
    broadcast use group_json_views;

    match record {
        Json::Object(fields) => {
            if get_field(fields, "id").is_some() {
                let mut out = copied_fields(fields);
                set_field(&mut out, "id", Json::whole(id));
                return Some(Json::Object(out));
            }
            let mut out: Vec<(String, Json)> = Vec::new();
            out.push(("id".to_owned(), Json::whole(id)));
            let ghost first = fields_view(out@);
            let mut rest = copied_fields(fields);
            proof {
                assert(first =~= seq![
                    ("id"@, JsonView::Number(NumberView::Int(id as int))),
                ]);
            }
            let ghost tail = rest@;
            out.append(&mut rest);
            proof {
                assert(fields_view(out@) =~= first + fields_view(tail));
            }
            Some(Json::Object(out))
        },
        _ => None,
    }
}

/// The value set under a key is the one found there.
pub proof fn lemma_field_of_with(
    fields: Seq<(Seq<char>, JsonView)>,
    key: Seq<char>,
    value: JsonView,
    sought: Seq<char>,
)
    ensures
        field(with_field(fields, key, value), sought) == if sought == key {
            Some(value)
        } else {
            field(fields, sought)
        },
    decreases fields.len(),
{
    reveal_with_fuel(field, 2);
    if fields.len() == 0 {
        assert(seq![(key, value)].skip(1) =~= Seq::<(Seq<char>, JsonView)>::empty());
    } else if fields[0].0 == key {
        assert((seq![(key, value)] + fields.skip(1)).skip(1) =~= fields.skip(1));
    } else {
        lemma_field_of_with(fields.skip(1), key, value, sought);
        let rest = with_field(fields.skip(1), key, value);
        assert((seq![fields[0]] + rest).skip(1) =~= rest);
    }
}

/// A record given an id has that id.
pub proof fn lemma_identified_id(record: JsonView, id: u64)
    ensures
        match identified(record, id) {
            Some(numbered) => id_of(numbered) == Some(id),
            None => !(record is Object),
        },
{
    match record {
        JsonView::Object(fields) => {
            let value = JsonView::Number(NumberView::Int(id as int));
            if field(fields, "id"@) is Some {
                lemma_field_of_with(fields, "id"@, value, "id"@);
            } else {
                reveal_with_fuel(field, 2);
                assert((seq![("id"@, value)] + fields)[0] == ("id"@, value));
            }
        },
        _ => {},
    }
}

// ---------------------------------------------------------------------------
// The fold.
// ---------------------------------------------------------------------------

/// What one line of an event queue's log says happened.
#[derive(Debug, Clone, Copy, PartialEq, Eq, Structural)]
pub enum Event {
    /// A record was queued.
    Queued,
    /// It was claimed.
    Claimed,
    /// It was answered.
    Answered,
    /// Nobody listens for its answer any more.
    Abandoned,
    /// Somebody listens for its answer again.
    Attended,
}

/// The word an event is written as.
pub open spec fn event_word(event: Event) -> Seq<char> {
    match event {
        Event::Queued => "queued"@,
        Event::Claimed => "claimed"@,
        Event::Answered => "answered"@,
        Event::Abandoned => "abandoned"@,
        Event::Attended => "attended"@,
    }
}

/// The event a word is written for.
pub open spec fn word_event(word: Seq<char>) -> Option<Event> {
    if word == "queued"@ {
        Some(Event::Queued)
    } else if word == "claimed"@ {
        Some(Event::Claimed)
    } else if word == "answered"@ {
        Some(Event::Answered)
    } else if word == "abandoned"@ {
        Some(Event::Abandoned)
    } else if word == "attended"@ {
        Some(Event::Attended)
    } else {
        None
    }
}

impl Event {
    /// The word this is written as, which reads as this again.
    pub fn word(self) -> (r: &'static str)
        ensures
            r@ == event_word(self),
            word_event(r@) == Some(self),
    {
        proof {
            lemma_event_words(self);
        }
        match self {
            Event::Queued => "queued",
            Event::Claimed => "claimed",
            Event::Answered => "answered",
            Event::Abandoned => "abandoned",
            Event::Attended => "attended",
        }
    }

    /// The event a word is written for.
    pub fn of_word(word: &str) -> (r: Option<Event>)
        ensures
            r == word_event(word@),
    {
        if same_text(word, "queued") {
            Some(Event::Queued)
        } else if same_text(word, "claimed") {
            Some(Event::Claimed)
        } else if same_text(word, "answered") {
            Some(Event::Answered)
        } else if same_text(word, "abandoned") {
            Some(Event::Abandoned)
        } else if same_text(word, "attended") {
            Some(Event::Attended)
        } else {
            None
        }
    }
}

/// Each event's word is its own.
pub proof fn lemma_event_words(event: Event)
    ensures
        word_event(event_word(event)) == Some(event),
{
    reveal_strlit("queued");
    reveal_strlit("claimed");
    reveal_strlit("answered");
    reveal_strlit("abandoned");
    reveal_strlit("attended");
    assert("queued"@[0] != "claimed"@[0]);
    assert("claimed"@[0] != "answered"@[0]);
    assert("answered"@[1] != "abandoned"@[1]);
    assert("abandoned"@[1] != "attended"@[1]);
    assert("answered"@[1] != "attended"@[1]);
    assert("queued"@[0] != "answered"@[0]);
}

/// What an event queue folds to.
pub struct FoldedView {
    pub waiting: Seq<JsonView>,
    pub pending: Option<JsonView>,
    pub next_id: u64,
}

/// What nothing folds to.
pub open spec fn nothing_folded() -> FoldedView {
    FoldedView { waiting: Seq::empty(), pending: None, next_id: 0 }
}

/// Where the first waiting record with an id is.
pub open spec fn waiting_at(waiting: Seq<JsonView>, id: u64) -> Option<int>
    decreases waiting.len(),
{
    if waiting.len() == 0 {
        None
    } else if id_of(waiting[0]) == Some(id) {
        Some(0)
    } else {
        match waiting_at(waiting.skip(1), id) {
            Some(at) => Some(at + 1),
            None => None,
        }
    }
}

/// Whether two records have the same key: equal values, or neither one.
pub open spec fn same_key(a: Option<JsonView>, b: Option<JsonView>) -> bool {
    match (a, b) {
        (None, None) => true,
        (Some(x), Some(y)) => same(x, y),
        _ => false,
    }
}

/// What is left waiting when `record` is queued: all but those it supersedes.
pub open spec fn unsuperseded(
    supersede: Option<SupersedeView>,
    waiting: Seq<JsonView>,
    record: JsonView,
) -> Seq<JsonView> {
    match supersede {
        Some(supersede) => if admits(supersede.when, record) {
            waiting.filter(
                |w: JsonView|
                    !same_key(at_path(w, supersede.key), at_path(record, supersede.key)),
            )
        } else {
            waiting
        },
        None => waiting,
    }
}

/// What a line with no event says: an older writer's, which logged a record
/// when it was queued, and again when it was abandoned or taken back.
pub open spec fn event_of(event: Option<Event>, next_id: u64, id: u64, record: JsonView) -> Event {
    match event {
        Some(event) => event,
        None => if id >= next_id {
            Event::Queued
        } else if abandoned_is(record) {
            Event::Abandoned
        } else {
            Event::Attended
        },
    }
}

/// A held record after the one with `id` is marked.
pub open spec fn remarked(held: JsonView, id: u64, abandoned: bool) -> JsonView {
    if id_of(held) == Some(id) {
        marked(held, abandoned)
    } else {
        held
    }
}

/// Whether the pending slot is held for somebody: the policy holds records, and the
/// pending one is not abandoned.
pub open spec fn is_slot_held(hold_pending: bool, pending: Option<JsonView>) -> bool {
    hold_pending && pending is Some && !abandoned_is(pending->0)
}

/// Whether a waiting record is withheld: somebody waits on it, and the slot it would
/// take is held for another.
pub open spec fn is_withheld(
    hold_pending: bool,
    pending: Option<JsonView>,
    record: JsonView,
) -> bool {
    is_slot_held(hold_pending, pending) && blocks(record) && !abandoned_is(record)
}

/// What one line makes of the fold: the one statement of an event queue's
/// transitions.
pub open spec fn step(
    policy: PolicyView,
    folded: FoldedView,
    event: Option<Event>,
    record: JsonView,
) -> FoldedView {
    match id_of(record) {
        None => folded,
        Some(id) => match event_of(event, folded.next_id, id, record) {
            // An id with no successor is one no writer allocated.
            Event::Queued => if id == u64::MAX {
                folded
            } else {
                FoldedView {
                    waiting: unsuperseded(policy.supersede_on, folded.waiting, record).push(record),
                    next_id: if folded.next_id > id {
                        folded.next_id
                    } else {
                        (id + 1) as u64
                    },
                    ..folded
                }
            },
            Event::Claimed => match waiting_at(folded.waiting, id) {
                None => folded,
                Some(at) => {
                    let taken = folded.waiting[at];
                    let left = folded.waiting.remove(at);
                    // A blocking record outlives its delivery while it waits for an
                    // answer; an abandoned one takes the slot only when nothing holds
                    // it, and an abandoned one it displaces waits again. A slot held
                    // for somebody is not taken: no claim made here hands out a record
                    // that would, and one a log tells of was delivered all the same.
                    if policy.hold_pending && blocks(taken) && !is_slot_held(
                        policy.hold_pending,
                        folded.pending,
                    ) && (!abandoned_is(taken) || folded.pending is None) {
                        FoldedView {
                            waiting: match folded.pending {
                                Some(displaced) => left.push(displaced),
                                None => left,
                            },
                            pending: Some(taken),
                            ..folded
                        }
                    } else {
                        FoldedView { waiting: left, ..folded }
                    }
                },
            },
            Event::Answered => match folded.pending {
                Some(held) => if id_of(held) == Some(id) {
                    FoldedView { pending: None, ..folded }
                } else {
                    folded
                },
                None => folded,
            },
            Event::Abandoned | Event::Attended => {
                let abandoned = event_of(event, folded.next_id, id, record) == Event::Abandoned;
                FoldedView {
                    waiting: folded.waiting.map_values(
                        |held: JsonView| remarked(held, id, abandoned),
                    ),
                    pending: match folded.pending {
                        Some(held) => Some(remarked(held, id, abandoned)),
                        None => None,
                    },
                    ..folded
                }
            },
        },
    }
}

/// An event queue folded: what it folds to, the log it accounts for, and the
/// seal over both.
#[derive(Debug)]
pub struct Folded {
    /// The records waiting to be claimed, oldest first.
    pub waiting: Vec<Json>,
    /// The record claimed and not yet answered.
    pub pending: Option<Json>,
    /// The id the next record takes.
    pub next_id: u64,
    /// The position after the last line folded.
    pub accounted: Option<u64>,
    /// The seal over the rest.
    pub seal: Option<u128>,
}

/// What an optional value is.
pub open spec fn optional_view(value: Option<Json>) -> Option<JsonView> {
    match value {
        Some(value) => Some(value@),
        None => None,
    }
}

impl View for Folded {
    type V = FoldedView;

    open spec fn view(&self) -> FoldedView {
        FoldedView {
            waiting: items_view(self.waiting@),
            pending: optional_view(self.pending),
            next_id: self.next_id,
        }
    }
}

impl Folded {
    /// Nothing folded.
    pub fn nothing() -> (r: Self)
        ensures
            r@ == nothing_folded(),
            r.accounted is None,
            r.seal is None,
    {
        let r = Folded {
            waiting: Vec::new(),
            pending: None,
            next_id: 0,
            accounted: None,
            seal: None,
        };
        proof {
            assert(r@.waiting =~= nothing_folded().waiting);
        }
        r
    }

    /// Where the first waiting record with `id` is.
    fn find_waiting(&self, id: u64) -> (r: Option<usize>)
        ensures
            match r {
                Some(at) => at < self.waiting@.len() && waiting_at(self@.waiting, id) == Some(
                    at as int,
                ),
                None => waiting_at(self@.waiting, id) is None,
            },
    {
        let ghost all = self@.waiting;
        let mut i: usize = 0;
        proof {
            assert(all.skip(0) =~= all);
        }
        while i < self.waiting.len()
            invariant
                i <= self.waiting@.len(),
                all == items_view(self.waiting@),
                waiting_at(all, id) == match waiting_at(all.skip(i as int), id) {
                    Some(at) => Some(at + i),
                    None => None,
                },
            decreases self.waiting@.len() - i,
        {
            if record_id(&self.waiting[i]) == Some(id) {
                return Some(i);
            }
            proof {
                assert(all.skip(i as int).skip(1) =~= all.skip(i + 1));
            }
            i += 1;
        }
        None
    }

    /// Drops the waiting records `record` supersedes.
    fn supersede(&mut self, supersede: &Option<Supersede>, record: &Json)
        ensures
            final(self)@ == (FoldedView {
                waiting: unsuperseded(supersede_view(*supersede), old(self)@.waiting, record@),
                ..old(self)@
            }),
            final(self).accounted == old(self).accounted,
            final(self).seal == old(self).seal,
    {
        let supersede = match supersede {
            Some(supersede) => supersede,
            None => {
                return;
            },
        };
        if !admitted(&supersede.when, record) {
            return;
        }
        let ghost before = self@;
        let ghost kept = |w: JsonView|
            !same_key(at_path(w, supersede.key@), at_path(record@, supersede.key@));
        let key = supersede.key.get(record);
        let mut out: Vec<Json> = Vec::new();
        let mut i: usize = 0;
        proof {
            assert(items_view(out@) =~= before.waiting.take(0).filter(kept));
        }
        while i < self.waiting.len()
            invariant
                i <= self.waiting@.len(),
                *self == *old(self),
                before == self@,
                kept == (|w: JsonView|
                    !same_key(at_path(w, supersede.key@), at_path(record@, supersede.key@))),
                match key {
                    Some(value) => at_path(record@, supersede.key@) == Some(value@),
                    None => at_path(record@, supersede.key@) is None,
                },
                items_view(out@) == before.waiting.take(i as int).filter(kept),
            decreases self.waiting@.len() - i,
        {
            let ghost so_far = items_view(out@);
            proof {
                assert(before.waiting.take(i + 1).drop_last() =~= before.waiting.take(i as int));
                assert(before.waiting.take(i + 1).last() == self.waiting@[i as int]@);
                reveal_with_fuel(Seq::filter, 2);
            }
            let equal = match (supersede.key.get(&self.waiting[i]), key) {
                (None, None) => true,
                (Some(found), Some(value)) => found.equals(value),
                _ => false,
            };
            if !equal {
                out.push(self.waiting[i].copied());
                proof {
                    assert(items_view(out@) =~= so_far.push(self.waiting@[i as int]@));
                }
            }
            i += 1;
        }
        proof {
            assert(before.waiting.take(i as int) =~= before.waiting);
        }
        self.waiting = out;
    }

    /// Marks the held records with `id`.
    fn remark(&mut self, id: u64, abandoned: bool)
        ensures
            final(self)@ == (FoldedView {
                waiting: old(self)@.waiting.map_values(
                    |held: JsonView| remarked(held, id, abandoned),
                ),
                pending: match old(self)@.pending {
                    Some(held) => Some(remarked(held, id, abandoned)),
                    None => None,
                },
                ..old(self)@
            }),
            final(self).accounted == old(self).accounted,
            final(self).seal == old(self).seal,
    {
        let ghost goal = self@.waiting.map_values(|held: JsonView| remarked(held, id, abandoned));
        let mut out: Vec<Json> = Vec::new();
        let mut i: usize = 0;
        while i < self.waiting.len()
            invariant
                i <= self.waiting@.len(),
                *self == *old(self),
                goal == self@.waiting.map_values(
                    |held: JsonView| remarked(held, id, abandoned),
                ),
                items_view(out@) =~= goal.take(i as int),
            decreases self.waiting@.len() - i,
        {
            let ghost so_far = items_view(out@);
            let held = if record_id(&self.waiting[i]) == Some(id) {
                with_abandoned(&self.waiting[i], abandoned)
            } else {
                self.waiting[i].copied()
            };
            out.push(held);
            proof {
                assert(items_view(out@) =~= so_far.push(goal[i as int]));
            }
            i += 1;
        }
        proof {
            assert(items_view(out@) =~= goal);
        }
        self.waiting = out;
        let pending = match &self.pending {
            Some(held) => Some(
                if record_id(held) == Some(id) {
                    with_abandoned(held, abandoned)
                } else {
                    held.copied()
                },
            ),
            None => None,
        };
        self.pending = pending;
    }

    /// Whether the pending slot is held for somebody.
    pub fn holds_slot_for(&self, hold_pending: bool) -> (r: bool)
        ensures
            r == is_slot_held(hold_pending, self@.pending),
    {
        hold_pending && match &self.pending {
            Some(held) => !is_abandoned(held),
            None => false,
        }
    }

    /// Folds one line of the log in.
    pub fn apply(&mut self, policy: &Policy, event: Option<Event>, record: &Json)
        ensures
            final(self)@ == step(policy@, old(self)@, event, record@),
            final(self).accounted == old(self).accounted,
            final(self).seal == old(self).seal,
    {
        let id = match record_id(record) {
            Some(id) => id,
            None => {
                return;
            },
        };
        let event = match event {
            Some(event) => event,
            None => if id >= self.next_id {
                Event::Queued
            } else if is_abandoned(record) {
                Event::Abandoned
            } else {
                Event::Attended
            },
        };
        match event {
            Event::Queued => {
                if id == u64::MAX {
                    return;
                }
                self.supersede(&policy.supersede_on, record);
                let ghost left = items_view(self.waiting@);
                self.waiting.push(record.copied());
                proof {
                    assert(items_view(self.waiting@) =~= left.push(record@));
                }
                if self.next_id <= id {
                    self.next_id = id + 1;
                }
            },
            Event::Claimed => {
                let at = match self.find_waiting(id) {
                    Some(at) => at,
                    None => {
                        return;
                    },
                };
                let held = self.holds_slot_for(policy.hold_pending);
                let ghost all = items_view(self.waiting@);
                let taken = self.waiting.remove(at);
                proof {
                    assert(items_view(self.waiting@) =~= all.remove(at as int));
                    assert(taken@ == all[at as int]);
                }
                if policy.hold_pending && is_blocking(&taken) && !held && (!is_abandoned(&taken)
                    || self.pending.is_none()) {
                    let mut displaced = Some(taken);
                    core::mem::swap(&mut displaced, &mut self.pending);
                    if let Some(displaced) = displaced {
                        let ghost left = items_view(self.waiting@);
                        self.waiting.push(displaced);
                        proof {
                            assert(items_view(self.waiting@) =~= left.push(displaced@));
                        }
                    }
                }
            },
            Event::Answered => {
                let answered = match &self.pending {
                    Some(held) => record_id(held) == Some(id),
                    None => false,
                };
                if answered {
                    self.pending = None;
                }
            },
            Event::Abandoned => {
                self.remark(id, true);
            },
            Event::Attended => {
                self.remark(id, false);
            },
        }
    }
}

} // verus!
