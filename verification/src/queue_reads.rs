//! The pending slot, and who still listens.

use crate::bytes::utf8_text;
use crate::event_log::{line_reads, parse_line};
use crate::fold::{
    Event, Folded, FoldedView, abandoned_is, asker_is, asker_of, id_of, is_abandoned, marked,
    optional_view, record_id, waiting_at, with_abandoned,
};
use crate::framing::lemma_filter_all;
use crate::json::{Json, JsonView, items_view};
use crate::names::{ConsumerName, DEFAULT_CONSUMER, Position};
use crate::policy::{QueueSpecView, is_event_policy};
use crate::predicate::{Predicate, PredicateView, admits, admitted, when_view};
use crate::projection::{
    ProjectionView, copied_items, copied_option, projection_bytes, projection_of,
};
use crate::queue::{
    Claimed, QueueError, RawQueue, current_with, events_view, grows_as, has_grown, positions_of,
    projection_document, records_events, stands_as,
};
use crate::queue_ops::{entries_of, unread_of};
use crate::text::{blank, cat2, cat4, cat5, decimal, is_blank, same_text};
use crate::transport::{Stored, Transport, stored_view};
use vstd::prelude::*;
use vstd::utf8::{decode_utf8, encode_utf8, encode_utf8_decode_utf8, valid_utf8};

verus! {

/// Whether an error is that no reply ends at a position, for `why`.
pub open spec fn is_no_reply(error: QueueError, queue: Seq<char>, why: Seq<char>) -> bool {
    match error {
        QueueError::NoReply { queue: named, why: given } => named@ == queue && given@ == why,
        _ => false,
    }
}

/// Whether an error is that a position is not pending, for `why`.
pub open spec fn is_not_pending(error: QueueError, queue: Seq<char>, why: Seq<char>) -> bool {
    match error {
        QueueError::NotPending { queue: named, why: given } => named@ == queue && given@ == why,
        _ => false,
    }
}

/// Whether a record of `log` ends at `at`.
pub open spec fn ends_at(log: Seq<(Seq<u8>, int)>, at: int) -> bool {
    exists|i: int| 0 <= i < log.len() && (#[trigger] log[i]).1 == at
}

/// The position after the last claim of a record.
pub open spec fn last_claim(log: Seq<(Seq<u8>, int)>, id: u64) -> Option<int>
    decreases log.len(),
{
    if log.len() == 0 {
        None
    } else {
        match line_reads(log.last().0) {
            Some((event, record)) => if event == Some(Event::Claimed) && id_of(record) == Some(id) {
                Some(log.last().1)
            } else {
                last_claim(log.drop_last(), id)
            },
            None => last_claim(log.drop_last(), id),
        }
    }
}

/// Whether a log leaves a record marked abandoned: its last mark decides, and
/// one never marked is not.
pub open spec fn is_marked(log: Seq<(Seq<u8>, int)>, id: u64) -> bool
    decreases log.len(),
{
    if log.len() == 0 {
        false
    } else {
        let before = is_marked(log.drop_last(), id);
        match line_reads(log.last().0) {
            Some((event, record)) => if id_of(record) != Some(id) {
                before
            } else {
                match event {
                    Some(Event::Abandoned) => true,
                    Some(Event::Attended) => false,
                    Some(Event::Queued) => abandoned_is(record),
                    None => abandoned_is(record),
                    _ => before,
                }
            },
            None => before,
        }
    }
}

/// The record a log queued under an id, as it was first queued.
pub open spec fn queued_as(log: Seq<(Seq<u8>, int)>, id: u64) -> Option<JsonView>
    decreases log.len(),
{
    if log.len() == 0 {
        None
    } else {
        match queued_as(log.drop_last(), id) {
            Some(record) => Some(record),
            None => match line_reads(log.last().0) {
                Some((event, record)) => if id_of(record) == Some(id) && (event is None || event
                    == Some(Event::Queued)) {
                    Some(record)
                } else {
                    None
                },
                None => None,
            },
        }
    }
}

/// Every record held: those waiting, then the pending one.
pub open spec fn held_records(folded: FoldedView) -> Seq<JsonView> {
    match folded.pending {
        Some(pending) => folded.waiting.push(pending),
        None => folded.waiting,
    }
}

/// What abandoning the records with one of `ids` records: a mark for each held
/// one that is not marked already.
pub open spec fn abandons(folded: FoldedView, ids: Seq<u64>) -> Seq<(Event, JsonView)> {
    held_records(folded).filter(
        |r: JsonView| id_of(r) is Some && ids.contains(id_of(r)->0) && !abandoned_is(r),
    ).map_values(|r: JsonView| (Event::Abandoned, marked(r, true)))
}

/// What attending to the records an asker raised records: a mark taken off each
/// abandoned one.
pub open spec fn attends(folded: FoldedView, asker: Seq<char>) -> Seq<(Event, JsonView)> {
    held_records(folded).filter(|r: JsonView| abandoned_is(r) && asker_is(r) == Some(asker)).map_values(
        |r: JsonView| (Event::Attended, marked(r, false)),
    )
}

/// How many of `waiting` somebody is still owed a reading of.
pub open spec fn unread(waiting: Seq<JsonView>) -> nat {
    waiting.filter(|r: JsonView| !abandoned_is(r)).len()
}

/// Whether what differs between two states of a transport is documents alone.
pub open spec fn only_documents<T: Transport>(before: T, after: T) -> bool {
    &&& forall|q: Seq<char>| #[trigger] after.log(q) == before.log(q)
    &&& forall|q: Seq<char>| #[trigger] after.token(q) == before.token(q)
    &&& forall|q: Seq<char>| #[trigger] after.end(q) == before.end(q)
    &&& forall|q: Seq<char>| #[trigger] after.torn(q) == before.torn(q)
    &&& forall|q: Seq<char>, at: int| #[trigger] after.boundary(q, at) == before.boundary(q, at)
    &&& forall|q: Seq<char>, c: Seq<char>| #[trigger]
        after.cursor_of(q, c) == before.cursor_of(q, c)
    &&& forall|q: Seq<char>, c: Seq<char>| #[trigger]
        after.overruns(q, c) == before.overruns(q, c)
}

/// One asker's name: the word by which two listeners are one side.
#[derive(Debug, PartialEq, Eq, Hash)]
pub struct Asker {
    name: String,
}

/// Why a value names no asker.
#[derive(Debug, PartialEq, Eq)]
pub enum AskerRefused {
    /// The value is not Unicode.
    NotUnicode {
        /// Where the value came from.
        from: String,
    },
    /// The value is blank.
    Blank {
        /// Where the value came from.
        from: String,
    },
}

impl AskerRefused {
    /// The refusal in words.
    pub fn message(&self) -> (r: String)
        ensures
            r@ == match *self {
                AskerRefused::NotUnicode { from } => from@
                    + " is set to a value this host cannot read as text; an asker is compared to other askers as one word, and two values that are not text read as the same word — set it to a name in Unicode, or leave it unset for a session that listens on its own"@,
                AskerRefused::Blank { from } => from@
                    + " is set to a blank value, which names no asker; leave it unset for a session that listens on its own, or set it to the one value every session of this asker carries"@,
            },
    {
        match self {
            AskerRefused::NotUnicode { from } => cat2(
                from.as_str(),
                " is set to a value this host cannot read as text; an asker is compared to other askers as one word, and two values that are not text read as the same word — set it to a name in Unicode, or leave it unset for a session that listens on its own",
            ),
            AskerRefused::Blank { from } => cat2(
                from.as_str(),
                " is set to a blank value, which names no asker; leave it unset for a session that listens on its own, or set it to the one value every session of this asker carries",
            ),
        }
    }
}

impl View for Asker {
    type V = Seq<char>;

    closed spec fn view(&self) -> Seq<char> {
        self.name@
    }
}

impl Asker {
    #[verifier::type_invariant]
    closed spec fn well_formed(&self) -> bool {
        !is_blank(self.name@)
    }

    /// The asker the bytes of a value name, where `from` says where it came
    /// from: refused where they are not Unicode, or blank.
    pub fn named(value: &Vec<u8>, from: &str) -> (r: Result<Self, AskerRefused>)
        ensures
            match r {
                Ok(asker) => encode_utf8(asker@) == value@ && !is_blank(asker@),
                Err(AskerRefused::NotUnicode { from: told }) => !valid_utf8(value@) && told@
                    == from@,
                Err(AskerRefused::Blank { from: told }) => valid_utf8(value@) && is_blank(
                    decode_utf8(value@),
                ) && told@ == from@,
            },
    {
        match utf8_text(value) {
            None => Err(AskerRefused::NotUnicode { from: from.to_owned() }),
            Some(text) => {
                proof {
                    encode_utf8_decode_utf8(text@);
                }
                Asker::new(text.as_str(), from)
            },
        }
    }

    /// The asker `text` names, where `from` says where it came from: refused
    /// where it is blank.
    pub fn new(text: &str, from: &str) -> (r: Result<Self, AskerRefused>)
        ensures
            match r {
                Ok(asker) => !is_blank(text@) && asker@ == text@,
                Err(AskerRefused::Blank { from: told }) => is_blank(text@) && told@ == from@,
                Err(_) => false,
            },
    {
        if blank(text) {
            return Err(AskerRefused::Blank { from: from.to_owned() });
        }
        Ok(Asker { name: text.to_owned() })
    }

    /// The name.
    pub fn as_str(&self) -> (r: &str)
        ensures
            r@ == self@,
            !is_blank(r@),
    {
        proof {
            use_type_invariant(self);
        }
        self.name.as_str()
    }
}

/// Every record held.
fn held_of(folded: &Folded) -> (r: Vec<Json>)
    ensures
        items_view(r@) == held_records(folded@),
{
    let mut out = copied_items(&folded.waiting);
    if let Some(pending) = &folded.pending {
        let ghost before = items_view(out@);
        out.push(pending.copied());
        proof {
            assert(items_view(out@) =~= before.push(pending@));
        }
    }
    out
}

/// Whether `ids` hold `id`.
fn has_id(ids: &Vec<u64>, id: u64) -> (r: bool)
    ensures
        r == ids@.contains(id),
{
    let mut i: usize = 0;
    while i < ids.len()
        invariant
            i <= ids@.len(),
            forall|k: int| 0 <= k < i ==> ids@[k] != id,
        decreases ids@.len() - i,
    {
        if ids[i] == id {
            proof {
                assert(ids@[i as int] == id);
            }
            return true;
        }
        i += 1;
    }
    false
}

/// What abandoning the records with one of `ids` records.
fn abandons_of(folded: &Folded, ids: &Vec<u64>) -> (r: Vec<(Event, Json)>)
    ensures
        events_view(r@) == abandons(folded@, ids@),
{
    let held = held_of(folded);
    let ghost all = held_records(folded@);
    let ghost kept = |r: JsonView|
        id_of(r) is Some && ids@.contains(id_of(r)->0) && !abandoned_is(r);
    let ghost mark = |r: JsonView| (Event::Abandoned, marked(r, true));
    let mut out: Vec<(Event, Json)> = Vec::new();
    let mut i: usize = 0;
    proof {
        assert(all.take(0).filter(kept) =~= Seq::<JsonView>::empty());
        assert(events_view(out@) =~= all.take(0).filter(kept).map_values(mark));
    }
    while i < held.len()
        invariant
            i <= held@.len(),
            all == items_view(held@),
            kept == (|r: JsonView|
                id_of(r) is Some && ids@.contains(id_of(r)->0) && !abandoned_is(r)),
            mark == (|r: JsonView| (Event::Abandoned, marked(r, true))),
            events_view(out@) == all.take(i as int).filter(kept).map_values(mark),
        decreases held@.len() - i,
    {
        let ghost before = events_view(out@);
        let ghost so_far = all.take(i as int).filter(kept);
        proof {
            assert(all.take(i + 1).drop_last() =~= all.take(i as int));
            assert(all.take(i + 1).last() == held@[i as int]@);
            reveal_with_fuel(Seq::filter, 2);
        }
        let named = match record_id(&held[i]) {
            Some(id) => has_id(ids, id),
            None => false,
        };
        if named && !is_abandoned(&held[i]) {
            out.push((Event::Abandoned, with_abandoned(&held[i], true)));
            proof {
                assert(events_view(out@) =~= before.push(mark(held@[i as int]@)));
                assert(so_far.push(held@[i as int]@).map_values(mark) =~= so_far.map_values(
                    mark,
                ).push(mark(held@[i as int]@)));
            }
        }
        i += 1;
    }
    proof {
        assert(all.take(i as int) =~= all);
    }
    out
}

/// What attending to the records an asker raised records.
fn attends_of(folded: &Folded, asker: &str) -> (r: Vec<(Event, Json)>)
    ensures
        events_view(r@) == attends(folded@, asker@),
{
    let held = held_of(folded);
    let ghost all = held_records(folded@);
    let ghost kept = |r: JsonView| abandoned_is(r) && asker_is(r) == Some(asker@);
    let ghost mark = |r: JsonView| (Event::Attended, marked(r, false));
    let mut out: Vec<(Event, Json)> = Vec::new();
    let mut i: usize = 0;
    proof {
        assert(all.take(0).filter(kept) =~= Seq::<JsonView>::empty());
        assert(events_view(out@) =~= all.take(0).filter(kept).map_values(mark));
    }
    while i < held.len()
        invariant
            i <= held@.len(),
            all == items_view(held@),
            kept == (|r: JsonView| abandoned_is(r) && asker_is(r) == Some(asker@)),
            mark == (|r: JsonView| (Event::Attended, marked(r, false))),
            events_view(out@) == all.take(i as int).filter(kept).map_values(mark),
        decreases held@.len() - i,
    {
        let ghost before = events_view(out@);
        let ghost so_far = all.take(i as int).filter(kept);
        proof {
            assert(all.take(i + 1).drop_last() =~= all.take(i as int));
            assert(all.take(i + 1).last() == held@[i as int]@);
            reveal_with_fuel(Seq::filter, 2);
        }
        let raised = match asker_of(&held[i]) {
            Some(name) => same_text(name, asker),
            None => false,
        };
        if is_abandoned(&held[i]) && raised {
            out.push((Event::Attended, with_abandoned(&held[i], false)));
            proof {
                assert(events_view(out@) =~= before.push(mark(held@[i as int]@)));
                assert(so_far.push(held@[i as int]@).map_values(mark) =~= so_far.map_values(
                    mark,
                ).push(mark(held@[i as int]@)));
            }
        }
        i += 1;
    }
    proof {
        assert(all.take(i as int) =~= all);
    }
    out
}

/// How many of `waiting` somebody is still owed a reading of.
pub fn unread_in(waiting: &Vec<Json>) -> (r: usize)
    ensures
        r == unread(items_view(waiting@)),
{
    let ghost all = items_view(waiting@);
    let ghost kept = |r: JsonView| !abandoned_is(r);
    let mut count: usize = 0;
    let mut i: usize = 0;
    proof {
        assert(all.take(0).filter(kept) =~= Seq::<JsonView>::empty());
    }
    while i < waiting.len()
        invariant
            i <= waiting@.len(),
            all == items_view(waiting@),
            kept == (|r: JsonView| !abandoned_is(r)),
            count == all.take(i as int).filter(kept).len(),
            count <= i,
        decreases waiting@.len() - i,
    {
        proof {
            assert(all.take(i + 1).drop_last() =~= all.take(i as int));
            assert(all.take(i + 1).last() == waiting@[i as int]@);
            reveal_with_fuel(Seq::filter, 2);
        }
        if !is_abandoned(&waiting[i]) {
            count += 1;
        }
        i += 1;
    }
    proof {
        assert(all.take(i as int) =~= all);
    }
    count
}

/// What the log of an event queue says of one record.
#[derive(Debug)]
pub struct Account {
    /// The position after its last claim.
    pub claimed: Option<Position>,
    /// Whether it is marked abandoned.
    pub abandoned: bool,
    /// The record as it was first queued.
    pub queued: Option<Json>,
}

/// The position an optional one is.
pub open spec fn position_of(position: Option<Position>) -> Option<int> {
    match position {
        Some(position) => Some(position@ as int),
        None => None,
    }
}

/// What records say of the one with `id`.
fn account_of(records: &Vec<Stored>, id: u64) -> (r: Account)
    ensures
        position_of(r.claimed) == last_claim(stored_view(records@), id),
        r.abandoned == is_marked(stored_view(records@), id),
        optional_view(r.queued) == queued_as(stored_view(records@), id),
{
    let ghost log = stored_view(records@);
    let mut account = Account { claimed: None, abandoned: false, queued: None };
    let mut i: usize = 0;
    proof {
        assert(log.take(0) =~= Seq::<(Seq<u8>, int)>::empty());
    }
    while i < records.len()
        invariant
            i <= records@.len(),
            log == stored_view(records@),
            position_of(account.claimed) == last_claim(log.take(i as int), id),
            account.abandoned == is_marked(log.take(i as int), id),
            optional_view(account.queued) == queued_as(log.take(i as int), id),
        decreases records@.len() - i,
    {
        proof {
            assert(log.take(i + 1).drop_last() =~= log.take(i as int));
            assert(log.take(i + 1).last() == (
                records@[i as int].bytes@,
                records@[i as int].after@ as int,
            ));
        }
        if let Some((event, record)) = parse_line(&records[i].bytes) {
            if record_id(&record) == Some(id) {
                match event {
                    Some(Event::Abandoned) => {
                        account.abandoned = true;
                    },
                    Some(Event::Attended) => {
                        account.abandoned = false;
                    },
                    Some(Event::Claimed) => {
                        account.claimed = Some(records[i].after);
                    },
                    Some(Event::Answered) => {},
                    _ => {
                        account.abandoned = is_abandoned(&record);
                        if account.queued.is_none() {
                            account.queued = Some(record);
                        }
                    },
                }
            }
        }
        i += 1;
    }
    proof {
        assert(log.take(i as int) =~= log);
    }
    account
}

/// Where a record was claimed, as its queue's log says: the position after its last
/// claim, or the start where the log holds none.
pub open spec fn last_claimed(log: Seq<(Seq<u8>, int)>, record: JsonView) -> int {
    match id_of(record) {
        Some(id) => match last_claim(log, id) {
            Some(at) => at,
            None => 0,
        },
        None => 0,
    }
}

/// Whether `position` is where the pending record was claimed: where its queue's log
/// says, or the start where the log could not be read.
pub open spec fn claimed_at<T: Transport>(
    transport: T,
    queue: Seq<char>,
    record: JsonView,
    position: int,
) -> bool {
    ||| position == last_claimed(transport.log(queue), record)
    ||| !transport.reliable() && position == 0
}

/// What reading an event queue leaves: its projection document repaired where the log
/// had grown past it, and everything else as it was. What a transport that does not do
/// all it is asked makes of the repair is left open.
pub open spec fn repaired<T: Transport>(spec: QueueSpecView, before: T, after: T) -> bool {
    &&& only_documents(before, after)
    &&& forall|q: Seq<char>, n: Seq<char>|
        spec.policy.projection != Some(n) ==> #[trigger] after.document_of(q, n)
            == before.document_of(q, n)
    &&& before.reliable() ==> match spec.policy.projection {
        Some(name) => {
            let document = projection_document(spec, before);
            if has_grown(spec, before, document) {
                after.document_of(spec.name, name) == Some(
                    projection_bytes(current_with(spec, before, document)),
                )
            } else {
                after == before
            }
        },
        None => after == before,
    }
}

/// What reading a queue leaves: nothing changed on a plain one.
pub open spec fn reading_leaves<T: Transport>(spec: QueueSpecView, before: T, after: T) -> bool {
    if is_event_policy(spec.policy) {
        repaired(spec, before, after)
    } else {
        after == before
    }
}

impl RawQueue {
    /// The event queue as it stands, its projection repaired where the log had
    /// grown past it. A repair that fails is not what this reports.
    pub fn snapshot<T: Transport>(&self, transport: &mut T) -> (r: Result<Folded, QueueError>)
        requires
            old(transport).sound(),
        ensures
            final(transport).sound(),
            final(transport).reliable() == old(transport).reliable(),
            repaired(self.spec@, *old(transport), *final(transport)),
            match r {
                Ok(folded) => stands_as(self.spec@, *old(transport), projection_of(folded)),
                Err(QueueError::Transport(_)) => !old(transport).reliable() && *final(transport)
                    == *old(transport),
                Err(_) => false,
            },
    {
        let (folded, grown) = match self.current(&*transport) {
            Ok(current) => current,
            Err(failure) => {
                return Err(failure);
            },
        };
        self.repair(transport, &folded, grown);
        Ok(folded)
    }

    /// Writes the projection of the queue as it stands, where the log had grown past
    /// what was written.
    pub(crate) fn repair<T: Transport>(&self, transport: &mut T, folded: &Folded, grown: bool)
        requires
            old(transport).sound(),
            stands_as(self.spec@, *old(transport), projection_of(*folded)),
            grows_as(self.spec@, *old(transport), grown),
        ensures
            final(transport).sound(),
            final(transport).reliable() == old(transport).reliable(),
            repaired(self.spec@, *old(transport), *final(transport)),
    {
        if grown {
            if let Some(name) = &self.spec.policy.projection {
                let document = folded.render();
                let _ = transport.replace_document(&self.spec.name, name, &document);
            }
        }
    }

    /// Whatever the pending slot holds of a queue that stands as `folded`, with where it
    /// was claimed.
    pub(crate) fn slot_of<T: Transport>(&self, transport: &T, folded: &Folded) -> (r: Option<Claimed<Json>>)
        requires
            transport.sound(),
        ensures
            slot_is(self.spec@, *transport, projection_of(*folded), r),
    {
        match &folded.pending {
            None => None,
            Some(record) => {
                let id = record_id(record);
                let mut position = Position::from_token(0);
                if let Some(id) = id {
                    if let Ok(account) = self.account(transport, id) {
                        if let Some(claimed) = account.claimed {
                            position = claimed;
                        }
                    }
                }
                Some(Claimed { record: record.copied(), position, id })
            },
        }
    }

    /// The record a slot holds, refused unless it was claimed at `position`.
    pub(crate) fn held_at(&self, slot: Option<Claimed<Json>>, position: Position) -> (r: Result<
        Claimed<Json>,
        QueueError,
    >)
        ensures
            match r {
                Ok(held) => slot == Some(held) && held.position@ == position@,
                Err(e) => refuses_slot(e, self.spec@.name, slot, position),
            },
    {
        match slot {
            None => Err(
                QueueError::NotPending {
                    queue: self.spec.name.clone(),
                    why: "nothing is pending, so there is nothing to answer".to_owned(),
                },
            ),
            Some(held) => {
                if held.position.token() == position.token() {
                    return Ok(held);
                }
                let there = held.position.to_text();
                let asked = position.to_text();
                Err(
                    QueueError::NotPending {
                        queue: self.spec.name.clone(),
                        why: cat4(
                            "the pending record was claimed at position ",
                            there.as_str(),
                            ", not ",
                            asked.as_str(),
                        ),
                    },
                )
            },
        }
    }

    /// What the log says of the record with `id`.
    pub fn account<T: Transport>(&self, transport: &T, id: u64) -> (r: Result<
        Account,
        QueueError,
    >)
        requires
            transport.sound(),
        ensures
            match r {
                Ok(account) => {
                    let log = transport.log(self.spec@.name);
                    &&& position_of(account.claimed) == last_claim(log, id)
                    &&& account.abandoned == is_marked(log, id)
                    &&& optional_view(account.queued) == queued_as(log, id)
                },
                Err(QueueError::Transport(_)) => !transport.reliable(),
                Err(_) => false,
            },
    {
        let queue = &self.spec.name;
        proof {
            transport.positions_are_ordered(queue@);
            lemma_filter_all(transport.log(queue@), |e: (Seq<u8>, int)| e.1 > 0);
        }
        match transport.read(queue, None, usize::MAX) {
            Ok(batch) => Ok(account_of(&batch.records, id)),
            Err(failure) => Err(QueueError::Transport(failure)),
        }
    }

    /// Refuses a position no record on the queue's `answers` queue ends at.
    pub fn reply_at<T: Transport>(&self, transport: &T, reply_position: Position) -> (r: Result<
        (),
        QueueError,
    >)
        requires
            transport.sound(),
        ensures
            match r {
                Ok(()) => self.spec@.answers is Some && ends_at(
                    transport.log(self.spec@.answers->0),
                    reply_position@ as int,
                ),
                Err(QueueError::Transport(_)) => !transport.reliable() && self.spec@.answers is Some,
                Err(e) => match self.spec@.answers {
                    None => is_no_reply(
                        e,
                        self.spec@.name,
                        "it declares no answers queue for a reply to be on; answer_pending releases its slot"@,
                    ),
                    Some(answers) => !ends_at(transport.log(answers), reply_position@ as int)
                        && is_no_reply(
                        e,
                        self.spec@.name,
                        "no reply on "@ + answers + " ends at position "@ + decimal(
                            reply_position@ as nat,
                        ) + "; append the reply before answering with it"@,
                    ),
                },
            },
    {
        let answers = match &self.spec.answers {
            Some(answers) => answers,
            None => {
                return Err(
                    QueueError::NoReply {
                        queue: self.spec.name.clone(),
                        why: "it declares no answers queue for a reply to be on; answer_pending releases its slot".to_owned(),
                    },
                );
            },
        };
        proof {
            transport.positions_are_ordered(answers@);
            lemma_filter_all(transport.log(answers@), |e: (Seq<u8>, int)| e.1 > 0);
        }
        let batch = match transport.read(answers, None, usize::MAX) {
            Ok(batch) => batch,
            Err(failure) => {
                return Err(QueueError::Transport(failure));
            },
        };
        let ghost log = transport.log(answers@);
        let mut i: usize = 0;
        while i < batch.records.len()
            invariant
                i <= batch.records@.len(),
                log == stored_view(batch.records@),
                log == transport.log(answers@),
                self.spec@.answers == Some(answers@),
                forall|k: int| 0 <= k < i ==> (#[trigger] log[k]).1 != reply_position@ as int,
            decreases batch.records@.len() - i,
        {
            if batch.records[i].after.token() == reply_position.token() {
                proof {
                    assert(log[i as int].1 == reply_position@ as int);
                }
                return Ok(());
            }
            i += 1;
        }
        let position = reply_position.to_text();
        Err(
            QueueError::NoReply {
                queue: self.spec.name.clone(),
                why: cat5(
                    "no reply on ",
                    answers.as_str(),
                    " ends at position ",
                    position.as_str(),
                    "; append the reply before answering with it",
                ),
            },
        )
    }

    /// Releases the pending slot the record `id` holds, recording that the reply
    /// at `reply_position` answered it. Answers whether the slot held it; nothing
    /// is appended where it did not.
    pub fn answer<T: Transport>(
        &self,
        transport: &mut T,
        id: Option<u64>,
        reply_position: Position,
    ) -> (r: Result<bool, QueueError>)
        requires
            old(transport).sound(),
        ensures
            final(transport).sound(),
            final(transport).reliable() == old(transport).reliable(),
            match r {
                Ok(answered) => {
                    &&& is_event_policy(self.spec@.policy)
                    &&& self.spec@.answers is Some
                    &&& ends_at(
                        old(transport).log(self.spec@.answers->0),
                        reply_position@ as int,
                    )
                    &&& was_answered(
                        self.spec@,
                        *old(transport),
                        *final(transport),
                        id,
                        answered,
                    )
                },
                Err(QueueError::NotAnEventQueue { .. }) => !is_event_policy(self.spec@.policy)
                    && *final(transport) == *old(transport),
                Err(QueueError::NoReply { .. }) => is_event_policy(self.spec@.policy)
                    && *final(transport) == *old(transport) && (self.spec@.answers is None
                    || !ends_at(
                    old(transport).log(self.spec@.answers->0),
                    reply_position@ as int,
                )),
                Err(QueueError::Transport(_)) => !old(transport).reliable(),
                Err(_) => false,
            },
    {
        if let Err(e) = self.event_queue("pending slot to answer") {
            return Err(e);
        }
        let ghost before = *old(transport);
        if let Err(e) = self.reply_at(&*transport, reply_position) {
            return Err(e);
        }
        self.release(transport, id)
    }

    /// Releases the pending slot the record `id` holds.
    fn release<T: Transport>(&self, transport: &mut T, id: Option<u64>) -> (r: Result<
        bool,
        QueueError,
    >)
        requires
            old(transport).sound(),
        ensures
            final(transport).sound(),
            final(transport).reliable() == old(transport).reliable(),
            match r {
                Ok(answered) => was_answered(
                    self.spec@,
                    *old(transport),
                    *final(transport),
                    id,
                    answered,
                ),
                Err(QueueError::Transport(_)) => !old(transport).reliable(),
                Err(_) => false,
            },
    {
        let (folded, _) = match self.current(&*transport) {
            Ok(current) => current,
            Err(failure) => {
                return Err(failure);
            },
        };
        self.release_from(transport, folded, id)
    }

    /// Releases the pending slot the record `id` holds, of a queue that stands as
    /// `folded`.
    pub(crate) fn release_from<T: Transport>(
        &self,
        transport: &mut T,
        folded: Folded,
        id: Option<u64>,
    ) -> (r: Result<bool, QueueError>)
        requires
            old(transport).sound(),
            folded.accounted is Some,
            stands_as(self.spec@, *old(transport), projection_of(folded)),
        ensures
            final(transport).sound(),
            final(transport).reliable() == old(transport).reliable(),
            match r {
                Ok(answered) => answers_slot(
                    self.spec@,
                    *old(transport),
                    *final(transport),
                    projection_of(folded),
                    id,
                    answered,
                ) && (answered ==> id is Some),
                Err(QueueError::Transport(_)) => !old(transport).reliable(),
                Err(_) => false,
            },
    {
        let ghost before = *old(transport);
        let ghost state = projection_of(folded);
        let mut events: Vec<(Event, Json)> = Vec::new();
        let mut answered = false;
        if let Some(held) = &folded.pending {
            if id.is_some() && record_id(held) == id {
                events.push((Event::Answered, held.copied()));
                answered = true;
            }
        }
        proof {
            if answered {
                assert(events_view(events@) =~= seq![(Event::Answered, state.folded.pending->0)]);
            } else {
                assert(events_view(events@) =~= Seq::<(Event, JsonView)>::empty());
            }
        }
        match self.record(transport, folded, events) {
            Ok(recorded) => {
                proof {
                    assert(records_events(
                        self.spec@,
                        before,
                        *transport,
                        state,
                        events_view(events@),
                        positions_of(recorded@),
                    ));
                }
                if answered {
                    assert(answers_slot(self.spec@, before, *transport, state, id, true));
                    Ok(true)
                } else {
                    assert(answers_slot(self.spec@, before, *transport, state, id, false));
                    Ok(false)
                }
            },
            Err(failure) => Err(failure),
        }
    }

    /// Releases whatever the pending slot holds, abandoned or not, and hands it
    /// back.
    pub fn answer_pending<T: Transport>(&self, transport: &mut T) -> (r: Result<
        Option<Json>,
        QueueError,
    >)
        requires
            old(transport).sound(),
        ensures
            final(transport).sound(),
            final(transport).reliable() == old(transport).reliable(),
            match r {
                Ok(released) => {
                    &&& is_event_policy(self.spec@.policy)
                    &&& exists|state: ProjectionView|
                        stands_as(self.spec@, *old(transport), state) && #[trigger] answers_slot(
                            self.spec@,
                            *old(transport),
                            *final(transport),
                            state,
                            slot_id(state),
                            released is Some,
                        ) && optional_view(released) == state.folded.pending
                },
                Err(QueueError::NotAnEventQueue { .. }) => !is_event_policy(self.spec@.policy)
                    && *final(transport) == *old(transport),
                Err(QueueError::Transport(_)) => !old(transport).reliable(),
                Err(_) => false,
            },
    {
        if let Err(e) = self.event_queue("pending slot to answer") {
            return Err(e);
        }
        let ghost before = *old(transport);
        let (folded, _) = match self.current(&*transport) {
            Ok(current) => current,
            Err(failure) => {
                return Err(failure);
            },
        };
        let ghost state = projection_of(folded);
        assert(stands_as(self.spec@, before, state));
        let mut events: Vec<(Event, Json)> = Vec::new();
        let released = copied_option(&folded.pending);
        if let Some(held) = &folded.pending {
            events.push((Event::Answered, held.copied()));
        }
        proof {
            if released is Some {
                assert(events_view(events@) =~= seq![(Event::Answered, state.folded.pending->0)]);
            } else {
                assert(events_view(events@) =~= Seq::<(Event, JsonView)>::empty());
            }
        }
        match self.record(transport, folded, events) {
            Ok(recorded) => {
                proof {
                    assert(records_events(
                        self.spec@,
                        before,
                        *transport,
                        state,
                        events_view(events@),
                        positions_of(recorded@),
                    ));
                    assert(answers_slot(
                        self.spec@,
                        before,
                        *transport,
                        state,
                        slot_id(state),
                        released is Some,
                    ));
                }
                Ok(released)
            },
            Err(failure) => Err(failure),
        }
    }

    /// Whatever the pending slot holds, abandoned or not, with where it was
    /// claimed. Nothing on a plain queue, which has no slot.
    pub fn held<T: Transport>(&self, transport: &mut T) -> (r: Result<
        Option<Claimed<Json>>,
        QueueError,
    >)
        requires
            old(transport).sound(),
        ensures
            final(transport).sound(),
            final(transport).reliable() == old(transport).reliable(),
            reading_leaves(self.spec@, *old(transport), *final(transport)),
            match r {
                Ok(claimed) => holds_slot(self.spec@, *old(transport), claimed),
                Err(QueueError::Transport(_)) => !old(transport).reliable(),
                Err(_) => false,
            },
    {
        if !self.spec.policy.keeps_events() {
            return Ok(None);
        }
        let ghost before = *old(transport);
        let folded = match self.snapshot(transport) {
            Ok(folded) => folded,
            Err(failure) => {
                return Err(failure);
            },
        };
        let ghost state = projection_of(folded);
        assert(stands_as(self.spec@, before, state));
        let slot = self.slot_of(&*transport, &folded);
        proof {
            assert(transport.log(self.spec@.name) == before.log(self.spec@.name));
        }
        Ok(slot)
    }

    /// The record the pending slot holds, where somebody still listens for its
    /// answer.
    pub fn pending<T: Transport>(&self, transport: &mut T) -> (r: Result<
        Option<Claimed<Json>>,
        QueueError,
    >)
        requires
            old(transport).sound(),
        ensures
            final(transport).sound(),
            final(transport).reliable() == old(transport).reliable(),
            reading_leaves(self.spec@, *old(transport), *final(transport)),
            match r {
                Ok(Some(claimed)) => holds_slot(self.spec@, *old(transport), Some(claimed))
                    && !abandoned_is(claimed.record@),
                Ok(None) => exists|claimed: Option<Claimed<Json>>| #[trigger]
                    holds_slot(self.spec@, *old(transport), claimed) && (claimed is Some
                        ==> abandoned_is(claimed->0.record@)),
                Err(QueueError::Transport(_)) => !old(transport).reliable(),
                Err(_) => false,
            },
    {
        match self.held(transport) {
            Err(failure) => Err(failure),
            Ok(None) => {
                let none: Option<Claimed<Json>> = None;
                assert(holds_slot(self.spec@, *old(transport), none));
                Ok(None)
            },
            Ok(Some(claimed)) => {
                if is_abandoned(&claimed.record) {
                    assert(holds_slot(self.spec@, *old(transport), Some(claimed)));
                    Ok(None)
                } else {
                    Ok(Some(claimed))
                }
            },
        }
    }

    /// The pending record, refused unless it was claimed at `position`.
    pub fn pending_at<T: Transport>(&self, transport: &mut T, position: Position) -> (r: Result<
        Claimed<Json>,
        QueueError,
    >)
        requires
            old(transport).sound(),
        ensures
            final(transport).sound(),
            final(transport).reliable() == old(transport).reliable(),
            pending_outcome(*self, position, *old(transport), *final(transport), r),
    {
        if let Err(e) = self.event_queue("pending slot to answer") {
            return Err(e);
        }
        let slot = match self.held(transport) {
            Ok(slot) => slot,
            Err(failure) => return Err(failure),
        };
        assert(holds_slot(self.spec@, *old(transport), slot));
        self.held_at(slot, position)
    }

    /// The records waiting to be claimed, oldest first: on an event queue every
    /// one, abandoned ones among them; on a plain queue those after the default
    /// consumer's cursor that a claim would hand out.
    pub fn waiting<T: Transport>(&self, transport: &mut T) -> (r: Result<Vec<Json>, QueueError>)
        requires
            old(transport).sound(),
        ensures
            final(transport).sound(),
            final(transport).reliable() == old(transport).reliable(),
            reading_leaves(self.spec@, *old(transport), *final(transport)),
            match r {
                Ok(waiting) => if is_event_policy(self.spec@.policy) {
                    exists|state: ProjectionView| #[trigger]
                        stands_as(self.spec@, *old(transport), state) && items_view(waiting@)
                            == state.folded.waiting
                } else {
                    items_view(waiting@) == claimable(
                        self.spec@.claims,
                        unread_of(*old(transport), self.spec@.name, DEFAULT_CONSUMER@),
                    )
                },
                Err(QueueError::Transport(_)) => !old(transport).reliable(),
                Err(_) => false,
            },
    {
        if self.spec.policy.keeps_events() {
            match self.snapshot(transport) {
                Ok(folded) => {
                    assert(stands_as(self.spec@, *old(transport), projection_of(folded)));
                    Ok(folded.waiting)
                },
                Err(failure) => Err(failure),
            }
        } else {
            match self.plain_after(&*transport, &ConsumerName::default_consumer()) {
                Ok(entries) => Ok(claimable_of(&self.spec.claims, &entries)),
                Err(failure) => Err(failure),
            }
        }
    }

    /// How many waiting records somebody is still owed a reading of.
    pub fn unread_count<T: Transport>(&self, transport: &mut T) -> (r: Result<usize, QueueError>)
        requires
            old(transport).sound(),
        ensures
            final(transport).sound(),
            final(transport).reliable() == old(transport).reliable(),
            reading_leaves(self.spec@, *old(transport), *final(transport)),
            match r {
                Ok(count) => if is_event_policy(self.spec@.policy) {
                    exists|state: ProjectionView| #[trigger]
                        stands_as(self.spec@, *old(transport), state) && count == unread(
                            state.folded.waiting,
                        )
                } else {
                    count == unread(
                        claimable(
                            self.spec@.claims,
                            unread_of(*old(transport), self.spec@.name, DEFAULT_CONSUMER@),
                        ),
                    )
                },
                Err(QueueError::Transport(_)) => !old(transport).reliable(),
                Err(_) => false,
            },
    {
        match self.waiting(transport) {
            Ok(waiting) => Ok(unread_in(&waiting)),
            Err(failure) => Err(failure),
        }
    }

    /// Records events decided from the queue as it stands.
    fn mark_held<T: Transport>(
        &self,
        transport: &mut T,
        folded: Folded,
        events: Vec<(Event, Json)>,
    ) -> (r: Result<Vec<Json>, QueueError>)
        requires
            old(transport).sound(),
            folded.accounted is Some,
        ensures
            final(transport).sound(),
            final(transport).reliable() == old(transport).reliable(),
            match r {
                Ok(records) => {
                    &&& records@.len() == events@.len()
                    &&& forall|i: int|
                        0 <= i < records@.len() ==> (#[trigger] records@[i])@ == events@[i].1@
                    &&& exists|positions: Seq<int>| #[trigger]
                        records_events(
                            self.spec@,
                            *old(transport),
                            *final(transport),
                            projection_of(folded),
                            events_view(events@),
                            positions,
                        )
                },
                Err(QueueError::Transport(_)) => !old(transport).reliable(),
                Err(_) => false,
            },
    {
        let ghost state = projection_of(folded);
        let recorded = match self.record(transport, folded, events) {
            Ok(recorded) => recorded,
            Err(failure) => {
                return Err(failure);
            },
        };
        let mut out: Vec<Json> = Vec::new();
        let mut i: usize = 0;
        while i < recorded.len()
            invariant
                i <= recorded@.len(),
                out@.len() == i,
                forall|k: int| 0 <= k < i ==> (#[trigger] out@[k])@ == recorded@[k].0@,
            decreases recorded@.len() - i,
        {
            out.push(recorded[i].0.copied());
            i += 1;
        }
        proof {
            assert(records_events(
                self.spec@,
                *old(transport),
                *transport,
                state,
                events_view(events@),
                positions_of(recorded@),
            ));
        }
        Ok(out)
    }

    /// Marks every held record whose id is in `ids` as abandoned, and hands back
    /// what was marked. Marked, never removed, and never twice.
    pub fn abandon<T: Transport>(&self, transport: &mut T, ids: &Vec<u64>) -> (r: Result<
        Vec<Json>,
        QueueError,
    >)
        requires
            old(transport).sound(),
        ensures
            final(transport).sound(),
            final(transport).reliable() == old(transport).reliable(),
            match r {
                Ok(records) => is_event_policy(self.spec@.policy) && exists|
                    state: ProjectionView,
                    positions: Seq<int>,
                |
                    stands_as(self.spec@, *old(transport), state) && #[trigger] records_events(
                        self.spec@,
                        *old(transport),
                        *final(transport),
                        state,
                        abandons(state.folded, ids@),
                        positions,
                    ) && marks_of(abandons(state.folded, ids@), records@),
                Err(QueueError::NotAnEventQueue { .. }) => !is_event_policy(self.spec@.policy)
                    && *final(transport) == *old(transport),
                Err(QueueError::Transport(_)) => !old(transport).reliable(),
                Err(_) => false,
            },
    {
        if let Err(e) = self.event_queue("abandoned records") {
            return Err(e);
        }
        let ghost before = *old(transport);
        let (folded, _) = match self.current(&*transport) {
            Ok(current) => current,
            Err(failure) => {
                return Err(failure);
            },
        };
        assert(stands_as(self.spec@, before, projection_of(folded)));
        let events = abandons_of(&folded, ids);
        let ghost marks = events_view(events@);
        match self.mark_held(transport, folded, events) {
            Ok(records) => {
                assert(marks_of(marks, records@));
                Ok(records)
            },
            Err(failure) => Err(failure),
        }
    }

    /// Takes back over every abandoned record `asker` raised, and hands back what
    /// was taken: a record another asker raised, or one naming none, is taken by
    /// nobody.
    pub fn attend<T: Transport>(&self, transport: &mut T, asker: &Asker) -> (r: Result<
        Vec<Json>,
        QueueError,
    >)
        requires
            old(transport).sound(),
        ensures
            final(transport).sound(),
            final(transport).reliable() == old(transport).reliable(),
            match r {
                Ok(records) => is_event_policy(self.spec@.policy) && exists|
                    state: ProjectionView,
                    positions: Seq<int>,
                |
                    stands_as(self.spec@, *old(transport), state) && #[trigger] records_events(
                        self.spec@,
                        *old(transport),
                        *final(transport),
                        state,
                        attends(state.folded, asker@),
                        positions,
                    ) && marks_of(attends(state.folded, asker@), records@),
                Err(QueueError::NotAnEventQueue { .. }) => !is_event_policy(self.spec@.policy)
                    && *final(transport) == *old(transport),
                Err(QueueError::Transport(_)) => !old(transport).reliable(),
                Err(_) => false,
            },
    {
        if let Err(e) = self.event_queue("abandoned records") {
            return Err(e);
        }
        let ghost before = *old(transport);
        let (folded, _) = match self.current(&*transport) {
            Ok(current) => current,
            Err(failure) => {
                return Err(failure);
            },
        };
        assert(stands_as(self.spec@, before, projection_of(folded)));
        let events = attends_of(&folded, asker.as_str());
        let ghost marks = events_view(events@);
        match self.mark_held(transport, folded, events) {
            Ok(records) => {
                assert(marks_of(marks, records@));
                Ok(records)
            },
            Err(failure) => Err(failure),
        }
    }

    /// Marks the record `id` abandoned, or attended again, whether or not the
    /// fold still holds it, and answers whether a mark was recorded: none is
    /// where the record already stands so, or the log never queued it.
    pub fn mark<T: Transport>(&self, transport: &mut T, id: u64, abandoned: bool) -> (r: Result<
        bool,
        QueueError,
    >)
        requires
            old(transport).sound(),
        ensures
            final(transport).sound(),
            final(transport).reliable() == old(transport).reliable(),
            match r {
                Ok(false) => {
                    let log = old(transport).log(self.spec@.name);
                    &&& is_event_policy(self.spec@.policy)
                    &&& *final(transport) == *old(transport)
                    &&& is_marked(log, id) == abandoned || queued_as(log, id) is None
                },
                Ok(true) => {
                    let log = old(transport).log(self.spec@.name);
                    &&& is_event_policy(self.spec@.policy)
                    &&& is_marked(log, id) != abandoned
                    &&& queued_as(log, id) is Some
                    &&& exists|state: ProjectionView, positions: Seq<int>|
                        stands_as(self.spec@, *old(transport), state)
                            && #[trigger] records_events(
                            self.spec@,
                            *old(transport),
                            *final(transport),
                            state,
                            remarks(state.folded, id, queued_as(log, id)->0, abandoned),
                            positions,
                        )
                },
                Err(QueueError::NotAnEventQueue { .. }) => !is_event_policy(self.spec@.policy)
                    && *final(transport) == *old(transport),
                Err(QueueError::Transport(_)) => !old(transport).reliable(),
                Err(_) => false,
            },
    {
        if let Err(e) = self.event_queue("abandoned records") {
            return Err(e);
        }
        let ghost before = *old(transport);
        let account = match self.account(&*transport, id) {
            Ok(account) => account,
            Err(failure) => {
                return Err(failure);
            },
        };
        if account.abandoned == abandoned {
            return Ok(false);
        }
        let logged_as = match account.queued {
            Some(record) => record,
            None => {
                return Ok(false);
            },
        };
        let (folded, _) = match self.current(&*transport) {
            Ok(current) => current,
            Err(failure) => {
                return Err(failure);
            },
        };
        let ghost state = projection_of(folded);
        assert(stands_as(self.spec@, before, state));
        let held = held_of(&folded);
        let ghost first = logged_as@;
        let record = first_with(&held, id, logged_as);
        let event = if abandoned {
            Event::Abandoned
        } else {
            Event::Attended
        };
        let mut events: Vec<(Event, Json)> = Vec::new();
        events.push((event, with_abandoned(&record, abandoned)));
        proof {
            assert(events_view(events@) =~= remarks(state.folded, id, first, abandoned));
        }
        match self.mark_held(transport, folded, events) {
            Ok(_) => {
                proof {
                    let positions = choose|p: Seq<int>| #[trigger]
                        records_events(
                            self.spec@,
                            before,
                            *transport,
                            state,
                            events_view(events@),
                            p,
                        );
                    let log = before.log(self.spec@.name);
                    assert(first == queued_as(log, id)->0);
                    assert(records_events(
                        self.spec@,
                        before,
                        *transport,
                        state,
                        remarks(state.folded, id, queued_as(log, id)->0, abandoned),
                        positions,
                    ));
                }
                Ok(true)
            },
            Err(failure) => Err(failure),
        }
    }
}

/// What marking the record `id`, logged as `other`, records.
pub open spec fn remarks(folded: FoldedView, id: u64, other: JsonView, abandoned: bool) -> Seq<
    (Event, JsonView),
> {
    let event = if abandoned {
        Event::Abandoned
    } else {
        Event::Attended
    };
    seq![(event, marked(held_or(folded, id, other), abandoned))]
}

/// The held record with `id`, or `other`.
pub open spec fn held_or(folded: FoldedView, id: u64, other: JsonView) -> JsonView {
    match waiting_at(held_records(folded), id) {
        Some(at) => held_records(folded)[at],
        None => other,
    }
}

/// The first of `held` with `id`, or `other`.
fn first_with(held: &Vec<Json>, id: u64, other: Json) -> (r: Json)
    ensures
        r@ == match waiting_at(items_view(held@), id) {
            Some(at) => items_view(held@)[at],
            None => other@,
        },
{
    let ghost all = items_view(held@);
    let mut i: usize = 0;
    proof {
        assert(all.skip(0) =~= all);
    }
    while i < held.len()
        invariant
            i <= held@.len(),
            all == items_view(held@),
            waiting_at(all, id) == match waiting_at(all.skip(i as int), id) {
                Some(at) => Some(at + i),
                None => None,
            },
        decreases held@.len() - i,
    {
        if record_id(&held[i]) == Some(id) {
            return held[i].copied();
        }
        proof {
            assert(all.skip(i as int).skip(1) =~= all.skip(i + 1));
        }
        i += 1;
    }
    other
}

/// Whether `records` are those several events are about.
pub open spec fn marks_of(events: Seq<(Event, JsonView)>, records: Seq<Json>) -> bool {
    &&& records.len() == events.len()
    &&& forall|i: int| 0 <= i < records.len() ==> (#[trigger] records[i])@ == events[i].1
}

/// The id of the record in the pending slot.
pub open spec fn slot_id(state: ProjectionView) -> Option<u64> {
    match state.folded.pending {
        Some(record) => id_of(record),
        None => None,
    }
}

/// What answering the record `id` did: released the slot, recording it, where it
/// held that record, and recorded nothing where it did not.
pub open spec fn answers_slot<T: Transport>(
    spec: QueueSpecView,
    before: T,
    after: T,
    state: ProjectionView,
    id: Option<u64>,
    answered: bool,
) -> bool {
    if answered {
        &&& state.folded.pending is Some
        &&& slot_id(state) == id
        &&& exists|positions: Seq<int>| #[trigger]
            records_events(
                spec,
                before,
                after,
                state,
                seq![(Event::Answered, state.folded.pending->0)],
                positions,
            )
    } else {
        &&& state.folded.pending is None || id is None || slot_id(state) != id
        &&& exists|positions: Seq<int>| #[trigger]
            records_events(
                spec,
                before,
                after,
                state,
                Seq::<(Event, JsonView)>::empty(),
                positions,
            )
    }
}

/// What answering the record `id` did to the queue as it stood.
pub open spec fn was_answered<T: Transport>(
    spec: QueueSpecView,
    before: T,
    after: T,
    id: Option<u64>,
    answered: bool,
) -> bool {
    exists|state: ProjectionView|
        stands_as(spec, before, state) && #[trigger] answers_slot(
            spec,
            before,
            after,
            state,
            id,
            answered,
        )
}

/// Whether `claimed` is what a queue's pending slot holds.
pub open spec fn holds_slot<T: Transport>(
    spec: QueueSpecView,
    transport: T,
    claimed: Option<Claimed<Json>>,
) -> bool {
    if !is_event_policy(spec.policy) {
        claimed is None
    } else {
        exists|state: ProjectionView| #[trigger]
            stands_as(spec, transport, state) && slot_is(spec, transport, state, claimed)
    }
}

/// Whether `claimed` is what the pending slot holds of a queue that stands as `state`.
pub open spec fn slot_is<T: Transport>(
    spec: QueueSpecView,
    transport: T,
    state: ProjectionView,
    claimed: Option<Claimed<Json>>,
) -> bool {
    match claimed {
        Some(claimed) => {
            &&& state.folded.pending == Some(claimed.record@)
            &&& claimed.id == id_of(claimed.record@)
            &&& claimed_at(transport, spec.name, claimed.record@, claimed.position@ as int)
        },
        None => state.folded.pending is None,
    }
}

/// The values of `entries` a claim would hand out.
pub open spec fn claimable(claims: Option<PredicateView>, entries: Seq<(JsonView, int)>) -> Seq<
    JsonView,
>
    decreases entries.len(),
{
    if entries.len() == 0 {
        Seq::empty()
    } else if admits(claims, entries.last().0) {
        claimable(claims, entries.drop_last()).push(entries.last().0)
    } else {
        claimable(claims, entries.drop_last())
    }
}

/// The values of `entries` a claim would hand out.
fn claimable_of(claims: &Option<Predicate>, entries: &Vec<(Json, Position)>) -> (r: Vec<Json>)
    ensures
        items_view(r@) == claimable(when_view(*claims), entries_of(entries@)),
{
    let ghost all = entries_of(entries@);
    let mut out: Vec<Json> = Vec::new();
    let mut i: usize = 0;
    proof {
        assert(all.take(0) =~= Seq::<(JsonView, int)>::empty());
        assert(items_view(out@) =~= Seq::<JsonView>::empty());
    }
    while i < entries.len()
        invariant
            i <= entries@.len(),
            all == entries_of(entries@),
            items_view(out@) == claimable(when_view(*claims), all.take(i as int)),
        decreases entries@.len() - i,
    {
        let ghost before = items_view(out@);
        proof {
            assert(all.take(i + 1).drop_last() =~= all.take(i as int));
            assert(all.take(i + 1).last() == (
                entries@[i as int].0@,
                entries@[i as int].1@ as int,
            ));
        }
        if admitted(claims, &entries[i].0) {
            out.push(entries[i].0.copied());
            proof {
                assert(items_view(out@) =~= before.push(entries@[i as int].0@));
            }
        }
        i += 1;
    }
    proof {
        assert(all.take(i as int) =~= all);
    }
    out
}

/// Whether `error` is that a slot does not hold a record claimed at `position`.
pub open spec fn refuses_slot(
    error: QueueError,
    queue: Seq<char>,
    slot: Option<Claimed<Json>>,
    position: Position,
) -> bool {
    match slot {
        None => is_not_pending(
            error,
            queue,
            "nothing is pending, so there is nothing to answer"@,
        ),
        Some(held) => held.position@ != position@ && is_not_pending(
            error,
            queue,
            "the pending record was claimed at position "@ + decimal(held.position@ as nat)
                + ", not "@ + decimal(position@ as nat),
        ),
    }
}

/// What comes of asking for the record a queue holds pending, claimed at `position`.
pub open spec fn pending_outcome<T: Transport>(
    queue: RawQueue,
    position: Position,
    before: T,
    after: T,
    outcome: Result<Claimed<Json>, QueueError>,
) -> bool {
    &&& reading_leaves(queue.spec@, before, after)
    &&& match outcome {
        Ok(claimed) => is_event_policy(queue.spec@.policy) && holds_slot(
            queue.spec@,
            before,
            Some(claimed),
        ) && claimed.position@ == position@,
        Err(QueueError::NotAnEventQueue { .. }) => !is_event_policy(queue.spec@.policy),
        Err(QueueError::Transport(_)) => !before.reliable(),
        Err(e) => exists|claimed: Option<Claimed<Json>>| #[trigger]
            holds_slot(queue.spec@, before, claimed) && refuses_slot(
                e,
                queue.spec@.name,
                claimed,
                position,
            ),
    }
}

} // verus!
