//! What is asked of a queue: to push, claim, answer, abandon and attend.

use crate::bytes::{lemma_line_is_record, text_bytes};
use crate::event_log::{bytes_read, read_bytes};
use crate::fold::{
    Event, abandoned_is, blocks, id_of, identified, is_abandoned, is_blocking, is_slot_held,
    record_id, shape_is, shape_word, with_id,
};
use crate::framing::{after_position, lemma_filter_all};
use crate::json::{Json, JsonView, items_view, text_of};
use crate::names::{ConsumerName, Position};
use crate::policy::{QueueSpecView, is_event_policy};
use crate::predicate::{admits, admitted};
use crate::projection::{ProjectionView, projection_of};
use crate::queue::{
    Claimed, Pushed, QueueError, RawQueue, events_view, lemma_filter_len, only_log_of,
    passes_schema, positions_of, records_events, refused_with, stands_as, unjudged_with,
};
use crate::schema::{SchemaIdView, held, is_violation, registry_error_words, unknown_words};
use crate::transport::{Stored, Transport, start_of, stored_view};
use crate::validate::Verdict;
use vstd::prelude::*;
use vstd::utf8::encode_utf8;

verus! {

/// Whether one line is all that was appended to a queue.
pub open spec fn appends_line<T: Transport>(
    spec: QueueSpecView,
    before: T,
    after: T,
    record: JsonView,
    position: int,
) -> bool {
    &&& after.log(spec.name) == before.log(spec.name).push(
        (encode_utf8(text_of(record)), position),
    )
    &&& only_log_of(before, after, spec.name)
    &&& forall|q: Seq<char>, n: Seq<char>| #[trigger]
        after.document_of(q, n) == before.document_of(q, n)
}

/// The record a push appends, on a queue that stands as `state`: the record with
/// the next id on an event queue, with the number of records before it on a
/// numbered one, and as it is on any other. Nothing for a record that is not an
/// object on a queue that gives ids.
pub open spec fn pushed_record<T: Transport>(
    spec: QueueSpecView,
    transport: T,
    state: ProjectionView,
    record: JsonView,
) -> Option<JsonView> {
    if is_event_policy(spec.policy) {
        identified(record, state.folded.next_id)
    } else if spec.numbered {
        identified(record, transport.log(spec.name).len() as u64)
    } else {
        Some(record)
    }
}

/// What a push that is done did.
pub open spec fn pushes<T: Transport>(
    spec: QueueSpecView,
    registry: Seq<(SchemaIdView, JsonView)>,
    before: T,
    after: T,
    state: ProjectionView,
    record: JsonView,
    pushed: Pushed<Json>,
) -> bool {
    &&& pushed_record(spec, before, state, record) == Some(pushed.record@)
    &&& passes_schema(spec, registry, pushed.record@)
    &&& pushed.id == id_of(pushed.record@)
    &&& if is_event_policy(spec.policy) {
        &&& state.folded.next_id < u64::MAX
        &&& records_events(
            spec,
            before,
            after,
            state,
            seq![(Event::Queued, pushed.record@)],
            seq![pushed.position@ as int],
        )
    } else {
        appends_line(spec, before, after, pushed.record@, pushed.position@ as int)
    }
}

/// Why a push refuses a record, on a queue that stands as `state`.
pub open spec fn push_refused<T: Transport>(
    spec: QueueSpecView,
    registry: Seq<(SchemaIdView, JsonView)>,
    before: T,
    state: ProjectionView,
    record: JsonView,
    error: QueueError,
) -> bool {
    record_refused(
        spec,
        registry,
        pushed_record(spec, before, state, record),
        state.folded.next_id,
        record,
        error,
    )
}

/// Why a queue refuses a record that it would append as `numbered`, the next id of an
/// event queue being `next_id`.
pub open spec fn record_refused(
    spec: QueueSpecView,
    registry: Seq<(SchemaIdView, JsonView)>,
    numbered: Option<JsonView>,
    next_id: u64,
    record: JsonView,
    error: QueueError,
) -> bool {
    match error {
        QueueError::NoIdLeft { queue, last } => {
            &&& queue@ == spec.name
            &&& is_event_policy(spec.policy)
            &&& next_id == u64::MAX
            &&& last == u64::MAX - 1
        },
        QueueError::NotAnObject { queue, shape } => {
            &&& queue@ == spec.name
            &&& numbered is None
            &&& shape@ == shape_is(record)
        },
        QueueError::Violation { queue, violation } => {
            &&& queue@ == spec.name
            &&& numbered is Some
            &&& !passes_schema(spec, registry, numbered->0)
            &&& spec.schema is Some
            &&& held(registry, spec.schema->0) is Some
            &&& is_violation(
                violation,
                spec.schema->0,
                held(registry, spec.schema->0)->0,
                numbered->0,
            )
        },
        QueueError::Unregistered { queue, refusal } => {
            &&& queue@ == spec.name
            &&& numbered is Some
            &&& spec.schema is Some
            &&& held(registry, spec.schema->0) is None
            &&& registry_error_words(refusal) == unknown_words(registry, spec.schema->0)
        },
        _ => false,
    }
}

impl RawQueue {
    /// Refuses a record that is not an object.
    pub(crate) fn not_an_object(&self, record: &Json) -> (r: QueueError)
        ensures
            match r {
                QueueError::NotAnObject { queue, shape } => queue@ == self.spec@.name && shape@
                    == shape_is(record@),
                _ => false,
            },
    {
        QueueError::NotAnObject {
            queue: self.spec.name.clone(),
            shape: shape_word(record).to_owned(),
        }
    }

    /// Validates a record, already judged, against the queue's schema, and
    /// appends it: with the next id on an event queue, with the number of records
    /// before it on a numbered one. Nothing is appended where it is refused.
    pub fn push_judged<T: Transport>(&self, transport: &mut T, record: &Json) -> (r: Result<
        Pushed<Json>,
        QueueError,
    >)
        requires
            old(transport).sound(),
        ensures
            final(transport).sound(),
            final(transport).reliable() == old(transport).reliable(),
            match r {
                Ok(pushed) => exists|state: ProjectionView|
                    (is_event_policy(self.spec@.policy) ==> stands_as(
                        self.spec@,
                        *old(transport),
                        state,
                    )) && #[trigger] pushes(
                        self.spec@,
                        self.registry@,
                        *old(transport),
                        *final(transport),
                        state,
                        record@,
                        pushed,
                    ),
                Err(QueueError::Transport(_)) => !old(transport).reliable(),
                Err(e) => {
                    &&& *final(transport) == *old(transport)
                    &&& exists|state: ProjectionView|
                        (is_event_policy(self.spec@.policy) ==> stands_as(
                            self.spec@,
                            *old(transport),
                            state,
                        )) && #[trigger] push_refused(
                            self.spec@,
                            self.registry@,
                            *old(transport),
                            state,
                            record@,
                            e,
                        )
                },
            },
    {
        if self.spec.policy.keeps_events() {
            self.push_event(transport, record)
        } else {
            self.push_plain(transport, record)
        }
    }

    fn push_event<T: Transport>(&self, transport: &mut T, record: &Json) -> (r: Result<
        Pushed<Json>,
        QueueError,
    >)
        requires
            old(transport).sound(),
            is_event_policy(self.spec@.policy),
        ensures
            final(transport).sound(),
            final(transport).reliable() == old(transport).reliable(),
            match r {
                Ok(pushed) => exists|state: ProjectionView|
                    stands_as(self.spec@, *old(transport), state) && #[trigger] pushes(
                        self.spec@,
                        self.registry@,
                        *old(transport),
                        *final(transport),
                        state,
                        record@,
                        pushed,
                    ),
                Err(QueueError::Transport(_)) => !old(transport).reliable(),
                Err(e) => {
                    &&& *final(transport) == *old(transport)
                    &&& exists|state: ProjectionView|
                        stands_as(self.spec@, *old(transport), state) && #[trigger] push_refused(
                            self.spec@,
                            self.registry@,
                            *old(transport),
                            state,
                            record@,
                            e,
                        )
                },
            },
    {
        let (folded, _) = match self.current(&*transport) {
            Ok(current) => current,
            Err(failure) => {
                return Err(failure);
            },
        };
        let ghost state = projection_of(folded);
        let ghost before = *old(transport);
        assert(stands_as(self.spec@, before, state));
        if folded.next_id == u64::MAX {
            let e = QueueError::NoIdLeft { queue: self.spec.name.clone(), last: u64::MAX - 1 };
            assert(push_refused(self.spec@, self.registry@, before, state, record@, e));
            return Err(e);
        }
        let numbered = match with_id(record, folded.next_id) {
            Some(numbered) => numbered,
            None => {
                let e = self.not_an_object(record);
                assert(push_refused(self.spec@, self.registry@, before, state, record@, e));
                return Err(e);
            },
        };
        if let Err(e) = self.check(&numbered) {
            assert(push_refused(self.spec@, self.registry@, before, state, record@, e));
            return Err(e);
        }
        let id = record_id(&numbered);
        let kept = numbered.copied();
        let mut events: Vec<(Event, Json)> = Vec::new();
        events.push((Event::Queued, numbered));
        let recorded = match self.record(transport, folded, events) {
            Ok(recorded) => recorded,
            Err(failure) => {
                return Err(failure);
            },
        };
        let position = recorded[0].1;
        let pushed = Pushed { record: kept, position, id };
        proof {
            assert(events_view(events@) =~= seq![(Event::Queued, pushed.record@)]);
            assert(positions_of(recorded@) =~= seq![pushed.position@ as int]);
            assert(pushes(
                self.spec@,
                self.registry@,
                before,
                *transport,
                state,
                record@,
                pushed,
            ));
        }
        Ok(pushed)
    }

    fn push_plain<T: Transport>(&self, transport: &mut T, record: &Json) -> (r: Result<
        Pushed<Json>,
        QueueError,
    >)
        requires
            old(transport).sound(),
            !is_event_policy(self.spec@.policy),
        ensures
            final(transport).sound(),
            final(transport).reliable() == old(transport).reliable(),
            match r {
                Ok(pushed) => exists|state: ProjectionView| #[trigger]
                    pushes(
                        self.spec@,
                        self.registry@,
                        *old(transport),
                        *final(transport),
                        state,
                        record@,
                        pushed,
                    ),
                Err(QueueError::Transport(_)) => !old(transport).reliable(),
                Err(e) => {
                    &&& *final(transport) == *old(transport)
                    &&& exists|state: ProjectionView| #[trigger]
                        push_refused(
                            self.spec@,
                            self.registry@,
                            *old(transport),
                            state,
                            record@,
                            e,
                        )
                },
            },
    {
        let ghost before = *old(transport);
        let ghost state: ProjectionView = arbitrary();
        let queue = &self.spec.name;
        let numbered = if self.spec.numbered {
            proof {
                transport.positions_are_ordered(queue@);
                lemma_filter_all(transport.log(queue@), |e: (Seq<u8>, int)| e.1 > 0);
            }
            let batch = match transport.read(queue, None, usize::MAX) {
                Ok(batch) => batch,
                Err(failure) => {
                    return Err(QueueError::Transport(failure));
                },
            };
            proof {
                assert(stored_view(batch.records@).len() == batch.records@.len());
            }
            match with_id(record, batch.records.len() as u64) {
                Some(numbered) => numbered,
                None => {
                    let e = self.not_an_object(record);
                    assert(push_refused(self.spec@, self.registry@, before, state, record@, e));
                    return Err(e);
                },
            }
        } else {
            record.copied()
        };
        if let Err(e) = self.check(&numbered) {
            assert(push_refused(self.spec@, self.registry@, before, state, record@, e));
            return Err(e);
        }
        let text = numbered.render();
        proof {
            lemma_line_is_record(text@);
        }
        let line = text_bytes(text.as_str());
        let position = match transport.append(queue, &line) {
            Ok(position) => position,
            Err(failure) => {
                return Err(QueueError::Transport(failure));
            },
        };
        let id = record_id(&numbered);
        let pushed = Pushed { record: numbered, position, id };
        assert(pushes(self.spec@, self.registry@, before, *transport, state, record@, pushed));
        Ok(pushed)
    }

    /// Appends a record its validators passed; one they did not pass is refused
    /// with their reason, and nothing is appended.
    pub fn push<T: Transport>(&self, transport: &mut T, record: &Json, verdict: &Verdict) -> (r:
        Result<Pushed<Json>, QueueError>)
        requires
            old(transport).sound(),
        ensures
            final(transport).sound(),
            final(transport).reliable() == old(transport).reliable(),
            match *verdict {
                Verdict::Refuse { reason } => *final(transport) == *old(transport) && r is Err
                    && refused_with(r->Err_0, self.spec@.name, reason@),
                Verdict::Unjudged { reason } => *final(transport) == *old(transport) && r is Err
                    && unjudged_with(r->Err_0, self.spec@.name, reason@),
                Verdict::Pass => match r {
                    Ok(pushed) => exists|state: ProjectionView|
                        (is_event_policy(self.spec@.policy) ==> stands_as(
                            self.spec@,
                            *old(transport),
                            state,
                        )) && #[trigger] pushes(
                            self.spec@,
                            self.registry@,
                            *old(transport),
                            *final(transport),
                            state,
                            record@,
                            pushed,
                        ),
                    Err(QueueError::Transport(_)) => !old(transport).reliable(),
                    Err(e) => {
                        &&& *final(transport) == *old(transport)
                        &&& exists|state: ProjectionView|
                            (is_event_policy(self.spec@.policy) ==> stands_as(
                                self.spec@,
                                *old(transport),
                                state,
                            )) && #[trigger] push_refused(
                                self.spec@,
                                self.registry@,
                                *old(transport),
                                state,
                                record@,
                                e,
                            )
                    },
                },
            },
    {
        match QueueError::of_verdict(&self.spec.name, verdict) {
            Err(e) => Err(e),
            Ok(()) => self.push_judged(transport, record),
        }
    }
}

// ---------------------------------------------------------------------------
// Claims.
// ---------------------------------------------------------------------------

/// Whether a waiting record may be claimed as one somebody listens for: nobody
/// abandoned it, and it waits on no slot held for another. `held` says whether the slot
/// is.
pub open spec fn is_open(record: JsonView, held: bool) -> bool {
    !abandoned_is(record) && !(held && blocks(record))
}

/// Where the first open waiting record is, among the blocking ones alone where
/// `blocking`.
pub open spec fn first_open(waiting: Seq<JsonView>, blocking: bool, held: bool) -> Option<int>
    decreases waiting.len(),
{
    if waiting.len() == 0 {
        None
    } else if is_open(waiting[0], held) && (blocking ==> blocks(waiting[0])) {
        Some(0)
    } else {
        match first_open(waiting.skip(1), blocking, held) {
            Some(at) => Some(at + 1),
            None => None,
        }
    }
}

/// Where the first abandoned waiting record is.
pub open spec fn first_abandoned(waiting: Seq<JsonView>) -> Option<int>
    decreases waiting.len(),
{
    if waiting.len() == 0 {
        None
    } else if abandoned_is(waiting[0]) {
        Some(0)
    } else {
        match first_abandoned(waiting.skip(1)) {
            Some(at) => Some(at + 1),
            None => None,
        }
    }
}

/// Which waiting record a claim hands out: an open blocking one where the policy says
/// so, then the oldest open one, then the oldest abandoned. None where all that waits
/// waits on a slot held for another.
pub open spec fn next_claim(
    blocking_first: bool,
    held: bool,
    waiting: Seq<JsonView>,
) -> Option<int> {
    if blocking_first && first_open(waiting, true, held) is Some {
        first_open(waiting, true, held)
    } else if first_open(waiting, false, held) is Some {
        first_open(waiting, false, held)
    } else {
        first_abandoned(waiting)
    }
}

pub proof fn lemma_first_open(waiting: Seq<JsonView>, blocking: bool, held: bool)
    ensures
        match first_open(waiting, blocking, held) {
            Some(at) => {
                &&& 0 <= at < waiting.len()
                &&& is_open(waiting[at], held)
                &&& blocking ==> blocks(waiting[at])
                &&& forall|k: int|
                    0 <= k < at ==> !is_open(#[trigger] waiting[k], held) || (blocking && !blocks(
                        waiting[k],
                    ))
            },
            None => forall|k: int|
                0 <= k < waiting.len() ==> !is_open(#[trigger] waiting[k], held) || (blocking
                    && !blocks(waiting[k])),
        },
    decreases waiting.len(),
{
    if waiting.len() > 0 {
        let rest = waiting.skip(1);
        lemma_first_open(rest, blocking, held);
        assert forall|k: int| 0 < k < waiting.len() implies #[trigger] waiting[k]
            == rest[k - 1] by {}
    }
}

pub proof fn lemma_first_abandoned(waiting: Seq<JsonView>)
    ensures
        match first_abandoned(waiting) {
            Some(at) => {
                &&& 0 <= at < waiting.len()
                &&& abandoned_is(waiting[at])
                &&& forall|k: int| 0 <= k < at ==> !abandoned_is(#[trigger] waiting[k])
            },
            None => forall|k: int| 0 <= k < waiting.len() ==> !abandoned_is(#[trigger] waiting[k]),
        },
    decreases waiting.len(),
{
    if waiting.len() > 0 {
        let rest = waiting.skip(1);
        lemma_first_abandoned(rest);
        assert forall|k: int| 0 < k < waiting.len() implies #[trigger] waiting[k]
            == rest[k - 1] by {}
    }
}

/// What a claim hands out is waiting, and waits on no slot held for another.
pub proof fn claims_withhold(blocking_first: bool, held: bool, waiting: Seq<JsonView>)
    requires
        next_claim(blocking_first, held, waiting) is Some,
    ensures
        ({
            let at = next_claim(blocking_first, held, waiting)->0;
            &&& 0 <= at < waiting.len()
            &&& held && blocks(waiting[at]) ==> abandoned_is(waiting[at])
        }),
{
    lemma_first_open(waiting, true, held);
    lemma_first_open(waiting, false, held);
    lemma_first_abandoned(waiting);
}

/// While no slot is held, a claim hands out something wherever anything waits.
pub proof fn claims_hand_out_what_waits(blocking_first: bool, waiting: Seq<JsonView>)
    requires
        waiting.len() > 0,
    ensures
        next_claim(blocking_first, false, waiting) is Some,
{
    lemma_first_open(waiting, false, false);
    lemma_first_abandoned(waiting);
    assert(is_open(waiting[0], false) || abandoned_is(waiting[0]));
}

/// A claim hands out the oldest record, on a queue that claims none first and
/// where it is open.
pub proof fn claims_are_in_order(held: bool, waiting: Seq<JsonView>)
    requires
        waiting.len() > 0,
        is_open(waiting[0], held),
    ensures
        next_claim(false, held, waiting) == Some(0int),
{
}

/// On a queue that claims blocking records first, an open one that somebody waits on
/// is claimed before any that blocks nobody, and before every later one.
pub proof fn blocking_records_are_claimed_first(held: bool, waiting: Seq<JsonView>, i: int)
    requires
        0 <= i < waiting.len(),
        blocks(waiting[i]),
        is_open(waiting[i], held),
    ensures
        next_claim(true, held, waiting) is Some,
        next_claim(true, held, waiting)->0 <= i,
        blocks(waiting[next_claim(true, held, waiting)->0]),
        !abandoned_is(waiting[next_claim(true, held, waiting)->0]),
{
    lemma_first_open(waiting, true, held);
}

/// An abandoned record is claimed only where no waiting one is open.
pub proof fn abandoned_records_are_claimed_last(
    blocking_first: bool,
    held: bool,
    waiting: Seq<JsonView>,
    i: int,
)
    requires
        0 <= i < waiting.len(),
        is_open(waiting[i], held),
    ensures
        next_claim(blocking_first, held, waiting) is Some,
        0 <= next_claim(blocking_first, held, waiting)->0 < waiting.len(),
        !abandoned_is(waiting[next_claim(blocking_first, held, waiting)->0]),
{
    lemma_first_open(waiting, true, held);
    lemma_first_open(waiting, false, held);
}

/// Where the first open waiting record is.
fn find_open(waiting: &Vec<Json>, blocking: bool, held: bool) -> (r: Option<usize>)
    ensures
        match r {
            Some(at) => at < waiting@.len() && first_open(items_view(waiting@), blocking, held)
                == Some(at as int),
            None => first_open(items_view(waiting@), blocking, held) is None,
        },
{
    let ghost all = items_view(waiting@);
    let mut i: usize = 0;
    proof {
        assert(all.skip(0) =~= all);
    }
    while i < waiting.len()
        invariant
            i <= waiting@.len(),
            all == items_view(waiting@),
            first_open(all, blocking, held) == match first_open(
                all.skip(i as int),
                blocking,
                held,
            ) {
                Some(at) => Some(at + i),
                None => None,
            },
        decreases waiting@.len() - i,
    {
        let blocks_one = is_blocking(&waiting[i]);
        if !is_abandoned(&waiting[i]) && !(held && blocks_one) && (!blocking || blocks_one) {
            return Some(i);
        }
        proof {
            assert(all.skip(i as int).skip(1) =~= all.skip(i + 1));
        }
        i += 1;
    }
    None
}

/// Where the first abandoned waiting record is.
fn find_abandoned(waiting: &Vec<Json>) -> (r: Option<usize>)
    ensures
        match r {
            Some(at) => at < waiting@.len() && first_abandoned(items_view(waiting@)) == Some(
                at as int,
            ),
            None => first_abandoned(items_view(waiting@)) is None,
        },
{
    let ghost all = items_view(waiting@);
    let mut i: usize = 0;
    proof {
        assert(all.skip(0) =~= all);
    }
    while i < waiting.len()
        invariant
            i <= waiting@.len(),
            all == items_view(waiting@),
            first_abandoned(all) == match first_abandoned(all.skip(i as int)) {
                Some(at) => Some(at + i),
                None => None,
            },
        decreases waiting@.len() - i,
    {
        if is_abandoned(&waiting[i]) {
            return Some(i);
        }
        proof {
            assert(all.skip(i as int).skip(1) =~= all.skip(i + 1));
        }
        i += 1;
    }
    None
}

/// The records of a log that read as JSON, each with the position after it.
pub open spec fn readable(log: Seq<(Seq<u8>, int)>) -> Seq<(JsonView, int)>
    decreases log.len(),
{
    if log.len() == 0 {
        Seq::empty()
    } else {
        match bytes_read(log.last().0) {
            Some(value) => readable(log.drop_last()).push((value, log.last().1)),
            None => readable(log.drop_last()),
        }
    }
}

/// Which record of a log its `i`th readable one is.
spec fn readable_at(log: Seq<(Seq<u8>, int)>, i: int) -> int
    decreases log.len(),
{
    if log.len() == 0 || i < readable(log.drop_last()).len() {
        if log.len() == 0 {
            0
        } else {
            readable_at(log.drop_last(), i)
        }
    } else {
        log.len() - 1
    }
}

/// A readable record is one of the log's, at its position.
proof fn lemma_readable_from(log: Seq<(Seq<u8>, int)>, i: int)
    requires
        0 <= i < readable(log).len(),
    ensures
        0 <= readable_at(log, i) < log.len(),
        readable(log)[i].1 == log[readable_at(log, i)].1,
    decreases log.len(),
{
    if log.len() > 0 && i < readable(log.drop_last()).len() {
        lemma_readable_from(log.drop_last(), i);
    }
}

/// What a filter keeps is one of the items there were.
proof fn lemma_kept_from<A>(items: Seq<A>, pred: spec_fn(A) -> bool, i: int) -> (at: int)
    requires
        0 <= i < items.filter(pred).len(),
    ensures
        0 <= at < items.len(),
        items[at] == items.filter(pred)[i],
    decreases items.len(),
{
    reveal(Seq::filter);
    let before = items.drop_last().filter(pred);
    if i < before.len() {
        lemma_kept_from(items.drop_last(), pred, i)
    } else {
        items.len() - 1
    }
}

/// Values, each with the position after it.
pub open spec fn entries_of(entries: Seq<(Json, Position)>) -> Seq<(JsonView, int)> {
    Seq::new(entries.len(), |i: int| (entries[i].0@, entries[i].1@ as int))
}

/// The records of `stored` that read as JSON.
fn readable_of(stored: &Vec<Stored>) -> (r: Vec<(Json, Position)>)
    ensures
        entries_of(r@) == readable(stored_view(stored@)),
{
    let ghost log = stored_view(stored@);
    let mut out: Vec<(Json, Position)> = Vec::new();
    let mut i: usize = 0;
    proof {
        assert(log.take(0) =~= Seq::<(Seq<u8>, int)>::empty());
        assert(entries_of(out@) =~= Seq::<(JsonView, int)>::empty());
    }
    while i < stored.len()
        invariant
            i <= stored@.len(),
            log == stored_view(stored@),
            entries_of(out@) == readable(log.take(i as int)),
        decreases stored@.len() - i,
    {
        let ghost before = entries_of(out@);
        proof {
            assert(log.take(i + 1).drop_last() =~= log.take(i as int));
            assert(log.take(i + 1).last() == (
                stored@[i as int].bytes@,
                stored@[i as int].after@ as int,
            ));
        }
        if let Some(value) = read_bytes(&stored[i].bytes) {
            out.push((value, stored[i].after));
            proof {
                assert(entries_of(out@) =~= before.push(
                    (value@, stored@[i as int].after@ as int),
                ));
            }
        }
        i += 1;
    }
    proof {
        assert(log.take(i as int) =~= log);
    }
    out
}

/// What a claim on an event queue that stands as `state` did.
pub open spec fn claims_event<T: Transport>(
    spec: QueueSpecView,
    before: T,
    after: T,
    state: ProjectionView,
    claimed: Option<Claimed<Json>>,
) -> bool {
    let waiting = state.folded.waiting;
    let held = is_slot_held(spec.policy.hold_pending, state.folded.pending);
    let chosen = next_claim(spec.policy.blocking_first, held, waiting);
    match claimed {
        Some(claimed) => {
            let next = chosen->0;
            &&& chosen is Some
            &&& 0 <= next < waiting.len()
            &&& claimed.record@ == waiting[next]
            &&& claimed.id == id_of(claimed.record@)
            &&& records_events(
                spec,
                before,
                after,
                state,
                seq![(Event::Claimed, waiting[next])],
                seq![claimed.position@ as int],
            )
        },
        None => {
            &&& chosen is None
            &&& records_events(
                spec,
                before,
                after,
                state,
                Seq::<(Event, JsonView)>::empty(),
                Seq::<int>::empty(),
            )
        },
    }
}

/// Where a consumer reads on from.
pub open spec fn reads_from<T: Transport>(
    transport: T,
    queue: Seq<char>,
    consumer: Seq<char>,
) -> int {
    match transport.cursor_of(queue, consumer) {
        Some(at) => at,
        None => 0,
    }
}

/// What a consumer of a plain queue has not read.
pub open spec fn unread_of<T: Transport>(
    transport: T,
    queue: Seq<char>,
    consumer: Seq<char>,
) -> Seq<(JsonView, int)> {
    readable(after_position(transport.log(queue), reads_from(transport, queue, consumer)))
}

/// What a claim on a plain queue did: hand out the first record after the
/// consumer's cursor that the queue's claims admit, the cursor moved past it.
pub open spec fn claims_plain<T: Transport>(
    spec: QueueSpecView,
    before: T,
    after: T,
    consumer: Seq<char>,
    claimed: Option<Claimed<Json>>,
) -> bool {
    let unread = unread_of(before, spec.name, consumer);
    match claimed {
        Some(claimed) => {
            &&& exists|i: int|
                {
                    &&& 0 <= i < unread.len()
                    &&& #[trigger] unread[i] == (claimed.record@, claimed.position@ as int)
                    &&& admits(spec.claims, unread[i].0)
                    &&& forall|k: int|
                        0 <= k < i ==> !admits(spec.claims, (#[trigger] unread[k]).0)
                }
            &&& claimed.id == id_of(claimed.record@)
            &&& forall|q: Seq<char>| #[trigger] after.log(q) == before.log(q)
            &&& after.cursor_of(spec.name, consumer) is Some
            &&& after_position(after.log(spec.name), reads_from(after, spec.name, consumer))
                == after_position(before.log(spec.name), claimed.position@ as int)
            &&& forall|q: Seq<char>, c: Seq<char>|
                !(q == spec.name && c == consumer) ==> #[trigger] after.cursor_of(q, c)
                    == before.cursor_of(q, c)
        },
        None => {
            &&& forall|k: int|
                0 <= k < unread.len() ==> !admits(spec.claims, (#[trigger] unread[k]).0)
            &&& after == before
        },
    }
}

impl RawQueue {
    /// Claims the next record, recording the claim before handing it over: on an
    /// event queue for everybody, on a plain one for `consumer`. While an event queue
    /// holds a record pending for somebody, none that would take its slot is handed out.
    pub fn claim<T: Transport>(&self, transport: &mut T, consumer: &ConsumerName) -> (r: Result<
        Option<Claimed<Json>>,
        QueueError,
    >)
        requires
            old(transport).sound(),
        ensures
            final(transport).sound(),
            final(transport).reliable() == old(transport).reliable(),
            match r {
                Ok(claimed) => if is_event_policy(self.spec@.policy) {
                    exists|state: ProjectionView|
                        stands_as(self.spec@, *old(transport), state) && #[trigger] claims_event(
                            self.spec@,
                            *old(transport),
                            *final(transport),
                            state,
                            claimed,
                        )
                } else {
                    claims_plain(
                        self.spec@,
                        *old(transport),
                        *final(transport),
                        consumer@,
                        claimed,
                    )
                },
                Err(QueueError::Transport(_)) => !old(transport).reliable(),
                Err(_) => false,
            },
    {
        if self.spec.policy.keeps_events() {
            self.claim_event(transport)
        } else {
            self.claim_plain(transport, consumer)
        }
    }

    fn claim_event<T: Transport>(&self, transport: &mut T) -> (r: Result<
        Option<Claimed<Json>>,
        QueueError,
    >)
        requires
            old(transport).sound(),
        ensures
            final(transport).sound(),
            final(transport).reliable() == old(transport).reliable(),
            match r {
                Ok(claimed) => exists|state: ProjectionView|
                    stands_as(self.spec@, *old(transport), state) && #[trigger] claims_event(
                        self.spec@,
                        *old(transport),
                        *final(transport),
                        state,
                        claimed,
                    ),
                Err(QueueError::Transport(_)) => !old(transport).reliable(),
                Err(_) => false,
            },
    {
        let (folded, _) = match self.current(&*transport) {
            Ok(current) => current,
            Err(failure) => {
                return Err(failure);
            },
        };
        let ghost state = projection_of(folded);
        let ghost before = *old(transport);
        assert(stands_as(self.spec@, before, state));
        let ghost waiting = state.folded.waiting;
        let held = folded.holds_slot_for(self.spec.policy.hold_pending);
        let ghost next_is = next_claim(self.spec@.policy.blocking_first, held, waiting);
        let mut events: Vec<(Event, Json)> = Vec::new();
        let first = if self.spec.policy.blocking_first {
            find_open(&folded.waiting, true, held)
        } else {
            None
        };
        let open = match first {
            Some(at) => Some(at),
            None => find_open(&folded.waiting, false, held),
        };
        let next = match open {
            Some(at) => Some(at),
            None => find_abandoned(&folded.waiting),
        };
        if let Some(at) = next {
            assert(next_is == Some(at as int));
            events.push((Event::Claimed, folded.waiting[at].copied()));
            proof {
                assert(events_view(events@) =~= seq![(Event::Claimed, waiting[at as int])]);
            }
        } else {
            proof {
                assert(events_view(events@) =~= Seq::<(Event, JsonView)>::empty());
            }
        }
        let mut recorded = match self.record(transport, folded, events) {
            Ok(recorded) => recorded,
            Err(failure) => {
                return Err(failure);
            },
        };
        let ghost positions = positions_of(recorded@);
        match recorded.pop() {
            Some((record, position)) => {
                let id = record_id(&record);
                let claimed = Claimed { record, position, id };
                proof {
                    assert(positions =~= seq![claimed.position@ as int]);
                    assert(claims_event(self.spec@, before, *transport, state, Some(claimed)));
                }
                Ok(Some(claimed))
            },
            None => {
                proof {
                    assert(positions =~= Seq::<int>::empty());
                    assert(claims_event(self.spec@, before, *transport, state, None));
                }
                Ok(None)
            },
        }
    }

    /// What a consumer of a plain queue has not read.
    pub(crate) fn plain_after<T: Transport>(&self, transport: &T, consumer: &ConsumerName) -> (r: Result<
        Vec<(Json, Position)>,
        QueueError,
    >)
        requires
            transport.sound(),
        ensures
            match r {
                Ok(entries) => entries_of(entries@) == unread_of(
                    *transport,
                    self.spec@.name,
                    consumer@,
                ),
                Err(QueueError::Transport(_)) => !transport.reliable(),
                Err(_) => false,
            },
    {
        let queue = &self.spec.name;
        proof {
            transport.positions_are_ordered(queue@);
        }
        let cursor = match transport.cursor(queue, consumer) {
            Ok(cursor) => cursor,
            Err(failure) => {
                return Err(QueueError::Transport(failure));
            },
        };
        self.log_after(transport, cursor)
    }

    /// Every record after `from` that reads as JSON, with the position after
    /// each.
    pub fn log_after<T: Transport>(&self, transport: &T, from: Option<Position>) -> (r: Result<
        Vec<(Json, Position)>,
        QueueError,
    >)
        requires
            transport.sound(),
        ensures
            match r {
                Ok(entries) => entries_of(entries@) == readable(
                    after_position(transport.log(self.spec@.name), start_of(from)),
                ),
                Err(QueueError::Transport(_)) => !transport.reliable() || start_of(from)
                    > transport.end(self.spec@.name) || !transport.boundary(
                    self.spec@.name,
                    start_of(from),
                ),
                Err(_) => false,
            },
    {
        let queue = &self.spec.name;
        proof {
            transport.positions_are_ordered(queue@);
            lemma_filter_len(
                transport.log(queue@),
                |e: (Seq<u8>, int)| e.1 > start_of(from),
            );
        }
        match transport.read(queue, from, usize::MAX) {
            Ok(batch) => Ok(readable_of(&batch.records)),
            Err(failure) => Err(QueueError::Transport(failure)),
        }
    }

    fn claim_plain<T: Transport>(&self, transport: &mut T, consumer: &ConsumerName) -> (r: Result<
        Option<Claimed<Json>>,
        QueueError,
    >)
        requires
            old(transport).sound(),
        ensures
            final(transport).sound(),
            final(transport).reliable() == old(transport).reliable(),
            match r {
                Ok(claimed) => claims_plain(
                    self.spec@,
                    *old(transport),
                    *final(transport),
                    consumer@,
                    claimed,
                ),
                Err(QueueError::Transport(_)) => !old(transport).reliable(),
                Err(_) => false,
            },
    {
        let entries = match self.plain_after(&*transport, consumer) {
            Ok(entries) => entries,
            Err(failure) => {
                return Err(failure);
            },
        };
        let ghost unread = unread_of(*old(transport), self.spec@.name, consumer@);
        let mut i: usize = 0;
        while i < entries.len()
            invariant
                i <= entries@.len(),
                unread == entries_of(entries@),
                unread == unread_of(*old(transport), self.spec@.name, consumer@),
                *transport == *old(transport),
                transport.sound(),
                transport.reliable() == old(transport).reliable(),
                forall|k: int|
                    0 <= k < i ==> !admits(self.spec@.claims, (#[trigger] unread[k]).0),
            decreases entries@.len() - i,
        {
            if admitted(&self.spec.claims, &entries[i].0) {
                let position = entries[i].1;
                let record = entries[i].0.copied();
                let id = record_id(&record);
                proof {
                    assert(unread[i as int] == (record@, position@ as int));
                    let name = self.spec@.name;
                    let log = transport.log(name);
                    let from = reads_from(*transport, name, consumer@);
                    transport.positions_are_ordered(name);
                    lemma_readable_from(after_position(log, from), i as int);
                    let at = lemma_kept_from(
                        log,
                        |e: (Seq<u8>, int)| e.1 > from,
                        readable_at(after_position(log, from), i as int),
                    );
                    assert(log[at].1 == position@ as int);
                }
                if let Err(failure) = transport.commit(&self.spec.name, consumer, position) {
                    return Err(QueueError::Transport(failure));
                }
                return Ok(Some(Claimed { record, position, id }));
            }
            proof {
                assert(unread[i as int].0 == entries@[i as int].0@);
            }
            i += 1;
        }
        Ok(None)
    }
}

/// What a consumer of a plain queue claimed is not handed to it again: all it has yet
/// to read comes after.
pub proof fn plain_claim_is_not_handed_out_again<T: Transport>(
    spec: QueueSpecView,
    before: T,
    after: T,
    consumer: Seq<char>,
    claimed: Claimed<Json>,
)
    requires
        claims_plain(spec, before, after, consumer, Some(claimed)),
    ensures
        forall|i: int|
            0 <= i < unread_of(after, spec.name, consumer).len() ==> (#[trigger] unread_of(
                after,
                spec.name,
                consumer,
            )[i]).1 > claimed.position@,
{
    let log = before.log(spec.name);
    let past = |e: (Seq<u8>, int)| e.1 > claimed.position@ as int;
    let left = after_position(log, claimed.position@ as int);
    let unread = unread_of(after, spec.name, consumer);
    assert(unread == readable(left));
    assert forall|i: int| 0 <= i < unread.len() implies (#[trigger] unread[i]).1
        > claimed.position@ by {
        lemma_readable_from(left, i);
        lemma_kept_passes(log, past, readable_at(left, i));
    }
}

/// What a filter keeps passes it.
proof fn lemma_kept_passes<A>(items: Seq<A>, pred: spec_fn(A) -> bool, i: int)
    requires
        0 <= i < items.filter(pred).len(),
    ensures
        pred(items.filter(pred)[i]),
    decreases items.len(),
{
    reveal(Seq::filter);
    if i < items.drop_last().filter(pred).len() {
        lemma_kept_passes(items.drop_last(), pred, i);
    }
}

} // verus!
