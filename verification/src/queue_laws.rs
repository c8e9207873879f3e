//! What holds of a queue from one call to the next.

use crate::event_log::{bytes_read, is_loggable, line_of, line_reads};
use crate::fold::{
    Event, FoldedView, abandoned_is, asker_is, blocks, id_of, is_slot_held, lemma_identified_id,
    marked, nothing_folded, step, unsuperseded, waiting_at,
};
use crate::fold_laws::{
    claimed_record_no_longer_waits, held_record_stays_pending, holds_id, lemma_marked_id,
    lemma_unsuperseded, lemma_waiting_at, marking_sets_one_member, step_keeps_ids_apart,
    well_kept,
};
use crate::framing::{after_position, lemma_filter_none};
use crate::json::{Json, JsonView, keys_distinct, member, nests_within, text_of};
use crate::policy::{PolicyView, QueueSpecView, is_event_policy};
use crate::predicate::{admits, satisfies};
use crate::projection::{ProjectionView, is_keepable, sealed_at};
use crate::queue::{
    Claimed, Pushed, checkpoint_of, fold_log, is_usable, last_position, lemma_fold_in_parts,
    logged, projection_document, read_back, records_events, stands_as, steps,
};
use crate::queue_ops::{
    claims_event, claims_plain, claims_withhold, first_open, is_open, lemma_first_abandoned,
    lemma_first_open, next_claim, pushes, readable, reads_from, unread_of,
};
use crate::queue_reads::{
    abandons, attends, held_records, holds_slot, is_marked, last_claim, queued_as, slot_is,
    unread,
};
use crate::schema::SchemaIdView;
use crate::transport::{Transport, is_ordered};
use vstd::prelude::*;
use vstd::utf8::encode_utf8;

verus! {

/// Writers and readers agree: where every record is one a line gives back, the
/// log as a writer leaves it folds to what the writer folded.
pub proof fn writer_and_reader_agree<T: Transport>(
    spec: QueueSpecView,
    before: T,
    after: T,
    state: ProjectionView,
    events: Seq<(Event, JsonView)>,
    positions: Seq<int>,
)
    requires
        records_events(spec, before, after, state, events, positions),
        forall|i: int| 0 <= i < events.len() ==> is_loggable((#[trigger] events[i]).1),
        state.folded == fold_log(spec.policy, nothing_folded(), before.log(spec.name), None),
    ensures
        fold_log(spec.policy, nothing_folded(), after.log(spec.name), None) == steps(
            spec.policy,
            state.folded,
            events,
        ),
{
    let lines = logged(events, positions);
    lemma_fold_in_parts(spec.policy, nothing_folded(), before.log(spec.name), lines);
    lemma_fold_of_lines(spec.policy, state.folded, events, positions);
}

proof fn lemma_fold_of_lines(
    policy: PolicyView,
    start: FoldedView,
    events: Seq<(Event, JsonView)>,
    positions: Seq<int>,
)
    requires
        positions.len() == events.len(),
        read_back(events),
        forall|i: int| 0 <= i < events.len() ==> is_loggable((#[trigger] events[i]).1),
    ensures
        fold_log(policy, start, logged(events, positions), None) == steps(policy, start, events),
    decreases events.len(),
{
    reveal(fold_log);
    let lines = logged(events, positions);
    if events.len() > 0 {
        let fewer = events.drop_last();
        assert forall|i: int| 0 <= i < fewer.len() implies is_loggable((#[trigger] fewer[i]).1) by {
            assert(fewer[i] == events[i]);
        }
        assert(read_back(fewer)) by {
            assert forall|i: int|
                0 <= i < fewer.len() && is_loggable((#[trigger] fewer[i]).1) implies line_reads(
                encode_utf8(text_of(line_of(fewer[i].0, fewer[i].1))),
            ) == Some((Some(fewer[i].0), fewer[i].1)) by {
                assert(fewer[i] == events[i]);
            }
        }
        lemma_fold_of_lines(policy, start, fewer, positions.drop_last());
        assert(lines.drop_last() =~= logged(fewer, positions.drop_last()));
        let last = events[events.len() - 1];
        assert(is_loggable(last.1));
        assert(lines.last().0 == encode_utf8(text_of(line_of(last.0, last.1))));
    }
}

proof fn lemma_keepable_queued(policy: PolicyView, folded: FoldedView, record: JsonView)
    requires
        well_kept(folded),
        is_keepable(folded),
        keys_distinct(record),
        nests_within(record, 125),
    ensures
        is_keepable(step(policy, folded, Some(Event::Queued), record)),
{
    let after = step(policy, folded, Some(Event::Queued), record);
    let left = unsuperseded(policy.supersede_on, folded.waiting, record);
    lemma_unsuperseded(policy.supersede_on, folded.waiting, record);
    assert forall|i: int| 0 <= i < after.waiting.len() implies keys_distinct(
        #[trigger] after.waiting[i],
    ) && nests_within(after.waiting[i], 125) by {
        if after != folded && i < left.len() {
            assert(after.waiting[i] == left[i]);
            let k = choose|k: int| 0 <= k < folded.waiting.len() && folded.waiting[k] == left[i];
            assert(keys_distinct(folded.waiting[k]));
        }
    }
}

proof fn lemma_nests_more(value: JsonView, limit: nat)
    requires
        nests_within(value, limit),
    ensures
        nests_within(value, limit + 1),
    decreases value,
{
    match value {
        JsonView::Array(items) => {
            assert forall|i: int| 0 <= i < items.len() implies nests_within(
                #[trigger] items[i],
                limit,
            ) by {
                lemma_nests_more(items[i], (limit - 1) as nat);
            }
        },
        JsonView::Object(fields) => {
            assert forall|i: int| 0 <= i < fields.len() implies nests_within(
                (#[trigger] fields[i]).1,
                limit,
            ) by {
                lemma_nests_more(fields[i].1, (limit - 1) as nat);
            }
        },
        _ => {},
    }
}

proof fn lemma_keepable_claimed(policy: PolicyView, folded: FoldedView, record: JsonView)
    requires
        is_keepable(folded),
        folded.pending is None || is_slot_held(policy.hold_pending, folded.pending),
    ensures
        is_keepable(step(policy, folded, Some(Event::Claimed), record)),
{
    if let Some(id) = id_of(record) {
        lemma_waiting_at(folded.waiting, id);
        if let Some(at) = waiting_at(folded.waiting, id) {
            let after = step(policy, folded, Some(Event::Claimed), record);
            assert forall|i: int| 0 <= i < after.waiting.len() implies keys_distinct(
                #[trigger] after.waiting[i],
            ) && nests_within(after.waiting[i], 125) by {
                let from = if i < at {
                    i
                } else {
                    i + 1
                };
                assert(after.waiting[i] == folded.waiting[from]);
            }
            let taken = folded.waiting[at];
            assert(id_of(taken) is Some);
            lemma_nests_more(taken, 125);
        }
    }
}

proof fn lemma_after_last(log: Seq<(Seq<u8>, int)>, end: int, at: int)
    requires
        is_ordered(log, end),
        log.len() > 0 ==> at >= log.last().1,
    ensures
        after_position(log, at) == Seq::<(Seq<u8>, int)>::empty(),
{
    assert forall|i: int| 0 <= i < log.len() implies !((#[trigger] log[i]).1 > at) by {
        if i < log.len() - 1 {
            assert(log[i].1 < log[log.len() - 1].1);
        }
    }
    lemma_filter_none(log, |e: (Seq<u8>, int)| e.1 > at);
}

/// How far a queue's fold goes: to a position the log has, past which it has nothing.
proof fn lemma_stands_to_the_end<T: Transport>(
    spec: QueueSpecView,
    transport: T,
    state: ProjectionView,
)
    requires
        transport.sound(),
        transport.reliable(),
        stands_as(spec, transport, state),
    ensures
        state.accounted is Some,
        state == sealed_at(state.folded, state.accounted->0),
        state.accounted->0 <= transport.end(spec.name),
        transport.boundary(spec.name, state.accounted->0 as int),
        after_position(transport.log(spec.name), state.accounted->0 as int).len() == 0,
{
    let log = transport.log(spec.name);
    let end = transport.end(spec.name);
    transport.positions_are_ordered(spec.name);
    let checkpoint = checkpoint_of(projection_document(spec, transport));
    let usable = is_usable(transport, spec.name, checkpoint);
    let at = state.accounted->0 as int;
    lemma_after_last(log, end, last_position(log, 0));
    if log.len() > 0 {
        assert(log.last() == log[log.len() - 1]);
    }
    if let Some(projection) = checkpoint {
        if let Some(from) = projection.accounted {
            if from == 0 || usable {
                let rest = after_position(log, from as int);
                if rest.len() > 0 {
                    let past = |e: (Seq<u8>, int)| e.1 > from as int;
                    lemma_filter_last(log, past);
                    assert(rest.last() == log.last());
                }
            }
        }
    }
}

proof fn lemma_filter_last(log: Seq<(Seq<u8>, int)>, past: spec_fn((Seq<u8>, int)) -> bool)
    requires
        log.filter(past).len() > 0,
        forall|i: int, j: int| 0 <= i < j < log.len() && past(log[i]) ==> past(log[j]),
    ensures
        log.len() > 0,
        log.filter(past).last() == log.last(),
{
    reveal(Seq::filter);
    if log.len() > 0 && !past(log.last()) {
        assert forall|i: int| 0 <= i < log.len() implies !past(#[trigger] log[i]) by {
            if i < log.len() - 1 && past(log[i]) {
                assert(past(log[log.len() - 1]));
            }
        }
        lemma_filter_none(log, past);
    }
}

/// A reader finds what a writer left: where every record is one a line gives back, and
/// what is held is such that a projection gives it back, a queue read after events were
/// recorded stands as the writer left it.
pub proof fn reader_finds_what_was_left<T: Transport>(
    spec: QueueSpecView,
    before: T,
    after: T,
    state: ProjectionView,
    events: Seq<(Event, JsonView)>,
    positions: Seq<int>,
    now: ProjectionView,
)
    requires
        before.sound(),
        before.reliable(),
        after.sound(),
        after.reliable(),
        stands_as(spec, before, state),
        records_events(spec, before, after, state, events, positions),
        forall|i: int| 0 <= i < events.len() ==> is_loggable((#[trigger] events[i]).1),
        is_keepable(steps(spec.policy, state.folded, events)),
        stands_as(spec, after, now),
    ensures
        now.folded == steps(spec.policy, state.folded, events),
{
    let log = after.log(spec.name);
    after.positions_are_ordered(spec.name);
    match spec.policy.projection {
        None => {
            writer_and_reader_agree(spec, before, after, state, events, positions);
        },
        Some(name) => {
            lemma_stands_to_the_end(spec, before, state);
            let at = if events.len() == 0 {
                state.accounted->0
            } else {
                positions.last() as u64
            };
            let left = sealed_at(steps(spec.policy, state.folded, events), at);
            assert(checkpoint_of(projection_document(spec, after)) == Some(left));
            let lines = logged(events, positions);
            if events.len() == 0 {
                assert(log =~= before.log(spec.name));
            } else {
                assert(lines.last() == lines[lines.len() - 1]);
                assert(log.last() == log[log.len() - 1]);
                assert(log.last().1 == positions.last());
                lemma_after_last(log, after.end(spec.name), at as int);
            }
            assert(after_position(log, at as int) =~= Seq::<(Seq<u8>, int)>::empty());
            reveal(fold_log);
        },
    }
}

/// The log is the record: whatever an operation records is added to the queue's log,
/// which keeps all it held, and no other queue's log is touched.
pub proof fn log_only_grows<T: Transport>(
    spec: QueueSpecView,
    before: T,
    after: T,
    state: ProjectionView,
    events: Seq<(Event, JsonView)>,
    positions: Seq<int>,
)
    requires
        records_events(spec, before, after, state, events, positions),
    ensures
        before.log(spec.name).is_prefix_of(after.log(spec.name)),
        after.log(spec.name).len() == before.log(spec.name).len() + events.len(),
        forall|q: Seq<char>| q != spec.name ==> #[trigger] after.log(q) == before.log(q),
{
}

/// Nothing accepted is lost: a record pushed onto an event queue is the last one
/// waiting in the log as it then stands, and the next id is one past its own.
pub proof fn pushed_record_waits<T: Transport>(
    spec: QueueSpecView,
    registry: Seq<(SchemaIdView, JsonView)>,
    before: T,
    after: T,
    state: ProjectionView,
    record: JsonView,
    pushed: Pushed<Json>,
)
    requires
        is_event_policy(spec.policy),
        pushes(spec, registry, before, after, state, record, pushed),
        is_loggable(pushed.record@),
        state.folded == fold_log(spec.policy, nothing_folded(), before.log(spec.name), None),
    ensures
        ({
            let now = fold_log(spec.policy, nothing_folded(), after.log(spec.name), None);
            &&& now.waiting.len() > 0
            &&& now.waiting.last() == pushed.record@
            &&& pushed.id == Some(state.folded.next_id)
            &&& now.next_id == state.folded.next_id + 1
            &&& now.pending == state.folded.pending
        }),
{
    let events = seq![(Event::Queued, pushed.record@)];
    let positions = seq![pushed.position@ as int];
    writer_and_reader_agree(spec, before, after, state, events, positions);
    lemma_identified_id(record, state.folded.next_id);
    reveal_with_fuel(steps, 2);
    assert(events.drop_last() =~= Seq::<(Event, JsonView)>::empty());
}

/// Nothing claimed is handed out twice: in the log as a claim leaves it, no
/// waiting record has the claimed one's id.
pub proof fn claimed_record_waits_no_more<T: Transport>(
    spec: QueueSpecView,
    before: T,
    after: T,
    state: ProjectionView,
    claimed: Claimed<Json>,
)
    requires
        claims_event(spec, before, after, state, Some(claimed)),
        is_loggable(claimed.record@),
        well_kept(state.folded),
        state.folded == fold_log(spec.policy, nothing_folded(), before.log(spec.name), None),
    ensures
        ({
            let now = fold_log(spec.policy, nothing_folded(), after.log(spec.name), None);
            &&& claimed.id is Some
            &&& waiting_at(now.waiting, claimed.id->0) is None
            &&& well_kept(now)
            &&& now.next_id == state.folded.next_id
        }),
{
    let held = is_slot_held(spec.policy.hold_pending, state.folded.pending);
    claims_withhold(spec.policy.blocking_first, held, state.folded.waiting);
    let next = next_claim(spec.policy.blocking_first, held, state.folded.waiting)->0;
    let record = state.folded.waiting[next];
    let events = seq![(Event::Claimed, record)];
    let positions = seq![claimed.position@ as int];
    writer_and_reader_agree(spec, before, after, state, events, positions);
    reveal_with_fuel(steps, 2);
    assert(events.drop_last() =~= Seq::<(Event, JsonView)>::empty());
    let id = id_of(record)->0;
    lemma_waiting_at(state.folded.waiting, id);
    claimed_record_no_longer_waits(spec.policy, state.folded, record);
    step_keeps_ids_apart(spec.policy, state.folded, Event::Claimed, record);
}

/// Ids are never given twice: a queue whose records were all given the next id
/// keeps them apart when one more is.
pub proof fn pushed_ids_stay_apart<T: Transport>(
    spec: QueueSpecView,
    registry: Seq<(SchemaIdView, JsonView)>,
    before: T,
    after: T,
    state: ProjectionView,
    record: JsonView,
    pushed: Pushed<Json>,
)
    requires
        is_event_policy(spec.policy),
        pushes(spec, registry, before, after, state, record, pushed),
        is_loggable(pushed.record@),
        well_kept(state.folded),
        state.folded == fold_log(spec.policy, nothing_folded(), before.log(spec.name), None),
    ensures
        well_kept(fold_log(spec.policy, nothing_folded(), after.log(spec.name), None)),
        !holds_id(state.folded, pushed.id->0),
{
    let events = seq![(Event::Queued, pushed.record@)];
    let positions = seq![pushed.position@ as int];
    writer_and_reader_agree(spec, before, after, state, events, positions);
    lemma_identified_id(record, state.folded.next_id);
    reveal_with_fuel(steps, 2);
    assert(events.drop_last() =~= Seq::<(Event, JsonView)>::empty());
    step_keeps_ids_apart(spec.policy, state.folded, Event::Queued, pushed.record@);
}

proof fn lemma_queued<T: Transport>(
    spec: QueueSpecView,
    registry: Seq<(SchemaIdView, JsonView)>,
    before: T,
    after: T,
    state: ProjectionView,
    record: JsonView,
    pushed: Pushed<Json>,
    now: ProjectionView,
)
    requires
        is_event_policy(spec.policy),
        before.sound(),
        before.reliable(),
        after.sound(),
        after.reliable(),
        stands_as(spec, before, state),
        well_kept(state.folded),
        is_keepable(state.folded),
        pushes(spec, registry, before, after, state, record, pushed),
        is_loggable(pushed.record@),
        nests_within(pushed.record@, 125),
        stands_as(spec, after, now),
    ensures
        now.folded == step(spec.policy, state.folded, Some(Event::Queued), pushed.record@),
        now.folded.pending == state.folded.pending,
        well_kept(now.folded),
        is_keepable(now.folded),
{
    let events = seq![(Event::Queued, pushed.record@)];
    let positions = seq![pushed.position@ as int];
    lemma_identified_id(record, state.folded.next_id);
    reveal_with_fuel(steps, 2);
    assert(events.drop_last() =~= Seq::<(Event, JsonView)>::empty());
    lemma_keepable_queued(spec.policy, state.folded, pushed.record@);
    reader_finds_what_was_left(spec, before, after, state, events, positions, now);
    step_keeps_ids_apart(spec.policy, state.folded, Event::Queued, pushed.record@);
}

/// A record held for somebody is pending until it is answered, as the queue is read: a
/// claim, whatever it hands out, leaves it in the slot.
pub proof fn claim_leaves_the_pending_record<T: Transport>(
    spec: QueueSpecView,
    before: T,
    after: T,
    state: ProjectionView,
    claimed: Option<Claimed<Json>>,
    now: ProjectionView,
)
    requires
        before.sound(),
        before.reliable(),
        after.sound(),
        after.reliable(),
        stands_as(spec, before, state),
        is_keepable(state.folded),
        is_slot_held(spec.policy.hold_pending, state.folded.pending),
        claims_event(spec, before, after, state, claimed),
        claimed is Some ==> is_loggable(claimed->0.record@),
        stands_as(spec, after, now),
    ensures
        now.folded.pending == state.folded.pending,
        is_keepable(now.folded),
{
    match claimed {
        Some(claimed) => {
            let events = seq![(Event::Claimed, claimed.record@)];
            let positions = seq![claimed.position@ as int];
            reveal_with_fuel(steps, 2);
            assert(events.drop_last() =~= Seq::<(Event, JsonView)>::empty());
            lemma_keepable_claimed(spec.policy, state.folded, claimed.record@);
            reader_finds_what_was_left(spec, before, after, state, events, positions, now);
            held_record_stays_pending(spec.policy, state.folded, claimed.record@);
        },
        None => {
            reader_finds_what_was_left(
                spec,
                before,
                after,
                state,
                Seq::<(Event, JsonView)>::empty(),
                Seq::<int>::empty(),
                now,
            );
        },
    }
}

/// A blocking record a claim hands out takes the free slot of a queue that holds
/// records.
pub proof fn claim_takes_the_free_slot<T: Transport>(
    spec: QueueSpecView,
    before: T,
    after: T,
    state: ProjectionView,
    claimed: Claimed<Json>,
    now: ProjectionView,
)
    requires
        before.sound(),
        before.reliable(),
        after.sound(),
        after.reliable(),
        stands_as(spec, before, state),
        spec.policy.hold_pending,
        well_kept(state.folded),
        is_keepable(state.folded),
        state.folded.pending is None,
        claims_event(spec, before, after, state, Some(claimed)),
        blocks(claimed.record@),
        is_loggable(claimed.record@),
        stands_as(spec, after, now),
    ensures
        now.folded.pending == Some(claimed.record@),
        is_keepable(now.folded),
{
    let waiting = state.folded.waiting;
    let next = next_claim(spec.policy.blocking_first, false, waiting)->0;
    let events = seq![(Event::Claimed, claimed.record@)];
    let positions = seq![claimed.position@ as int];
    reveal_with_fuel(steps, 2);
    assert(events.drop_last() =~= Seq::<(Event, JsonView)>::empty());
    lemma_keepable_claimed(spec.policy, state.folded, claimed.record@);
    reader_finds_what_was_left(spec, before, after, state, events, positions, now);
    let id = id_of(claimed.record@)->0;
    lemma_waiting_at(waiting, id);
    assert(id_of(waiting[next]) == Some(id));
    let at = waiting_at(waiting, id)->0;
    if at < next {
        assert(id_of(waiting[at]) != id_of(waiting[next]));
    } else if next < at {
        assert(id_of(waiting[next]) != id_of(waiting[at]));
    }
}

/// A claimed blocking record is pending until answered, one at a time: on a queue that
/// holds records, of two pushed one after the other, the first claimed is what the
/// pending slot holds after a second claim, whether that one handed out the other record,
/// another or none.
pub proof fn first_claimed_is_still_pending<T: Transport>(
    spec: QueueSpecView,
    registry: Seq<(SchemaIdView, JsonView)>,
    start: T,
    first_pushed: T,
    second_pushed: T,
    first_claimed: T,
    second_claimed: T,
    states: Seq<ProjectionView>,
    records: Seq<JsonView>,
    first: Pushed<Json>,
    second: Pushed<Json>,
    claimed: Claimed<Json>,
    again: Option<Claimed<Json>>,
    slot: Option<Claimed<Json>>,
)
    requires
        is_event_policy(spec.policy),
        spec.policy.hold_pending,
        start.sound() && start.reliable(),
        first_pushed.sound() && first_pushed.reliable(),
        second_pushed.sound() && second_pushed.reliable(),
        first_claimed.sound() && first_claimed.reliable(),
        second_claimed.sound() && second_claimed.reliable(),
        states.len() == 4,
        records.len() == 2,
        stands_as(spec, start, states[0]),
        stands_as(spec, first_pushed, states[1]),
        stands_as(spec, second_pushed, states[2]),
        stands_as(spec, first_claimed, states[3]),
        well_kept(states[0].folded),
        is_keepable(states[0].folded),
        states[0].folded.pending is None,
        pushes(spec, registry, start, first_pushed, states[0], records[0], first),
        pushes(spec, registry, first_pushed, second_pushed, states[1], records[1], second),
        is_loggable(first.record@),
        nests_within(first.record@, 125),
        blocks(first.record@),
        !abandoned_is(first.record@),
        is_loggable(second.record@),
        nests_within(second.record@, 125),
        claims_event(spec, second_pushed, first_claimed, states[2], Some(claimed)),
        claimed.record@ == first.record@,
        claims_event(spec, first_claimed, second_claimed, states[3], again),
        again is Some ==> is_loggable(again->0.record@),
        holds_slot(spec, second_claimed, slot),
    ensures
        slot is Some,
        slot->0.record@ == first.record@,
        slot->0.id == first.id,
{
    lemma_queued(spec, registry, start, first_pushed, states[0], records[0], first, states[1]);
    lemma_queued(
        spec,
        registry,
        first_pushed,
        second_pushed,
        states[1],
        records[1],
        second,
        states[2],
    );
    claim_takes_the_free_slot(
        spec,
        second_pushed,
        first_claimed,
        states[2],
        claimed,
        states[3],
    );
    let now = choose|now: ProjectionView| #[trigger]
        stands_as(spec, second_claimed, now) && slot_is(spec, second_claimed, now, slot);
    claim_leaves_the_pending_record(
        spec,
        first_claimed,
        second_claimed,
        states[3],
        again,
        now,
    );
}

/// A claim hands out the oldest record of its rank: the oldest open one that blocks where
/// blocking ones go first and there is one, then the oldest open one, then the oldest
/// abandoned.
pub proof fn claims_take_the_oldest_of_their_rank(
    blocking_first: bool,
    held: bool,
    waiting: Seq<JsonView>,
    i: int,
)
    requires
        0 <= i < waiting.len(),
    ensures
        ({
            let next = next_claim(blocking_first, held, waiting);
            let open = |r: JsonView|
                member(r, "abandoned"@) != Some(JsonView::Bool(true)) && !(held && member(
                    r,
                    "blocking"@,
                ) == Some(JsonView::Bool(true)));
            let blocking = |r: JsonView| member(r, "blocking"@) == Some(JsonView::Bool(true));
            &&& next is Some ==> 0 <= next->0 < waiting.len()
            &&& blocking_first && open(waiting[i]) && blocking(waiting[i]) ==> next is Some
                && next->0 <= i && open(waiting[next->0]) && blocking(waiting[next->0])
            &&& !blocking_first && open(waiting[i]) ==> next is Some && next->0 <= i && open(
                waiting[next->0],
            )
            &&& open(waiting[i]) ==> next is Some && open(waiting[next->0])
            &&& blocking_first && open(waiting[i]) && next is Some && !blocking(waiting[next->0])
                ==> next->0 <= i
            &&& member(waiting[i], "abandoned"@) == Some(JsonView::Bool(true)) && (forall|k: int|
                0 <= k < waiting.len() ==> !open(#[trigger] waiting[k])) ==> next is Some
                && next->0 <= i && member(waiting[next->0], "abandoned"@) == Some(
                JsonView::Bool(true),
            )
        }),
{
    lemma_first_open(waiting, true, held);
    lemma_first_open(waiting, false, held);
    lemma_first_abandoned(waiting);
    let open = |r: JsonView|
        member(r, "abandoned"@) != Some(JsonView::Bool(true)) && !(held && member(r, "blocking"@)
            == Some(JsonView::Bool(true)));
    assert forall|r: JsonView| #[trigger] is_open(r, held) == open(r) by {}
    if let Some(at) = first_open(waiting, false, held) {
        assert(open(waiting[at]));
    }
    if let Some(at) = first_open(waiting, true, held) {
        assert(open(waiting[at]));
    }
}

/// Where the slot is held, no claim hands out a blocking record somebody listens for.
pub proof fn claims_leave_what_waits_on_the_slot(blocking_first: bool, waiting: Seq<JsonView>)
    requires
        next_claim(blocking_first, true, waiting) is Some,
    ensures
        ({
            let claimed = waiting[next_claim(blocking_first, true, waiting)->0];
            member(claimed, "blocking"@) != Some(JsonView::Bool(true)) || member(
                claimed,
                "abandoned"@,
            ) == Some(JsonView::Bool(true))
        }),
{
    claims_withhold(blocking_first, true, waiting);
}

/// Abandoning records by id marks exactly the held ones of those ids that are not marked
/// already.
pub proof fn abandoning_marks_the_held_of_its_ids(folded: FoldedView, ids: Seq<u64>, record: JsonView)
    requires
        record is Object,
        id_of(record) is Some,
    ensures
        ({
            let held = folded.waiting.contains(record) || folded.pending == Some(record);
            let told = abandons(folded, ids);
            &&& held && ids.contains(id_of(record)->0) && !abandoned_is(record) ==> exists|i: int|
                0 <= i < told.len() && (#[trigger] told[i]).0 == Event::Abandoned && id_of(
                    told[i].1,
                ) == id_of(record) && abandoned_is(told[i].1)
        }),
{
    let all = held_records(folded);
    let pred = |r: JsonView| id_of(r) is Some && ids.contains(id_of(r)->0) && !abandoned_is(r);
    if (folded.waiting.contains(record) || folded.pending == Some(record)) && ids.contains(
        id_of(record)->0,
    ) && !abandoned_is(record) {
        lemma_held_contains(folded, record);
        lemma_filter_has(all, pred, record);
        let kept = all.filter(pred);
        let i = choose|i: int| 0 <= i < kept.len() && kept[i] == record;
        let told = abandons(folded, ids);
        assert(told[i] == (Event::Abandoned, marked(record, true)));
        lemma_marked_id(record, true);
        marking_sets_one_member(record, true, "id"@);
    }
}

/// Nothing is abandoned but what its ids name: every mark is of a held record of one of
/// them, that nobody had abandoned.
pub proof fn abandoning_marks_nothing_else(folded: FoldedView, ids: Seq<u64>, i: int)
    requires
        0 <= i < abandons(folded, ids).len(),
    ensures
        exists|record: JsonView|
            {
                &&& folded.waiting.contains(record) || folded.pending == Some(record)
                &&& !abandoned_is(record)
                &&& id_of(record) is Some
                &&& ids.contains(id_of(record)->0)
                &&& abandons(folded, ids)[i] == (Event::Abandoned, #[trigger] marked(record, true))
            },
{
    let all = held_records(folded);
    let pred = |r: JsonView| id_of(r) is Some && ids.contains(id_of(r)->0) && !abandoned_is(r);
    let kept = all.filter(pred);
    let record = kept[i];
    lemma_filter_has(all, pred, record);
    assert(kept.contains(record));
    lemma_held_contains(folded, record);
    assert(abandons(folded, ids)[i] == (Event::Abandoned, marked(record, true)));
}

/// Attending as an asker takes the mark off exactly the abandoned held records it raised.
pub proof fn attending_unmarks_the_askers_own(
    folded: FoldedView,
    asker: Seq<char>,
    record: JsonView,
    i: int,
)
    ensures
        (folded.waiting.contains(record) || folded.pending == Some(record)) && abandoned_is(record)
            && asker_is(record) == Some(asker) ==> exists|k: int|
            0 <= k < attends(folded, asker).len() && #[trigger] attends(folded, asker)[k] == (
                Event::Attended,
                marked(record, false),
            ),
        0 <= i < attends(folded, asker).len() ==> exists|r: JsonView|
            {
                &&& folded.waiting.contains(r) || folded.pending == Some(r)
                &&& abandoned_is(r)
                &&& asker_is(r) == Some(asker)
                &&& attends(folded, asker)[i] == (Event::Attended, #[trigger] marked(r, false))
            },
{
    let all = held_records(folded);
    let pred = |r: JsonView| abandoned_is(r) && asker_is(r) == Some(asker);
    let kept = all.filter(pred);
    if (folded.waiting.contains(record) || folded.pending == Some(record)) && pred(record) {
        lemma_held_contains(folded, record);
        lemma_filter_has(all, pred, record);
        let k = choose|k: int| 0 <= k < kept.len() && kept[k] == record;
        assert(attends(folded, asker)[k] == (Event::Attended, marked(record, false)));
    }
    if 0 <= i < attends(folded, asker).len() {
        let r = kept[i];
        lemma_filter_has(all, pred, r);
        assert(kept.contains(r));
        lemma_held_contains(folded, r);
        assert(attends(folded, asker)[i] == (Event::Attended, marked(r, false)));
    }
}

proof fn lemma_held_contains(folded: FoldedView, record: JsonView)
    ensures
        held_records(folded).contains(record) <==> folded.waiting.contains(record)
            || folded.pending == Some(record),
{
    let all = held_records(folded);
    if let Some(pending) = folded.pending {
        assert(all[folded.waiting.len() as int] == pending);
        if folded.waiting.contains(record) {
            let k = choose|k: int| 0 <= k < folded.waiting.len() && folded.waiting[k] == record;
            assert(all[k] == record);
        }
        if all.contains(record) && record != pending {
            let k = choose|k: int| 0 <= k < all.len() && all[k] == record;
            assert(folded.waiting[k] == record);
        }
    }
}

proof fn lemma_filter_has<A>(items: Seq<A>, kept: spec_fn(A) -> bool, item: A)
    ensures
        items.filter(kept).contains(item) <==> items.contains(item) && kept(item),
    decreases items.len(),
{
    reveal(Seq::filter);
    let left = items.filter(kept);
    if items.len() > 0 {
        let rest = items.drop_last();
        let fewer = rest.filter(kept);
        lemma_filter_has(rest, kept, item);
        if left.contains(item) {
            let k = choose|k: int| 0 <= k < left.len() && left[k] == item;
            if k < fewer.len() {
                assert(fewer[k] == item);
                let j = choose|j: int| 0 <= j < rest.len() && rest[j] == item;
                assert(items[j] == item);
            } else {
                assert(items[items.len() - 1] == item);
            }
        }
        if items.contains(item) && kept(item) {
            let j = choose|j: int| 0 <= j < items.len() && items[j] == item;
            if j < rest.len() {
                assert(rest[j] == item);
                let k = choose|k: int| 0 <= k < fewer.len() && fewer[k] == item;
                assert(left[k] == item);
            } else {
                assert(left[left.len() - 1] == item);
            }
        }
    }
}

/// What is owed a reading counts each waiting record nobody abandoned, once.
pub proof fn unread_counts_what_nobody_abandoned(waiting: Seq<JsonView>, record: JsonView)
    ensures
        unread(Seq::empty()) == 0,
        unread(waiting.push(record)) == unread(waiting) + if member(record, "abandoned"@) == Some(
            JsonView::Bool(true),
        ) {
            0nat
        } else {
            1
        },
{
    reveal(Seq::filter);
    assert(waiting.push(record).drop_last() =~= waiting);
    assert(waiting.push(record).last() == record);
}

/// The last line about a record says whether it is abandoned, where it was last claimed,
/// and the first that queued it what it is: a line about another record says nothing of it.
pub proof fn accounts_go_by_the_records_own_lines(
    log: Seq<(Seq<u8>, int)>,
    line: (Seq<u8>, int),
    event: Option<Event>,
    record: JsonView,
    id: u64,
)
    requires
        line_reads(line.0) == Some((event, record)),
    ensures
        ({
            let now = log.push(line);
            &&& id_of(record) != Some(id) ==> is_marked(now, id) == is_marked(log, id)
                && last_claim(now, id) == last_claim(log, id) && queued_as(now, id) == queued_as(
                log,
                id,
            )
            &&& id_of(record) == Some(id) ==> match event {
                Some(Event::Abandoned) => is_marked(now, id),
                Some(Event::Attended) => !is_marked(now, id),
                Some(Event::Claimed) => last_claim(now, id) == Some(line.1) && is_marked(now, id)
                    == is_marked(log, id),
                Some(Event::Queued) => queued_as(now, id) == if queued_as(log, id) is Some {
                    queued_as(log, id)
                } else {
                    Some(record)
                } && is_marked(now, id) == abandoned_is(record),
                Some(Event::Answered) => is_marked(now, id) == is_marked(log, id),
                None => is_marked(now, id) == abandoned_is(record),
            }
            &&& event != Some(Event::Claimed) ==> last_claim(now, id) == last_claim(log, id)
        }),
{
    let now = log.push(line);
    assert(now.drop_last() =~= log);
    assert(now.last() == line);
}

/// What the pending slot is read as is the fold's pending record, with its own id, and
/// where it was last claimed.
pub proof fn slots_are_told_where_they_were_claimed<T: Transport>(
    spec: QueueSpecView,
    transport: T,
    state: ProjectionView,
    claimed: Option<Claimed<Json>>,
)
    requires
        slot_is(spec, transport, state, claimed),
        transport.reliable(),
    ensures
        claimed is Some <==> state.folded.pending is Some,
        claimed is Some ==> Some(claimed->0.record@) == state.folded.pending && claimed->0.id
            == id_of(claimed->0.record@),
        claimed is Some && claimed->0.id is Some && last_claim(
            transport.log(spec.name),
            claimed->0.id->0,
        ) is Some ==> last_claim(transport.log(spec.name), claimed->0.id->0) == Some(
            claimed->0.position@ as int,
        ),
{
}

/// A claim of a plain queue hands out the oldest record its consumer has not read that the
/// queue lets claims have, and no record of another's cursor moves.
pub proof fn plain_claims_hand_out_the_oldest_unread<T: Transport>(
    spec: QueueSpecView,
    before: T,
    after: T,
    consumer: Seq<char>,
    claimed: Option<Claimed<Json>>,
    i: int,
)
    requires
        claims_plain(spec, before, after, consumer, claimed),
        0 <= i < unread_of(before, spec.name, consumer).len(),
        spec.claims is None || satisfies(
            spec.claims->0,
            unread_of(before, spec.name, consumer)[i].0,
        ),
        forall|k: int|
            0 <= k < i ==> spec.claims is Some && !satisfies(
                spec.claims->0,
                (#[trigger] unread_of(before, spec.name, consumer)[k]).0,
            ),
    ensures
        claimed is Some,
        (claimed->0.record@, claimed->0.position@ as int) == unread_of(
            before,
            spec.name,
            consumer,
        )[i],
        after.log(spec.name) == before.log(spec.name),
        forall|c: Seq<char>|
            c != consumer ==> #[trigger] after.cursor_of(spec.name, c) == before.cursor_of(
                spec.name,
                c,
            ),
{
    let unread = unread_of(before, spec.name, consumer);
    assert(admits(spec.claims, unread[i].0));
    if let Some(one) = claimed {
        let at = choose|at: int|
            {
                &&& 0 <= at < unread.len()
                &&& #[trigger] unread[at] == (one.record@, one.position@ as int)
                &&& admits(spec.claims, unread[at].0)
                &&& forall|k: int| 0 <= k < at ==> !admits(spec.claims, (#[trigger] unread[k]).0)
            };
        if at < i {
            assert(!satisfies(spec.claims->0, unread[at].0));
        }
        if i < at {
            assert(!admits(spec.claims, unread[i].0));
        }
    }
}

/// A consumer reads on from its own cursor, and from the start where it has none.
pub proof fn consumers_read_on_from_their_cursor<T: Transport>(
    transport: T,
    queue: Seq<char>,
    consumer: Seq<char>,
)
    ensures
        transport.cursor_of(queue, consumer) is Some ==> reads_from(transport, queue, consumer)
            == transport.cursor_of(queue, consumer)->0,
        transport.cursor_of(queue, consumer) is None ==> reads_from(transport, queue, consumer)
            == 0,
{
}

/// Every record of a log that is JSON is read, in its order, and nothing else is.
pub proof fn readable_records_are_the_json_ones(log: Seq<(Seq<u8>, int)>, line: (Seq<u8>, int))
    ensures
        readable(Seq::empty()) == Seq::<(JsonView, int)>::empty(),
        bytes_read(line.0) is None ==> readable(log.push(line)) == readable(log),
        bytes_read(line.0) is Some ==> readable(log.push(line)) == readable(log).push(
            (bytes_read(line.0)->0, line.1),
        ),
{
    assert(log.push(line).drop_last() =~= log);
    assert(log.push(line).last() == line);
}

/// A log folds line by line: one that reads steps the fold, one that does not leaves it,
/// and so does one about an id below the floor.
pub proof fn logs_fold_line_by_line(
    policy: PolicyView,
    start: FoldedView,
    log: Seq<(Seq<u8>, int)>,
    line: (Seq<u8>, int),
    event: Option<Event>,
    record: JsonView,
    floor: u64,
)
    ensures
        fold_log(policy, start, Seq::empty(), None) == start,
        line_reads(line.0) == Some((event, record)) && id_of(record) is Some ==> fold_log(
            policy,
            start,
            log.push(line),
            Some(floor),
        ) == if id_of(record)->0 < floor {
            fold_log(policy, start, log, Some(floor))
        } else {
            step(policy, fold_log(policy, start, log, Some(floor)), event, record)
        },
        line_reads(line.0) is None ==> fold_log(policy, start, log.push(line), None) == fold_log(
            policy,
            start,
            log,
            None,
        ),
        line_reads(line.0) == Some((event, record)) ==> fold_log(
            policy,
            start,
            log.push(line),
            None,
        ) == step(policy, fold_log(policy, start, log, None), event, record),
{
    reveal(fold_log);
    assert(log.push(line).drop_last() =~= log);
    assert(log.push(line).last() == line);
}

} // verus!
