//! What a status read of a queue reports, and a listener on an event queue.

use crate::ask::Lifetime;
use crate::bus::{landed, not_landed};
use crate::fold::{abandoned_is, id_of, is_abandoned, optional_view, record_id};
use crate::framing::lemma_filter_all;
use crate::json::{
    Json, JsonView, copied_fields, group_json_views, items_view, set_field, with_field,
};
use crate::names::{ConsumerName, DEFAULT_CONSUMER, Position, QueueName};
use crate::policy::is_event_policy;
use crate::projection::{ProjectionView, projection_of};
use crate::queue::{
    Claimed, Pushed, QueueError, RawQueue, records_events, refused_with, stands_as,
    unjudged_with,
};
use crate::queue_ops::{claims_event, claims_plain, unread_of};
use crate::queue_reads::{
    abandons, answers_slot, attends, claimable, ends_at, holds_slot, marks_of, position_of,
    reading_leaves, refuses_slot, repaired, slot_is, unread, unread_in,
};
use crate::table::{Table, lemma_lookup_inserted, lookup};
use crate::transport::{Transport, stored_view};
use crate::validate::Verdict;
use vstd::prelude::*;

verus! {

/// Everything a status read of one queue reports.
#[derive(Debug)]
pub struct QueueStatus {
    /// The queue.
    pub queue: QueueName,
    /// Whether it keeps an event log.
    pub events: bool,
    /// How many records its log holds.
    pub records: u64,
    /// The records waiting to be claimed, oldest first.
    pub waiting: Vec<Json>,
    /// The record in the pending slot, abandoned or not.
    pub pending: Option<Json>,
    /// Where the pending record was claimed.
    pub pending_position: Option<Position>,
    /// The records nobody is listening for any more, waiting or pending.
    pub abandoned: Vec<Json>,
    /// How many waiting records somebody is still owed a reading of.
    pub unread: u64,
    /// Each declared consumer's cursor, nothing for one that has read nothing.
    pub cursors: Table<Option<Position>>,
}

/// The records among several that are abandoned, in order.
pub open spec fn abandoned_among(records: Seq<JsonView>) -> Seq<JsonView>
    decreases records.len(),
{
    if records.len() == 0 {
        Seq::empty()
    } else {
        let before = abandoned_among(records.drop_last());
        if abandoned_is(records.last()) {
            before.push(records.last())
        } else {
            before
        }
    }
}

/// Records, and one more where there is one.
pub open spec fn with_pending(waiting: Seq<JsonView>, pending: Option<JsonView>) -> Seq<JsonView> {
    match pending {
        Some(record) => waiting.push(record),
        None => waiting,
    }
}

/// Whether a table holds the cursors of the first `n` consumers.
pub open spec fn holds_cursors<T: Transport>(
    cursors: Seq<(Seq<char>, Option<Position>)>,
    transport: T,
    queue: Seq<char>,
    consumers: Seq<Seq<char>>,
) -> bool {
    forall|c: Seq<char>| #[trigger]
        cursor_listed(cursors, c) == if consumers.contains(c) {
            Some(transport.cursor_of(queue, c))
        } else {
            None
        }
}

/// The cursor a table lists for a consumer.
pub open spec fn cursor_listed(cursors: Seq<(Seq<char>, Option<Position>)>, consumer: Seq<char>) -> Option<
    Option<int>,
> {
    match lookup(cursors, consumer) {
        Some(at) => Some(position_of(at)),
        None => None,
    }
}

fn abandoned_of(waiting: &Vec<Json>, pending: &Option<Json>) -> (r: Vec<Json>)
    ensures
        items_view(r@) == abandoned_among(
            with_pending(items_view(waiting@), optional_view(*pending)),
        ),
{
    let ghost all = items_view(waiting@);
    let mut out: Vec<Json> = Vec::new();
    let mut i: usize = 0;
    proof {
        assert(all.take(0) =~= Seq::<JsonView>::empty());
        assert(items_view(out@) =~= Seq::<JsonView>::empty());
    }
    while i < waiting.len()
        invariant
            i <= waiting@.len(),
            all == items_view(waiting@),
            items_view(out@) == abandoned_among(all.take(i as int)),
        decreases waiting@.len() - i,
    {
        proof {
            assert(all.take(i + 1).drop_last() =~= all.take(i as int));
            assert(all.take(i + 1).last() == all[i as int]);
        }
        if is_abandoned(&waiting[i]) {
            let ghost before = items_view(out@);
            out.push(waiting[i].copied());
            proof {
                assert(items_view(out@) =~= before.push(all[i as int]));
            }
        }
        i += 1;
    }
    proof {
        assert(all.take(i as int) =~= all);
    }
    if let Some(record) = pending {
        proof {
            assert(all.push(record@).drop_last() =~= all);
        }
        if is_abandoned(record) {
            let ghost before = items_view(out@);
            out.push(record.copied());
            proof {
                assert(items_view(out@) =~= before.push(record@));
            }
        }
    }
    out
}

impl RawQueue {
    /// The cursors of the declared consumers.
    fn cursors<T: Transport>(&self, transport: &T) -> (r: Result<
        Table<Option<Position>>,
        QueueError,
    >)
        requires
            transport.sound(),
        ensures
            match r {
                Ok(cursors) => holds_cursors(
                    cursors@,
                    *transport,
                    self.spec@.name,
                    self.spec@.consumers,
                ),
                Err(QueueError::Transport(_)) => !transport.reliable(),
                Err(_) => false,
            },
    {
        let ghost all = self.spec@.consumers;
        let mut out: Table<Option<Position>> = Table::new();
        let mut i: usize = 0;
        proof {
            assert(all.take(0) =~= Seq::<Seq<char>>::empty());
        }
        while i < self.spec.consumers.len()
            invariant
                i <= self.spec.consumers@.len(),
                all == self.spec@.consumers,
                all.len() == self.spec.consumers@.len(),
                transport.sound(),
                holds_cursors(out@, *transport, self.spec@.name, all.take(i as int)),
            decreases self.spec.consumers@.len() - i,
        {
            let consumer = &self.spec.consumers[i];
            let at = match transport.cursor(&self.spec.name, consumer) {
                Ok(at) => at,
                Err(failure) => return Err(QueueError::Transport(failure)),
            };
            out.ordered();
            let ghost before = out@;
            let ghost key = consumer@;
            out.insert(consumer.as_str(), at);
            proof {
                assert(all[i as int] == key);
                assert(all.take(i + 1) =~= all.take(i as int).push(key));
                assert forall|c: Seq<char>| #[trigger]
                    cursor_listed(out@, c) == if all.take(i + 1).contains(c) {
                        Some(transport.cursor_of(self.spec@.name, c))
                    } else {
                        None
                    } by {
                    lemma_lookup_inserted(before, key, at, c);
                    assert(cursor_listed(before, c) == if all.take(i as int).contains(c) {
                        Some(transport.cursor_of(self.spec@.name, c))
                    } else {
                        None
                    });
                    assert(all.take(i + 1)[i as int] == key);
                    if all.take(i as int).contains(c) {
                        let prior = all.take(i as int);
                        let k = choose|k: int| 0 <= k < prior.len() && prior[k] == c;
                        assert(all.take(i + 1)[k] == c);
                    }
                    if all.take(i + 1).contains(c) && c != key {
                        let next = all.take(i + 1);
                        let k = choose|k: int| 0 <= k < next.len() && next[k] == c;
                        assert(all.take(i as int)[k] == c);
                    }
                }
            }
            i += 1;
        }
        proof {
            assert(all.take(i as int) =~= all);
        }
        Ok(out)
    }

    /// Everything a status read reports.
    pub fn status<T: Transport>(&self, transport: &mut T) -> (r: Result<QueueStatus, QueueError>)
        requires
            old(transport).sound(),
        ensures
            final(transport).sound(),
            final(transport).reliable() == old(transport).reliable(),
            reading_leaves(self.spec@, *old(transport), *final(transport)),
            match r {
                Ok(status) => {
                    &&& status.queue@ == self.spec@.name
                    &&& status.events == is_event_policy(self.spec@.policy)
                    &&& status.records == old(transport).log(self.spec@.name).len()
                    &&& holds_cursors(
                        status.cursors@,
                        *old(transport),
                        self.spec@.name,
                        self.spec@.consumers,
                    )
                    &&& items_view(status.abandoned@) == abandoned_among(
                        with_pending(items_view(status.waiting@), optional_view(status.pending)),
                    )
                    &&& status.unread == unread(items_view(status.waiting@))
                    &&& if status.events {
                        exists|state: ProjectionView, claimed: Option<Claimed<Json>>|
                            {
                                &&& stands_as(self.spec@, *old(transport), state)
                                &&& items_view(status.waiting@) == state.folded.waiting
                                &&& #[trigger] slot_is(
                                    self.spec@,
                                    *old(transport),
                                    state,
                                    claimed,
                                )
                                &&& match claimed {
                                    Some(claimed) => optional_view(status.pending) == Some(
                                        claimed.record@,
                                    ) && status.pending_position == Some(claimed.position),
                                    None => status.pending is None
                                        && status.pending_position is None,
                                }
                            }
                    } else {
                        &&& status.pending is None
                        &&& status.pending_position is None
                        &&& items_view(status.waiting@) == claimable(
                            self.spec@.claims,
                            unread_of(*old(transport), self.spec@.name, DEFAULT_CONSUMER@),
                        )
                    }
                },
                Err(QueueError::Transport(_)) => !old(transport).reliable(),
                Err(_) => false,
            },
    {
        let ghost start = *transport;
        proof {
            transport.positions_are_ordered(self.spec@.name);
            lemma_filter_all(transport.log(self.spec@.name), |e: (Seq<u8>, int)| e.1 > 0);
        }
        let records: u64 = match transport.read(&self.spec.name, None, usize::MAX) {
            Ok(batch) => {
                proof {
                    assert(stored_view(batch.records@).len() == batch.records@.len());
                }
                batch.records.len() as u64
            },
            Err(failure) => return Err(QueueError::Transport(failure)),
        };
        let cursors = match self.cursors(&*transport) {
            Ok(cursors) => cursors,
            Err(failure) => return Err(failure),
        };
        let events = self.spec.policy.keeps_events();
        let mut pending: Option<Json> = None;
        let mut pending_position: Option<Position> = None;
        let waiting: Vec<Json>;
        if events {
            let folded = match self.snapshot(transport) {
                Ok(folded) => folded,
                Err(failure) => return Err(failure),
            };
            let held = self.slot_of(&*transport, &folded);
            proof {
                let name = self.spec@.name;
                assert(transport.log(name) == start.log(name));
                assert(slot_is(self.spec@, start, projection_of(folded), held));
            }
            if let Some(claimed) = held {
                pending_position = Some(claimed.position);
                pending = Some(claimed.record);
            }
            waiting = folded.waiting;
        } else {
            match self.waiting(transport) {
                Ok(found) => {
                    waiting = found;
                },
                Err(failure) => return Err(failure),
            }
        }
        let abandoned = abandoned_of(&waiting, &pending);
        let unread = unread_in(&waiting) as u64;
        Ok(
            QueueStatus {
                queue: self.spec.name.clone(),
                events,
                records,
                waiting,
                pending,
                pending_position,
                abandoned,
                unread,
                cursors,
            },
        )
    }

    /// Answers the pending record, refused unless it was claimed at `position`, with
    /// a reply that ends at `reply_position`: its slot is released.
    pub fn answer_at<T: Transport>(
        &self,
        transport: &mut T,
        position: Position,
        reply_position: Position,
    ) -> (r: Result<Claimed<Json>, QueueError>)
        requires
            old(transport).sound(),
        ensures
            final(transport).sound(),
            final(transport).reliable() == old(transport).reliable(),
            match r {
                Ok(claimed) => {
                    &&& is_event_policy(self.spec@.policy)
                    &&& holds_slot(self.spec@, *old(transport), Some(claimed))
                    &&& claimed.position@ == position@
                    &&& self.spec@.answers is Some
                    &&& ends_at(
                        old(transport).log(self.spec@.answers->0),
                        reply_position@ as int,
                    )
                    &&& exists|state: ProjectionView|
                        {
                            &&& stands_as(self.spec@, *old(transport), state)
                            &&& slot_is(self.spec@, *old(transport), state, Some(claimed))
                            &&& #[trigger] answers_slot(
                                self.spec@,
                                *old(transport),
                                *final(transport),
                                state,
                                claimed.id,
                                claimed.id is Some,
                            )
                        }
                },
                Err(QueueError::NotAnEventQueue { .. }) => !is_event_policy(self.spec@.policy),
                Err(QueueError::NoReply { .. }) => repaired(
                    self.spec@,
                    *old(transport),
                    *final(transport),
                ) && (self.spec@.answers is None || !ends_at(
                    old(transport).log(self.spec@.answers->0),
                    reply_position@ as int,
                )),
                Err(QueueError::NotPending { queue, why }) => {
                    &&& repaired(self.spec@, *old(transport), *final(transport))
                    &&& exists|slot: Option<Claimed<Json>>| #[trigger]
                        holds_slot(self.spec@, *old(transport), slot) && refuses_slot(
                            QueueError::NotPending { queue, why },
                            self.spec@.name,
                            slot,
                            position,
                        )
                },
                Err(QueueError::Transport(_)) => !old(transport).reliable(),
                Err(_) => false,
            },
    {
        if let Err(e) = self.event_queue("pending slot to answer") {
            return Err(e);
        }
        let (folded, grown) = match self.current(&*transport) {
            Ok(current) => current,
            Err(failure) => return Err(failure),
        };
        let ghost before = *old(transport);
        let ghost state = projection_of(folded);
        let slot = self.slot_of(&*transport, &folded);
        proof {
            assert(stands_as(self.spec@, before, state));
            assert(holds_slot(self.spec@, before, slot));
        }
        let claimed = match self.held_at(slot, position) {
            Ok(claimed) => claimed,
            Err(e) => {
                self.repair(transport, &folded, grown);
                return Err(e);
            },
        };
        if let Err(e) = self.reply_at(&*transport, reply_position) {
            self.repair(transport, &folded, grown);
            return Err(e);
        }
        match self.release_from(transport, folded, claimed.id) {
            Ok(answered) => {
                proof {
                    assert(answers_slot(
                        self.spec@,
                        before,
                        *transport,
                        state,
                        claimed.id,
                        answered,
                    ));
                    assert(answered == (claimed.id is Some));
                }
                Ok(claimed)
            },
            Err(failure) => Err(failure),
        }
    }
}

// ---------------------------------------------------------------------------
// Listeners.
// ---------------------------------------------------------------------------

/// A listener on one event queue: what it raises and claims is its own until it
/// abandons them.
#[derive(Debug)]
pub struct Subscription {
    queue: RawQueue,
    consumer: ConsumerName,
    lifetime: Lifetime,
    touched: Vec<u64>,
}

/// The ids records carry, in order.
pub open spec fn ids_among(records: Seq<JsonView>) -> Seq<u64>
    decreases records.len(),
{
    if records.len() == 0 {
        Seq::empty()
    } else {
        let before = ids_among(records.drop_last());
        match id_of(records.last()) {
            Some(id) => before.push(id),
            None => before,
        }
    }
}

/// Ids with one more, where there is one.
pub open spec fn with_touched(touched: Seq<u64>, id: Option<u64>) -> Seq<u64> {
    match id {
        Some(id) => touched.push(id),
        None => touched,
    }
}

/// A record as a listener raises it: stamped with its asker where it is durable.
pub open spec fn raised_through(record: JsonView, lifetime: Lifetime) -> JsonView {
    match (lifetime, record) {
        (Lifetime::Durable(asker), JsonView::Object(fields)) => JsonView::Object(
            with_field(fields, "asker"@, JsonView::Str(asker@)),
        ),
        _ => record,
    }
}

impl Subscription {
    /// The queue listened on.
    pub closed spec fn on(&self) -> RawQueue {
        self.queue
    }

    /// Who listens.
    pub closed spec fn by(&self) -> Seq<char> {
        self.consumer@
    }

    /// How long its claims stay its own.
    pub closed spec fn lives(&self) -> Lifetime {
        self.lifetime
    }

    /// The ids this listener raised, claimed or took back.
    pub closed spec fn owns(&self) -> Seq<u64> {
        self.touched@
    }

    /// Starts listening: a durable listener first takes back everything its asker
    /// left abandoned, and those become its own.
    pub fn open<T: Transport>(
        transport: &mut T,
        queue: RawQueue,
        consumer: ConsumerName,
        lifetime: Lifetime,
    ) -> (r: Result<Self, QueueError>)
        requires
            old(transport).sound(),
        ensures
            final(transport).sound(),
            final(transport).reliable() == old(transport).reliable(),
            match r {
                Ok(listener) => {
                    &&& is_event_policy(queue.spec@.policy)
                    &&& listener.on() == queue
                    &&& listener.by() == consumer@
                    &&& listener.lives() == lifetime
                    &&& match lifetime {
                        Lifetime::Session => *final(transport) == *old(transport)
                            && listener.owns() == Seq::<u64>::empty(),
                        Lifetime::Durable(asker) => exists|
                            state: ProjectionView,
                            positions: Seq<int>,
                            records: Seq<Json>,
                        |
                            {
                                &&& stands_as(queue.spec@, *old(transport), state)
                                &&& #[trigger] records_events(
                                    queue.spec@,
                                    *old(transport),
                                    *final(transport),
                                    state,
                                    attends(state.folded, asker@),
                                    positions,
                                )
                                &&& #[trigger] marks_of(attends(state.folded, asker@), records)
                                &&& listener.owns() == ids_among(items_view(records))
                            },
                    }
                },
                Err(QueueError::NotAnEventQueue { .. }) => !is_event_policy(queue.spec@.policy)
                    && *final(transport) == *old(transport),
                Err(QueueError::Transport(_)) => !old(transport).reliable(),
                Err(_) => false,
            },
    {
        if let Err(e) = queue.event_queue("listeners that abandon and attend") {
            return Err(e);
        }
        let mut touched: Vec<u64> = Vec::new();
        if let Lifetime::Durable(asker) = &lifetime {
            let records = match queue.attend(transport, asker) {
                Ok(records) => records,
                Err(failure) => return Err(failure),
            };
            let ghost all = items_view(records@);
            let mut i: usize = 0;
            proof {
                assert(all.take(0) =~= Seq::<JsonView>::empty());
            }
            while i < records.len()
                invariant
                    i <= records@.len(),
                    all == items_view(records@),
                    touched@ == ids_among(all.take(i as int)),
                decreases records@.len() - i,
            {
                proof {
                    assert(all.take(i + 1).drop_last() =~= all.take(i as int));
                    assert(all.take(i + 1).last() == all[i as int]);
                }
                if let Some(id) = record_id(&records[i]) {
                    touched.push(id);
                }
                i += 1;
            }
            proof {
                assert(all.take(i as int) =~= all);
            }
        }
        Ok(Subscription { queue, consumer, lifetime, touched })
    }

    /// The queue listened on.
    pub fn queue(&self) -> (r: &RawQueue)
        ensures
            *r == self.on(),
    {
        &self.queue
    }

    /// Who listens.
    pub fn consumer(&self) -> (r: &ConsumerName)
        ensures
            r@ == self.by(),
    {
        &self.consumer
    }

    /// How long its claims stay its own.
    pub fn lifetime(&self) -> (r: &Lifetime)
        ensures
            *r == self.lives(),
    {
        &self.lifetime
    }

    /// A record as this listener raises it.
    pub fn raised(&self, record: &Json) -> (r: Json)
        ensures
            r@ == raised_through(record@, self.lives()),
    {
        broadcast use group_json_views;

        match (&self.lifetime, record) {
            (Lifetime::Durable(asker), Json::Object(fields)) => {
                let mut out = copied_fields(fields);
                set_field(&mut out, "asker", Json::text(asker.as_str()));
                Json::Object(out)
            },
            _ => record.copied(),
        }
    }

    /// Raises a record through this listener, where `verdict`, what the queue's
    /// validators say of it as it is raised, passes: it is its own to abandon.
    pub fn push<T: Transport>(&mut self, transport: &mut T, record: &Json, verdict: &Verdict) -> (r:
        Result<Pushed<Json>, QueueError>)
        requires
            old(transport).sound(),
        ensures
            final(transport).sound(),
            final(transport).reliable() == old(transport).reliable(),
            final(self).on() == old(self).on(),
            final(self).by() == old(self).by(),
            final(self).lives() == old(self).lives(),
            match r {
                Ok(pushed) => {
                    &&& *verdict is Pass
                    &&& landed(
                        old(self).on().spec@,
                        old(self).on().registry@,
                        *old(transport),
                        *final(transport),
                        raised_through(record@, old(self).lives()),
                        pushed,
                    )
                    &&& final(self).owns() == with_touched(old(self).owns(), pushed.id)
                },
                Err(e) => {
                    &&& final(self).owns() == old(self).owns()
                    &&& match *verdict {
                        Verdict::Refuse { reason } => *final(transport) == *old(transport)
                            && refused_with(e, old(self).on().spec@.name, reason@),
                        Verdict::Unjudged { reason } => *final(transport) == *old(transport)
                            && unjudged_with(e, old(self).on().spec@.name, reason@),
                        Verdict::Pass => (e is Transport && !old(transport).reliable()) || (*final(transport) == *old(transport)
                            && not_landed(
                            old(self).on().spec@,
                            old(self).on().registry@,
                            *old(transport),
                            raised_through(record@, old(self).lives()),
                            e,
                        )),
                    }
                },
            },
    {
        let raised = self.raised(record);
        match self.queue.push(transport, &raised, verdict) {
            Ok(pushed) => {
                if let Some(id) = pushed.id {
                    self.touched.push(id);
                }
                Ok(pushed)
            },
            Err(failure) => Err(failure),
        }
    }

    /// Claims the next record through this listener, making it its own.
    pub fn claim<T: Transport>(&mut self, transport: &mut T) -> (r: Result<
        Option<Claimed<Json>>,
        QueueError,
    >)
        requires
            old(transport).sound(),
        ensures
            final(transport).sound(),
            final(transport).reliable() == old(transport).reliable(),
            final(self).on() == old(self).on(),
            final(self).by() == old(self).by(),
            final(self).lives() == old(self).lives(),
            match r {
                Ok(claimed) => {
                    &&& final(self).owns() == with_touched(
                        old(self).owns(),
                        match claimed {
                            Some(claimed) => claimed.id,
                            None => None,
                        },
                    )
                    &&& if is_event_policy(old(self).on().spec@.policy) {
                        exists|state: ProjectionView|
                            stands_as(old(self).on().spec@, *old(transport), state)
                                && #[trigger] claims_event(
                                old(self).on().spec@,
                                *old(transport),
                                *final(transport),
                                state,
                                claimed,
                            )
                    } else {
                        claims_plain(
                            old(self).on().spec@,
                            *old(transport),
                            *final(transport),
                            old(self).by(),
                            claimed,
                        )
                    }
                },
                Err(QueueError::Transport(_)) => !old(transport).reliable() && final(self).owns() == old(self).owns(),
                Err(_) => false,
            },
    {
        match self.queue.claim(transport, &self.consumer) {
            Ok(claimed) => {
                if let Some(one) = &claimed {
                    if let Some(id) = one.id {
                        self.touched.push(id);
                    }
                }
                Ok(claimed)
            },
            Err(failure) => Err(failure),
        }
    }

    /// Marks everything this listener raised, claimed or took back, and has not
    /// seen answered, as abandoned, and hands back what was marked.
    pub fn abandon<T: Transport>(&self, transport: &mut T) -> (r: Result<Vec<Json>, QueueError>)
        requires
            old(transport).sound(),
        ensures
            final(transport).sound(),
            final(transport).reliable() == old(transport).reliable(),
            match r {
                Ok(records) => is_event_policy(self.on().spec@.policy) && exists|
                    state: ProjectionView,
                    positions: Seq<int>,
                |
                    stands_as(self.on().spec@, *old(transport), state) && #[trigger] records_events(
                        self.on().spec@,
                        *old(transport),
                        *final(transport),
                        state,
                        abandons(state.folded, self.owns()),
                        positions,
                    ) && marks_of(abandons(state.folded, self.owns()), records@),
                Err(QueueError::NotAnEventQueue { .. }) => !is_event_policy(self.on().spec@.policy)
                    && *final(transport) == *old(transport),
                Err(QueueError::Transport(_)) => !old(transport).reliable(),
                Err(_) => false,
            },
    {
        let r = self.queue.abandon(transport, &self.touched);
        proof {
            if r is Ok {
                let records = r->Ok_0;
                let (state, positions) = choose|state: ProjectionView, positions: Seq<int>|
                    stands_as(self.queue.spec@, *old(transport), state)
                        && #[trigger] records_events(
                        self.queue.spec@,
                        *old(transport),
                        *transport,
                        state,
                        abandons(state.folded, self.touched@),
                        positions,
                    ) && marks_of(abandons(state.folded, self.touched@), records@);
                assert(records_events(
                    self.on().spec@,
                    *old(transport),
                    *transport,
                    state,
                    abandons(state.folded, self.owns()),
                    positions,
                ));
            }
        }
        r
    }
}

} // verus!
