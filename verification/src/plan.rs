//! Pushing several records, all of them or none: what each is to be appended as is
//! settled, and every refusal made, before the first is appended.

use crate::bind::Layout;
use crate::bus::{Bus, BusError, landed, pushed_view, sent, unknown_queue};
use crate::bytes::{lemma_line_is_record, text_bytes};
use crate::fold::{Event, Folded, id_of, identified, record_id, with_id};
use crate::framing::lemma_filter_all;
use crate::json::{Json, JsonView, items_view};
use crate::names::QueueName;
use crate::policy::{PolicyView, QueueSpec, QueueSpecView, is_event_policy};
use crate::prepare::routed_view;
use crate::projection::{ProjectionView, projection_of};
use crate::queue::{
    Pushed, QueueError, RawQueue, events_view, passes_schema, positions_of, records_events,
    stands_as, steps,
};
use crate::queue_ops::{appends_line, pushes, record_refused};
use crate::schema::SchemaIdView;
use crate::table::lookup;
use crate::text::same_text;
use crate::transport::{Transport, stored_view};
use vstd::prelude::*;

verus! {

/// Which of the first `n` records go onto `queue`, as they are to be appended.
pub open spec fn earlier_on(
    routed: Seq<(Seq<char>, JsonView)>,
    records: Seq<JsonView>,
    queue: Seq<char>,
    n: int,
) -> Seq<JsonView>
    decreases n,
{
    if n <= 0 {
        Seq::empty()
    } else {
        let before = earlier_on(routed, records, queue, n - 1);
        if routed[n - 1].0 == queue {
            before.push(records[n - 1])
        } else {
            before
        }
    }
}

/// What happens to records that are queued.
pub open spec fn as_queued(records: Seq<JsonView>) -> Seq<(Event, JsonView)> {
    Seq::new(records.len(), |i: int| (Event::Queued, records[i]))
}

/// A count as the number a record is given.
pub open spec fn numbering(count: nat) -> u64 {
    (count % 0x1_0000_0000_0000_0000) as u64
}

/// An event queue that stood as `base`, with `earlier` queued on it since.
pub open spec fn carried(
    policy: PolicyView,
    base: ProjectionView,
    earlier: Seq<JsonView>,
) -> ProjectionView {
    ProjectionView { folded: steps(policy, base.folded, as_queued(earlier)), ..base }
}

/// What a record is to be appended as, on a queue that stood as `base` in `before` and
/// onto which `earlier` go first.
pub open spec fn planned_record<T: Transport>(
    spec: QueueSpecView,
    before: T,
    base: ProjectionView,
    earlier: Seq<JsonView>,
    record: JsonView,
) -> Option<JsonView> {
    if is_event_policy(spec.policy) {
        identified(record, carried(spec.policy, base, earlier).folded.next_id)
    } else if spec.numbered {
        identified(record, numbering(before.log(spec.name).len() + earlier.len()))
    } else {
        Some(record)
    }
}

/// Whether a record can be appended as `planned`.
pub open spec fn planned_as<T: Transport>(
    spec: QueueSpecView,
    schemas: Seq<(SchemaIdView, JsonView)>,
    before: T,
    base: ProjectionView,
    earlier: Seq<JsonView>,
    record: JsonView,
    planned: JsonView,
) -> bool {
    &&& planned_record(spec, before, base, earlier, record) == Some(planned)
    &&& passes_schema(spec, schemas, planned)
    &&& is_event_policy(spec.policy) ==> carried(spec.policy, base, earlier).folded.next_id
        < u64::MAX
}

/// Whether the first `n` records an offer was routed into can be appended, in order, as
/// `records`.
pub open spec fn is_planned<T: Transport>(
    queues: Seq<(Seq<char>, QueueSpec)>,
    schemas: Seq<(SchemaIdView, JsonView)>,
    before: T,
    routed: Seq<(Seq<char>, JsonView)>,
    records: Seq<JsonView>,
    n: int,
) -> bool {
    forall|i: int|
        0 <= i < n ==> lookup(queues, (#[trigger] routed[i]).0) is Some && can_land(
            lookup(queues, routed[i].0)->0@,
            schemas,
            before,
            earlier_on(routed, records, routed[i].0, i),
            routed[i].1,
            records[i],
        )
}

/// Whether a record can be appended as `planned`, as its queue stands and `earlier` go
/// first.
pub open spec fn can_land<T: Transport>(
    spec: QueueSpecView,
    schemas: Seq<(SchemaIdView, JsonView)>,
    before: T,
    earlier: Seq<JsonView>,
    record: JsonView,
    planned: JsonView,
) -> bool {
    exists|base: ProjectionView|
        (is_event_policy(spec.policy) ==> stands_as(spec, before, base)) && #[trigger] planned_as(
            spec,
            schemas,
            before,
            base,
            earlier,
            record,
            planned,
        )
}

/// Whether `error` is why a record cannot be appended after `earlier`.
pub open spec fn cannot_land<T: Transport>(
    spec: QueueSpecView,
    schemas: Seq<(SchemaIdView, JsonView)>,
    before: T,
    earlier: Seq<JsonView>,
    record: JsonView,
    error: QueueError,
) -> bool {
    exists|base: ProjectionView|
        (is_event_policy(spec.policy) ==> stands_as(spec, before, base))
            && #[trigger] plan_refused(spec, schemas, before, base, earlier, record, error)
}

/// Why a record cannot be appended, on a queue that stood as `base` and onto which
/// `earlier` go first.
pub open spec fn plan_refused<T: Transport>(
    spec: QueueSpecView,
    schemas: Seq<(SchemaIdView, JsonView)>,
    before: T,
    base: ProjectionView,
    earlier: Seq<JsonView>,
    record: JsonView,
    error: QueueError,
) -> bool {
    record_refused(
        spec,
        schemas,
        planned_record(spec, before, base, earlier, record),
        carried(spec.policy, base, earlier).folded.next_id,
        record,
        error,
    )
}

/// Whether `error` is why an offer is refused at its record `n`, those before it to be
/// appended as `records`.
pub open spec fn refused_at<T: Transport>(
    queues: Seq<(Seq<char>, QueueSpec)>,
    schemas: Seq<(SchemaIdView, JsonView)>,
    before: T,
    routed: Seq<(Seq<char>, JsonView)>,
    records: Seq<JsonView>,
    n: int,
    error: BusError,
) -> bool {
    &&& 0 <= n < routed.len()
    &&& is_planned(queues, schemas, before, routed, records, n)
    &&& match error {
        BusError::UnknownQueue { .. } => lookup(queues, routed[n].0) is None && unknown_queue(
            error,
            routed[n].0,
            queues,
        ),
        BusError::Queue(failure) => lookup(queues, routed[n].0) is Some && cannot_land(
            lookup(queues, routed[n].0)->0@,
            schemas,
            before,
            earlier_on(routed, records, routed[n].0, n),
            routed[n].1,
            failure,
        ),
        _ => false,
    }
}

/// Whether the first `n` records of an offer were appended, in order, each onto its
/// queue as it stood in `before` with those before it queued.
pub open spec fn sent_whole<T: Transport>(
    queues: Seq<(Seq<char>, QueueSpec)>,
    schemas: Seq<(SchemaIdView, JsonView)>,
    routed: Seq<(Seq<char>, JsonView)>,
    pushed: Seq<(Seq<char>, Pushed<Json>)>,
    n: int,
    before: T,
    after: T,
) -> bool
    decreases n,
{
    if n <= 0 {
        n == 0 && before == after
    } else {
        &&& n <= routed.len()
        &&& n <= pushed.len()
        &&& pushed[n - 1].0 == routed[n - 1].0
        &&& lookup(queues, routed[n - 1].0) is Some
        &&& exists|mid: T|
            {
                &&& sent_whole(queues, schemas, routed, pushed, n - 1, before, mid)
                &&& #[trigger] landed_after(
                    lookup(queues, routed[n - 1].0)->0@,
                    schemas,
                    before,
                    mid,
                    after,
                    earlier_on(routed, records_pushed(pushed), routed[n - 1].0, n - 1),
                    routed[n - 1].1,
                    pushed[n - 1].1,
                )
            }
    }
}

/// The records that were pushed.
pub open spec fn records_pushed(pushed: Seq<(Seq<char>, Pushed<Json>)>) -> Seq<JsonView> {
    Seq::new(pushed.len(), |i: int| pushed[i].1.record@)
}

/// Whether a record landed as `pushed`, on a queue as it stood in `before` with
/// `earlier` queued since.
pub open spec fn landed_after<T: Transport>(
    spec: QueueSpecView,
    schemas: Seq<(SchemaIdView, JsonView)>,
    before: T,
    mid: T,
    after: T,
    earlier: Seq<JsonView>,
    record: JsonView,
    pushed: Pushed<Json>,
) -> bool {
    exists|base: ProjectionView|
        (is_event_policy(spec.policy) ==> stands_as(spec, before, base)) && #[trigger] pushes_after(
            spec,
            schemas,
            mid,
            after,
            base,
            earlier,
            record,
            pushed,
        )
}

/// What a push onto a queue that stood as `base`, with `earlier` queued since, did.
pub open spec fn pushes_after<T: Transport>(
    spec: QueueSpecView,
    schemas: Seq<(SchemaIdView, JsonView)>,
    mid: T,
    after: T,
    base: ProjectionView,
    earlier: Seq<JsonView>,
    record: JsonView,
    pushed: Pushed<Json>,
) -> bool {
    pushes(spec, schemas, mid, after, carried(spec.policy, base, earlier), record, pushed)
}

/// Where the last of the first `n` records onto `queue` is.
pub open spec fn last_routed(routed: Seq<(Seq<char>, JsonView)>, queue: Seq<char>, n: int) -> Option<int>
    decreases n,
{
    if n <= 0 {
        None
    } else if routed[n - 1].0 == queue {
        Some(n - 1)
    } else {
        last_routed(routed, queue, n - 1)
    }
}

/// One record settled: its queue, what it is to be appended as, and what its queue folds
/// to before it, where it keeps events.
pub struct Planned {
    /// The queue.
    pub queue: RawQueue,
    /// The record as it is to be appended.
    pub record: Json,
    /// What the queue folds to before it.
    pub folded: Option<Folded>,
}

/// The records of a plan.
pub open spec fn plan_view(plan: Seq<Planned>) -> Seq<JsonView> {
    Seq::new(plan.len(), |i: int| plan[i].record@)
}

/// Whether a record is settled, on a queue onto which `earlier` go first.
pub open spec fn is_settled<T: Transport>(
    spec: QueueSpecView,
    schemas: Seq<(SchemaIdView, JsonView)>,
    before: T,
    earlier: Seq<JsonView>,
    record: JsonView,
    planned: Planned,
) -> bool {
    &&& planned.queue.spec@ == spec
    &&& planned.queue.registry@ == schemas
    &&& exists|base: ProjectionView|
        {
            &&& is_event_policy(spec.policy) ==> stands_as(spec, before, base)
            &&& #[trigger] planned_as(
                spec,
                schemas,
                before,
                base,
                earlier,
                record,
                planned.record@,
            )
            &&& is_event_policy(spec.policy) ==> {
                &&& planned.folded is Some
                &&& projection_of(planned.folded->0) == carried(spec.policy, base, earlier)
                &&& planned.folded->0.accounted is Some
            }
        }
}

/// Whether each record of an offer is settled.
pub open spec fn is_ready<T: Transport>(
    queues: Seq<(Seq<char>, QueueSpec)>,
    schemas: Seq<(SchemaIdView, JsonView)>,
    before: T,
    routed: Seq<(Seq<char>, JsonView)>,
    plan: Seq<Planned>,
) -> bool {
    forall|i: int|
        0 <= i < plan.len() ==> lookup(queues, routed[i].0) is Some && lookup(
            queues,
            routed[i].0,
        )->0@.name == routed[i].0 && is_settled(
            lookup(queues, routed[i].0)->0@,
            schemas,
            before,
            earlier_on(routed, plan_view(plan), routed[i].0, i),
            routed[i].1,
            #[trigger] plan[i],
        )
}

pub proof fn lemma_earlier_same(
    routed: Seq<(Seq<char>, JsonView)>,
    a: Seq<JsonView>,
    b: Seq<JsonView>,
    queue: Seq<char>,
    n: int,
)
    requires
        n <= a.len(),
        n <= b.len(),
        forall|i: int| 0 <= i < n ==> a[i] == b[i],
    ensures
        earlier_on(routed, a, queue, n) == earlier_on(routed, b, queue, n),
    decreases n,
{
    if n > 0 {
        lemma_earlier_same(routed, a, b, queue, n - 1);
    }
}

/// The records of `plan` onto `queue`.
fn planned_on(plan: &Vec<Planned>, routed: &Vec<(QueueName, Json)>, queue: &QueueName) -> (r: Vec<
    Json,
>)
    requires
        plan@.len() <= routed@.len(),
    ensures
        items_view(r@) == earlier_on(
            routed_view(routed@),
            plan_view(plan@),
            queue@,
            plan@.len() as int,
        ),
{
    let ghost all = routed_view(routed@);
    let ghost records = plan_view(plan@);
    let mut out: Vec<Json> = Vec::new();
    let mut i: usize = 0;
    proof {
        assert(items_view(out@) =~= Seq::<JsonView>::empty());
    }
    while i < plan.len()
        invariant
            i <= plan@.len() <= routed@.len(),
            all == routed_view(routed@),
            records == plan_view(plan@),
            items_view(out@) == earlier_on(all, records, queue@, i as int),
        decreases plan@.len() - i,
    {
        let ghost before = items_view(out@);
        proof {
            assert(all[i as int].0 == routed@[i as int].0@);
        }
        if same_text(routed[i].0.as_str(), queue.as_str()) {
            out.push(plan[i].record.copied());
            proof {
                assert(items_view(out@) =~= before.push(records[i as int]));
            }
        }
        i += 1;
    }
    out
}

impl RawQueue {
    /// Settles a record onto which queue `earlier` go first; nothing is appended.
    fn settle<T: Transport>(self, transport: &T, earlier: &Vec<Json>, record: &Json) -> (r: Result<
        Planned,
        QueueError,
    >)
        requires
            transport.sound(),
        ensures
            match r {
                Ok(planned) => is_settled(
                    self.spec@,
                    self.registry@,
                    *transport,
                    items_view(earlier@),
                    record@,
                    planned,
                ),
                Err(QueueError::Transport(_)) => !transport.reliable(),
                Err(e) => cannot_land(
                    self.spec@,
                    self.registry@,
                    *transport,
                    items_view(earlier@),
                    record@,
                    e,
                ),
            },
    {
        if self.spec.policy.keeps_events() {
            self.settle_event(transport, earlier, record)
        } else {
            self.settle_plain(transport, earlier, record)
        }
    }

    fn settle_event<T: Transport>(self, transport: &T, earlier: &Vec<Json>, record: &Json) -> (r:
        Result<Planned, QueueError>)
        requires
            transport.sound(),
            is_event_policy(self.spec@.policy),
        ensures
            match r {
                Ok(planned) => is_settled(
                    self.spec@,
                    self.registry@,
                    *transport,
                    items_view(earlier@),
                    record@,
                    planned,
                ),
                Err(QueueError::Transport(_)) => !transport.reliable(),
                Err(e) => cannot_land(
                    self.spec@,
                    self.registry@,
                    *transport,
                    items_view(earlier@),
                    record@,
                    e,
                ),
            },
    {
        let (mut folded, _) = match self.current(transport) {
            Ok(current) => current,
            Err(failure) => return Err(failure),
        };
        let ghost base = projection_of(folded);
        let ghost first = items_view(earlier@);
        let ghost events = as_queued(first);
        let ghost spec = self.spec@;
        let ghost schemas = self.registry@;
        let mut i: usize = 0;
        proof {
            assert(events.take(0) =~= Seq::<(Event, JsonView)>::empty());
        }
        while i < earlier.len()
            invariant
                i <= earlier@.len(),
                first == items_view(earlier@),
                events == as_queued(first),
                spec == self.spec@,
                folded.accounted == base.accounted,
                folded.seal == base.seal,
                folded@ == steps(spec.policy, base.folded, events.take(i as int)),
            decreases earlier@.len() - i,
        {
            folded.apply(&self.spec.policy, Some(Event::Queued), &earlier[i]);
            proof {
                assert(events.take(i + 1).drop_last() =~= events.take(i as int));
                assert(events.take(i + 1).last() == (Event::Queued, first[i as int]));
            }
            i += 1;
        }
        proof {
            assert(events.take(i as int) =~= events);
            assert(projection_of(folded) == carried(spec.policy, base, first));
        }
        if folded.next_id == u64::MAX {
            let e = QueueError::NoIdLeft { queue: self.spec.name.clone(), last: u64::MAX - 1 };
            assert(plan_refused(spec, schemas, *transport, base, first, record@, e));
            return Err(e);
        }
        let numbered = match with_id(record, folded.next_id) {
            Some(numbered) => numbered,
            None => {
                let e = self.not_an_object(record);
                assert(plan_refused(spec, schemas, *transport, base, first, record@, e));
                return Err(e);
            },
        };
        if let Err(e) = self.check(&numbered) {
            assert(plan_refused(spec, schemas, *transport, base, first, record@, e));
            return Err(e);
        }
        proof {
            assert(planned_as(spec, schemas, *transport, base, first, record@, numbered@));
        }
        Ok(Planned { queue: self, record: numbered, folded: Some(folded) })
    }

    fn settle_plain<T: Transport>(self, transport: &T, earlier: &Vec<Json>, record: &Json) -> (r:
        Result<Planned, QueueError>)
        requires
            transport.sound(),
            !is_event_policy(self.spec@.policy),
        ensures
            match r {
                Ok(planned) => is_settled(
                    self.spec@,
                    self.registry@,
                    *transport,
                    items_view(earlier@),
                    record@,
                    planned,
                ),
                Err(QueueError::Transport(_)) => !transport.reliable(),
                Err(e) => cannot_land(
                    self.spec@,
                    self.registry@,
                    *transport,
                    items_view(earlier@),
                    record@,
                    e,
                ),
            },
    {
        let ghost base: ProjectionView = arbitrary();
        let ghost first = items_view(earlier@);
        let ghost spec = self.spec@;
        let ghost schemas = self.registry@;
        let queue = &self.spec.name;
        let numbered = if self.spec.numbered {
            proof {
                transport.positions_are_ordered(queue@);
                lemma_filter_all(transport.log(queue@), |e: (Seq<u8>, int)| e.1 > 0);
            }
            let batch = match transport.read(queue, None, usize::MAX) {
                Ok(batch) => batch,
                Err(failure) => return Err(QueueError::Transport(failure)),
            };
            proof {
                assert(stored_view(batch.records@).len() == batch.records@.len());
                assert(first.len() == earlier@.len());
            }
            let held: u64 = batch.records.len() as u64;
            let more: u64 = earlier.len() as u64;
            let number: u64 = held.wrapping_add(more);
            proof {
                assert(number == numbering(transport.log(queue@).len() + first.len()));
            }
            match with_id(record, number) {
                Some(numbered) => numbered,
                None => {
                    let e = self.not_an_object(record);
                    assert(plan_refused(spec, schemas, *transport, base, first, record@, e));
                    return Err(e);
                },
            }
        } else {
            record.copied()
        };
        if let Err(e) = self.check(&numbered) {
            assert(plan_refused(spec, schemas, *transport, base, first, record@, e));
            return Err(e);
        }
        proof {
            assert(planned_as(spec, schemas, *transport, base, first, record@, numbered@));
        }
        Ok(Planned { queue: self, record: numbered, folded: None })
    }
}

impl Planned {
    /// Appends the record, as it was settled.
    fn land<T: Transport>(self, transport: &mut T) -> (r: Result<Pushed<Json>, QueueError>)
        requires
            old(transport).sound(),
            is_event_policy(self.queue.spec@.policy) ==> self.folded is Some
                && self.folded->0.accounted is Some,
        ensures
            final(transport).sound(),
            final(transport).reliable() == old(transport).reliable(),
            match r {
                Ok(pushed) => {
                    &&& pushed.record@ == self.record@
                    &&& pushed.id == id_of(self.record@)
                    &&& if is_event_policy(self.queue.spec@.policy) {
                        records_events(
                            self.queue.spec@,
                            *old(transport),
                            *final(transport),
                            projection_of(self.folded->0),
                            seq![(Event::Queued, self.record@)],
                            seq![pushed.position@ as int],
                        )
                    } else {
                        appends_line(
                            self.queue.spec@,
                            *old(transport),
                            *final(transport),
                            self.record@,
                            pushed.position@ as int,
                        )
                    }
                },
                Err(QueueError::Transport(_)) => !old(transport).reliable(),
                Err(_) => false,
            },
    {
        let id = record_id(&self.record);
        let kept = self.record.copied();
        if self.queue.spec.policy.keeps_events() {
            if let Some(folded) = self.folded {
                let mut events: Vec<(Event, Json)> = Vec::new();
                events.push((Event::Queued, self.record));
                return match self.queue.record(transport, folded, events) {
                    Ok(recorded) => {
                        let position = recorded[0].1;
                        proof {
                            assert(events_view(events@) =~= seq![(Event::Queued, kept@)]);
                            assert(positions_of(recorded@) =~= seq![position@ as int]);
                        }
                        Ok(Pushed { record: kept, position, id })
                    },
                    Err(failure) => Err(failure),
                };
            }
        }
        let text = self.record.render();
        proof {
            lemma_line_is_record(text@);
        }
        let line = text_bytes(text.as_str());
        match transport.append(&self.queue.spec.name, &line) {
            Ok(position) => Ok(Pushed { record: kept, position, id }),
            Err(failure) => Err(QueueError::Transport(failure)),
        }
    }
}

pub proof fn lemma_whole_extends<T: Transport>(
    queues: Seq<(Seq<char>, QueueSpec)>,
    schemas: Seq<(SchemaIdView, JsonView)>,
    routed: Seq<(Seq<char>, JsonView)>,
    pushed: Seq<(Seq<char>, Pushed<Json>)>,
    longer: Seq<(Seq<char>, Pushed<Json>)>,
    n: int,
    before: T,
    after: T,
)
    requires
        sent_whole(queues, schemas, routed, pushed, n, before, after),
        pushed.len() <= longer.len(),
        forall|i: int| 0 <= i < pushed.len() ==> longer[i] == pushed[i],
    ensures
        sent_whole(queues, schemas, routed, longer, n, before, after),
    decreases n,
{
    if n > 0 {
        let queue = routed[n - 1].0;
        let earlier = earlier_on(routed, records_pushed(pushed), queue, n - 1);
        let mid = choose|mid: T|
            sent_whole(queues, schemas, routed, pushed, n - 1, before, mid)
                && #[trigger] landed_after(
                lookup(queues, queue)->0@,
                schemas,
                before,
                mid,
                after,
                earlier,
                routed[n - 1].1,
                pushed[n - 1].1,
            );
        lemma_whole_extends(queues, schemas, routed, pushed, longer, n - 1, before, mid);
        lemma_earlier_same(routed, records_pushed(pushed), records_pushed(longer), queue, n - 1);
        assert(sent_whole(queues, schemas, routed, longer, n - 1, before, mid));
    }
}

impl<'a, L: Layout> Bus<'a, L> {
    /// Settles each record an offer was routed into, or refuses the offer at the first
    /// its queue would refuse; nothing is appended.
    pub(crate) fn plan<T: Transport>(&self, transport: &T, routed: &Vec<(QueueName, Json)>) -> (r: Result<
        Vec<Planned>,
        BusError,
    >)
        requires
            transport.sound(),
        ensures
            match r {
                Ok(plan) => plan@.len() == routed@.len() && is_ready(
                    self.queues_are(),
                    self.schemas(),
                    *transport,
                    routed_view(routed@),
                    plan@,
                ),
                Err(BusError::Queue(QueueError::Transport(_))) => !transport.reliable(),
                Err(e) => exists|records: Seq<JsonView>| #[trigger]
                    refused_at(
                        self.queues_are(),
                        self.schemas(),
                        *transport,
                        routed_view(routed@),
                        records,
                        records.len() as int,
                        e,
                    ),
            },
    {
        let ghost queues = self.queues_are();
        let ghost schemas = self.schemas();
        let ghost all = routed_view(routed@);
        let mut plan: Vec<Planned> = Vec::new();
        while plan.len() < routed.len()
            invariant
                plan@.len() <= routed@.len(),
                transport.sound(),
                queues == self.queues_are(),
                schemas == self.schemas(),
                all == routed_view(routed@),
                is_ready(queues, schemas, *transport, all, plan@),
            decreases routed@.len() - plan@.len(),
        {
            let i: usize = plan.len();
            let ghost records = plan_view(plan@);
            let ghost before = plan@;
            proof {
                lemma_ready_is_planned(queues, schemas, *transport, all, plan@);
                assert(records.len() == i);
                assert(all[i as int] == (routed@[i as int].0@, routed@[i as int].1@));
            }
            let queue = match self.queue(&routed[i].0) {
                Ok(queue) => queue,
                Err(e) => {
                    assert(refused_at(
                        queues,
                        schemas,
                        *transport,
                        all,
                        records,
                        records.len() as int,
                        e,
                    ));
                    return Err(e);
                },
            };
            let earlier = planned_on(&plan, routed, &routed[i].0);
            match queue.settle(transport, &earlier, &routed[i].1) {
                Ok(planned) => {
                    let ghost one = planned;
                    plan.push(planned);
                    proof {
                        let now = plan_view(plan@);
                        assert forall|k: int| 0 <= k < plan@.len() implies lookup(
                            queues,
                            all[k].0,
                        ) is Some && lookup(queues, all[k].0)->0@.name == all[k].0 && is_settled(
                            lookup(queues, all[k].0)->0@,
                            schemas,
                            *transport,
                            earlier_on(all, now, all[k].0, k),
                            all[k].1,
                            #[trigger] plan@[k],
                        ) by {
                            assert forall|m: int| 0 <= m < k implies now[m] == records[m] by {}
                            lemma_earlier_same(all, now, records, all[k].0, k);
                            if k < i {
                                assert(plan@[k] == before[k]);
                            } else {
                                assert(plan@[k] == one);
                            }
                        }
                    }
                },
                Err(failure) => {
                    let e = BusError::Queue(failure);
                    if let BusError::Queue(QueueError::Transport(_)) = &e {
                    } else {
                        assert(refused_at(
                            queues,
                            schemas,
                            *transport,
                            all,
                            records,
                            records.len() as int,
                            e,
                        ));
                    }
                    return Err(e);
                },
            }
        }
        Ok(plan)
    }

    /// Appends the records an offer was routed into, all of them or none: nothing is
    /// appended where any of them is refused.
    pub(crate) fn push_planned<T: Transport>(
        &self,
        transport: &mut T,
        routed: &Vec<(QueueName, Json)>,
        plan: Vec<Planned>,
    ) -> (r: Result<Vec<(QueueName, Pushed<Json>)>, QueueError>)
        requires
            old(transport).sound(),
            plan@.len() == routed@.len(),
            is_ready(
                self.queues_are(),
                self.schemas(),
                *old(transport),
                routed_view(routed@),
                plan@,
            ),
        ensures
            final(transport).sound(),
            final(transport).reliable() == old(transport).reliable(),
            match r {
                Ok(pushed) => {
                    &&& pushed@.len() == routed@.len()
                    &&& sent_whole(
                        self.queues_are(),
                        self.schemas(),
                        routed_view(routed@),
                        pushed_view(pushed@),
                        routed@.len() as int,
                        *old(transport),
                        *final(transport),
                    )
                    &&& forall|i: int|
                        0 <= i < pushed@.len() ==> (#[trigger] pushed@[i]).1.id == id_of(
                            plan@[i].record@,
                        )
                },
                Err(QueueError::Transport(_)) => !old(transport).reliable(),
                Err(_) => false,
            },
    {
        let ghost queues = self.queues_are();
        let ghost schemas = self.schemas();
        let ghost all = routed_view(routed@);
        let ghost start = *transport;
        let ghost whole = plan@;
        let ghost records = plan_view(whole);
        let mut rest = plan;
        let mut pushed: Vec<(QueueName, Pushed<Json>)> = Vec::new();
        let mut i: usize = 0;
        proof {
            assert(whole.skip(0) =~= whole);
        }
        while i < routed.len()
            invariant
                i <= routed@.len(),
                whole.len() == routed@.len(),
                whole == plan@,
                records == plan_view(whole),
                rest@ =~= whole.skip(i as int),
                pushed@.len() == i,
                all == routed_view(routed@),
                queues == self.queues_are(),
                schemas == self.schemas(),
                start == *old(transport),
                is_ready(queues, schemas, start, all, whole),
                transport.sound(),
                transport.reliable() == old(transport).reliable(),
                forall|k: int| 0 <= k < i ==> (#[trigger] pushed@[k]).1.record@ == records[k],
                forall|k: int|
                    0 <= k < i ==> (#[trigger] pushed@[k]).1.id == id_of(whole[k].record@),
                sent_whole(queues, schemas, all, pushed_view(pushed@), i as int, start, *transport),
                forall|q: Seq<char>| #[trigger]
                    transport.log(q).len() == start.log(q).len() + earlier_on(
                        all,
                        records,
                        q,
                        i as int,
                    ).len(),
            decreases routed@.len() - i,
        {
            let ghost done = pushed_view(pushed@);
            let ghost here = *transport;
            let ghost spec = lookup(queues, all[i as int].0)->0@;
            let ghost earlier = earlier_on(all, records, all[i as int].0, i as int);
            proof {
                assert(rest@[0] == whole[i as int]);
                assert(all[i as int] == (routed@[i as int].0@, routed@[i as int].1@));
                assert(is_settled(spec, schemas, start, earlier, all[i as int].1, whole[i as int]));
                transport.positions_are_ordered(spec.name);
            }
            let planned = rest.remove(0);
            proof {
                assert(rest@ =~= whole.skip(i + 1));
            }
            match planned.land(transport) {
                Ok(one) => {
                    let ghost it = one;
                    pushed.push((routed[i].0.clone(), one));
                    proof {
                        let now = pushed_view(pushed@);
                        assert(now =~= done.push((all[i as int].0, it)));
                        lemma_whole_extends(queues, schemas, all, done, now, i as int, start, here);
                        assert forall|k: int| 0 <= k < i implies records_pushed(now)[k]
                            == records[k] by {
                            assert(now[k] == done[k]);
                            assert(pushed@[k].1.record@ == records[k]);
                        }
                        lemma_earlier_same(
                            all,
                            records_pushed(now),
                            records,
                            all[i as int].0,
                            i as int,
                        );
                        let base = choose|base: ProjectionView|
                            {
                                &&& is_event_policy(spec.policy) ==> stands_as(spec, start, base)
                                &&& #[trigger] planned_as(
                                    spec,
                                    schemas,
                                    start,
                                    base,
                                    earlier,
                                    all[i as int].1,
                                    whole[i as int].record@,
                                )
                                &&& is_event_policy(spec.policy) ==> {
                                    &&& whole[i as int].folded is Some
                                    &&& projection_of(whole[i as int].folded->0) == carried(
                                        spec.policy,
                                        base,
                                        earlier,
                                    )
                                    &&& whole[i as int].folded->0.accounted is Some
                                }
                            };
                        assert(here.log(spec.name).len() == start.log(spec.name).len()
                            + earlier.len());
                        assert(pushes_after(
                            spec,
                            schemas,
                            here,
                            *transport,
                            base,
                            earlier,
                            all[i as int].1,
                            it,
                        ));
                        assert(landed_after(
                            spec,
                            schemas,
                            start,
                            here,
                            *transport,
                            earlier,
                            all[i as int].1,
                            now[i as int].1,
                        ));
                        assert forall|q: Seq<char>| #[trigger] transport.log(q).len()
                            == start.log(q).len() + earlier_on(all, records, q, i + 1).len() by {
                            assert(here.log(q).len() == start.log(q).len() + earlier_on(
                                all,
                                records,
                                q,
                                i as int,
                            ).len());
                        }
                    }
                },
                Err(failure) => return Err(failure),
            }
            i += 1;
        }
        Ok(pushed)
    }
}

pub proof fn lemma_ready_is_planned<T: Transport>(
    queues: Seq<(Seq<char>, QueueSpec)>,
    schemas: Seq<(SchemaIdView, JsonView)>,
    before: T,
    routed: Seq<(Seq<char>, JsonView)>,
    plan: Seq<Planned>,
)
    requires
        is_ready(queues, schemas, before, routed, plan),
    ensures
        is_planned(queues, schemas, before, routed, plan_view(plan), plan.len() as int),
{
    let records = plan_view(plan);
    assert forall|i: int| 0 <= i < plan.len() implies lookup(
        queues,
        (#[trigger] routed[i]).0,
    ) is Some && can_land(
        lookup(queues, routed[i].0)->0@,
        schemas,
        before,
        earlier_on(routed, records, routed[i].0, i),
        routed[i].1,
        records[i],
    ) by {
        assert(is_settled(
            lookup(queues, routed[i].0)->0@,
            schemas,
            before,
            earlier_on(routed, records, routed[i].0, i),
            routed[i].1,
            plan[i],
        ));
    }
}

/// An offer that becomes one record is pushed as any record is.
pub proof fn one_record_is_pushed<T: Transport>(
    queues: Seq<(Seq<char>, QueueSpec)>,
    schemas: Seq<(SchemaIdView, JsonView)>,
    routed: Seq<(Seq<char>, JsonView)>,
    pushed: Seq<(Seq<char>, Pushed<Json>)>,
    before: T,
    after: T,
)
    requires
        routed.len() == 1,
        pushed.len() == 1,
        sent_whole(queues, schemas, routed, pushed, 1, before, after),
    ensures
        sent(queues, schemas, routed, pushed, 1, before, after),
{
    reveal_with_fuel(sent_whole, 2);
    reveal_with_fuel(sent, 2);
    let spec = lookup(queues, routed[0].0)->0@;
    let none = earlier_on(routed, records_pushed(pushed), routed[0].0, 0);
    let mid = choose|mid: T|
        sent_whole(queues, schemas, routed, pushed, 0, before, mid) && #[trigger] landed_after(
            spec,
            schemas,
            before,
            mid,
            after,
            none,
            routed[0].1,
            pushed[0].1,
        );
    let base = choose|base: ProjectionView|
        (is_event_policy(spec.policy) ==> stands_as(spec, before, base)) && #[trigger] pushes_after(
            spec,
            schemas,
            mid,
            after,
            base,
            none,
            routed[0].1,
            pushed[0].1,
        );
    assert(carried(spec.policy, base, none) == base);
    assert(pushes(spec, schemas, before, after, base, routed[0].1, pushed[0].1));
    assert(sent(queues, schemas, routed, pushed, 0, before, before));
    assert(landed(spec, schemas, before, after, routed[0].1, pushed[0].1));
}

} // verus!
