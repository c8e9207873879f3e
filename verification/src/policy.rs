//! What reading a queue means, as it is declared.

use crate::names::{ConsumerName, DEFAULT_CONSUMER, DocumentName, QueueName};
use crate::predicate::{FieldPath, Predicate, PredicateView, copied_when, when_view};
use crate::schema::{SchemaId, SchemaIdView};
use vstd::prelude::*;

verus! {

/// What a queue promises about delivery.
#[derive(Debug, Clone, Copy, PartialEq, Eq, Structural)]
pub enum Delivery {
    /// Nothing accepted is lost; a claim is a record, so a crashed claimant's
    /// record is not handed out again.
    AtLeastOnce,
}

/// What a queue promises about order.
#[derive(Debug, Clone, Copy, PartialEq, Eq, Structural)]
pub enum QueueOrder {
    /// Records are totally ordered within one queue, and across queues nothing
    /// is promised.
    PerQueue,
}

/// What a queue keeps.
#[derive(Debug, Clone, Copy, PartialEq, Eq, Structural)]
pub enum Retention {
    /// Append-only: nothing is deleted, and the log is the record.
    Keep,
}

/// A newer record replacing a waiting older one.
///
/// When a record that `when` admits is queued (any record, where `when` is
/// absent), every waiting record whose `key` field equals the new record's is
/// removed from waiting.
#[derive(Debug)]
pub struct Supersede {
    /// The field whose equal values replace one another.
    pub key: FieldPath,
    /// Which records supersede at all.
    pub when: Option<Predicate>,
}

/// What superseding goes by.
pub struct SupersedeView {
    pub key: Seq<Seq<char>>,
    pub when: Option<PredicateView>,
}

impl View for Supersede {
    type V = SupersedeView;

    open spec fn view(&self) -> SupersedeView {
        SupersedeView { key: self.key@, when: when_view(self.when) }
    }
}

impl Supersede {
    /// The same.
    pub fn copied(&self) -> (r: Self)
        ensures
            r@ == self@,
    {
        Supersede { key: self.key.copied(), when: copied_when(&self.when) }
    }
}

/// What reading a queue means.
#[derive(Debug)]
pub struct Policy {
    /// Nothing accepted is lost; a claim is a record.
    pub delivery: Delivery,
    /// Records are ordered within the queue.
    pub ordering: QueueOrder,
    /// A newer record with the same key replaces a waiting older one.
    pub supersede_on: Option<Supersede>,
    /// A claimed blocking record is pending until answered; one pending at a
    /// time.
    pub hold_pending: bool,
    /// A claim hands out a blocking record before any non-blocking one.
    pub blocking_first: bool,
    /// Append-only; nothing deleted.
    pub retention: Retention,
    /// Keep a folded projection document under this name.
    pub projection: Option<DocumentName>,
}

/// What a policy says.
pub struct PolicyView {
    pub delivery: Delivery,
    pub ordering: QueueOrder,
    pub supersede_on: Option<SupersedeView>,
    pub hold_pending: bool,
    pub blocking_first: bool,
    pub retention: Retention,
    pub projection: Option<Seq<char>>,
}

/// What an optional superseding goes by.
pub open spec fn supersede_view(supersede: Option<Supersede>) -> Option<SupersedeView> {
    match supersede {
        Some(supersede) => Some(supersede@),
        None => None,
    }
}

/// An optional document's name.
pub open spec fn document_view(name: Option<DocumentName>) -> Option<Seq<char>> {
    match name {
        Some(name) => Some(name@),
        None => None,
    }
}

impl View for Policy {
    type V = PolicyView;

    open spec fn view(&self) -> PolicyView {
        PolicyView {
            delivery: self.delivery,
            ordering: self.ordering,
            supersede_on: supersede_view(self.supersede_on),
            hold_pending: self.hold_pending,
            blocking_first: self.blocking_first,
            retention: self.retention,
            projection: document_view(self.projection),
        }
    }
}

/// The policy of a plain queue.
pub open spec fn plain_policy() -> PolicyView {
    PolicyView {
        delivery: Delivery::AtLeastOnce,
        ordering: QueueOrder::PerQueue,
        supersede_on: None,
        hold_pending: false,
        blocking_first: false,
        retention: Retention::Keep,
        projection: None,
    }
}

/// Whether a queue under `policy` keeps an event log: one that asks for a
/// pending slot, blocking-first claims, superseding or a projection.
pub open spec fn is_event_policy(policy: PolicyView) -> bool {
    policy.hold_pending || policy.blocking_first || policy.supersede_on is Some
        || policy.projection is Some
}

impl Default for Policy {
    /// A plain queue: at-least-once, ordered, kept, and nothing else.
    fn default() -> (r: Self)
        ensures
            r@ == plain_policy(),
    {
        Policy {
            delivery: Delivery::AtLeastOnce,
            ordering: QueueOrder::PerQueue,
            supersede_on: None,
            hold_pending: false,
            blocking_first: false,
            retention: Retention::Keep,
            projection: None,
        }
    }
}

impl Policy {
    /// Whether a queue under this policy keeps an event log.
    pub fn keeps_events(&self) -> (r: bool)
        ensures
            r == is_event_policy(self@),
    {
        self.hold_pending || self.blocking_first || self.supersede_on.is_some()
            || self.projection.is_some()
    }

    /// The same policy.
    pub fn copied(&self) -> (r: Self)
        ensures
            r@ == self@,
    {
        Policy {
            delivery: self.delivery,
            ordering: self.ordering,
            supersede_on: match &self.supersede_on {
                Some(supersede) => Some(supersede.copied()),
                None => None,
            },
            hold_pending: self.hold_pending,
            blocking_first: self.blocking_first,
            retention: self.retention,
            projection: match &self.projection {
                Some(name) => Some(name.clone()),
                None => None,
            },
        }
    }
}

/// One queue as a layout or a configuration declares it.
#[derive(Debug)]
pub struct QueueSpec {
    /// The queue.
    pub name: QueueName,
    /// What reading it means.
    pub policy: Policy,
    /// The schema every record pushed onto it is validated against.
    pub schema: Option<SchemaId>,
    /// The queue a reply to one of its pending records is appended to.
    pub answers: Option<QueueName>,
    /// Which records a claim hands out.
    pub claims: Option<Predicate>,
    /// The consumers whose cursors `status` reports.
    pub consumers: Vec<ConsumerName>,
    /// Whether a push stamps each record's `id` with the number of records
    /// before it.
    pub numbered: bool,
}

/// What a declared queue is.
pub struct QueueSpecView {
    pub name: Seq<char>,
    pub policy: PolicyView,
    pub schema: Option<SchemaIdView>,
    pub answers: Option<Seq<char>>,
    pub claims: Option<PredicateView>,
    pub consumers: Seq<Seq<char>>,
    pub numbered: bool,
}

/// An optional id.
pub open spec fn schema_view(id: Option<SchemaId>) -> Option<SchemaIdView> {
    match id {
        Some(id) => Some(id@),
        None => None,
    }
}

/// An optional queue's name.
pub open spec fn queue_view(name: Option<QueueName>) -> Option<Seq<char>> {
    match name {
        Some(name) => Some(name@),
        None => None,
    }
}

/// The names of consumers.
pub open spec fn consumers_view(names: Seq<ConsumerName>) -> Seq<Seq<char>> {
    Seq::new(names.len(), |i: int| names[i]@)
}

impl View for QueueSpec {
    type V = QueueSpecView;

    open spec fn view(&self) -> QueueSpecView {
        QueueSpecView {
            name: self.name@,
            policy: self.policy@,
            schema: schema_view(self.schema),
            answers: queue_view(self.answers),
            claims: when_view(self.claims),
            consumers: consumers_view(self.consumers@),
            numbered: self.numbered,
        }
    }
}

/// What several declared queues are.
pub open spec fn specs_view(specs: Seq<QueueSpec>) -> Seq<QueueSpecView> {
    Seq::new(specs.len(), |i: int| specs[i]@)
}

/// A copy of consumers' names.
pub fn copied_consumers(names: &Vec<ConsumerName>) -> (r: Vec<ConsumerName>)
    ensures
        consumers_view(r@) == consumers_view(names@),
{
    let mut out: Vec<ConsumerName> = Vec::new();
    let mut i: usize = 0;
    while i < names.len()
        invariant
            i <= names@.len(),
            consumers_view(out@) =~= consumers_view(names@).take(i as int),
        decreases names@.len() - i,
    {
        let ghost before = consumers_view(out@);
        out.push(names[i].clone());
        proof {
            assert(consumers_view(out@) =~= before.push(names@[i as int]@));
        }
        i += 1;
    }
    proof {
        assert(consumers_view(out@) =~= consumers_view(names@));
    }
    out
}

/// What a queue under a policy is, with nothing beside it.
pub open spec fn bare_spec(name: Seq<char>, policy: PolicyView) -> QueueSpecView {
    QueueSpecView {
        name,
        policy,
        schema: None,
        answers: None,
        claims: None,
        consumers: seq![DEFAULT_CONSUMER@],
        numbered: false,
    }
}

impl QueueSpec {
    /// A queue under `policy`, with nothing beside it and the default consumer.
    pub fn new(name: QueueName, policy: Policy) -> (r: Self)
        ensures
            r@ == bare_spec(name@, policy@),
    {
        let mut consumers: Vec<ConsumerName> = Vec::new();
        consumers.push(ConsumerName::default_consumer());
        proof {
            assert(consumers_view(consumers@) =~= seq![DEFAULT_CONSUMER@]);
        }
        QueueSpec {
            name,
            policy,
            schema: None,
            answers: None,
            claims: None,
            consumers,
            numbered: false,
        }
    }

    /// The same declaration.
    pub fn copied(&self) -> (r: Self)
        ensures
            r@ == self@,
    {
        QueueSpec {
            name: self.name.clone(),
            policy: self.policy.copied(),
            schema: match &self.schema {
                Some(id) => Some(id.copied()),
                None => None,
            },
            answers: match &self.answers {
                Some(name) => Some(name.clone()),
                None => None,
            },
            claims: copied_when(&self.claims),
            consumers: copied_consumers(&self.consumers),
            numbered: self.numbered,
        }
    }
}

} // verus!
