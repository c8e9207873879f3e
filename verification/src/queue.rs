//! Queues over a transport, with declared policies.
//!
//! A queue is a log kept on a [`Transport`] and a policy saying what reading it
//! means. A policy that asks for nothing is a *plain* queue: its records are
//! read in order through each consumer's cursor. Any other is an *event* queue:
//! every state a record reaches is one more line of the log, and what is
//! waiting and what is pending is the log folded.

use crate::event_log::{frame, is_loggable, line_of, line_reads, parse_line};
use crate::fold::{Event, Folded, FoldedView, id_of, nothing_folded, record_id, step};
use crate::framing::{after_position, lemma_filter_all, lemma_filter_none};
use crate::json::{Json, JsonView, settled, text_of};
use crate::names::{Position, QueueName};
use crate::policy::{PolicyView, QueueSpec, QueueSpecView, is_event_policy};
use crate::projection::{
    ProjectionView, intact, is_keepable, parse_projection, projection_bytes, projection_of,
    projection_reads, sealed_at,
};
use crate::queue_reads::only_documents;
use crate::schema::{
    CheckError, Registry, RegistryError, SchemaIdView, SchemaViolation, held, id_text,
    is_violation, registry_error_words, schema_admits, unknown_words,
};
use crate::text::{cat3, cat4, decimal, decimal_of};
use crate::transport::{
    Stored, Transport, TransportError, error_words, is_ordered, keeps_cursors, keeps_others,
    stored_view,
};
use crate::validate::Verdict;
use vstd::prelude::*;
use vstd::utf8::encode_utf8;

verus! {

// ---------------------------------------------------------------------------
// Folding the log.
// ---------------------------------------------------------------------------

/// A fold after the lines of `log`, those about ids below `floor` passed over
/// and those that do not read as a line skipped.
#[verifier::opaque]
pub open spec fn fold_log(
    policy: PolicyView,
    start: FoldedView,
    log: Seq<(Seq<u8>, int)>,
    floor: Option<u64>,
) -> FoldedView
    decreases log.len(),
{
    if log.len() == 0 {
        start
    } else {
        let before = fold_log(policy, start, log.drop_last(), floor);
        match line_reads(log.last().0) {
            None => before,
            Some((event, record)) => if floor is Some && id_of(record) is Some && id_of(record)->0
                < floor->0 {
                before
            } else {
                step(policy, before, event, record)
            },
        }
    }
}

/// The position after the last of `log`, or `from`.
pub open spec fn last_position(log: Seq<(Seq<u8>, int)>, from: int) -> int {
    if log.len() == 0 {
        from
    } else {
        log.last().1
    }
}

/// The checkpoint a projection document is: one that reads, and seals.
pub open spec fn checkpoint_of(document: Option<Seq<u8>>) -> Option<ProjectionView> {
    match document {
        Some(bytes) => match projection_reads(bytes) {
            Some(projection) => if intact(projection) {
                Some(projection)
            } else {
                None
            },
            None => None,
        },
        None => None,
    }
}

/// The whole of a log folded, from nothing.
pub open spec fn whole_log(policy: PolicyView, log: Seq<(Seq<u8>, int)>) -> ProjectionView {
    sealed_at(fold_log(policy, nothing_folded(), log, None), last_position(log, 0) as u64)
}

/// A queue as it stands: its checkpoint brought up to date with what the log
/// grew by. A checkpoint stamped with a position the log no longer has is none,
/// and an unstamped one is taken at its word for every id below its next.
pub open spec fn current_of(
    policy: PolicyView,
    checkpoint: Option<ProjectionView>,
    log: Seq<(Seq<u8>, int)>,
    usable: bool,
) -> ProjectionView {
    match checkpoint {
        None => whole_log(policy, log),
        Some(projection) => match projection.accounted {
            None => sealed_at(
                fold_log(policy, projection.folded, log, Some(projection.folded.next_id)),
                last_position(log, 0) as u64,
            ),
            Some(at) => if at == 0 || usable {
                let rest = after_position(log, at as int);
                sealed_at(
                    fold_log(policy, projection.folded, rest, None),
                    last_position(rest, at as int) as u64,
                )
            } else {
                whole_log(policy, log)
            },
        },
    }
}

/// Whether the position a checkpoint is stamped with is one the log has.
pub open spec fn is_usable<T: Transport>(
    transport: T,
    queue: Seq<char>,
    checkpoint: Option<ProjectionView>,
) -> bool {
    match checkpoint {
        Some(projection) => match projection.accounted {
            Some(at) => at <= transport.end(queue) && transport.boundary(queue, at as int),
            None => true,
        },
        None => true,
    }
}

/// Whether a queue's log says more than the projection document `document`: the
/// document is unstamped, its position is not one the log has, or records
/// follow it.
pub open spec fn has_grown<T: Transport>(
    spec: QueueSpecView,
    transport: T,
    document: Option<Seq<u8>>,
) -> bool {
    let checkpoint = checkpoint_of(document);
    let log = transport.log(spec.name);
    match checkpoint {
        None => log.len() > 0,
        Some(projection) => match projection.accounted {
            None => true,
            Some(at) => (at > 0 && !is_usable(transport, spec.name, checkpoint)) || after_position(
                log,
                at as int,
            ).len() > 0,
        },
    }
}

/// A queue as it stands, read through the projection document `document`.
pub open spec fn current_with<T: Transport>(
    spec: QueueSpecView,
    transport: T,
    document: Option<Seq<u8>>,
) -> ProjectionView {
    let checkpoint = checkpoint_of(document);
    current_of(
        spec.policy,
        checkpoint,
        transport.log(spec.name),
        is_usable(transport, spec.name, checkpoint),
    )
}

/// The document a queue's projection is kept in, as it stands.
pub open spec fn projection_document<T: Transport>(spec: QueueSpecView, transport: T) -> Option<
    Seq<u8>,
> {
    match spec.policy.projection {
        Some(name) => transport.document_of(spec.name, name),
        None => None,
    }
}

/// Whether a queue stands as `projection`: its log folded from its projection
/// document, or folded whole where the document could not be read, which happens to no
/// transport that does all it is asked.
pub open spec fn stands_as<T: Transport>(
    spec: QueueSpecView,
    transport: T,
    projection: ProjectionView,
) -> bool {
    ||| projection == current_with(spec, transport, projection_document(spec, transport))
    ||| !transport.reliable() && projection == whole_log(spec.policy, transport.log(spec.name))
}

/// Whether a queue is to be read as having grown past its projection document: `grown`
/// says so of the document as it stands, wherever it could be read.
pub open spec fn grows_as<T: Transport>(spec: QueueSpecView, transport: T, grown: bool) -> bool {
    transport.reliable() ==> grown == has_grown(
        spec,
        transport,
        projection_document(spec, transport),
    )
}

/// Folding a log in two parts is folding it in one.
pub proof fn lemma_fold_in_parts(
    policy: PolicyView,
    start: FoldedView,
    a: Seq<(Seq<u8>, int)>,
    b: Seq<(Seq<u8>, int)>,
)
    ensures
        fold_log(policy, fold_log(policy, start, a, None), b, None) == fold_log(
            policy,
            start,
            a + b,
            None,
        ),
    decreases b.len(),
{
    reveal(fold_log);
    if b.len() == 0 {
        assert(a + b =~= a);
    } else {
        lemma_fold_in_parts(policy, start, a, b.drop_last());
        assert((a + b).drop_last() =~= a + b.drop_last());
    }
}

/// The entries after the position an ordered log's `n`th entry ends at are
/// those that follow it.
pub proof fn lemma_after_nth(log: Seq<(Seq<u8>, int)>, end: int, n: int)
    requires
        is_ordered(log, end),
        0 <= n <= log.len(),
    ensures
        after_position(log, last_position(log.take(n), 0)) == log.skip(n),
{
    let at = last_position(log.take(n), 0);
    let past = |e: (Seq<u8>, int)| e.1 > at;
    let before = log.take(n);
    let rest = log.skip(n);
    assert(log =~= before + rest);
    Seq::filter_distributes_over_add(before, rest, past);
    assert forall|i: int| 0 <= i < before.len() implies !past(#[trigger] before[i]) by {
        assert(before[i] == log[i]);
        if i < n - 1 {
            assert(log[i].1 < log[n - 1].1);
        }
    }
    assert forall|i: int| 0 <= i < rest.len() implies past(#[trigger] rest[i]) by {
        assert(rest[i] == log[n + i]);
        if n > 0 {
            assert(log[n - 1].1 < log[n + i].1);
        }
    }
    lemma_filter_none(before, past);
    lemma_filter_all(rest, past);
    assert(Seq::<(Seq<u8>, int)>::empty() + rest =~= rest);
}

/// A projection is a cache: a queue read through a projection written when its
/// log was shorter stands as the whole log folds.
pub proof fn projection_is_a_cache(
    policy: PolicyView,
    log: Seq<(Seq<u8>, int)>,
    end: int,
    n: int,
)
    requires
        is_ordered(log, end),
        end <= u64::MAX,
        0 <= n <= log.len(),
    ensures
        current_of(policy, Some(whole_log(policy, log.take(n))), log, true) == whole_log(
            policy,
            log,
        ),
{
    let at = last_position(log.take(n), 0);
    if n > 0 {
        assert(log.take(n).last() == log[n - 1]);
    }
    lemma_after_nth(log, end, n);
    lemma_read_on(policy, log, n, at);
}

/// What a checkpoint of the first entries of a log reads on to.
proof fn lemma_read_on(policy: PolicyView, log: Seq<(Seq<u8>, int)>, n: int, at: int)
    requires
        0 <= n <= log.len(),
        at == last_position(log.take(n), 0),
        0 <= at <= u64::MAX,
        after_position(log, at) == log.skip(n),
    ensures
        current_of(policy, Some(whole_log(policy, log.take(n))), log, true) == whole_log(
            policy,
            log,
        ),
{
    let shorter = log.take(n);
    let rest = log.skip(n);
    lemma_fold_in_parts(policy, nothing_folded(), shorter, rest);
    assert(shorter + rest =~= log);
    assert(last_position(rest, at) == last_position(log, 0)) by {
        if n < log.len() {
            assert(rest.last() == log.last());
        } else {
            assert(shorter =~= log);
        }
    }
    let checkpoint = whole_log(policy, shorter);
    assert(checkpoint.accounted == Some(at as u64));
    assert((at as u64) as int == at);
}

/// A stamped projection that does not seal is trusted for nothing: the queue is
/// read as if there were none.
pub proof fn broken_seal_is_no_checkpoint(document: Seq<u8>)
    requires
        projection_reads(document) is Some ==> !intact(projection_reads(document)->0),
    ensures
        checkpoint_of(Some(document)) is None,
{
}

// ---------------------------------------------------------------------------
// Refusals.
// ---------------------------------------------------------------------------

/// Why a queue did not do what it was asked.
#[derive(Debug)]
pub enum QueueError {
    /// The transport failed.
    Transport(TransportError),
    /// A record that does not conform to the queue's schema.
    Violation {
        /// The queue.
        queue: QueueName,
        /// What the schema said.
        violation: SchemaViolation,
    },
    /// The queue's schema is not registered.
    Unregistered {
        /// The queue.
        queue: QueueName,
        /// What the registry said.
        refusal: RegistryError,
    },
    /// A record that is not an object, on a queue whose records are.
    NotAnObject {
        /// The queue.
        queue: QueueName,
        /// What it is instead.
        shape: String,
    },
    /// A record that does not read as the queue's own type.
    Shape {
        /// The queue.
        queue: QueueName,
        /// What reading it said.
        why: String,
    },
    /// The last id there is has been allocated.
    NoIdLeft {
        /// The queue.
        queue: QueueName,
        /// The last id.
        last: u64,
    },
    /// An operation only an event queue has, asked of a plain one.
    NotAnEventQueue {
        /// The queue.
        queue: QueueName,
        /// What was asked for.
        what: String,
    },
    /// An answer to a position that is not where the pending record was claimed.
    NotPending {
        /// The queue.
        queue: QueueName,
        /// What was found instead.
        why: String,
    },
    /// An answer naming a reply position no reply ends at.
    NoReply {
        /// The queue whose pending slot was to be answered.
        queue: QueueName,
        /// Why the position names no reply.
        why: String,
    },
    /// A validator refused the record, so nothing was appended.
    Refused {
        /// The queue it was offered to.
        queue: QueueName,
        /// The reason the validator gave, unaltered.
        reason: String,
    },
    /// A validator could not judge the record, so nothing was appended.
    Unjudged {
        /// The queue it was offered to.
        queue: QueueName,
        /// Why it could not be judged.
        reason: String,
    },
}

/// A refusal in words.
pub open spec fn queue_error_words(error: QueueError) -> Seq<char> {
    match error {
        QueueError::Transport(failure) => error_words(failure),
        QueueError::Violation { queue, violation } => queue@ + ": the record is not a "@ + (id_text(
            violation.id@,
        ) + ": at "@ + violation.pointer@ + ": "@ + violation.message@),
        QueueError::Unregistered { queue, refusal } => queue@ + ": "@ + registry_error_words(
            refusal,
        ),
        QueueError::NotAnObject { queue, shape } => queue@
            + ": a record on this queue is a JSON object, and this is "@ + shape@,
        QueueError::Shape { queue, why } => queue@
            + ": the record does not read as this queue's record type: "@ + why@,
        QueueError::NoIdLeft { queue, last } => queue@
            + ": the queue has no id left to allocate; the last one, "@ + decimal(last as nat)
            + ", has already been queued"@,
        QueueError::NotAnEventQueue { queue, what } => queue@
            + " is a plain queue, so it has no "@ + what@
            + "; only a queue whose policy holds pending records, claims blocking records first, supersedes or keeps a projection does"@,
        QueueError::NotPending { queue, why } => queue@ + ": "@ + why@,
        QueueError::NoReply { queue, why } => queue@ + ": "@ + why@,
        QueueError::Refused { queue, reason } => queue@
            + ": refused before anything was appended: "@ + reason@,
        QueueError::Unjudged { queue, reason } => queue@
            + ": not appended, because it could not be judged: "@ + reason@,
    }
}

impl QueueError {
    /// The refusal in words.
    pub fn message(&self) -> (r: String)
        ensures
            r@ == queue_error_words(*self),
    {
        match self {
            QueueError::Transport(failure) => failure.message(),
            QueueError::Violation { queue, violation } => {
                let said = violation.to_text();
                cat3(queue.as_str(), ": the record is not a ", said.as_str())
            },
            QueueError::Unregistered { queue, refusal } => {
                let said = refusal.message();
                cat3(queue.as_str(), ": ", said.as_str())
            },
            QueueError::NotAnObject { queue, shape } => cat3(
                queue.as_str(),
                ": a record on this queue is a JSON object, and this is ",
                shape.as_str(),
            ),
            QueueError::Shape { queue, why } => cat3(
                queue.as_str(),
                ": the record does not read as this queue's record type: ",
                why.as_str(),
            ),
            QueueError::NoIdLeft { queue, last } => {
                let last = decimal_of(*last);
                cat4(
                    queue.as_str(),
                    ": the queue has no id left to allocate; the last one, ",
                    last.as_str(),
                    ", has already been queued",
                )
            },
            QueueError::NotAnEventQueue { queue, what } => cat4(
                queue.as_str(),
                " is a plain queue, so it has no ",
                what.as_str(),
                "; only a queue whose policy holds pending records, claims blocking records first, supersedes or keeps a projection does",
            ),
            QueueError::NotPending { queue, why } => cat3(queue.as_str(), ": ", why.as_str()),
            QueueError::NoReply { queue, why } => cat3(queue.as_str(), ": ", why.as_str()),
            QueueError::Refused { queue, reason } => cat3(
                queue.as_str(),
                ": refused before anything was appended: ",
                reason.as_str(),
            ),
            QueueError::Unjudged { queue, reason } => cat3(
                queue.as_str(),
                ": not appended, because it could not be judged: ",
                reason.as_str(),
            ),
        }
    }

    /// `Ok` for a pass, and the refusal a verdict that is not one makes on
    /// `queue`.
    pub fn of_verdict(queue: &QueueName, verdict: &Verdict) -> (r: Result<(), QueueError>)
        ensures
            match *verdict {
                Verdict::Pass => r is Ok,
                Verdict::Refuse { reason } => r is Err && refused_with(r->Err_0, queue@, reason@),
                Verdict::Unjudged { reason } => r is Err && unjudged_with(
                    r->Err_0,
                    queue@,
                    reason@,
                ),
            },
    {
        match verdict {
            Verdict::Pass => Ok(()),
            Verdict::Refuse { reason } => Err(
                QueueError::Refused { queue: queue.clone(), reason: reason.clone() },
            ),
            Verdict::Unjudged { reason } => Err(
                QueueError::Unjudged { queue: queue.clone(), reason: reason.clone() },
            ),
        }
    }
}

/// Whether an error is a validator's refusal on a queue.
pub open spec fn refused_with(error: QueueError, queue: Seq<char>, reason: Seq<char>) -> bool {
    match error {
        QueueError::Refused { queue: named, reason: given } => named@ == queue && given@ == reason,
        _ => false,
    }
}

/// Whether an error is that a record on a queue could not be judged.
pub open spec fn unjudged_with(error: QueueError, queue: Seq<char>, reason: Seq<char>) -> bool {
    match error {
        QueueError::Unjudged { queue: named, reason: given } => named@ == queue && given@
            == reason,
        _ => false,
    }
}

/// Whether an error is that a plain queue has no such thing.
pub open spec fn is_not_event(error: QueueError, queue: Seq<char>, what: Seq<char>) -> bool {
    match error {
        QueueError::NotAnEventQueue { queue: named, what: asked } => named@ == queue && asked@
            == what,
        _ => false,
    }
}

// ---------------------------------------------------------------------------
// The queue.
// ---------------------------------------------------------------------------

/// A record a push appended.
#[derive(Debug)]
pub struct Pushed<M> {
    /// The record as it was appended.
    pub record: M,
    /// The position after it.
    pub position: Position,
    /// The id it was given, on a queue that gives one.
    pub id: Option<u64>,
}

/// A record a claim handed out.
#[derive(Debug)]
pub struct Claimed<M> {
    /// The record.
    pub record: M,
    /// Where the claim was recorded.
    pub position: Position,
    /// The record's id, on a queue that gives one.
    pub id: Option<u64>,
}

/// A queue over JSON records.
#[derive(Debug)]
pub struct RawQueue {
    /// The declaration it was opened with.
    pub spec: QueueSpec,
    /// The schemas its records are checked against.
    pub registry: Registry,
}

/// What happened to each of several records.
pub open spec fn events_view(events: Seq<(Event, Json)>) -> Seq<(Event, JsonView)> {
    Seq::new(events.len(), |i: int| (events[i].0, events[i].1@))
}

/// A fold after each of several events.
pub open spec fn steps(
    policy: PolicyView,
    folded: FoldedView,
    events: Seq<(Event, JsonView)>,
) -> FoldedView
    decreases events.len(),
{
    if events.len() == 0 {
        folded
    } else {
        step(
            policy,
            steps(policy, folded, events.drop_last()),
            Some(events.last().0),
            events.last().1,
        )
    }
}

/// The lines several events are logged as, each with the position after it.
pub open spec fn logged(events: Seq<(Event, JsonView)>, positions: Seq<int>) -> Seq<
    (Seq<u8>, int),
> {
    Seq::new(
        events.len(),
        |i: int| (encode_utf8(text_of(line_of(events[i].0, events[i].1))), positions[i]),
    )
}

/// Whether the line of each of several events reads as the event and its record
/// again, where the record is one a line gives back.
pub open spec fn read_back(events: Seq<(Event, JsonView)>) -> bool {
    forall|i: int|
        0 <= i < events.len() && is_loggable((#[trigger] events[i]).1) ==> line_reads(
            encode_utf8(text_of(line_of(events[i].0, events[i].1))),
        ) == Some((Some(events[i].0), events[i].1))
}

/// The positions of what was recorded.
pub open spec fn positions_of(recorded: Seq<(Json, Position)>) -> Seq<int> {
    Seq::new(recorded.len(), |i: int| recorded[i].1@ as int)
}

/// The records of what was recorded.
pub open spec fn records_of(recorded: Seq<(Json, Position)>) -> Seq<JsonView> {
    Seq::new(recorded.len(), |i: int| recorded[i].0@)
}

/// Whether nothing but one queue's log, and a document, differs between two
/// states of a transport.
pub open spec fn only_log_of<T: Transport>(before: T, after: T, queue: Seq<char>) -> bool {
    &&& forall|q: Seq<char>| q != queue ==> #[trigger] after.log(q) == before.log(q)
    &&& keeps_others(before, after, queue)
    &&& keeps_cursors(before, after, queue)
}

/// What several events record: their lines at the end of the queue's log, and
/// the projection of what they leave, where the policy keeps one.
pub open spec fn records_events<T: Transport>(
    spec: QueueSpecView,
    before: T,
    after: T,
    state: ProjectionView,
    events: Seq<(Event, JsonView)>,
    positions: Seq<int>,
) -> bool {
    &&& positions.len() == events.len()
    &&& after.log(spec.name) == before.log(spec.name) + logged(events, positions)
    &&& read_back(events)
    &&& only_log_of(before, after, spec.name)
    &&& events.len() == 0 ==> only_documents(before, after)
    &&& forall|q: Seq<char>, n: Seq<char>|
        spec.policy.projection != Some(n) ==> #[trigger] after.document_of(q, n)
            == before.document_of(q, n)
    &&& match spec.policy.projection {
        Some(name) => {
            let left = sealed_at(
                steps(spec.policy, state.folded, events),
                if events.len() == 0 {
                    state.accounted->0
                } else {
                    positions.last() as u64
                },
            );
            &&& after.document_of(spec.name, name) == Some(projection_bytes(left))
            &&& is_keepable(left.folded) ==> projection_reads(projection_bytes(left)) == Some(left)
        },
        None => true,
    }
}

impl RawQueue {
    /// The queue `spec` declares, its records checked against `registry` where
    /// the spec names a schema.
    pub fn open(spec: QueueSpec, registry: Registry) -> (r: Self)
        ensures
            r.spec == spec,
            r.registry == registry,
    {
        RawQueue { spec, registry }
    }

    /// The queue's name.
    pub fn name(&self) -> (r: &QueueName)
        ensures
            r@ == self.spec@.name,
    {
        &self.spec.name
    }

    /// Refuses a plain queue what only an event queue has.
    pub fn event_queue(&self, what: &str) -> (r: Result<(), QueueError>)
        ensures
            match r {
                Ok(()) => is_event_policy(self.spec@.policy),
                Err(e) => !is_event_policy(self.spec@.policy) && is_not_event(
                    e,
                    self.spec@.name,
                    what@,
                ),
            },
    {
        if self.spec.policy.keeps_events() {
            Ok(())
        } else {
            Err(
                QueueError::NotAnEventQueue {
                    queue: self.spec.name.clone(),
                    what: what.to_owned(),
                },
            )
        }
    }

    /// Refuses a record the queue's schema does not admit.
    pub fn check(&self, record: &Json) -> (r: Result<(), QueueError>)
        ensures
            match r {
                Ok(()) => passes_schema(self.spec@, self.registry@, record@),
                Err(QueueError::Violation { queue, violation }) => {
                    &&& queue@ == self.spec@.name
                    &&& self.spec@.schema is Some
                    &&& held(self.registry@, self.spec@.schema->0) is Some
                    &&& is_violation(
                        violation,
                        self.spec@.schema->0,
                        held(self.registry@, self.spec@.schema->0)->0,
                        record@,
                    )
                    &&& !passes_schema(self.spec@, self.registry@, record@)
                },
                Err(QueueError::Unregistered { queue, refusal }) => {
                    &&& queue@ == self.spec@.name
                    &&& self.spec@.schema is Some
                    &&& held(self.registry@, self.spec@.schema->0) is None
                    &&& registry_error_words(refusal) == unknown_words(
                        self.registry@,
                        self.spec@.schema->0,
                    )
                },
                Err(_) => false,
            },
    {
        match &self.spec.schema {
            None => Ok(()),
            Some(schema) => match self.registry.check(schema, record) {
                Ok(()) => Ok(()),
                Err(CheckError::Violation(violation)) => Err(
                    QueueError::Violation { queue: self.spec.name.clone(), violation },
                ),
                Err(CheckError::Registry(refusal)) => Err(
                    QueueError::Unregistered { queue: self.spec.name.clone(), refusal },
                ),
            },
        }
    }

    /// The checkpoint a projection document is.
    fn checkpoint(document: &Option<Vec<u8>>) -> (r: Option<Folded>)
        ensures
            match r {
                Some(folded) => checkpoint_of(document_bytes(*document)) == Some(
                    projection_of(folded),
                ),
                None => checkpoint_of(document_bytes(*document)) is None,
            },
    {
        match document {
            None => None,
            Some(bytes) => match parse_projection(bytes) {
                None => None,
                Some(folded) => if folded.is_intact() {
                    Some(folded)
                } else {
                    None
                },
            },
        }
    }

    /// Folds `records` into `folded`, those about ids below `floor` passed over.
    fn fold_records(&self, folded: &mut Folded, records: &Vec<Stored>, floor: Option<u64>)
        ensures
            final(folded)@ == fold_log(
                self.spec@.policy,
                old(folded)@,
                stored_view(records@),
                floor,
            ),
            final(folded).accounted == old(folded).accounted,
            final(folded).seal == old(folded).seal,
    {
        let ghost log = stored_view(records@);
        let ghost start = folded@;
        let mut i: usize = 0;
        proof {
            reveal(fold_log);
            assert(log.take(0) =~= Seq::<(Seq<u8>, int)>::empty());
        }
        while i < records.len()
            invariant
                i <= records@.len(),
                log == stored_view(records@),
                folded@ == fold_log(self.spec@.policy, start, log.take(i as int), floor),
                folded.accounted == old(folded).accounted,
                folded.seal == old(folded).seal,
            decreases records@.len() - i,
        {
            proof {
                reveal(fold_log);
                assert(log.take(i + 1).drop_last() =~= log.take(i as int));
                assert(log.take(i + 1).last() == (
                    records@[i as int].bytes@,
                    records@[i as int].after@ as int,
                ));
            }
            if let Some((event, record)) = parse_line(&records[i].bytes) {
                let below = match (floor, record_id(&record)) {
                    (Some(floor), Some(id)) => id < floor,
                    _ => false,
                };
                if !below {
                    folded.apply(&self.spec.policy, event, &record);
                }
            }
            i += 1;
        }
        proof {
            assert(log.take(i as int) =~= log);
        }
    }

    /// The whole records after `from`, or nothing where the log has no such
    /// position.
    fn records_after<T: Transport>(&self, transport: &T, from: u64) -> (r: Result<
        Option<Vec<Stored>>,
        QueueError,
    >)
        requires
            transport.sound(),
        ensures
            match r {
                Ok(Some(records)) => {
                    &&& from == 0 || (from <= transport.end(self.spec@.name)
                        && transport.boundary(self.spec@.name, from as int))
                    &&& stored_view(records@) == after_position(
                        transport.log(self.spec@.name),
                        from as int,
                    )
                },
                Ok(None) => from > 0 && !(from <= transport.end(self.spec@.name)
                    && transport.boundary(self.spec@.name, from as int)),
                Err(QueueError::Transport(_)) => !transport.reliable(),
                Err(_) => false,
            },
    {
        let queue = &self.spec.name;
        proof {
            transport.positions_are_ordered(queue@);
            lemma_filter_len(
                transport.log(queue@),
                |e: (Seq<u8>, int)| e.1 > from as int,
            );
        }
        let start = if from > 0 {
            Some(Position::from_token(from))
        } else {
            None
        };
        match transport.read(queue, start, usize::MAX) {
            Ok(batch) => Ok(Some(batch.records)),
            Err(TransportError::PastEnd { .. }) => Ok(None),
            Err(TransportError::NotABoundary { .. }) => Ok(None),
            Err(failure) => Err(QueueError::Transport(failure)),
        }
    }

    /// The queue as it stands, read through `document`, and whether the log has
    /// grown past what the document accounts for.
    pub fn current_from<T: Transport>(&self, transport: &T, document: Option<Vec<u8>>) -> (r:
        Result<(Folded, bool), QueueError>)
        requires
            transport.sound(),
        ensures
            match r {
                Ok((folded, grown)) => {
                    &&& folded.accounted is Some
                    &&& projection_of(folded) == current_with(
                        self.spec@,
                        *transport,
                        document_bytes(document),
                    )
                    &&& grown == has_grown(self.spec@, *transport, document_bytes(document))
                },
                Err(QueueError::Transport(_)) => !transport.reliable(),
                Err(_) => false,
            },
    {
        let ghost log = transport.log(self.spec@.name);
        proof {
            transport.positions_are_ordered(self.spec@.name);
            lemma_filter_all(log, |e: (Seq<u8>, int)| e.1 > 0);
            assert(after_position(log, 0) == log);
        }
        let mut floor: Option<u64> = None;
        let mut from: u64 = 0;
        let mut folded = match RawQueue::checkpoint(&document) {
            Some(projection) => {
                match projection.accounted {
                    Some(accounted) => {
                        from = accounted;
                    },
                    None => {
                        floor = Some(projection.next_id);
                    },
                }
                projection
            },
            None => Folded::nothing(),
        };
        let mut restarted = false;
        let records = match self.records_after(transport, from) {
            Err(failure) => {
                return Err(failure);
            },
            Ok(Some(records)) => records,
            Ok(None) => {
                folded = Folded::nothing();
                from = 0;
                restarted = true;
                match self.records_after(transport, 0) {
                    Err(failure) => {
                        return Err(failure);
                    },
                    Ok(Some(records)) => records,
                    Ok(None) => Vec::new(),
                }
            },
        };
        proof {
            assert(stored_view(records@).len() == records@.len());
        }
        let mut accounted: u64 = from;
        if records.len() > 0 {
            accounted = records[records.len() - 1].after.token();
        }
        self.fold_records(&mut folded, &records, floor);
        folded.accounted = Some(accounted);
        folded.seal();
        let grown = floor.is_some() || restarted || records.len() > 0;
        Ok((folded, grown))
    }

    /// The queue as it stands.
    pub fn current<T: Transport>(&self, transport: &T) -> (r: Result<(Folded, bool), QueueError>)
        requires
            transport.sound(),
        ensures
            match r {
                Ok((folded, grown)) => stands_as(self.spec@, *transport, projection_of(folded))
                    && folded.accounted is Some && grows_as(self.spec@, *transport, grown),
                Err(QueueError::Transport(_)) => !transport.reliable(),
                Err(_) => false,
            },
    {
        let document = match &self.spec.policy.projection {
            Some(name) => match transport.document(&self.spec.name, name) {
                Ok(document) => document,
                Err(_) => None,
            },
            None => None,
        };
        self.current_from(transport, document)
    }

    /// Appends each of `events` to the log, folds each in, and writes the
    /// projection as it then stands.
    pub fn record<T: Transport>(
        &self,
        transport: &mut T,
        mut folded: Folded,
        events: Vec<(Event, Json)>,
    ) -> (r: Result<Vec<(Json, Position)>, QueueError>)
        requires
            old(transport).sound(),
            folded.accounted is Some,
        ensures
            final(transport).sound(),
            final(transport).reliable() == old(transport).reliable(),
            match r {
                Ok(recorded) => {
                    &&& recorded@.len() == events@.len()
                    &&& forall|i: int|
                        0 <= i < recorded@.len() ==> (#[trigger] recorded@[i]).0@
                            == events@[i].1@
                    &&& records_events(
                        self.spec@,
                        *old(transport),
                        *final(transport),
                        projection_of(folded),
                        events_view(events@),
                        positions_of(recorded@),
                    )
                },
                Err(QueueError::Transport(_)) => !old(transport).reliable(),
                Err(_) => false,
            },
    {
        let queue = &self.spec.name;
        let ghost all = events_view(events@);
        let ghost start = folded@;
        let ghost stamp = folded.accounted->0;
        let mut recorded: Vec<(Json, Position)> = Vec::new();
        let mut i: usize = 0;
        proof {
            assert(all.take(0) =~= Seq::<(Event, JsonView)>::empty());
            assert(logged(all.take(0), positions_of(recorded@)) =~= Seq::<(Seq<u8>, int)>::empty());
            assert(transport.log(queue@) + Seq::<(Seq<u8>, int)>::empty() =~= transport.log(
                queue@,
            ));
        }
        while i < events.len()
            invariant
                i <= events@.len(),
                queue == &self.spec.name,
                all == events_view(events@),
                transport.sound(),
                transport.reliable() == old(transport).reliable(),
                recorded@.len() == i,
                forall|k: int|
                    0 <= k < i ==> (#[trigger] recorded@[k]).0@ == events@[k].1@,
                transport.log(queue@) == old(transport).log(queue@) + logged(
                    all.take(i as int),
                    positions_of(recorded@),
                ),
                read_back(all.take(i as int)),
                i == 0 ==> *transport == *old(transport),
                only_log_of(*old(transport), *transport, queue@),
                forall|q: Seq<char>, n: Seq<char>| #[trigger]
                    transport.document_of(q, n) == old(transport).document_of(q, n),
                folded@ == steps(self.spec@.policy, start, all.take(i as int)),
                folded.accounted == Some(
                    if i == 0 {
                        stamp
                    } else {
                        positions_of(recorded@).last() as u64
                    },
                ),
            decreases events@.len() - i,
        {
            let event: Event = events[i].0;
            let line = frame(event, &events[i].1);
            let ghost before = positions_of(recorded@);
            let ghost lines = logged(all.take(i as int), before);
            let position = match transport.append(queue, &line) {
                Ok(position) => position,
                Err(failure) => {
                    return Err(QueueError::Transport(failure));
                },
            };
            folded.apply(&self.spec.policy, Some(event), &events[i].1);
            folded.accounted = Some(position.token());
            recorded.push((events[i].1.copied(), position));
            proof {
                let after = positions_of(recorded@);
                assert(after =~= before.push(position@ as int));
                assert(all.take(i + 1).drop_last() =~= all.take(i as int));
                assert(all.take(i + 1).last() == all[i as int]);
                assert(read_back(all.take(i + 1))) by {
                    assert forall|k: int|
                        0 <= k < i + 1 && is_loggable(
                            (#[trigger] all.take(i + 1)[k]).1,
                        ) implies line_reads(
                        encode_utf8(
                            text_of(line_of(all.take(i + 1)[k].0, all.take(i + 1)[k].1)),
                        ),
                    ) == Some((Some(all.take(i + 1)[k].0), all.take(i + 1)[k].1)) by {
                        if k < i {
                            assert(all.take(i as int)[k] == all.take(i + 1)[k]);
                        }
                    }
                }
                assert(logged(all.take(i + 1), after) =~= lines.push((line@, position@ as int)));
                assert(old(transport).log(queue@) + lines.push((line@, position@ as int)) =~= (old(
                    transport,
                ).log(queue@) + lines).push((line@, position@ as int)));
            }
            i += 1;
        }
        folded.seal();
        proof {
            assert(all.take(i as int) =~= all);
        }
        if let Some(name) = &self.spec.policy.projection {
            let document = folded.render();
            if let Err(failure) = transport.replace_document(queue, name, &document) {
                return Err(QueueError::Transport(failure));
            }
        }
        Ok(recorded)
    }
}

/// A filter keeps no more than there is.
pub proof fn lemma_filter_len<A>(items: Seq<A>, pred: spec_fn(A) -> bool)
    ensures
        items.filter(pred).len() <= items.len(),
    decreases items.len(),
{
    reveal(Seq::filter);
    if items.len() > 0 {
        lemma_filter_len(items.drop_last(), pred);
    }
}

/// The bytes of an optional document.
pub open spec fn document_bytes(document: Option<Vec<u8>>) -> Option<Seq<u8>> {
    match document {
        Some(bytes) => Some(bytes@),
        None => None,
    }
}

/// Whether a record passes a queue's schema: it names none, or a registered one
/// that admits the record.
pub open spec fn passes_schema(
    spec: QueueSpecView,
    registry: Seq<(SchemaIdView, JsonView)>,
    record: JsonView,
) -> bool {
    match spec.schema {
        None => true,
        Some(id) => match held(registry, id) {
            Some(document) => schema_admits(settled(document), settled(record)),
            None => false,
        },
    }
}

} // verus!
