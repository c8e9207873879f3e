//! What has become of a question, and what a reply to one appends.

use crate::ask::{
    Askable, Lifetime, MessageSchema, Pending, WAIT_SLICE, check_typed, find_last_on, is_askable,
    is_askable_as, is_typed, last_on, lines_on, not_askable,
};
use crate::bind::Layout;
use crate::bus::{Bus, BusError, offer_becomes, prepare_refused, pushed_view, sent, stopped_at};
use crate::codec::asker_view;
use crate::correlation::{CORRELATION, Correlation, Refusal, RefusalKind};
use crate::fold::optional_view;
use crate::json::{
    Json, JsonView, copied_fields, group_json_views, member, set_field, settled, with_field,
};
use crate::names::{Position, QueueName};
use crate::policy::{QueueSpecView, is_event_policy};
use crate::prepare::routed_view;
use crate::projection::ProjectionView;
use crate::questions::{
    Question, QuestionView, asked_among, asked_as, bind_reply, binding_of, correlation_in,
    correlation_of, echoed_view, first_reply, first_reply_to, is_asked, lemma_asked_as,
    outstanding, outstanding_of, questions_in, questions_view, replies_in,
};
use crate::queue::{
    Claimed, Pushed, QueueError, queue_error_words, records_events, refused_with, stands_as,
    unjudged_with,
};
use crate::queue_reads::{
    Asker, holds_slot, is_marked, queued_as, reading_leaves, remarks, was_answered,
};
use crate::schema::{
    CheckError, SchemaIdView, held, id_text, schema_admits, schema_compiles, schema_violation,
    violation_text,
};
use crate::table::lookup;
use crate::text::{cat3, cat4, cat5, cat6, decimal, is_blank, same_text, starts};
use crate::transport::Transport;
use crate::validate::{Verdict, VerdictView};
use vstd::prelude::*;

verus! {

/// What a question's queues say of it.
#[derive(Debug)]
pub enum Settled {
    /// A reply record echoing its correlation.
    Replied(Json),
    /// Nobody listens for it now.
    Abandoned,
}

/// Whether a question is settled, and how: by the first reply echoing its
/// correlation, else by being marked abandoned.
pub open spec fn settles<T: Transport>(
    transport: T,
    questions: Seq<char>,
    answers: Seq<char>,
    correlation: Seq<char>,
    id: u64,
    settled: Option<Settled>,
) -> bool {
    match first_reply(replies_in(lines_on(transport, answers)), correlation) {
        Some(record) => settled is Some && settled->0 is Replied && settled->0->Replied_0@ == record,
        None => if is_marked(transport.log(questions), id) {
            settled is Some && settled->0 is Abandoned
        } else {
            settled is None
        },
    }
}

/// What a wait does next.
#[derive(Debug)]
pub enum WaitStep {
    /// It is over: the question is settled.
    Settled(Settled),
    /// It is over: the time is up.
    TimedOut,
    /// It waits for a change, this many milliseconds at most.
    Wait(u64),
}

/// What a wait does next, with `left` milliseconds to go, or without end.
pub fn wait_step(settled: Option<Settled>, left: Option<u64>) -> (r: WaitStep)
    ensures
        match settled {
            Some(settled) => r == WaitStep::Settled(settled),
            None => match left {
                Some(left) => if left == 0 {
                    r == WaitStep::TimedOut
                } else if left < WAIT_SLICE {
                    r == WaitStep::Wait(left)
                } else {
                    r == WaitStep::Wait(WAIT_SLICE)
                },
                None => r == WaitStep::Wait(WAIT_SLICE),
            },
        },
{
    if let Some(settled) = settled {
        return WaitStep::Settled(settled);
    }
    match left {
        Some(left) => if left == 0 {
            WaitStep::TimedOut
        } else if left < WAIT_SLICE {
            WaitStep::Wait(left)
        } else {
            WaitStep::Wait(WAIT_SLICE)
        },
        None => WaitStep::Wait(WAIT_SLICE),
    }
}

impl Pending {
    /// The correlation a reply echoes to answer this ask.
    pub fn correlation(&self) -> (r: &Correlation)
        ensures
            *r == self.correlation,
    {
        &self.correlation
    }

    /// The queue the question was asked on.
    pub fn queue(&self) -> (r: &QueueName)
        ensures
            r@ == self.askable.questions.spec@.name,
    {
        self.askable.questions.name()
    }

    /// The position after the question on its queue.
    pub fn position(&self) -> (r: Position)
        ensures
            r == self.position,
    {
        self.position
    }

    /// The question's id on its queue.
    pub fn id(&self) -> (r: u64)
        ensures
            r == self.id,
    {
        self.id
    }

    /// The asker the question names, when it names one.
    pub fn asker(&self) -> (r: Option<&Asker>)
        ensures
            match r {
                Some(asker) => self.asker == Some(*asker),
                None => self.asker is None,
            },
    {
        self.asker.as_ref()
    }

    /// Takes the question back after a lost wait: a question abandoned is attended
    /// again.
    pub fn rearm<T: Transport>(&self, transport: &mut T) -> (r: Result<(), QueueError>)
        requires
            old(transport).sound(),
        ensures
            final(transport).sound(),
            final(transport).reliable() == old(transport).reliable(),
            marked_as(
                self.askable.questions.spec@,
                *old(transport),
                *final(transport),
                self.id,
                false,
                r,
            ),
    {
        match self.askable.questions.mark(transport, self.id, false) {
            Ok(_) => Ok(()),
            Err(failure) => Err(failure),
        }
    }

    /// Says nobody listens for this answer now: the question is marked abandoned,
    /// kept and still answerable.
    pub fn abandon<T: Transport>(&self, transport: &mut T) -> (r: Result<(), QueueError>)
        requires
            old(transport).sound(),
        ensures
            final(transport).sound(),
            final(transport).reliable() == old(transport).reliable(),
            marked_as(
                self.askable.questions.spec@,
                *old(transport),
                *final(transport),
                self.id,
                true,
                r,
            ),
    {
        match self.askable.questions.mark(transport, self.id, true) {
            Ok(_) => Ok(()),
            Err(failure) => Err(failure),
        }
    }

    /// Whether the question is marked abandoned now.
    pub fn is_abandoned<T: Transport>(&self, transport: &T) -> (r: Result<bool, QueueError>)
        requires
            transport.sound(),
        ensures
            match r {
                Ok(marked) => is_event_policy(self.askable.questions.spec@.policy) && marked
                    == is_marked(transport.log(self.askable.questions.spec@.name), self.id),
                Err(QueueError::NotAnEventQueue { .. }) => !is_event_policy(
                    self.askable.questions.spec@.policy,
                ),
                Err(QueueError::Transport(_)) => !transport.reliable(),
                Err(_) => false,
            },
    {
        self.askable.questions.is_marked_abandoned(transport, self.id)
    }

    /// The first reply record on the answer queue echoing this correlation.
    pub fn reply_record<T: Transport>(&self, transport: &T) -> (r: Result<Option<Json>, QueueError>)
        requires
            transport.sound(),
        ensures
            match r {
                Ok(record) => optional_view(record) == first_reply(
                    replies_in(lines_on(*transport, self.askable.answers.spec@.name)),
                    self.correlation@,
                ),
                Err(QueueError::Transport(_)) => !transport.reliable(),
                Err(_) => false,
            },
    {
        match self.askable.answers.replies_on(transport) {
            Ok(replies) => Ok(first_reply_to(&replies, &self.correlation)),
            Err(failure) => Err(failure),
        }
    }

    /// What the queues say of the question, where it is settled.
    pub fn settled<T: Transport>(&self, transport: &T) -> (r: Result<Option<Settled>, QueueError>)
        requires
            transport.sound(),
        ensures
            match r {
                Ok(settled) => settles(
                    *transport,
                    self.askable.questions.spec@.name,
                    self.askable.answers.spec@.name,
                    self.correlation@,
                    self.id,
                    settled,
                ),
                Err(QueueError::NotAnEventQueue { .. }) => !is_event_policy(
                    self.askable.questions.spec@.policy,
                ),
                Err(QueueError::Transport(_)) => !transport.reliable(),
                Err(_) => false,
            },
    {
        match self.reply_record(transport) {
            Ok(Some(record)) => return Ok(Some(Settled::Replied(record))),
            Ok(None) => {},
            Err(failure) => return Err(failure),
        }
        match self.is_abandoned(transport) {
            Ok(true) => Ok(Some(Settled::Abandoned)),
            Ok(false) => Ok(None),
            Err(failure) => Err(failure),
        }
    }

    /// The refusal of an answer that could not be read.
    pub fn unreadable(&self, failure: &QueueError) -> (r: Refusal)
        ensures
            r.kind == RefusalKind::Queue,
            r.reason@ == "the answer to "@ + self.correlation@ + " on "@
                + self.askable.questions.spec@.name + " could not be read: "@ + queue_error_words(
                *failure,
            ),
    {
        let said = failure.message();
        Refusal {
            kind: RefusalKind::Queue,
            reason: cat6(
                "the answer to ",
                self.correlation.as_str(),
                " on ",
                self.askable.questions.name().as_str(),
                " could not be read: ",
                said.as_str(),
            ),
        }
    }

    /// The refusal of a reply, naming why.
    pub fn refused(&self, why: &str) -> (r: Refusal)
        ensures
            r.kind == RefusalKind::Schema,
            r.reason@ == refused_words(self.correlation@, self.askable.answers.spec@.name, why@),
    {
        Refusal {
            kind: RefusalKind::Schema,
            reason: cat6(
                "the reply echoing ",
                self.correlation.as_str(),
                " on ",
                self.askable.answers.name().as_str(),
                " is refused: ",
                why,
            ),
        }
    }

    /// Refuses a reply record its answer queue's schema, or the schema its type
    /// declares, does not admit.
    pub fn check_reply(&self, schema: &MessageSchema, record: &Json) -> (r: Result<(), Refusal>)
        ensures
            match r {
                Ok(()) => reply_admitted(
                    self.askable.answers.spec@,
                    self.askable.answers.registry@,
                    record@,
                ) && schema_compiles(settled(schema.document@)) && is_typed(*schema, record@),
                Err(refusal) => refusal.kind == RefusalKind::Schema && (!reply_admitted(
                    self.askable.answers.spec@,
                    self.askable.answers.registry@,
                    record@,
                ) || !schema_compiles(settled(schema.document@)) || !is_typed(*schema, record@))
                    && exists|why: Seq<char>|
                    refusal.reason@ == #[trigger] refused_words(
                        self.correlation@,
                        self.askable.answers.spec@.name,
                        why,
                    ) && is_reply_fault(
                        self.askable.answers.spec@,
                        self.askable.answers.registry@,
                        *schema,
                        record@,
                        why,
                    ),
            },
    {
        let ghost queue = self.askable.answers.spec@;
        let ghost schemas = self.askable.answers.registry@;
        if let Some(id) = &self.askable.answers.spec.schema {
            if let Err(CheckError::Violation(violation)) = self.askable.answers.registry.check(
                id,
                record,
            ) {
                let why = violation.to_text();
                proof {
                    assert(is_reply_fault(queue, schemas, *schema, record@, why@));
                }
                return Err(self.refused(why.as_str()));
            }
        }
        match check_typed(self.askable.answers.name(), schema, record) {
            Ok(()) => Ok(()),
            Err(QueueError::Violation { queue: _, violation }) => {
                let why = violation.to_text();
                proof {
                    assert(is_reply_fault(queue, schemas, *schema, record@, why@));
                }
                Err(self.refused(why.as_str()))
            },
            Err(QueueError::Unregistered { queue: _, refusal }) => {
                let why = refusal.message();
                proof {
                    let head = id_text(schema.id@)
                        + ": the document is not a usable JSON Schema: "@;
                    assert(why@ == head + refusal->NotASchema_why@);
                    assert(why@.take(head.len() as int) =~= head);
                    assert(starts(why@, head));
                    assert(is_reply_fault(queue, schemas, *schema, record@, why@));
                }
                Err(self.refused(why.as_str()))
            },
            Err(failure) => {
                let why = failure.message();
                Err(self.refused(why.as_str()))
            },
        }
    }
}

/// Whether `why` is why a reply record is not admitted: what its answer queue's
/// schema finds in it, that its type's schema cannot be used, in whatever words it is
/// refused in, or what that schema finds in it.
pub open spec fn is_reply_fault(
    queue: QueueSpecView,
    schemas: Seq<(SchemaIdView, JsonView)>,
    schema: MessageSchema,
    record: JsonView,
    why: Seq<char>,
) -> bool {
    if !reply_admitted(queue, schemas, record) {
        why == violation_text(
            queue.schema->0,
            schema_violation(settled(held(schemas, queue.schema->0)->0), settled(record))->0,
        )
    } else {
        if schema_compiles(settled(schema.document@)) {
            why == violation_text(
                schema.id@,
                schema_violation(settled(schema.document@), settled(record))->0,
            )
        } else {
            starts(why, id_text(schema.id@) + ": the document is not a usable JSON Schema: "@)
        }
    }
}

/// Whether a record is one an answer queue's schema admits, where it is
/// registered.
pub open spec fn reply_admitted(
    queue: QueueSpecView,
    schemas: Seq<(SchemaIdView, JsonView)>,
    record: JsonView,
) -> bool {
    queue.schema is Some && held(schemas, queue.schema->0) is Some ==> schema_admits(
        settled(held(schemas, queue.schema->0)->0),
        settled(record),
    )
}

/// What a reply is refused with.
pub open spec fn refused_words(correlation: Seq<char>, answers: Seq<char>, why: Seq<char>) -> Seq<
    char,
> {
    "the reply echoing "@ + correlation + " on "@ + answers + " is refused: "@ + why
}

/// Whether marking a record came to what `r` says.
pub open spec fn marked_as<T: Transport>(
    queue: QueueSpecView,
    before: T,
    after: T,
    id: u64,
    abandoned: bool,
    r: Result<(), QueueError>,
) -> bool {
    match r {
        Ok(()) => {
            let log = before.log(queue.name);
            &&& is_event_policy(queue.policy)
            &&& if is_marked(log, id) == abandoned || queued_as(log, id) is None {
                after == before
            } else {
                exists|state: ProjectionView, positions: Seq<int>|
                    stands_as(queue, before, state) && #[trigger] records_events(
                        queue,
                        before,
                        after,
                        state,
                        remarks(state.folded, id, queued_as(log, id)->0, abandoned),
                        positions,
                    )
            }
        },
        Err(QueueError::NotAnEventQueue { .. }) => !is_event_policy(queue.policy) && after
            == before,
        Err(QueueError::Transport(_)) => !before.reliable(),
        Err(_) => false,
    }
}

/// The asker a question's record names.
pub open spec fn recorded_asker(record: JsonView) -> Option<Seq<char>> {
    match member(record, "asker"@) {
        Some(JsonView::Str(name)) => if is_blank(name) {
            None
        } else {
            Some(name)
        },
        _ => None,
    }
}

/// What a reply bound to, before it is made ready.
#[derive(Debug)]
pub struct Binding {
    /// The queue, and the queue its answers are appended to.
    pub askable: Askable,
    /// The question.
    pub question: Question,
}

/// What a reply bound to, and what it appended.
#[derive(Debug)]
pub struct Bound {
    /// The correlation of the question it answers, where that carries one.
    pub correlation: Option<Correlation>,
    /// The question, and where it was queued or claimed.
    pub question: Claimed<Json>,
    /// Whether the reply reached the answer queue.
    pub answered: bool,
    /// Every record appended, in order.
    pub sent: Vec<(QueueName, Pushed<Json>)>,
}

/// A record with a correlation set, where it is an object.
pub open spec fn stamped_with(record: JsonView, correlation: Seq<char>) -> JsonView {
    match record {
        JsonView::Object(fields) => JsonView::Object(
            with_field(fields, CORRELATION@, JsonView::Str(correlation)),
        ),
        other => other,
    }
}

/// Records, each that goes to the answer queue stamped with the correlation.
pub open spec fn stamped_each(
    routed: Seq<(Seq<char>, JsonView)>,
    answers: Seq<char>,
    correlation: Option<Seq<char>>,
) -> Seq<(Seq<char>, JsonView)> {
    Seq::new(
        routed.len(),
        |i: int|
            match correlation {
                Some(correlation) => if routed[i].0 == answers {
                    (routed[i].0, stamped_with(routed[i].1, correlation))
                } else {
                    routed[i]
                },
                None => routed[i],
            },
    )
}

/// A record with a correlation set, where it is an object.
pub fn stamped(record: &Json, correlation: &Correlation) -> (r: Json)
    ensures
        r@ == stamped_with(record@, correlation@),
{
    broadcast use group_json_views;

    match record {
        Json::Object(fields) => {
            let mut out = copied_fields(fields);
            set_field(&mut out, CORRELATION, Json::text(correlation.as_str()));
            Json::Object(out)
        },
        other => other.copied(),
    }
}

/// Whether a slot was released after a reply landed on the answer queue: the
/// question, where it held the slot, was answered.
pub open spec fn released<T: Transport>(
    queue: QueueSpecView,
    before: T,
    after: T,
    id: u64,
    landed: bool,
) -> bool {
    if !landed {
        after == before
    } else {
        exists|read: T, claimed: Option<Claimed<Json>>|
            {
                &&& #[trigger] holds_slot(queue, before, claimed)
                &&& #[trigger] reading_leaves(queue, before, read)
                &&& if claimed is Some && claimed->0.id == Some(id) {
                    exists|answered: bool| #[trigger]
                        was_answered(queue, read, after, Some(id), answered)
                } else {
                    after == read
                }
            }
    }
}

impl<'a, L: Layout> Bus<'a, L> {
    /// Listens again for the question a correlation names on `queue`, raising
    /// nothing: a durable listener of the asker it names takes it back.
    pub fn listen<T: Transport>(
        &self,
        transport: &mut T,
        queue: &QueueName,
        correlation: &Correlation,
        lifetime: &Lifetime,
    ) -> (r: Result<Pending, BusError>)
        requires
            old(transport).sound(),
        ensures
            final(transport).sound(),
            final(transport).reliable() == old(transport).reliable(),
            if !is_askable(self.queues_are(), queue@) {
                r is Err && not_askable(self.queues_are(), queue@, r->Err_0) && *final(transport)
                    == *old(transport)
            } else {
                let asked = questions_in(lines_on(*old(transport), queue@));
                match r {
                    Ok(pending) => {
                        let question = asked_as(asked, correlation@);
                        let named = recorded_asker(question.record);
                        &&& is_asked(asked, correlation@)
                        &&& is_askable_as(
                            pending.askable,
                            self.queues_are(),
                            self.schemas(),
                            queue@,
                        )
                        &&& pending.correlation@ == correlation@
                        &&& pending.position@ as int == question.position
                        &&& pending.id == question.id
                        &&& asker_view(pending.asker) == named
                        &&& match *lifetime {
                            Lifetime::Durable(asker) if named == Some(asker@) => marked_as(
                                pending.askable.questions.spec@,
                                *old(transport),
                                *final(transport),
                                question.id,
                                false,
                                Ok(()),
                            ),
                            _ => *final(transport) == *old(transport),
                        }
                    },
                    Err(BusError::Unbound { queue: named, why }) => {
                        &&& !is_asked(asked, correlation@)
                        &&& *final(transport) == *old(transport)
                        &&& named@ == queue@
                        &&& why@ == "no question on "@ + queue@ + " carries the correlation "@
                            + correlation@
                    },
                    Err(BusError::Queue(QueueError::Transport(_))) => !old(transport).reliable(),
                    Err(_) => false,
                }
            },
    {
        let askable = match self.askable(queue) {
            Ok(askable) => askable,
            Err(e) => return Err(e),
        };
        let questions = match askable.questions.questions_on(&*transport) {
            Ok(questions) => questions,
            Err(failure) => return Err(BusError::Queue(failure)),
        };
        let ghost asked = questions_view(questions@);
        let at = match asked_among(&questions, correlation) {
            Some(at) => at,
            None => return Err(
                BusError::Unbound {
                    queue: queue.clone(),
                    why: cat4(
                        "no question on ",
                        queue.as_str(),
                        " carries the correlation ",
                        correlation.as_str(),
                    ),
                },
            ),
        };
        proof {
            assert forall|k: int| 0 <= k < at implies (#[trigger] asked[k]).correlation
                != correlation@ by {
                assert(questions@[k].correlation@ != correlation@);
            }
            lemma_asked_as(asked, correlation@, at as int);
        }
        let question = &questions[at];
        let asker = match question.claimed.record.get("asker") {
            Some(value) => match value.as_str() {
                Some(name) => match Asker::new(name, "the recorded asker") {
                    Ok(asker) => Some(asker),
                    Err(_) => None,
                },
                None => None,
            },
            None => None,
        };
        let pending = Pending {
            askable,
            correlation: correlation.clone(),
            position: question.claimed.position,
            id: question.id,
            asker,
        };
        let mine = match (lifetime, &pending.asker) {
            (Lifetime::Durable(asker), Some(named)) => same_text(asker.as_str(), named.as_str()),
            _ => false,
        };
        if mine {
            if let Err(failure) = pending.rearm(transport) {
                return Err(BusError::Queue(failure));
            }
        }
        Ok(pending)
    }

    /// Which pending ask on `queue` a reply binds to: the one whose correlation it
    /// names, or, naming none, the only one there is. An ask is pending until a
    /// reply echoing its correlation is on the answer queue.
    pub fn bind_reply<T: Transport>(
        &self,
        transport: &T,
        queue: &QueueName,
        correlation: Option<&Correlation>,
    ) -> (r: Result<Binding, BusError>)
        requires
            transport.sound(),
        ensures
            bind_outcome(*self, *transport, queue@, echoed_view(correlation), r),
    {
        let askable = match self.askable(queue) {
            Ok(askable) => askable,
            Err(e) => return Err(e),
        };
        let replies = match askable.answers.replies_on(transport) {
            Ok(replies) => replies,
            Err(failure) => return Err(BusError::Queue(failure)),
        };
        let questions = match askable.questions.questions_on(transport) {
            Ok(questions) => questions,
            Err(failure) => return Err(BusError::Queue(failure)),
        };
        let mut pending = outstanding(questions, &replies);
        match bind_reply(&pending, correlation) {
            Ok(at) => {
                let question = pending.remove(at);
                Ok(Binding { askable, question })
            },
            Err(why) => Err(BusError::Unbound { queue: queue.clone(), why }),
        }
    }

    /// Makes a reply ready to be pushed onto the answer queue: what the layout
    /// makes of it, each record that goes there stamped with the correlation.
    pub fn prepare_reply(
        &self,
        answers: &QueueName,
        correlation: Option<&Correlation>,
        reply: &Json,
    ) -> (r: Result<Vec<(QueueName, Json)>, BusError>)
        ensures
            match r {
                Ok(routed) => reply_prepared(
                    *self,
                    answers@,
                    echoed_view(correlation),
                    reply@,
                    routed_view(routed@),
                ),
                Err(e) => prepare_refused(*self, answers@, reply@, e),
            },
    {
        let made = match self.prepare(answers, reply) {
            Ok(made) => made,
            Err(e) => return Err(e),
        };
        let ghost all = routed_view(made@);
        let ghost want = stamped_each(all, answers@, echoed_view(correlation));
        let mut out: Vec<(QueueName, Json)> = Vec::new();
        let mut i: usize = 0;
        while i < made.len()
            invariant
                i <= made@.len(),
                all == routed_view(made@),
                want == stamped_each(all, answers@, echoed_view(correlation)),
                routed_view(out@) =~= want.take(i as int),
            decreases made@.len() - i,
        {
            let ghost before = routed_view(out@);
            let target = &made[i].0;
            let record = match correlation {
                Some(correlation) => if same_text(target.as_str(), answers.as_str()) {
                    stamped(&made[i].1, correlation)
                } else {
                    made[i].1.copied()
                },
                None => made[i].1.copied(),
            };
            let ghost it = (target@, record@);
            out.push((target.clone(), record));
            proof {
                assert(routed_view(out@) =~= before.push(it));
                assert(want[i as int] == it);
            }
            i += 1;
        }
        proof {
            assert(routed_view(out@) =~= want);
        }
        Ok(out)
    }

    /// Pushes a reply made ready, where `verdict`, what its validators said,
    /// passes: everything appended, and the position after the last record on the
    /// answer queue.
    fn append_reply<T: Transport>(
        &self,
        transport: &mut T,
        answers: &QueueName,
        routed: Vec<(QueueName, Json)>,
        verdict: &Verdict,
    ) -> (r: Result<(Vec<(QueueName, Pushed<Json>)>, Option<Position>), BusError>)
        requires
            old(transport).sound(),
        ensures
            final(transport).sound(),
            final(transport).reliable() == old(transport).reliable(),
            match r {
                Ok((pushed, at)) => {
                    &&& *verdict is Pass
                    &&& sent(
                        self.queues_are(),
                        self.schemas(),
                        routed_view(routed@),
                        pushed_view(pushed@),
                        routed@.len() as int,
                        *old(transport),
                        *final(transport),
                    )
                    &&& pushed@.len() == routed@.len()
                    &&& match last_on(pushed_view(pushed@), answers@) {
                        Some(one) => at == Some(one.position),
                        None => at is None,
                    }
                },
                Err(e) => reply_stopped(
                    *self,
                    answers@,
                    routed_view(routed@),
                    verdict@,
                    *old(transport),
                    *final(transport),
                    e,
                ),
            },
    {
        let pushed = match self.send_routed(transport, answers, routed, verdict) {
            Ok(pushed) => pushed,
            Err(e) => return Err(e),
        };
        let at = match find_last_on(&pushed, answers) {
            Some(at) => Some(pushed[at].1.position),
            None => None,
        };
        Ok((pushed, at))
    }

    /// Answers the question a reply is bound to with the records it was made into,
    /// where `verdict`, what its validators said, passes: they are appended, and a
    /// question holding the queue's pending slot is released.
    pub fn reply_bound<T: Transport>(
        &self,
        transport: &mut T,
        binding: Binding,
        routed: Vec<(QueueName, Json)>,
        verdict: &Verdict,
    ) -> (r: Result<Bound, BusError>)
        requires
            old(transport).sound(),
        ensures
            final(transport).sound(),
            final(transport).reliable() == old(transport).reliable(),
            reply_outcome(
                *self,
                binding,
                routed_view(routed@),
                verdict@,
                *old(transport),
                *final(transport),
                r,
            ),
    {
        let ghost start = *transport;
        let ghost all = routed_view(routed@);
        let (sent_now, at) = match self.append_reply(
            transport,
            binding.askable.answers.name(),
            routed,
            verdict,
        ) {
            Ok(done) => done,
            Err(e) => return Err(e),
        };
        let ghost mid = *transport;
        let ghost pushed = pushed_view(sent_now@);
        proof {
            assert(sent(
                self.queues_are(),
                self.schemas(),
                all,
                pushed,
                all.len() as int,
                start,
                mid,
            ));
        }
        if let Some(at) = at {
            let held = match binding.askable.questions.held(transport) {
                Ok(held) => held,
                Err(failure) => {
                    proof {
                        assert(release_failed(*self, all, verdict@, start, BusError::Queue(failure)));
                    }
                    return Err(BusError::Queue(failure));
                },
            };
            let ghost read = *transport;
            let ghost slot = held;
            let mine = match &held {
                Some(held) => match held.id {
                    Some(id) => id == binding.question.id,
                    None => false,
                },
                None => false,
            };
            if mine {
                match binding.askable.questions.answer(
                    transport,
                    Some(binding.question.id),
                    at,
                ) {
                    Ok(answered) => {
                        proof {
                            assert(was_answered(
                                binding.askable.questions.spec@,
                                read,
                                *transport,
                                Some(binding.question.id),
                                answered,
                            ));
                        }
                    },
                    Err(failure) => {
                        proof {
                            assert(release_failed(
                                *self,
                                all,
                                verdict@,
                                start,
                                BusError::Queue(failure),
                            ));
                        }
                        return Err(BusError::Queue(failure));
                    },
                }
            }
            proof {
                assert(holds_slot(binding.askable.questions.spec@, mid, slot));
                assert(reading_leaves(binding.askable.questions.spec@, mid, read));
                assert(released(
                    binding.askable.questions.spec@,
                    mid,
                    *transport,
                    binding.question.id,
                    true,
                ));
            }
        }
        Ok(
            Bound {
                correlation: Some(binding.question.correlation),
                question: binding.question.claimed,
                answered: at.is_some(),
                sent: sent_now,
            },
        )
    }

    /// Answers the record a queue holds pending, `held`, with the records a reply
    /// was made into, where `verdict` passes. Refused where another reply released
    /// it first: what was appended then answers nothing.
    pub fn reply_held<T: Transport>(
        &self,
        transport: &mut T,
        askable: &Askable,
        held: Claimed<Json>,
        routed: Vec<(QueueName, Json)>,
        verdict: &Verdict,
    ) -> (r: Result<Bound, BusError>)
        requires
            old(transport).sound(),
        ensures
            final(transport).sound(),
            final(transport).reliable() == old(transport).reliable(),
            held_outcome(
                *self,
                *askable,
                held,
                routed_view(routed@),
                verdict@,
                *old(transport),
                *final(transport),
                r,
            ),
    {
        let ghost start = *transport;
        let ghost all = routed_view(routed@);
        let correlation = correlation_of(&held.record);
        let (sent_now, at) = match self.append_reply(
            transport,
            askable.answers.name(),
            routed,
            verdict,
        ) {
            Ok(done) => done,
            Err(e) => return Err(e),
        };
        let ghost mid = *transport;
        let ghost pushed = pushed_view(sent_now@);
        if let Some(at) = at {
            match askable.questions.answer(transport, held.id, at) {
                Ok(true) => {},
                Ok(false) => {
                    let claimed = held.position.to_text();
                    let reached = at.to_text();
                    let first = cat3(
                        "the record pending at position ",
                        claimed.as_str(),
                        " was answered by another reply first; this reply was appended to ",
                    );
                    let why = cat5(
                        first.as_str(),
                        askable.answers.name().as_str(),
                        " at position ",
                        reached.as_str(),
                        " and answers nothing",
                    );
                    let e = BusError::Unbound { queue: askable.questions.name().clone(), why };
                    proof {
                        assert(sent(
                            self.queues_are(),
                            self.schemas(),
                            all,
                            pushed,
                            all.len() as int,
                            start,
                            mid,
                        ));
                        assert(answered_first_from(*askable, held, pushed, mid, *transport, e));
                        assert(answered_first(*self, *askable, held, all, start, *transport, e));
                    }
                    return Err(e);
                },
                Err(failure) => {
                    proof {
                        assert(release_failed(*self, all, verdict@, start, BusError::Queue(failure)));
                    }
                    return Err(BusError::Queue(failure));
                },
            }
        }
        Ok(Bound { correlation, question: held, answered: at.is_some(), sent: sent_now })
    }
}

/// What comes of binding a reply that echoes `correlation`, or none, to a question
/// pending on `queue`.
pub open spec fn bind_outcome<'a, L: Layout, T: Transport>(
    bus: Bus<'a, L>,
    transport: T,
    queue: Seq<char>,
    correlation: Option<Seq<char>>,
    outcome: Result<Binding, BusError>,
) -> bool {
    if !is_askable(bus.queues_are(), queue) {
        outcome is Err && not_askable(bus.queues_are(), queue, outcome->Err_0)
    } else {
        let answers = lookup(bus.queues_are(), queue)->0@.answers->0;
        let pending = outstanding_of(
            questions_in(lines_on(transport, queue)),
            replies_in(lines_on(transport, answers)),
        );
        match outcome {
            Ok(binding) => is_askable_as(
                binding.askable,
                bus.queues_are(),
                bus.schemas(),
                queue,
            ) && binding_of(pending, correlation) == Ok::<
                QuestionView,
                Seq<char>,
            >(binding.question@),
            Err(BusError::Unbound { queue: named, why }) => named@ == queue && binding_of(
                pending,
                correlation,
            ) == Err::<QuestionView, Seq<char>>(why@),
            Err(BusError::Queue(QueueError::Transport(_))) => !transport.reliable(),
            Err(_) => false,
        }
    }
}

/// Whether a reply becomes the records `routed`: what it is prepared into as an offer
/// to the answer queue, each record that goes there stamped with the correlation.
pub open spec fn reply_prepared<'a, L: Layout>(
    bus: Bus<'a, L>,
    answers: Seq<char>,
    correlation: Option<Seq<char>>,
    reply: JsonView,
    routed: Seq<(Seq<char>, JsonView)>,
) -> bool {
    exists|made: Seq<(Seq<char>, JsonView)>|
        routed == #[trigger] stamped_each(made, answers, correlation) && offer_becomes(
            bus,
            answers,
            reply,
            made,
        )
}

/// What comes of answering the question a reply is bound to with the records it was
/// made into, judged as `verdict` says.
pub open spec fn reply_outcome<'a, L: Layout, T: Transport>(
    bus: Bus<'a, L>,
    binding: Binding,
    routed: Seq<(Seq<char>, JsonView)>,
    verdict: VerdictView,
    before: T,
    after: T,
    outcome: Result<Bound, BusError>,
) -> bool {
    match outcome {
        Ok(bound) => {
            &&& verdict is Pass
            &&& bound.correlation == Some(binding.question.correlation)
            &&& bound.question == binding.question.claimed
            &&& bound.answered == (last_on(
                pushed_view(bound.sent@),
                binding.askable.answers.spec@.name,
            ) is Some)
            &&& bound.sent@.len() == routed.len()
            &&& exists|mid: T|
                {
                    &&& #[trigger] sent(
                        bus.queues_are(),
                        bus.schemas(),
                        routed,
                        pushed_view(bound.sent@),
                        routed.len() as int,
                        before,
                        mid,
                    )
                    &&& released(
                        binding.askable.questions.spec@,
                        mid,
                        after,
                        binding.question.id,
                        bound.answered,
                    )
                }
        },
        Err(e) => reply_stopped(
            bus,
            binding.askable.answers.spec@.name,
            routed,
            verdict,
            before,
            after,
            e,
        ) || release_failed(bus, routed, verdict, before, e),
    }
}

/// What comes of answering the record a queue holds pending with the records a reply
/// was made into, judged as `verdict` says.
pub open spec fn held_outcome<'a, L: Layout, T: Transport>(
    bus: Bus<'a, L>,
    askable: Askable,
    held: Claimed<Json>,
    routed: Seq<(Seq<char>, JsonView)>,
    verdict: VerdictView,
    before: T,
    after: T,
    outcome: Result<Bound, BusError>,
) -> bool {
    match outcome {
        Ok(bound) => {
            &&& verdict is Pass
            &&& correlation_view(bound.correlation) == correlation_in(held.record@)
            &&& bound.question == held
            &&& bound.answered == (last_on(
                pushed_view(bound.sent@),
                askable.answers.spec@.name,
            ) is Some)
            &&& bound.sent@.len() == routed.len()
            &&& exists|mid: T|
                {
                    &&& #[trigger] sent(
                        bus.queues_are(),
                        bus.schemas(),
                        routed,
                        pushed_view(bound.sent@),
                        routed.len() as int,
                        before,
                        mid,
                    )
                    &&& if bound.answered {
                        was_answered(
                            askable.questions.spec@,
                            mid,
                            after,
                            held.id,
                            true,
                        )
                    } else {
                        mid == after
                    }
                }
        },
        Err(e) => reply_stopped(
            bus,
            askable.answers.spec@.name,
            routed,
            verdict,
            before,
            after,
            e,
        ) || release_failed(bus, routed, verdict, before, e)
            || answered_first(
            bus,
            askable,
            held,
            routed,
            before,
            after,
            e,
        ),
    }
}

/// An optional correlation.
pub open spec fn correlation_view(correlation: Option<Correlation>) -> Option<Seq<char>> {
    match correlation {
        Some(correlation) => Some(correlation@),
        None => None,
    }
}

/// Whether `error` is that another reply released a record first, this one
/// appended and answering nothing.
pub open spec fn answered_first<'a, L: Layout, T: Transport>(
    bus: Bus<'a, L>,
    askable: Askable,
    held: Claimed<Json>,
    routed: Seq<(Seq<char>, JsonView)>,
    before: T,
    after: T,
    error: BusError,
) -> bool {
    exists|mid: T, pushed: Seq<(Seq<char>, Pushed<Json>)>|
        {
            &&& #[trigger] sent(
                bus.queues_are(),
                bus.schemas(),
                routed,
                pushed,
                routed.len() as int,
                before,
                mid,
            )
            &&& answered_first_from(askable, held, pushed, mid, after, error)
        }
}

/// Whether `error` is that another reply released a record first.
pub open spec fn answered_first_from<T: Transport>(
    askable: Askable,
    held: Claimed<Json>,
    pushed: Seq<(Seq<char>, Pushed<Json>)>,
    mid: T,
    after: T,
    error: BusError,
) -> bool {
    &&& last_on(pushed, askable.answers.spec@.name) is Some
    &&& was_answered(askable.questions.spec@, mid, after, held.id, false)
    &&& match error {
        BusError::Unbound { queue, why } => queue@ == askable.questions.spec@.name && why@
            == "the record pending at position "@ + decimal(held.position@ as nat)
            + " was answered by another reply first; this reply was appended to "@
            + askable.answers.spec@.name + " at position "@ + decimal(
            last_on(pushed, askable.answers.spec@.name)->0.position@ as nat,
        ) + " and answers nothing"@,
        _ => false,
    }
}

/// Whether `error` is why a reply was not appended whole.
pub open spec fn reply_stopped<'a, L: Layout, T: Transport>(
    bus: Bus<'a, L>,
    answers: Seq<char>,
    routed: Seq<(Seq<char>, JsonView)>,
    verdict: VerdictView,
    before: T,
    after: T,
    error: BusError,
) -> bool {
    match verdict {
        VerdictView::Refuse(reason) => after == before && error is Queue && refused_with(
            error->Queue_0,
            answers,
            reason,
        ),
        VerdictView::Unjudged(reason) => after == before && error is Queue && unjudged_with(
            error->Queue_0,
            answers,
            reason,
        ),
        VerdictView::Pass => exists|pushed: Seq<(Seq<char>, Pushed<Json>)>| #[trigger]
            stopped_at(
                bus.queues_are(),
                bus.schemas(),
                routed,
                pushed,
                pushed.len() as int,
                before,
                after,
                error,
            ),
    }
}

/// Whether `error` is that a queue failed after a reply was appended whole.
pub open spec fn release_failed<'a, L: Layout, T: Transport>(
    bus: Bus<'a, L>,
    routed: Seq<(Seq<char>, JsonView)>,
    verdict: VerdictView,
    before: T,
    error: BusError,
) -> bool {
    &&& verdict is Pass
    &&& error is Queue
    &&& error->Queue_0 is Transport ==> !before.reliable()
    &&& exists|mid: T, pushed: Seq<(Seq<char>, Pushed<Json>)>| #[trigger]
        sent(
            bus.queues_are(),
            bus.schemas(),
            routed,
            pushed,
            routed.len() as int,
            before,
            mid,
        )
}

} // verus!
