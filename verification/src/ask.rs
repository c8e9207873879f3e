//! Asking a question on a queue, listening for its answer, and replying to it.
//!
//! A question and its reply are bound by a correlation. What the validators say of
//! a record, and what waits for a change, are the caller's: each call takes the
//! verdict as it came back.

use crate::bind::Layout;
use crate::bus::{Bus, BusError, pushed_view, unknown_queue};
use crate::codec::{address_view, asker_view};
use crate::correlation::{ABOUT, Address, CORRELATION, Correlation};
use crate::fold::{id_of, record_id};
use crate::framing::lemma_filter_all;
use crate::json::{Json, JsonView, copied_fields, group_json_views, set_field, settled, with_field};
use crate::names::{Position, QueueName};
use crate::plan::{
    is_planned, last_routed, lemma_ready_is_planned, plan_view, refused_at, sent_whole,
};
use crate::policy::{QueueSpec, is_event_policy};
use crate::prepare::routed_view;
use crate::questions::{
    Question, QuestionView, asked_among, is_asked, questions_among, questions_in, questions_view,
    replies_among, replies_in, replies_view,
};
use crate::queue::{Pushed, QueueError, RawQueue, refused_with, unjudged_with};
use crate::queue_ops::{entries_of, readable};
use crate::queue_reads::{Asker, is_marked};
use crate::schema::{
    CheckError, Registry, RegistryError, SchemaId, SchemaIdView, is_violation, lemma_held_placed,
    schema_admits, schema_compiles,
};
use crate::table::lookup;
use crate::text::same_text;
use crate::transport::Transport;
use crate::validate::{Verdict, VerdictView};
use vstd::prelude::*;

verus! {

/// How long one wait for a change lasts at most, in milliseconds.
pub const WAIT_SLICE: u64 = 200;

/// How a question is asked.
#[derive(Debug)]
pub struct AskOptions {
    /// Whether the asker waits on the answer.
    pub blocking: bool,
    /// Who asks.
    pub asker: Option<Asker>,
    /// What the question is about.
    pub about: Option<Address>,
}

impl Default for AskOptions {
    fn default() -> (r: Self)
        ensures
            !r.blocking,
            r.asker is None,
            r.about is None,
    {
        AskOptions { blocking: false, asker: None, about: None }
    }
}

/// How long a listener's claims stay its own.
#[derive(Debug)]
pub enum Lifetime {
    /// This listener alone: it adopts nothing, and nothing adopts what it raised.
    Session,
    /// A listener of an asker: it takes back what an earlier listener of the same
    /// asker abandoned.
    Durable(Asker),
}

/// The lines a queue's log reads as, each with the position after it.
pub open spec fn lines_on<T: Transport>(transport: T, queue: Seq<char>) -> Seq<(JsonView, int)> {
    readable(transport.log(queue))
}

impl RawQueue {
    /// The lines of the log, each with the position after it.
    fn lines<T: Transport>(&self, transport: &T) -> (r: Result<Vec<(Json, Position)>, QueueError>)
        requires
            transport.sound(),
        ensures
            match r {
                Ok(lines) => entries_of(lines@) == lines_on(*transport, self.spec@.name),
                Err(QueueError::Transport(_)) => !transport.reliable(),
                Err(_) => false,
            },
    {
        proof {
            transport.positions_are_ordered(self.spec@.name);
            lemma_filter_all(transport.log(self.spec@.name), |e: (Seq<u8>, int)| e.1 > 0);
        }
        self.log_after(transport, None)
    }

    /// Every question the log has queued, in order, each once.
    pub fn questions_on<T: Transport>(&self, transport: &T) -> (r: Result<
        Vec<Question>,
        QueueError,
    >)
        requires
            transport.sound(),
        ensures
            match r {
                Ok(questions) => questions_view(questions@) == questions_in(
                    lines_on(*transport, self.spec@.name),
                ),
                Err(QueueError::Transport(_)) => !transport.reliable(),
                Err(_) => false,
            },
    {
        match self.lines(transport) {
            Ok(lines) => Ok(questions_among(&lines)),
            Err(failure) => Err(failure),
        }
    }

    /// Every reply the log holds, oldest first.
    pub fn replies_on<T: Transport>(&self, transport: &T) -> (r: Result<
        Vec<(Correlation, Json)>,
        QueueError,
    >)
        requires
            transport.sound(),
        ensures
            match r {
                Ok(replies) => replies_view(replies@) == replies_in(
                    lines_on(*transport, self.spec@.name),
                ),
                Err(QueueError::Transport(_)) => !transport.reliable(),
                Err(_) => false,
            },
    {
        match self.lines(transport) {
            Ok(lines) => Ok(replies_among(&lines)),
            Err(failure) => Err(failure),
        }
    }

    /// Whether a record is marked abandoned now.
    pub fn is_marked_abandoned<T: Transport>(&self, transport: &T, id: u64) -> (r: Result<
        bool,
        QueueError,
    >)
        requires
            transport.sound(),
        ensures
            match r {
                Ok(marked) => is_event_policy(self.spec@.policy) && marked == is_marked(
                    transport.log(self.spec@.name),
                    id,
                ),
                Err(QueueError::NotAnEventQueue { .. }) => !is_event_policy(self.spec@.policy),
                Err(QueueError::Transport(_)) => !transport.reliable(),
                Err(_) => false,
            },
    {
        if let Err(e) = self.event_queue("abandoned records") {
            return Err(e);
        }
        match self.account(transport, id) {
            Ok(account) => Ok(account.abandoned),
            Err(failure) => Err(failure),
        }
    }
}

// ---------------------------------------------------------------------------
// A queue questions are asked on.
// ---------------------------------------------------------------------------

/// Whether questions can be asked on a queue: it is declared, keeps events, and
/// declares a queue its answers are appended to, which is declared.
pub open spec fn is_askable(queues: Seq<(Seq<char>, QueueSpec)>, queue: Seq<char>) -> bool {
    match lookup(queues, queue) {
        Some(kept) => is_event_policy(kept@.policy) && kept@.answers is Some && lookup(
            queues,
            kept@.answers->0,
        ) is Some,
        None => false,
    }
}

/// Whether `error` is why no question can be asked on a queue.
pub open spec fn not_askable(
    queues: Seq<(Seq<char>, QueueSpec)>,
    queue: Seq<char>,
    error: BusError,
) -> bool {
    match lookup(queues, queue) {
        None => unknown_queue(error, queue, queues),
        Some(kept) => if !is_event_policy(kept@.policy) {
            match error {
                BusError::Queue(QueueError::NotAnEventQueue { queue: named, what }) => named@
                    == queue && what@ == "questions to ask or answer"@,
                _ => false,
            }
        } else if kept@.answers is None {
            match error {
                BusError::NotAskable { queue: named, why } => named@ == queue && why@
                    == "it declares no queue its answers are appended to (`answers`)"@,
                _ => false,
            }
        } else {
            lookup(queues, kept@.answers->0) is None && unknown_queue(
                error,
                kept@.answers->0,
                queues,
            )
        },
    }
}

/// A queue questions are asked on, and the queue its answers are appended to.
#[derive(Debug)]
pub struct Askable {
    /// The queue the questions are on.
    pub questions: RawQueue,
    /// The queue the answers are appended to.
    pub answers: RawQueue,
}

/// Whether an askable queue is the one a bus declares.
pub open spec fn is_askable_as(
    askable: Askable,
    queues: Seq<(Seq<char>, QueueSpec)>,
    schemas: Seq<(SchemaIdView, JsonView)>,
    queue: Seq<char>,
) -> bool {
    &&& is_askable(queues, queue)
    &&& askable.questions.spec@ == lookup(queues, queue)->0@
    &&& askable.answers.spec@ == lookup(queues, lookup(queues, queue)->0@.answers->0)->0@
    &&& askable.questions.spec@.name == queue
    &&& askable.answers.spec@.name == askable.questions.spec@.answers->0
    &&& askable.questions.registry@ == schemas
    &&& askable.answers.registry@ == schemas
}

// ---------------------------------------------------------------------------
// Asking.
// ---------------------------------------------------------------------------

/// A question as it is asked: its `blocking` flag, its asker, what it is about and
/// its correlation set.
pub open spec fn asked_record(
    fields: Seq<(Seq<char>, JsonView)>,
    blocking: bool,
    asker: Option<Seq<char>>,
    about: Option<Seq<char>>,
    correlation: Seq<char>,
) -> Seq<(Seq<char>, JsonView)> {
    let flagged = with_field(fields, "blocking"@, JsonView::Bool(blocking));
    let named = match asker {
        Some(asker) => with_field(flagged, "asker"@, JsonView::Str(asker)),
        None => flagged,
    };
    let aimed = match about {
        Some(about) => with_field(named, ABOUT@, JsonView::Str(about)),
        None => named,
    };
    with_field(aimed, CORRELATION@, JsonView::Str(correlation))
}

/// The schema a message's type declares.
#[derive(Debug)]
pub struct MessageSchema {
    /// Its id.
    pub id: SchemaId,
    /// Its document.
    pub document: Json,
}

/// Whether a value is what a message's type declares, by its schema.
pub open spec fn is_typed(schema: MessageSchema, value: JsonView) -> bool {
    schema_admits(settled(schema.document@), settled(value))
}

/// A question made ready to be pushed, awaiting what the validators say of it.
#[derive(Debug)]
pub struct Raised {
    /// The queue, and the queue its answers are appended to.
    pub askable: Askable,
    /// The correlation it carries.
    pub correlation: Correlation,
    /// The question as it is offered.
    pub offered: Json,
    /// The records it was routed into.
    pub routed: Vec<(QueueName, Json)>,
}

/// The handle an asked question's answer arrives on.
#[derive(Debug)]
pub struct Pending {
    /// The queue, and the queue its answers are appended to.
    pub askable: Askable,
    /// The correlation a reply echoes to answer it.
    pub correlation: Correlation,
    /// The position after the question on its queue.
    pub position: Position,
    /// The question's id on its queue.
    pub id: u64,
    /// The asker the question names.
    pub asker: Option<Asker>,
}

/// The first of candidates no question of a log carries.
pub open spec fn first_fresh(
    candidates: Seq<Correlation>,
    questions: Seq<QuestionView>,
    from: int,
) -> Option<int>
    decreases candidates.len() - from,
{
    if from < 0 || from >= candidates.len() {
        None
    } else if !is_asked(questions, candidates[from]@) {
        Some(from)
    } else {
        first_fresh(candidates, questions, from + 1)
    }
}

/// The last record pushed onto a queue.
pub open spec fn last_on(pushed: Seq<(Seq<char>, Pushed<Json>)>, queue: Seq<char>) -> Option<
    Pushed<Json>,
>
    decreases pushed.len(),
{
    if pushed.len() == 0 {
        None
    } else if pushed.last().0 == queue {
        Some(pushed.last().1)
    } else {
        last_on(pushed.drop_last(), queue)
    }
}

pub(crate) fn find_last_on(pushed: &Vec<(QueueName, Pushed<Json>)>, queue: &QueueName) -> (r: Option<usize>)
    ensures
        match r {
            Some(at) => at < pushed@.len() && last_on(pushed_view(pushed@), queue@) == Some(
                pushed@[at as int].1,
            ),
            None => last_on(pushed_view(pushed@), queue@) is None,
        },
{
    let ghost all = pushed_view(pushed@);
    let mut end: usize = pushed.len();
    proof {
        assert(all.take(end as int) =~= all);
    }
    while end > 0
        invariant
            end <= pushed@.len(),
            all == pushed_view(pushed@),
            last_on(all, queue@) == last_on(all.take(end as int), queue@),
        decreases end,
    {
        if same_text(pushed[end - 1].0.as_str(), queue.as_str()) {
            return Some(end - 1);
        }
        proof {
            assert(all.take(end as int).drop_last() =~= all.take(end - 1));
        }
        end = end - 1;
    }
    None
}

/// Whether `error` is why a value is not of a message's type: its schema cannot be
/// used, or finds the violation in it that the error holds.
pub open spec fn not_typed(
    error: QueueError,
    queue: Seq<char>,
    schema: MessageSchema,
    value: JsonView,
) -> bool {
    match error {
        QueueError::Unregistered { queue: named, refusal } => {
            &&& named@ == queue
            &&& !schema_compiles(settled(schema.document@))
            &&& match refusal {
                RegistryError::NotASchema { id, why: _ } => id@ == schema.id@,
                _ => false,
            }
        },
        QueueError::Violation { queue: named, violation } => {
            &&& named@ == queue
            &&& schema_compiles(settled(schema.document@))
            &&& is_violation(violation, schema.id@, schema.document@, value)
            &&& !is_typed(schema, value)
        },
        _ => false,
    }
}

/// Refuses a value that a message's type does not declare: a schema that cannot be
/// used, or a value it does not admit.
pub fn check_typed(queue: &QueueName, schema: &MessageSchema, value: &Json) -> (r: Result<
    (),
    QueueError,
>)
    ensures
        match r {
            Ok(()) => schema_compiles(settled(schema.document@)) && is_typed(*schema, value@),
            Err(e) => not_typed(e, queue@, *schema, value@),
        },
{
    let mut registry = Registry::new();
    if let Err(refusal) = registry.register_schema(schema.id.copied(), schema.document.copied()) {
        return Err(QueueError::Unregistered { queue: queue.clone(), refusal });
    }
    proof {
        lemma_held_placed(
            Seq::<(SchemaIdView, JsonView)>::empty(),
            schema.id@,
            schema.document@,
            schema.id@,
        );
    }
    match registry.check(&schema.id, value) {
        Err(CheckError::Violation(violation)) => Err(
            QueueError::Violation { queue: queue.clone(), violation },
        ),
        _ => Ok(()),
    }
}

impl<'a, L: Layout> Bus<'a, L> {
    /// The declared queue `queue`, as one questions are asked on.
    pub fn askable(&self, queue: &QueueName) -> (r: Result<Askable, BusError>)
        ensures
            match r {
                Ok(askable) => is_askable_as(
                    askable,
                    self.queues_are(),
                    self.schemas(),
                    queue@,
                ),
                Err(e) => not_askable(self.queues_are(), queue@, e),
            },
    {
        let questions = match self.queue(queue) {
            Ok(questions) => questions,
            Err(e) => return Err(e),
        };
        if !questions.spec.policy.keeps_events() {
            return Err(
                BusError::Queue(
                    QueueError::NotAnEventQueue {
                        queue: queue.clone(),
                        what: "questions to ask or answer".to_owned(),
                    },
                ),
            );
        }
        let answers = match &questions.spec.answers {
            Some(answers) => answers.clone(),
            None => return Err(
                BusError::NotAskable {
                    queue: queue.clone(),
                    why: "it declares no queue its answers are appended to (`answers`)".to_owned(),
                },
            ),
        };
        match self.queue(&answers) {
            Ok(answers) => Ok(Askable { questions, answers }),
            Err(e) => Err(e),
        }
    }

    /// Makes `question` ready to be pushed onto `queue`: checked against its
    /// type's schema, stamped with the first of `candidates` no question there
    /// carries, and made what the layout makes of it. Nothing where every
    /// candidate is carried already, and nothing is appended either way.
    pub fn raise<T: Transport>(
        &self,
        transport: &T,
        queue: &QueueName,
        schema: &MessageSchema,
        question: &Json,
        options: &AskOptions,
        candidates: &Vec<Correlation>,
    ) -> (r: Result<Option<Raised>, BusError>)
        requires
            transport.sound(),
        ensures
            raise_outcome(
                *self,
                *transport,
                queue@,
                *schema,
                question@,
                *options,
                candidates@,
                r,
            ),
    {
        broadcast use group_json_views;

        let askable = match self.askable(queue) {
            Ok(askable) => askable,
            Err(e) => return Err(e),
        };
        if let Err(failure) = check_typed(queue, schema, question) {
            return Err(BusError::Queue(failure));
        }
        let fields = match question {
            Json::Object(fields) => fields,
            _ => return Err(
                BusError::Queue(
                    QueueError::NotAnObject {
                        queue: queue.clone(),
                        shape: "not an object".to_owned(),
                    },
                ),
            ),
        };
        let asked = match askable.questions.questions_on(transport) {
            Ok(asked) => asked,
            Err(failure) => return Err(BusError::Queue(failure)),
        };
        let ghost seen = questions_view(asked@);
        let mut at: usize = 0;
        while at < candidates.len() && asked_at(&asked, &candidates[at])
            invariant
                at <= candidates@.len(),
                seen == questions_view(asked@),
                first_fresh(candidates@, seen, 0) == first_fresh(candidates@, seen, at as int),
            decreases candidates@.len() - at,
        {
            at += 1;
        }
        if at == candidates.len() {
            return Ok(None);
        }
        let correlation = candidates[at].clone();
        let mut stamped = copied_fields(fields);
        set_field(&mut stamped, "blocking", Json::Bool(options.blocking));
        if let Some(asker) = &options.asker {
            set_field(&mut stamped, "asker", Json::text(asker.as_str()));
        }
        if let Some(about) = &options.about {
            set_field(&mut stamped, ABOUT, Json::text(about.as_str()));
        }
        set_field(&mut stamped, CORRELATION, Json::text(correlation.as_str()));
        let offered = Json::Object(stamped);
        match self.prepare(queue, &offered) {
            Ok(routed) => Ok(Some(Raised { askable, correlation, offered, routed })),
            Err(e) => Err(e),
        }
    }

    /// Pushes a question made ready, where `verdict`, what its validators said,
    /// passes, and hands back the handle its answer arrives on. Nothing is appended
    /// where it is refused.
    pub fn ask_raised<T: Transport>(
        &self,
        transport: &mut T,
        queue: &QueueName,
        raised: Raised,
        asker: Option<Asker>,
        verdict: &Verdict,
    ) -> (r: Result<Pending, BusError>)
        requires
            old(transport).sound(),
        ensures
            final(transport).sound(),
            final(transport).reliable() == old(transport).reliable(),
            r is Err && old(transport).reliable() ==> *final(transport) == *old(transport),
            ask_outcome(
                *self,
                queue@,
                raised,
                asker,
                verdict@,
                *old(transport),
                *final(transport),
                r,
            ),
    {
        if let Err(e) = QueueError::of_verdict(queue, verdict) {
            return Err(BusError::Queue(e));
        }
        let ghost before = *transport;
        let ghost queues = self.queues_are();
        let ghost schemas = self.schemas();
        let ghost all = routed_view(raised.routed@);
        let plan = match self.plan(&*transport, &raised.routed) {
            Ok(plan) => plan,
            Err(e) => {
                proof {
                    if !(e is Queue && e->Queue_0 is Transport) {
                        let records = choose|records: Seq<JsonView>| #[trigger]
                            refused_at(
                                queues,
                                schemas,
                                before,
                                all,
                                records,
                                records.len() as int,
                                e,
                            );
                        assert(ask_refused(*self, queue@, all, before, records, e));
                    }
                }
                return Err(e);
            },
        };
        let ghost records = plan_view(plan@);
        proof {
            lemma_ready_is_planned(queues, schemas, before, all, plan@);
            assert(records.len() == all.len());
            assert(is_planned(queues, schemas, before, all, records, records.len() as int));
        }
        let at = find_routed(&raised.routed, queue);
        let id = match at {
            Some(at) => record_id(&plan[at].record),
            None => None,
        };
        let (at, id) = match (at, id) {
            (Some(at), Some(id)) => (at, id),
            _ => {
                let e = BusError::NotAskable {
                    queue: queue.clone(),
                    why: "the layout routed the question to no record with an id on the queue it was asked on".to_owned(),
                };
                assert(ask_refused(*self, queue@, all, before, records, e));
                return Err(e);
            },
        };
        let pushed = match self.push_planned(transport, &raised.routed, plan) {
            Ok(pushed) => pushed,
            Err(failure) => return Err(BusError::Queue(failure)),
        };
        proof {
            let done = pushed_view(pushed@);
            assert(done.len() == all.len());
            assert(sent_whole(queues, schemas, all, done, done.len() as int, before, *transport));
        }
        Ok(
            Pending {
                askable: raised.askable,
                correlation: raised.correlation,
                position: pushed[at].1.position,
                id,
                asker,
            },
        )
    }
}

fn find_routed(routed: &Vec<(QueueName, Json)>, queue: &QueueName) -> (r: Option<usize>)
    ensures
        match r {
            Some(at) => at < routed@.len() && last_routed(
                routed_view(routed@),
                queue@,
                routed@.len() as int,
            ) == Some(at as int),
            None => last_routed(routed_view(routed@), queue@, routed@.len() as int) is None,
        },
{
    let ghost all = routed_view(routed@);
    let mut end: usize = routed.len();
    while end > 0
        invariant
            end <= routed@.len(),
            all == routed_view(routed@),
            last_routed(all, queue@, routed@.len() as int) == last_routed(all, queue@, end as int),
        decreases end,
    {
        proof {
            assert(all[end - 1].0 == routed@[end - 1].0@);
        }
        if same_text(routed[end - 1].0.as_str(), queue.as_str()) {
            return Some(end - 1);
        }
        end = end - 1;
    }
    None
}

/// What comes of making a question ready: refused where nothing can be asked on the
/// queue, where it is not of its type or no object; otherwise stamped with the first
/// candidate no question there carries, and made into what the layout makes of it.
pub open spec fn raise_outcome<'a, L: Layout, T: Transport>(
    bus: Bus<'a, L>,
    transport: T,
    queue: Seq<char>,
    schema: MessageSchema,
    question: JsonView,
    options: AskOptions,
    candidates: Seq<Correlation>,
    outcome: Result<Option<Raised>, BusError>,
) -> bool {
    if !is_askable(bus.queues_are(), queue) {
        outcome is Err && not_askable(bus.queues_are(), queue, outcome->Err_0)
    } else if !schema_compiles(settled(schema.document@)) || !is_typed(schema, question) {
        outcome is Err && outcome->Err_0 is Queue && not_typed(
            outcome->Err_0->Queue_0,
            queue,
            schema,
            question,
        )
    } else if !(question is Object) {
        match outcome {
            Err(BusError::Queue(QueueError::NotAnObject { queue: named, shape })) => named@
                == queue && shape@ == "not an object"@,
            _ => false,
        }
    } else {
        let asked = questions_in(lines_on(transport, queue));
        let fresh = first_fresh(candidates, asked, 0);
        match outcome {
            Ok(None) => fresh is None,
            Ok(Some(raised)) => {
                &&& fresh is Some
                &&& is_askable_as(
                    raised.askable,
                    bus.queues_are(),
                    bus.schemas(),
                    queue,
                )
                &&& raised.correlation@ == candidates[fresh->0]@
                &&& !is_asked(asked, raised.correlation@)
                &&& raised.offered@ == JsonView::Object(
                    asked_record(
                        question->Object_0,
                        options.blocking,
                        asker_view(options.asker),
                        address_view(options.about),
                        raised.correlation@,
                    ),
                )
                &&& match bus.layout_is() {
                    Some(layout) => layout.may_prepare(
                        queue,
                        raised.offered@,
                        bus.grants(),
                        Ok(routed_view(raised.routed@)),
                    ),
                    None => routed_view(raised.routed@) == seq![(queue, raised.offered@)],
                }
            },
            Err(BusError::Refused { queue: named, why }) => fresh is Some && named@ == queue
                && bus.layout_is() is Some && bus.layout_is()->0.may_prepare(
                queue,
                JsonView::Object(
                    asked_record(
                        question->Object_0,
                        options.blocking,
                        asker_view(options.asker),
                        address_view(options.about),
                        candidates[fresh->0]@,
                    ),
                ),
                bus.grants(),
                Err(why@),
            ),
            Err(BusError::Queue(QueueError::Transport(_))) => !transport.reliable(),
            Err(_) => false,
        }
    }
}

/// Whether a question's handle names the last record it became on the queue it was
/// asked on.
pub open spec fn names_asked(
    routed: Seq<(Seq<char>, JsonView)>,
    pushed: Seq<(Seq<char>, Pushed<Json>)>,
    queue: Seq<char>,
    pending: Pending,
) -> bool {
    match last_routed(routed, queue, routed.len() as int) {
        Some(at) => pushed[at].1.position == pending.position && pushed[at].1.id == Some(
            pending.id,
        ),
        None => false,
    }
}

/// Whether `error` is why a question is not asked, its records up to there to be appended
/// as `records`: a queue refuses one, or none with an id lands on the queue it is asked
/// on.
pub open spec fn ask_refused<'a, L: Layout, T: Transport>(
    bus: Bus<'a, L>,
    queue: Seq<char>,
    routed: Seq<(Seq<char>, JsonView)>,
    before: T,
    records: Seq<JsonView>,
    error: BusError,
) -> bool {
    if records.len() < routed.len() {
        refused_at(
            bus.queues_are(),
            bus.schemas(),
            before,
            routed,
            records,
            records.len() as int,
            error,
        )
    } else {
        &&& records.len() == routed.len()
        &&& is_planned(
            bus.queues_are(),
            bus.schemas(),
            before,
            routed,
            records,
            records.len() as int,
        )
        &&& unnumbered(error, queue)
        &&& match last_routed(routed, queue, routed.len() as int) {
            Some(at) => id_of(records[at]) is None,
            None => true,
        }
    }
}

/// What comes of pushing a question made ready, judged as `verdict` says: every record it
/// became is appended, or it is refused and nothing is.
pub open spec fn ask_outcome<'a, L: Layout, T: Transport>(
    bus: Bus<'a, L>,
    queue: Seq<char>,
    raised: Raised,
    asker: Option<Asker>,
    verdict: VerdictView,
    before: T,
    after: T,
    outcome: Result<Pending, BusError>,
) -> bool {
    match verdict {
        VerdictView::Refuse(reason) => after == before && outcome is Err
            && outcome->Err_0 is Queue && refused_with(outcome->Err_0->Queue_0, queue, reason),
        VerdictView::Unjudged(reason) => after == before && outcome is Err
            && outcome->Err_0 is Queue && unjudged_with(outcome->Err_0->Queue_0, queue, reason),
        VerdictView::Pass => match outcome {
            Ok(pending) => {
                &&& pending.askable == raised.askable
                &&& pending.correlation == raised.correlation
                &&& pending.asker == asker
                &&& exists|pushed: Seq<(Seq<char>, Pushed<Json>)>|
                    {
                        &&& pushed.len() == raised.routed@.len()
                        &&& #[trigger] sent_whole(
                            bus.queues_are(),
                            bus.schemas(),
                            routed_view(raised.routed@),
                            pushed,
                            pushed.len() as int,
                            before,
                            after,
                        )
                        &&& names_asked(routed_view(raised.routed@), pushed, queue, pending)
                    }
            },
            Err(BusError::Queue(QueueError::Transport(_))) => !before.reliable(),
            Err(e) => after == before && exists|records: Seq<JsonView>| #[trigger]
                ask_refused(bus, queue, routed_view(raised.routed@), before, records, e),
        },
    }
}

/// Whether an error is that a question got no record with an id.
pub open spec fn unnumbered(error: BusError, queue: Seq<char>) -> bool {
    match error {
        BusError::NotAskable { queue: named, why } => named@ == queue && why@
            == "the layout routed the question to no record with an id on the queue it was asked on"@,
        _ => false,
    }
}

fn asked_at(questions: &Vec<Question>, correlation: &Correlation) -> (r: bool)
    ensures
        r == is_asked(questions_view(questions@), correlation@),
{
    asked_among(questions, correlation).is_some()
}

} // verus!
