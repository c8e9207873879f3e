//! Whole offers: a record, a question or a reply made ready, judged by the bus's
//! validators and pushed.

use crate::ask::{
    AskOptions, Askable, MessageSchema, Pending, Raised, ask_outcome, is_askable, is_askable_as,
    not_askable, raise_outcome,
};
use crate::bind::Layout;
use crate::bus::{
    Bus, BusError, Gated, asked_for, asked_of, asked_view, offer_becomes, prepare_refused,
    send_outcome,
};
use crate::codec::{ServeOptions, address_view, asker_view, raised_as};
use crate::correlation::Correlation;
use crate::json::{Json, JsonView};
use crate::names::{Position, QueueName};
use crate::prepare::routed_view;
use crate::questions::{correlation_in, correlation_of, echoed_view};
use crate::queue::{Claimed, Pushed, QueueError};
use crate::queue_reads::{Asker, pending_outcome};
use crate::reply::{
    Binding, Bound, bind_outcome, correlation_view, held_outcome, reply_outcome, reply_prepared,
};
use crate::serve::ServeSession;
use crate::transport::Transport;
use crate::validate::{
    ValidationContext, Validator, Verdict, VerdictView, combined, combined_view, verdicts_view,
};
use vstd::prelude::*;

verus! {

/// Whether a validator said `verdict` of a record offered to `target` to ask or answer
/// the question of a correlation.
pub open spec fn said_of<V: Validator<Json>>(
    judge: V,
    asked: (int, Seq<char>, JsonView),
    correlation: Option<Seq<char>>,
    verdict: Verdict,
) -> bool {
    exists|record: Json, context: ValidationContext|
        {
            &&& record@ == asked.2
            &&& context.queue@ == asked.1
            &&& correlation_view(context.correlation) == correlation
            &&& #[trigger] call_ensures(V::validate, (&judge, &record, &context), verdict)
        }
}

/// Whether `verdict` is what the validators that judge an offer, and the records it
/// was routed into, came to: each was asked, in order, of what it judges.
pub open spec fn judged_as<'a, L: Layout, V: Validator<Json>>(
    bus: Bus<'a, L>,
    judges: Seq<V>,
    queue: Seq<char>,
    offered: JsonView,
    routed: Seq<(Seq<char>, JsonView)>,
    correlation: Option<Seq<char>>,
    verdict: VerdictView,
) -> bool {
    let asked = asked_for(bus.gates_are(), queue, offered, routed, routed.len() as int);
    exists|said: Seq<Verdict>|
        {
            &&& said.len() == asked.len()
            &&& forall|i: int|
                0 <= i < said.len() ==> said_of(
                    judges[asked[i].0],
                    asked[i],
                    correlation,
                    #[trigger] said[i],
                )
            &&& verdict == combined_view(#[trigger] verdicts_view(said))
        }
}

/// A gate that is asked is one there is.
proof fn lemma_asked_of_gates(gates: Seq<Gated>, n: int, target: Seq<char>, record: JsonView)
    requires
        n <= gates.len(),
    ensures
        forall|k: int|
            0 <= k < asked_of(gates, n, target, record).len() ==> 0 <= (#[trigger] asked_of(
                gates,
                n,
                target,
                record,
            )[k]).0 < gates.len(),
    decreases n,
{
    if n > 0 {
        lemma_asked_of_gates(gates, n - 1, target, record);
        let before = asked_of(gates, n - 1, target, record);
        let all = asked_of(gates, n, target, record);
        assert forall|k: int| 0 <= k < all.len() implies 0 <= (#[trigger] all[k]).0
            < gates.len() by {
            if k < before.len() {
                assert(all[k] == before[k]);
            }
        }
    }
}

proof fn lemma_asked_for_gates(
    gates: Seq<Gated>,
    queue: Seq<char>,
    offered: JsonView,
    routed: Seq<(Seq<char>, JsonView)>,
    n: int,
)
    requires
        n <= routed.len(),
    ensures
        forall|k: int|
            0 <= k < asked_for(gates, queue, offered, routed, n).len() ==> 0 <= (
            #[trigger] asked_for(gates, queue, offered, routed, n)[k]).0 < gates.len(),
    decreases n,
{
    if n <= 0 {
        lemma_asked_of_gates(gates, gates.len() as int, queue, offered);
    } else {
        lemma_asked_for_gates(gates, queue, offered, routed, n - 1);
        lemma_asked_of_gates(gates, gates.len() as int, routed[n - 1].0, routed[n - 1].1);
        let before = asked_for(gates, queue, offered, routed, n - 1);
        let more = asked_of(gates, gates.len() as int, routed[n - 1].0, routed[n - 1].1);
        let all = asked_for(gates, queue, offered, routed, n);
        assert forall|k: int| 0 <= k < all.len() implies 0 <= (#[trigger] all[k]).0
            < gates.len() by {
            if k < before.len() {
                assert(all[k] == before[k]);
            } else {
                assert(all[k] == more[k - before.len()]);
            }
        }
    }
}

impl<'a, L: Layout> Bus<'a, L> {
    /// The verdict on an offer and the records it was routed into, each judged in a
    /// context naming `correlation` where the offer asks or answers the question it
    /// names. `judges` run the bus's validators, one each, in their order.
    pub fn judge<V: Validator<Json>>(
        &self,
        judges: &Vec<V>,
        queue: &QueueName,
        offered: &Json,
        routed: &Vec<(QueueName, Json)>,
        correlation: Option<&Correlation>,
    ) -> (r: Verdict)
        requires
            judges@.len() == self.gates_are().len(),
        ensures
            judged_as(
                *self,
                judges@,
                queue@,
                offered@,
                routed_view(routed@),
                echoed_view(correlation),
                r@,
            ),
    {
        let asks = self.asks(queue, offered, routed);
        let ghost asked = asked_view(asks@);
        proof {
            lemma_asked_for_gates(
                self.gates_are(),
                queue@,
                offered@,
                routed_view(routed@),
                routed@.len() as int,
            );
        }
        let mut said: Vec<Verdict> = Vec::new();
        let mut i: usize = 0;
        while i < asks.len()
            invariant
                i <= asks@.len(),
                said@.len() == i,
                asked == asked_view(asks@),
                judges@.len() == self.gates_are().len(),
                forall|k: int| 0 <= k < asked.len() ==> 0 <= (#[trigger] asked[k]).0 < judges@.len(),
                forall|k: int|
                    0 <= k < i ==> said_of(
                        judges@[asked[k].0],
                        asked[k],
                        echoed_view(correlation),
                        #[trigger] said@[k],
                    ),
            decreases asks@.len() - i,
        {
            proof {
                assert(0 <= asked[i as int].0 < judges@.len());
            }
            let ask = &asks[i];
            let context = match correlation {
                Some(correlation) => ValidationContext::new(ask.target.clone()).with_correlation(
                    correlation.clone(),
                ),
                None => ValidationContext::new(ask.target.clone()),
            };
            let verdict = judges[ask.validator].validate(&ask.record, &context);
            proof {
                assert(correlation_view(context.correlation) == echoed_view(correlation));
                assert(said_of(
                    judges@[asked[i as int].0],
                    asked[i as int],
                    echoed_view(correlation),
                    verdict,
                ));
            }
            said.push(verdict);
            i += 1;
        }
        proof {
            assert(verdicts_view(said@).len() == said@.len());
        }
        combined(&said)
    }

    /// Judges what offering `record` to `queue` would append, appending nothing.
    pub fn validate<V: Validator<Json>>(
        &self,
        judges: &Vec<V>,
        queue: &QueueName,
        record: &Json,
    ) -> (r: Result<Verdict, BusError>)
        requires
            judges@.len() == self.gates_are().len(),
        ensures
            match r {
                Ok(verdict) => exists|routed: Seq<(Seq<char>, JsonView)>|
                    {
                        &&& #[trigger] offer_becomes(*self, queue@, record@, routed)
                        &&& judged_as(
                            *self,
                            judges@,
                            queue@,
                            record@,
                            routed,
                            None,
                            verdict@,
                        )
                    },
                Err(e) => prepare_refused(*self, queue@, record@, e),
            },
    {
        match self.prepare(queue, record) {
            Ok(routed) => Ok(self.judge(judges, queue, record, &routed, None)),
            Err(e) => Err(e),
        }
    }

    /// Offers `record` to `queue`: made ready, judged, and each record it becomes
    /// pushed onto its queue, where the verdict passes.
    pub fn send<T: Transport, V: Validator<Json>>(
        &self,
        transport: &mut T,
        judges: &Vec<V>,
        queue: &QueueName,
        record: &Json,
    ) -> (r: Result<Vec<(QueueName, Pushed<Json>)>, BusError>)
        requires
            old(transport).sound(),
            judges@.len() == self.gates_are().len(),
        ensures
            final(transport).sound(),
            final(transport).reliable() == old(transport).reliable(),
            offered_whole(
                *self,
                judges@,
                queue@,
                record@,
                *old(transport),
                *final(transport),
                r,
            ),
    {
        let routed = match self.prepare(queue, record) {
            Ok(routed) => routed,
            Err(e) => return Err(e),
        };
        let verdict = self.judge(judges, queue, record, &routed, None);
        self.send_routed(transport, queue, routed, &verdict)
    }

    /// Asks a question: checked to be of its type, stamped with the first of
    /// `candidates` no question on the queue carries, made ready, judged and pushed.
    /// Nothing is asked where every candidate is carried already, and nothing is
    /// appended where the question is refused.
    pub fn ask<T: Transport, V: Validator<Json>>(
        &self,
        transport: &mut T,
        judges: &Vec<V>,
        queue: &QueueName,
        schema: &MessageSchema,
        question: &Json,
        options: AskOptions,
        candidates: &Vec<Correlation>,
    ) -> (r: Result<Option<Pending>, BusError>)
        requires
            old(transport).sound(),
            judges@.len() == self.gates_are().len(),
        ensures
            final(transport).sound(),
            final(transport).reliable() == old(transport).reliable(),
            r is Err && old(transport).reliable() ==> *final(transport) == *old(transport),
            exists|raised: Result<Option<Raised>, BusError>|
                {
                    &&& #[trigger] raise_outcome(
                        *self,
                        *old(transport),
                        queue@,
                        *schema,
                        question@,
                        options,
                        candidates@,
                        raised,
                    )
                    &&& match raised {
                        Err(e) => r == Err::<Option<Pending>, BusError>(e) && *final(transport)
                            == *old(transport),
                        Ok(None) => r == Ok::<Option<Pending>, BusError>(None) && *final(transport)
                            == *old(transport),
                        Ok(Some(raised)) => asked_whole(
                            *self,
                            judges@,
                            queue@,
                            raised,
                            options.asker,
                            *old(transport),
                            *final(transport),
                            r,
                        ),
                    }
                },
    {
        let raised = match self.raise(&*transport, queue, schema, question, &options, candidates) {
            Ok(Some(raised)) => raised,
            Ok(None) => return Ok(None),
            Err(e) => return Err(e),
        };
        let verdict = self.judge(
            judges,
            queue,
            &raised.offered,
            &raised.routed,
            Some(&raised.correlation),
        );
        match self.ask_raised(transport, queue, raised, options.asker, &verdict) {
            Ok(pending) => Ok(Some(pending)),
            Err(e) => Err(e),
        }
    }

    /// Answers the pending ask on `queue` whose correlation `correlation` names, or,
    /// naming none, the only one there, with `reply`: made ready as an offer to the
    /// answer queue, stamped with the correlation, judged and appended.
    pub fn reply<T: Transport, V: Validator<Json>>(
        &self,
        transport: &mut T,
        judges: &Vec<V>,
        queue: &QueueName,
        correlation: Option<&Correlation>,
        reply: &Json,
    ) -> (r: Result<Bound, BusError>)
        requires
            old(transport).sound(),
            judges@.len() == self.gates_are().len(),
        ensures
            final(transport).sound(),
            final(transport).reliable() == old(transport).reliable(),
            exists|bound: Result<Binding, BusError>|
                {
                    &&& #[trigger] bind_outcome(
                        *self,
                        *old(transport),
                        queue@,
                        echoed_view(correlation),
                        bound,
                    )
                    &&& match bound {
                        Err(e) => r == Err::<Bound, BusError>(e) && *final(transport) == *old(
                            transport,
                        ),
                        Ok(binding) => replied_whole(
                            *self,
                            judges@,
                            binding,
                            reply@,
                            *old(transport),
                            *final(transport),
                            r,
                        ),
                    }
                },
    {
        let binding = match self.bind_reply(&*transport, queue, correlation) {
            Ok(binding) => binding,
            Err(e) => return Err(e),
        };
        let answers = binding.askable.answers.name();
        let echoed = Some(&binding.question.correlation);
        let routed = match self.prepare_reply(answers, echoed, reply) {
            Ok(routed) => routed,
            Err(e) => return Err(e),
        };
        let verdict = self.judge(judges, answers, reply, &routed, echoed);
        self.reply_bound(transport, binding, routed, &verdict)
    }

    /// Answers the record `queue` holds pending, claimed at `position`, with `reply`,
    /// stamped with that record's correlation where it carries one.
    pub fn reply_at<T: Transport, V: Validator<Json>>(
        &self,
        transport: &mut T,
        judges: &Vec<V>,
        queue: &QueueName,
        position: Position,
        reply: &Json,
    ) -> (r: Result<Bound, BusError>)
        requires
            old(transport).sound(),
            judges@.len() == self.gates_are().len(),
        ensures
            final(transport).sound(),
            final(transport).reliable() == old(transport).reliable(),
            if !is_askable(self.queues_are(), queue@) {
                r is Err && not_askable(self.queues_are(), queue@, r->Err_0) && *final(transport)
                    == *old(transport)
            } else {
                exists|askable: Askable, pending: Result<Claimed<Json>, QueueError>, read: T|
                    {
                        &&& is_askable_as(askable, self.queues_are(), self.schemas(), queue@)
                        &&& #[trigger] pending_outcome(
                            askable.questions,
                            position,
                            *old(transport),
                            read,
                            pending,
                        )
                        &&& match pending {
                            Err(failure) => r == Err::<Bound, BusError>(BusError::Queue(failure))
                                && *final(transport) == read,
                            Ok(held) => replied_held(
                                *self,
                                judges@,
                                askable,
                                held,
                                reply@,
                                read,
                                *final(transport),
                                r,
                            ),
                        }
                    }
            },
    {
        let askable = match self.askable(queue) {
            Ok(askable) => askable,
            Err(e) => return Err(e),
        };
        let held = match askable.questions.pending_at(transport, position) {
            Ok(held) => held,
            Err(failure) => return Err(BusError::Queue(failure)),
        };
        let answers = askable.answers.name();
        let correlation = correlation_of(&held.record);
        let echoed = correlation.as_ref();
        let routed = match self.prepare_reply(answers, echoed, reply) {
            Ok(routed) => routed,
            Err(e) => return Err(e),
        };
        let verdict = self.judge(judges, answers, reply, &routed, echoed);
        self.reply_held(transport, &askable, held, routed, &verdict)
    }
}

impl ServeSession {
    /// Raises `record` on the queue the session serves, asking nothing: naming the
    /// session's asker and what it is about where it names neither, then offered whole.
    pub fn raise<'a, L: Layout, T: Transport, V: Validator<Json>>(
        &self,
        bus: &Bus<'a, L>,
        transport: &mut T,
        judges: &Vec<V>,
        options: &ServeOptions,
        record: &Json,
    ) -> (r: Result<Vec<(QueueName, Pushed<Json>)>, BusError>)
        requires
            old(transport).sound(),
            judges@.len() == bus.gates_are().len(),
        ensures
            final(transport).sound(),
            final(transport).reliable() == old(transport).reliable(),
            offered_whole(
                *bus,
                judges@,
                self.serves(),
                raised_as(record@, asker_view(options.asker), address_view(options.about)),
                *old(transport),
                *final(transport),
                r,
            ),
    {
        let raised = options.raised(record);
        bus.send(transport, judges, self.queue(), &raised)
    }
}

/// What comes of offering a record: nothing is pushed where it is refused as it is made
/// ready, and otherwise what it becomes is judged and pushed.
pub open spec fn offered_whole<'a, L: Layout, T: Transport, V: Validator<Json>>(
    bus: Bus<'a, L>,
    judges: Seq<V>,
    queue: Seq<char>,
    record: JsonView,
    before: T,
    after: T,
    outcome: Result<Vec<(QueueName, Pushed<Json>)>, BusError>,
) -> bool {
    if outcome is Err && prepare_refused(bus, queue, record, outcome->Err_0) {
        after == before
    } else {
        exists|routed: Seq<(Seq<char>, JsonView)>, verdict: VerdictView|
            {
                &&& offer_becomes(bus, queue, record, routed)
                &&& judged_as(bus, judges, queue, record, routed, None, verdict)
                &&& #[trigger] send_outcome(bus, queue, routed, verdict, before, after, outcome)
            }
    }
}

/// What comes of judging and pushing a question made ready.
pub open spec fn asked_whole<'a, L: Layout, T: Transport, V: Validator<Json>>(
    bus: Bus<'a, L>,
    judges: Seq<V>,
    queue: Seq<char>,
    raised: Raised,
    asker: Option<Asker>,
    before: T,
    after: T,
    outcome: Result<Option<Pending>, BusError>,
) -> bool {
    exists|verdict: VerdictView, asked: Result<Pending, BusError>|
        {
            &&& judged_as(
                bus,
                judges,
                queue,
                raised.offered@,
                routed_view(raised.routed@),
                Some(raised.correlation@),
                verdict,
            )
            &&& #[trigger] ask_outcome(bus, queue, raised, asker, verdict, before, after, asked)
            &&& outcome == match asked {
                Ok(pending) => Ok::<Option<Pending>, BusError>(Some(pending)),
                Err(e) => Err::<Option<Pending>, BusError>(e),
            }
        }
}

/// What comes of making ready, judging and appending a reply bound to a question.
pub open spec fn replied_whole<'a, L: Layout, T: Transport, V: Validator<Json>>(
    bus: Bus<'a, L>,
    judges: Seq<V>,
    binding: Binding,
    reply: JsonView,
    before: T,
    after: T,
    outcome: Result<Bound, BusError>,
) -> bool {
    let answers = binding.askable.answers.spec@.name;
    let echoed = Some(binding.question.correlation@);
    ||| outcome is Err && prepare_refused(bus, answers, reply, outcome->Err_0) && after == before
    ||| exists|routed: Seq<(Seq<char>, JsonView)>, verdict: VerdictView|
        {
            &&& reply_prepared(bus, answers, echoed, reply, routed)
            &&& judged_as(bus, judges, answers, reply, routed, echoed, verdict)
            &&& #[trigger] reply_outcome(bus, binding, routed, verdict, before, after, outcome)
        }
}

/// What comes of making ready, judging and appending a reply to the record a queue
/// holds pending.
pub open spec fn replied_held<'a, L: Layout, T: Transport, V: Validator<Json>>(
    bus: Bus<'a, L>,
    judges: Seq<V>,
    askable: Askable,
    held: Claimed<Json>,
    reply: JsonView,
    before: T,
    after: T,
    outcome: Result<Bound, BusError>,
) -> bool {
    let answers = askable.answers.spec@.name;
    let echoed = correlation_in(held.record@);
    ||| outcome is Err && prepare_refused(bus, answers, reply, outcome->Err_0) && after == before
    ||| exists|routed: Seq<(Seq<char>, JsonView)>, verdict: VerdictView|
        {
            &&& reply_prepared(bus, answers, echoed, reply, routed)
            &&& judged_as(bus, judges, answers, reply, routed, echoed, verdict)
            &&& #[trigger] held_outcome(
                bus,
                askable,
                held,
                routed,
                verdict,
                before,
                after,
                outcome,
            )
        }
}

/// An offer no validator judges passes.
pub proof fn unjudged_offer_passes<'a, L: Layout, V: Validator<Json>>(
    bus: Bus<'a, L>,
    judges: Seq<V>,
    queue: Seq<char>,
    offered: JsonView,
    routed: Seq<(Seq<char>, JsonView)>,
    correlation: Option<Seq<char>>,
    verdict: VerdictView,
)
    requires
        asked_for(bus.gates_are(), queue, offered, routed, routed.len() as int).len() == 0,
        judged_as(bus, judges, queue, offered, routed, correlation, verdict),
    ensures
        verdict == VerdictView::Pass,
{
}

} // verus!
