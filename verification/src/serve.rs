//! A serving session: the questions a codec asked, and what becomes of them when it
//! ends.

use crate::ask::{Pending, lines_on};
use crate::bind::Layout;
use crate::bus::{Bus, BusError, unknown_queue};
use crate::codec::{Arrival, Served, Turn, ending, turn};
use crate::correlation::Answer;
use crate::names::QueueName;
use crate::questions::{first_reply, replies_in};
use crate::queue::QueueError;
use crate::reply::marked_as;
use crate::table::lookup;
use crate::text::{is_blank, trimmed};
use crate::transport::Transport;
use vstd::prelude::*;

verus! {

/// A session serving one queue.
#[derive(Debug)]
pub struct ServeSession {
    queue: QueueName,
    asked: Vec<Pending>,
}

/// What a session does with what it was handed.
#[derive(Debug)]
pub enum ServeStep {
    /// It waits for what arrives next.
    Continue,
    /// It has a codec answer a frame.
    Answer(String),
    /// It is over.
    Over(Served),
}

/// Whether a question has no reply on its answer queue.
pub open spec fn stands_unanswered<T: Transport>(transport: T, pending: Pending) -> bool {
    first_reply(
        replies_in(lines_on(transport, pending.askable.answers.spec@.name)),
        pending.correlation@,
    ) is None
}

/// Where the questions that have no reply are, among the first `n`.
pub open spec fn unanswered_among<T: Transport>(
    transport: T,
    asked: Seq<Pending>,
    n: int,
) -> Seq<int>
    decreases n,
{
    if n <= 0 || n > asked.len() {
        Seq::empty()
    } else {
        let before = unanswered_among(transport, asked, n - 1);
        if stands_unanswered(transport, asked[n - 1]) {
            before.push(n - 1)
        } else {
            before
        }
    }
}

/// Whether the first `n` of those questions were marked abandoned, in order.
pub open spec fn abandoned_each<T: Transport>(
    asked: Seq<Pending>,
    which: Seq<int>,
    n: int,
    before: T,
    after: T,
) -> bool
    decreases n,
{
    if n <= 0 {
        n == 0 && before == after
    } else {
        &&& n <= which.len()
        &&& 0 <= which[n - 1] < asked.len()
        &&& exists|mid: T|
            abandoned_each(asked, which, n - 1, before, mid) && #[trigger] marked_as(
                asked[which[n - 1]].askable.questions.spec@,
                mid,
                after,
                asked[which[n - 1]].id,
                true,
                Ok(()),
            )
    }
}

/// Whether a session ended as it should: at its bound every unanswered question
/// stands, and with its stream every one is marked abandoned.
pub open spec fn ends_as<T: Transport>(
    asked: Seq<Pending>,
    bound_reached: bool,
    before: T,
    after: T,
    served: Served,
) -> bool {
    let which = unanswered_among(before, asked, asked.len() as int);
    if bound_reached {
        after == before && served == (Served::SessionOver { standing: which.len() as usize })
    } else {
        abandoned_each(asked, which, which.len() as int, before, after) && served == (
        Served::StreamEnded { abandoned: which.len() as usize })
    }
}

/// Whether `error` is why a session did not end as it should: the replies could not be
/// read, nothing marked; or, with its stream, the questions before one were marked
/// abandoned and marking that one failed. A transport that does all it is asked fails
/// neither way.
pub open spec fn end_failed<T: Transport>(
    asked: Seq<Pending>,
    bound_reached: bool,
    before: T,
    after: T,
    error: QueueError,
) -> bool {
    let which = unanswered_among(before, asked, asked.len() as int);
    &&& error is Transport ==> !before.reliable()
    &&& (error is Transport && after == before) || (!bound_reached && exists|n: int, mid: T|
        0 <= n < which.len() && #[trigger] abandoned_each(asked, which, n, before, mid)
            && marked_as(
            asked[which[n]].askable.questions.spec@,
            mid,
            after,
            asked[which[n]].id,
            true,
            Err(error),
        ))
}

proof fn lemma_unanswered<T: Transport>(transport: T, asked: Seq<Pending>, n: int)
    requires
        0 <= n <= asked.len(),
    ensures
        unanswered_among(transport, asked, n).len() <= n,
        forall|i: int|
            0 <= i < unanswered_among(transport, asked, n).len() ==> 0
                <= #[trigger] unanswered_among(transport, asked, n)[i] < n,
    decreases n,
{
    if n > 0 {
        lemma_unanswered(transport, asked, n - 1);
    }
}

/// Places in a list.
pub open spec fn places(at: Seq<usize>) -> Seq<int> {
    Seq::new(at.len(), |i: int| at[i] as int)
}

impl ServeSession {
    /// The queue served.
    pub closed spec fn serves(&self) -> Seq<char> {
        self.queue@
    }

    /// The questions asked, in order.
    pub closed spec fn has_asked(&self) -> Seq<Pending> {
        self.asked@
    }

    /// The queue the session raises and asks on.
    pub fn queue(&self) -> (r: &QueueName)
        ensures
            r@ == self.serves(),
    {
        &self.queue
    }

    /// Keeps a question: the session's ending decides whether one still unanswered
    /// is abandoned.
    pub fn keep(&mut self, pending: Pending)
        ensures
            final(self).serves() == old(self).serves(),
            final(self).has_asked() == old(self).has_asked().push(pending),
    {
        self.asked.push(pending);
    }

    /// What the session does with what it was handed: a blank line is passed over, a
    /// frame is answered, and at its bound or with its stream the session is over.
    pub fn step<T: Transport>(&self, transport: &mut T, arrival: &Arrival) -> (r: Result<
        ServeStep,
        QueueError,
    >)
        requires
            old(transport).sound(),
        ensures
            final(transport).sound(),
            final(transport).reliable() == old(transport).reliable(),
            match *arrival {
                Arrival::Line(line) => *final(transport) == *old(transport) && r is Ok && if is_blank(
                    line@,
                ) {
                    r->Ok_0 is Continue
                } else {
                    r->Ok_0 is Answer && r->Ok_0->Answer_0@ == trimmed(line@)
                },
                Arrival::Ended => match r {
                    Ok(ServeStep::Over(served)) => ends_as(
                        self.has_asked(),
                        false,
                        *old(transport),
                        *final(transport),
                        served,
                    ),
                    Ok(_) => false,
                    Err(failure) => end_failed(
                        self.has_asked(),
                        false,
                        *old(transport),
                        *final(transport),
                        failure,
                    ),
                },
                Arrival::BoundReached => match r {
                    Ok(ServeStep::Over(served)) => ends_as(
                        self.has_asked(),
                        true,
                        *old(transport),
                        *final(transport),
                        served,
                    ),
                    Ok(_) => false,
                    Err(failure) => end_failed(
                        self.has_asked(),
                        true,
                        *old(transport),
                        *final(transport),
                        failure,
                    ),
                },
            },
    {
        match turn(arrival) {
            Turn::Pass => Ok(ServeStep::Continue),
            Turn::Frame(text) => Ok(ServeStep::Answer(text)),
            Turn::End { bound_reached } => match self.finish(transport, bound_reached) {
                Ok(served) => Ok(ServeStep::Over(served)),
                Err(failure) => Err(failure),
            },
        }
    }

    /// Ends the session.
    fn finish<T: Transport>(&self, transport: &mut T, bound_reached: bool) -> (r: Result<
        Served,
        QueueError,
    >)
        requires
            old(transport).sound(),
        ensures
            final(transport).sound(),
            final(transport).reliable() == old(transport).reliable(),
            match r {
                Ok(served) => ends_as(
                    self.has_asked(),
                    bound_reached,
                    *old(transport),
                    *final(transport),
                    served,
                ),
                Err(failure) => end_failed(
                    self.has_asked(),
                    bound_reached,
                    *old(transport),
                    *final(transport),
                    failure,
                ),
            },
    {
        let ghost start = *transport;
        let ghost asked = self.asked@;
        let mut which: Vec<usize> = Vec::new();
        let mut i: usize = 0;
        proof {
            assert(places(which@) =~= unanswered_among(start, asked, 0));
        }
        while i < self.asked.len()
            invariant
                i <= self.asked@.len(),
                asked == self.asked@,
                start == *old(transport),
                *transport == start,
                transport.sound(),
                transport.reliable() == old(transport).reliable(),
                places(which@) == unanswered_among(start, asked, i as int),
            decreases self.asked@.len() - i,
        {
            match self.asked[i].reply_record(&*transport) {
                Ok(None) => {
                    let ghost before = places(which@);
                    which.push(i);
                    proof {
                        assert(places(which@) =~= before.push(i as int));
                    }
                },
                Ok(Some(_)) => {},
                Err(failure) => return Err(failure),
            }
            i += 1;
        }
        let ghost all = unanswered_among(start, asked, asked.len() as int);
        proof {
            assert(places(which@) == all);
            assert(all.len() == which@.len());
            lemma_unanswered(start, asked, asked.len() as int);
        }
        if bound_reached {
            return Ok(ending(true, which.len()));
        }
        let mut j: usize = 0;
        while j < which.len()
            invariant
                j <= which@.len(),
                asked == self.asked@,
                all == places(which@),
                all == unanswered_among(start, asked, asked.len() as int),
                start == *old(transport),
                all.len() == which@.len(),
                forall|k: int| 0 <= k < all.len() ==> 0 <= #[trigger] all[k] < asked.len(),
                transport.sound(),
                transport.reliable() == old(transport).reliable(),
                !bound_reached,
                abandoned_each(asked, all, j as int, start, *transport),
            decreases which@.len() - j,
        {
            let ghost mid = *transport;
            proof {
                assert(all[j as int] == which@[j as int]);
            }
            if let Err(failure) = self.asked[which[j]].abandon(transport) {
                proof {
                    assert(abandoned_each(asked, all, j as int, start, mid));
                    assert(marked_as(
                        asked[all[j as int]].askable.questions.spec@,
                        mid,
                        *transport,
                        asked[all[j as int]].id,
                        true,
                        Err(failure),
                    ));
                }
                return Err(failure);
            }
            proof {
                assert(marked_as(
                    asked[all[j as int]].askable.questions.spec@,
                    mid,
                    *transport,
                    asked[all[j as int]].id,
                    true,
                    Ok(()),
                ));
            }
            j += 1;
        }
        Ok(ending(false, which.len()))
    }
}

impl<'a, L: Layout> Bus<'a, L> {
    /// Starts serving `queue`: refused where it is not declared.
    pub fn serve(&self, queue: &QueueName) -> (r: Result<ServeSession, BusError>)
        ensures
            match r {
                Ok(session) => lookup(self.queues_are(), queue@) is Some && session.serves()
                    == queue@ && session.has_asked() == Seq::<Pending>::empty(),
                Err(e) => lookup(self.queues_are(), queue@) is None && unknown_queue(
                    e,
                    queue@,
                    self.queues_are(),
                ),
            },
    {
        match self.queue(queue) {
            Ok(_) => Ok(ServeSession { queue: queue.clone(), asked: Vec::new() }),
            Err(e) => Err(e),
        }
    }
}

/// A session whose bound is reached marks nothing: every question it asked stands.
pub proof fn bound_abandons_nothing<T: Transport>(
    asked: Seq<Pending>,
    before: T,
    after: T,
    served: Served,
)
    requires
        ends_as(asked, true, before, after, served),
    ensures
        after == before,
        served is SessionOver,
{
}

} // verus!
