//! The inbox: a typed channel into a running process, whose sender learns what
//! the receiver did with the message.
//!
//! A message offered takes a ticket. It reaches the receiver, or its ticket is
//! settled with why not, and a disposition settles exactly the ticket it answers.
//! Who waits on a ticket, and how, is the caller's.

use crate::correlation::Answer;
use crate::reply::Bound;
use crate::text::{cat2, cat3, cat4, cat5, cat6, decimal, decimal_of};
use vstd::prelude::*;

verus! {

/// The reason a ticket is settled with when its message was taken and let go
/// without an answer.
pub const LET_GO: &'static str = "the receiver took the message and let it go without answering";

/// The reason an inbox dropped without being closed gives.
pub const DROPPED: &'static str = "the inbox was dropped without being closed";

/// Why an inbox takes no more messages: the closer's words.
#[derive(Debug)]
pub struct Closed {
    /// What the closer said.
    pub reason: String,
}

impl Closed {
    /// A close carrying `reason`.
    pub fn new(reason: &str) -> (r: Self)
        ensures
            r.reason@ == reason@,
    {
        Closed { reason: reason.to_owned() }
    }

    /// The close in words.
    pub fn message(&self) -> (r: String)
        ensures
            r@ == "the inbox is closed: "@ + self.reason@,
    {
        cat2("the inbox is closed: ", self.reason.as_str())
    }

    /// The same close.
    pub fn copied(&self) -> (r: Self)
        ensures
            r.reason@ == self.reason@,
    {
        Closed { reason: self.reason.clone() }
    }
}

/// What a backend could not do, naming the path it could not do it at.
#[derive(Debug)]
pub enum BackendError {
    /// The path is not the backend a caller named.
    Absent {
        /// What the path was expected to be.
        what: String,
        /// The path.
        path: String,
        /// What is there instead.
        why: String,
    },
    /// Another receiver holds the spool.
    Bound {
        /// The spool.
        path: String,
    },
    /// A document the backend reads is not one this build wrote.
    Unreadable {
        /// The spool or store the document belongs to.
        at: String,
        /// The document.
        file: String,
        /// What is wrong with it.
        why: String,
    },
    /// Nothing took the message within the bounded wait, so it was withdrawn.
    Elapsed {
        /// The spool.
        spool: String,
        /// The bounded wait that passed, in milliseconds.
        waited: u64,
    },
    /// The receiver took the message and is no longer bound, and answered nothing
    /// before it went.
    Abandoned {
        /// The spool.
        spool: String,
        /// The message's file in it.
        file: String,
    },
    /// The receiver refused the offered document.
    Refused {
        /// The spool.
        spool: String,
        /// What the receiver said.
        why: String,
    },
    /// The file system refused.
    Io {
        /// What was being done.
        action: String,
        /// Where.
        path: String,
        /// What the system said.
        why: String,
    },
    /// A value did not serialize.
    Encoding {
        /// What did not.
        what: String,
        /// What was said of it.
        why: String,
    },
}

/// A wait as a person reads it: whole seconds when it is whole, milliseconds
/// otherwise.
pub open spec fn wait_words(millis: nat) -> Seq<char> {
    if millis % 1000 == 0 {
        decimal(millis / 1000) + "s"@
    } else {
        decimal(millis) + "ms"@
    }
}

/// A wait as a person reads it.
pub fn wait_text(millis: u64) -> (r: String)
    ensures
        r@ == wait_words(millis as nat),
{
    if millis % 1000 == 0 {
        let count = decimal_of(millis / 1000);
        cat2(count.as_str(), "s")
    } else {
        let count = decimal_of(millis);
        cat2(count.as_str(), "ms")
    }
}

/// A failure in words.
pub open spec fn backend_error_words(error: BackendError) -> Seq<char> {
    match error {
        BackendError::Absent { what, path, why } => path@ + " is not "@ + what@ + ": "@ + why@,
        BackendError::Bound { path } => path@
            + " is already bound by another receiver; a spool has one receiver at a time"@,
        BackendError::Unreadable { at, file, why } => file@
            + " is not a document this build reads: "@ + why@,
        BackendError::Elapsed { spool, waited } =>
            "nothing took the message offered to the spool at "@ + spool@ + " within "@
            + wait_words(waited as nat) + "; it was withdrawn"@,
        BackendError::Abandoned { spool, file } => "the receiver of the spool at "@ + spool@
            + " took the message ("@ + file@
            + ") and is no longer bound, with no answer written"@,
        BackendError::Refused { spool, why } => "the receiver of the spool at "@ + spool@
            + " refused the message: "@ + why@,
        BackendError::Io { action, path, why } => "cannot "@ + action@ + " "@ + path@ + ": "@
            + why@,
        BackendError::Encoding { what, why } => "the "@ + what@ + " does not serialize: "@ + why@,
    }
}

impl BackendError {
    /// What the file system refused.
    pub fn io(action: &str, path: &str, failure: &str) -> (r: Self)
        ensures
            match r {
                BackendError::Io { action: did, path: at, why } => did@ == action@ && at@ == path@
                    && why@ == failure@,
                _ => false,
            },
    {
        BackendError::Io {
            action: action.to_owned(),
            path: path.to_owned(),
            why: failure.to_owned(),
        }
    }

    /// The failure in words.
    pub fn message(&self) -> (r: String)
        ensures
            r@ == backend_error_words(*self),
    {
        match self {
            BackendError::Absent { what, path, why } => cat5(
                path.as_str(),
                " is not ",
                what.as_str(),
                ": ",
                why.as_str(),
            ),
            BackendError::Bound { path } => cat2(
                path.as_str(),
                " is already bound by another receiver; a spool has one receiver at a time",
            ),
            BackendError::Unreadable { at: _, file, why } => cat3(
                file.as_str(),
                " is not a document this build reads: ",
                why.as_str(),
            ),
            BackendError::Elapsed { spool, waited } => {
                let wait = wait_text(*waited);
                cat5(
                    "nothing took the message offered to the spool at ",
                    spool.as_str(),
                    " within ",
                    wait.as_str(),
                    "; it was withdrawn",
                )
            },
            BackendError::Abandoned { spool, file } => cat5(
                "the receiver of the spool at ",
                spool.as_str(),
                " took the message (",
                file.as_str(),
                ") and is no longer bound, with no answer written",
            ),
            BackendError::Refused { spool, why } => cat4(
                "the receiver of the spool at ",
                spool.as_str(),
                " refused the message: ",
                why.as_str(),
            ),
            BackendError::Io { action, path, why } => cat6(
                "cannot ",
                action.as_str(),
                " ",
                path.as_str(),
                ": ",
                why.as_str(),
            ),
            BackendError::Encoding { what, why } => cat4(
                "the ",
                what.as_str(),
                " does not serialize: ",
                why.as_str(),
            ),
        }
    }
}

/// Why a sender was not answered with a disposition.
#[derive(Debug)]
pub enum Undelivered {
    /// The receiver closed the inbox, before or after the message arrived.
    Closed(Closed),
    /// The backend cannot produce the receiver's answer, and says why.
    Backend(BackendError),
}

impl Undelivered {
    /// The failure in words.
    pub fn message(&self) -> (r: String)
        ensures
            r@ == match *self {
                Undelivered::Closed(closed) => "the inbox is closed: "@ + closed.reason@,
                Undelivered::Backend(failure) => backend_error_words(failure),
            },
    {
        match self {
            Undelivered::Closed(closed) => closed.message(),
            Undelivered::Backend(failure) => failure.message(),
        }
    }
}

/// One message and the disposition its receiver answered it with.
#[derive(Debug)]
pub struct Answered<M, D> {
    /// The message.
    pub message: M,
    /// What the receiver answered.
    pub disposition: D,
}

/// A ticket: a message's, and whether a sender waits on it.
#[derive(Debug, Clone, Copy, PartialEq, Eq, Structural)]
pub struct Ticket {
    /// Which message's it is.
    pub id: u64,
    /// Whether a sender waits on it.
    pub awaited: bool,
}

/// A message queued for the receiver.
#[derive(Debug)]
pub struct Queued<M> {
    /// Its ticket.
    pub ticket: Ticket,
    /// The message.
    pub message: M,
}

/// One message a receiver has taken.
#[derive(Debug)]
pub struct Delivered<M> {
    message: M,
    id: u64,
}

impl<M> Delivered<M> {
    /// The message it is.
    pub closed spec fn holds(&self) -> M {
        self.message
    }

    /// Its ticket's id.
    pub closed spec fn number(&self) -> u64 {
        self.id
    }

    /// The message.
    pub fn message(&self) -> (r: &M)
        ensures
            *r == self.holds(),
    {
        &self.message
    }

    /// Its ticket's id.
    pub fn id(&self) -> (r: u64)
        ensures
            r == self.number(),
    {
        self.id
    }
}

/// The receiving end: where every message arrives, in the order it arrived.
#[derive(Debug)]
pub struct Inbox<M, D> {
    closed: Option<Closed>,
    queue: Vec<Queued<M>>,
    taken: Vec<Ticket>,
    answered: Vec<Answered<M, D>>,
    next: u64,
}

/// What an inbox holds.
pub struct InboxView<M, D> {
    pub closed: Option<Seq<char>>,
    pub queue: Seq<Queued<M>>,
    pub taken: Seq<Ticket>,
    pub answered: Seq<Answered<M, D>>,
    pub next: u64,
}

/// An optional close's reason.
pub open spec fn closed_view(closed: Option<Closed>) -> Option<Seq<char>> {
    match closed {
        Some(closed) => Some(closed.reason@),
        None => None,
    }
}

impl<M, D> View for Inbox<M, D> {
    type V = InboxView<M, D>;

    closed spec fn view(&self) -> InboxView<M, D> {
        InboxView {
            closed: closed_view(self.closed),
            queue: self.queue@,
            taken: self.taken@,
            answered: self.answered@,
            next: self.next,
        }
    }
}

/// Where a ticket is among those taken.
pub open spec fn taken_at(taken: Seq<Ticket>, id: u64) -> Option<int>
    decreases taken.len(),
{
    if taken.len() == 0 {
        None
    } else if taken.last().id == id {
        Some(taken.len() - 1)
    } else {
        taken_at(taken.drop_last(), id)
    }
}

/// The messages queued, in order, each under the next tickets, with no sender
/// waiting.
pub open spec fn queued_all<M>(messages: Seq<M>, next: u64) -> Seq<Queued<M>> {
    Seq::new(
        messages.len(),
        |i: int|
            Queued {
                ticket: Ticket { id: (next + i) as u64, awaited: false },
                message: messages[i],
            },
    )
}

/// The tickets of queued messages.
pub open spec fn tickets_of<M>(queue: Seq<Queued<M>>) -> Seq<Ticket> {
    Seq::new(queue.len(), |i: int| queue[i].ticket)
}

/// Every ticket out: those taken, then those queued.
pub open spec fn tickets_out<M, D>(inbox: InboxView<M, D>) -> Seq<Ticket> {
    inbox.taken + tickets_of(inbox.queue)
}

/// Whether tickets stand in the order they were given out, none twice, all before
/// the next.
pub open spec fn in_turn(tickets: Seq<Ticket>, next: u64) -> bool {
    &&& forall|i: int, j: int|
        0 <= i < j < tickets.len() ==> (#[trigger] tickets[i]).id < (#[trigger] tickets[j]).id
    &&& forall|i: int| 0 <= i < tickets.len() ==> (#[trigger] tickets[i]).id < next
}

/// What holds of every inbox: no ticket is out twice, and a closed one has none out.
pub open spec fn is_sound<M, D>(inbox: InboxView<M, D>) -> bool {
    &&& in_turn(tickets_out(inbox), inbox.next)
    &&& inbox.closed is Some ==> inbox.queue.len() == 0 && inbox.taken.len() == 0
}

/// Whether a sender waits on a ticket that is out.
pub open spec fn is_owed<M, D>(inbox: InboxView<M, D>, id: u64) -> bool {
    tickets_out(inbox).contains(Ticket { id, awaited: true })
}

/// What is done to an inbox: a sender offers a message, or the receiver takes one,
/// answers one it took, lets one go, or closes.
pub enum Act<M, D> {
    Offer(M),
    Take,
    Answer(u64, M, D),
    LetGo(u64),
    Close(Seq<char>),
}

/// What a sender is told of its message: what the receiver answered, or why it will
/// not be answered.
pub enum Told<D> {
    Answered(D),
    Closed(Seq<char>),
}

/// What a sender waiting on a ticket is told where its message was taken and is
/// settled with `told`.
pub open spec fn told_if_taken<M, D>(inbox: InboxView<M, D>, id: u64, told: Told<D>) -> Option<
    Told<D>,
> {
    match taken_at(inbox.taken, id) {
        Some(at) => if inbox.taken[at].awaited {
            Some(told)
        } else {
            None
        },
        None => None,
    }
}

/// What an act tells the sender that waits on ticket `id`, if anything.
pub open spec fn told_by<M, D>(inbox: InboxView<M, D>, act: Act<M, D>, id: u64) -> Option<Told<D>> {
    match act {
        Act::Offer(_) => None,
        Act::Take => None,
        Act::Answer(answered, _, disposition) => if answered == id {
            told_if_taken(inbox, id, Told::Answered(disposition))
        } else {
            None
        },
        Act::LetGo(let_go) => if let_go == id {
            told_if_taken(inbox, id, Told::Closed(LET_GO@))
        } else {
            None
        },
        Act::Close(reason) => if inbox.closed is None && is_owed(inbox, id) {
            Some(Told::Closed(reason))
        } else {
            None
        },
    }
}

/// An inbox with a ticket taken back.
pub open spec fn with_back<M, D>(inbox: InboxView<M, D>, id: u64) -> InboxView<M, D> {
    match taken_at(inbox.taken, id) {
        Some(at) => InboxView { taken: inbox.taken.remove(at), ..inbox },
        None => inbox,
    }
}

/// What an act makes of an inbox.
pub open spec fn after_act<M, D>(inbox: InboxView<M, D>, act: Act<M, D>) -> InboxView<M, D> {
    match act {
        Act::Offer(message) => if inbox.closed is Some {
            inbox
        } else {
            InboxView {
                queue: inbox.queue.push(
                    Queued { ticket: Ticket { id: inbox.next, awaited: true }, message },
                ),
                next: (inbox.next + 1) as u64,
                ..inbox
            }
        },
        Act::Take => if inbox.queue.len() == 0 {
            inbox
        } else {
            InboxView {
                queue: inbox.queue.skip(1),
                taken: inbox.taken.push(inbox.queue[0].ticket),
                ..inbox
            }
        },
        Act::Answer(id, message, disposition) => InboxView {
            answered: inbox.answered.push(Answered { message, disposition }),
            ..with_back(inbox, id)
        },
        Act::LetGo(id) => with_back(inbox, id),
        Act::Close(reason) => if inbox.closed is Some {
            inbox
        } else {
            InboxView {
                closed: Some(reason),
                queue: Seq::empty(),
                taken: Seq::empty(),
                ..inbox
            }
        },
    }
}

/// What acts, one after another, make of an inbox.
pub open spec fn after_acts<M, D>(inbox: InboxView<M, D>, acts: Seq<Act<M, D>>) -> InboxView<M, D>
    decreases acts.len(),
{
    if acts.len() == 0 {
        inbox
    } else {
        after_acts(after_act(inbox, acts[0]), acts.skip(1))
    }
}

/// All that acts, one after another, tell the sender that waits on ticket `id`.
pub open spec fn told_by_all<M, D>(
    inbox: InboxView<M, D>,
    acts: Seq<Act<M, D>>,
    id: u64,
) -> Seq<Told<D>>
    decreases acts.len(),
{
    if acts.len() == 0 {
        Seq::empty()
    } else {
        let rest = told_by_all(after_act(inbox, acts[0]), acts.skip(1), id);
        match told_by(inbox, acts[0], id) {
            Some(told) => seq![told] + rest,
            None => rest,
        }
    }
}

/// The ids of tickets a sender waits on.
pub open spec fn awaited_ids(tickets: Seq<Ticket>) -> Seq<u64>
    decreases tickets.len(),
{
    if tickets.len() == 0 {
        Seq::empty()
    } else {
        let before = awaited_ids(tickets.drop_last());
        if tickets.last().awaited {
            before.push(tickets.last().id)
        } else {
            before
        }
    }
}

fn find_taken(taken: &Vec<Ticket>, id: u64) -> (r: Option<usize>)
    ensures
        match r {
            Some(at) => at < taken@.len() && taken_at(taken@, id) == Some(at as int)
                && taken@[at as int].id == id,
            None => taken_at(taken@, id) is None,
        },
{
    let mut end: usize = taken.len();
    proof {
        assert(taken@.take(end as int) =~= taken@);
    }
    while end > 0
        invariant
            end <= taken@.len(),
            taken_at(taken@, id) == taken_at(taken@.take(end as int), id),
        decreases end,
    {
        if taken[end - 1].id == id {
            return Some(end - 1);
        }
        proof {
            assert(taken@.take(end as int).drop_last() =~= taken@.take(end - 1));
        }
        end = end - 1;
    }
    None
}

impl<M, D> Inbox<M, D> {
    #[verifier::type_invariant]
    closed spec fn well_formed(&self) -> bool {
        is_sound(self@)
    }

    /// An open inbox with nothing in it.
    pub fn new() -> (r: Self)
        ensures
            r@.closed is None,
            r@.queue == Seq::<Queued<M>>::empty(),
            r@.taken == Seq::<Ticket>::empty(),
            r@.answered == Seq::<Answered<M, D>>::empty(),
            r@.next == 0,
            is_sound(r@),
    {
        Inbox {
            closed: None,
            queue: Vec::new(),
            taken: Vec::new(),
            answered: Vec::new(),
            next: 0,
        }
    }

    /// How many messages were ever queued: the next ticket's id.
    pub fn queued_so_far(&self) -> (r: u64)
        ensures
            r == self@.next,
    {
        self.next
    }

    /// Queues a message a sender waits on, or refuses it with the close in force.
    pub fn offer(&mut self, message: M) -> (r: Result<Ticket, Closed>)
        requires
            old(self)@.next < u64::MAX,
        ensures
            is_sound(old(self)@),
            is_sound(final(self)@),
            final(self)@ == after_act(old(self)@, Act::Offer(message)),
            match r {
                Ok(ticket) => {
                    &&& old(self)@.closed is None
                    &&& ticket == (Ticket { id: old(self)@.next, awaited: true })
                    &&& final(self)@ == (InboxView {
                        queue: old(self)@.queue.push(Queued { ticket, message }),
                        next: (old(self)@.next + 1) as u64,
                        ..old(self)@
                    })
                },
                Err(closed) => {
                    &&& old(self)@.closed == Some(closed.reason@)
                    &&& final(self)@ == old(self)@
                },
            },
    {
        proof {
            use_type_invariant(&*self);
        }
        if let Some(closed) = &self.closed {
            return Err(closed.copied());
        }
        let ticket = Ticket { id: self.next, awaited: true };
        let ghost before = tickets_out(self@);
        let mut queue: Vec<Queued<M>> = Vec::new();
        let next = self.next;
        proof {
            lemma_parts_in_turn(self.taken@, self.queue@, next);
        }
        core::mem::swap(&mut queue, &mut self.queue);
        queue.push(Queued { ticket, message });
        proof {
            assert(self.taken@ + tickets_of(queue@) =~= before.push(ticket));
            lemma_pushed_in_turn(before, ticket, next);
        }
        self.next = next + 1;
        core::mem::swap(&mut queue, &mut self.queue);
        Ok(ticket)
    }

    /// Queues messages nobody waits on, all at once, or refuses them with the close
    /// in force.
    pub fn offer_all(&mut self, messages: Vec<M>) -> (r: Result<usize, Closed>)
        requires
            old(self)@.next + messages@.len() <= u64::MAX,
        ensures
            is_sound(old(self)@),
            is_sound(final(self)@),
            match r {
                Ok(count) => {
                    &&& old(self)@.closed is None
                    &&& count == messages@.len()
                    &&& final(self)@ == (InboxView {
                        queue: old(self)@.queue + queued_all(messages@, old(self)@.next),
                        next: (old(self)@.next + messages@.len()) as u64,
                        ..old(self)@
                    })
                },
                Err(closed) => {
                    &&& old(self)@.closed == Some(closed.reason@)
                    &&& final(self)@ == old(self)@
                },
            },
    {
        proof {
            use_type_invariant(&*self);
        }
        if let Some(closed) = &self.closed {
            return Err(closed.copied());
        }
        let ghost start = self.queue@;
        let ghost all = messages@;
        let ghost first = self.next;
        let count: usize = messages.len();
        let mut rest = messages;
        let mut queue: Vec<Queued<M>> = Vec::new();
        let mut next: u64 = self.next;
        let mut i: usize = 0;
        proof {
            assert(all.skip(0) =~= all);
            assert(queue@ =~= queued_all(all, first).take(0));
        }
        while rest.len() > 0
            invariant
                i + rest@.len() == count == all.len(),
                first + all.len() <= u64::MAX,
                next == first + i,
                rest@ =~= all.skip(i as int),
                queue@ =~= queued_all(all, first).take(i as int),
            decreases rest@.len(),
        {
            proof {
                assert(rest@[0] == all[i as int]);
            }
            let message = rest.remove(0);
            queue.push(Queued { ticket: Ticket { id: next, awaited: false }, message });
            next = next + 1;
            i += 1;
        }
        proof {
            assert(queue@ =~= queued_all(all, first));
        }
        let ghost more = queue@;
        let ghost before = tickets_out(self@);
        let mut held: Vec<Queued<M>> = Vec::new();
        proof {
            lemma_parts_in_turn(self.taken@, self.queue@, first);
        }
        core::mem::swap(&mut held, &mut self.queue);
        held.append(&mut queue);
        proof {
            assert(held@ =~= start + more);
            assert(self.taken@ + tickets_of(held@) =~= before + tickets_of(more));
            lemma_joined_in_turn(before, tickets_of(more), first, next);
        }
        self.next = next;
        core::mem::swap(&mut held, &mut self.queue);
        Ok(count)
    }

    /// The next message, if one is waiting: the oldest.
    pub fn take(&mut self) -> (r: Option<Delivered<M>>)
        ensures
            is_sound(old(self)@),
            is_sound(final(self)@),
            final(self)@ == after_act(old(self)@, Act::Take),
            match r {
                Some(delivered) => {
                    &&& old(self)@.queue.len() > 0
                    &&& delivered.holds() == old(self)@.queue[0].message
                    &&& delivered.number() == old(self)@.queue[0].ticket.id
                    &&& final(self)@ == (InboxView {
                        queue: old(self)@.queue.skip(1),
                        taken: old(self)@.taken.push(old(self)@.queue[0].ticket),
                        ..old(self)@
                    })
                },
                None => old(self)@.queue.len() == 0 && final(self)@ == old(self)@,
            },
    {
        proof {
            use_type_invariant(&*self);
        }
        if self.queue.len() == 0 {
            return None;
        }
        let ghost was = tickets_out(self@);
        let mut queue: Vec<Queued<M>> = Vec::new();
        let mut taken: Vec<Ticket> = Vec::new();
        proof {
            lemma_parts_in_turn(self.taken@, self.queue@, self.next);
        }
        core::mem::swap(&mut queue, &mut self.queue);
        core::mem::swap(&mut taken, &mut self.taken);
        let ghost all = queue@;
        let first = queue.remove(0);
        proof {
            assert(queue@ =~= all.skip(1));
        }
        taken.push(first.ticket);
        proof {
            assert(taken@ + tickets_of(queue@) =~= was);
            lemma_parts_in_turn(taken@, queue@, self.next);
        }
        core::mem::swap(&mut queue, &mut self.queue);
        core::mem::swap(&mut taken, &mut self.taken);
        Some(Delivered { message: first.message, id: first.ticket.id })
    }

    /// Takes a ticket out of those taken.
    fn release(&mut self, id: u64) -> (r: Option<Ticket>)
        ensures
            is_sound(old(self)@),
            is_sound(final(self)@),
            match taken_at(old(self)@.taken, id) {
                Some(at) => {
                    &&& r == Some(old(self)@.taken[at])
                    &&& final(self)@ == (InboxView {
                        taken: old(self)@.taken.remove(at),
                        ..old(self)@
                    })
                },
                None => r is None && final(self)@ == old(self)@,
            },
    {
        proof {
            use_type_invariant(&*self);
        }
        match find_taken(&self.taken, id) {
            Some(at) => {
                let mut taken: Vec<Ticket> = Vec::new();
                proof {
                    lemma_parts_in_turn(self.taken@, self.queue@, self.next);
                }
                core::mem::swap(&mut taken, &mut self.taken);
                let ghost all = taken@ + tickets_of(self.queue@);
                let ticket = taken.remove(at);
                proof {
                    assert(taken@ + tickets_of(self.queue@) =~= all.remove(at as int));
                    lemma_removed_in_turn(all, at as int, self.next);
                }
                core::mem::swap(&mut taken, &mut self.taken);
                Some(ticket)
            },
            None => None,
        }
    }

    /// Records a receiver's answer, and says which ticket it settles, where a
    /// sender still waits on it: one a close settled already is not settled twice.
    pub fn answer(&mut self, delivered: Delivered<M>, disposition: D) -> (r: Option<u64>)
        ensures
            is_sound(old(self)@),
            is_sound(final(self)@),
            final(self)@ == after_act(
                old(self)@,
                Act::Answer(delivered.number(), delivered.holds(), disposition),
            ),
            r is Some <==> told_by(
                old(self)@,
                Act::Answer(delivered.number(), delivered.holds(), disposition),
                delivered.number(),
            ) is Some,
            final(self)@.answered == old(self)@.answered.push(
                Answered { message: delivered.holds(), disposition },
            ),
            final(self)@.closed == old(self)@.closed,
            final(self)@.queue == old(self)@.queue,
            final(self)@.next == old(self)@.next,
            match taken_at(old(self)@.taken, delivered.number()) {
                Some(at) => {
                    &&& final(self)@.taken == old(self)@.taken.remove(at)
                    &&& r == if old(self)@.taken[at].awaited {
                        Some(delivered.number())
                    } else {
                        None
                    }
                },
                None => r is None && final(self)@.taken == old(self)@.taken,
            },
    {
        let released = self.release(delivered.id);
        proof {
            use_type_invariant(&*self);
        }
        let mut answered: Vec<Answered<M, D>> = Vec::new();
        core::mem::swap(&mut answered, &mut self.answered);
        answered.push(Answered { message: delivered.message, disposition });
        core::mem::swap(&mut answered, &mut self.answered);
        proof {
            if let Some(at) = taken_at(old(self)@.taken, delivered.number()) {
                lemma_taken_has_id(old(self)@.taken, delivered.number());
            }
        }
        match released {
            Some(ticket) => if ticket.awaited {
                Some(ticket.id)
            } else {
                None
            },
            None => None,
        }
    }

    /// Lets a taken message go without an answer, and says which ticket is to be
    /// settled with [`LET_GO`], where a sender still waits on it.
    pub fn let_go(&mut self, delivered: Delivered<M>) -> (r: Option<u64>)
        ensures
            is_sound(old(self)@),
            is_sound(final(self)@),
            final(self)@ == after_act(old(self)@, Act::LetGo(delivered.number())),
            r is Some <==> told_by(
                old(self)@,
                Act::LetGo(delivered.number()),
                delivered.number(),
            ) is Some,
            match taken_at(old(self)@.taken, delivered.number()) {
                Some(at) => {
                    &&& final(self)@ == (InboxView {
                        taken: old(self)@.taken.remove(at),
                        ..old(self)@
                    })
                    &&& r == if old(self)@.taken[at].awaited {
                        Some(delivered.number())
                    } else {
                        None
                    }
                },
                None => r is None && final(self)@ == old(self)@,
            },
    {
        proof {
            if let Some(at) = taken_at(self@.taken, delivered.number()) {
                lemma_taken_has_id(self@.taken, delivered.number());
            }
        }
        match self.release(delivered.id) {
            Some(ticket) => if ticket.awaited {
                Some(ticket.id)
            } else {
                None
            },
            None => None,
        }
    }

    /// Closes the inbox, and says which tickets are to be settled with `reason`:
    /// every one a sender waits on, queued or taken. A second close changes nothing.
    pub fn close(&mut self, reason: Closed) -> (r: Vec<u64>)
        ensures
            is_sound(old(self)@),
            is_sound(final(self)@),
            final(self)@ == after_act(old(self)@, Act::Close(reason.reason@)),
            forall|id: u64| #[trigger]
                r@.contains(id) <==> told_by(old(self)@, Act::Close(reason.reason@), id) is Some,
            if old(self)@.closed is Some {
                final(self)@ == old(self)@ && r@.len() == 0
            } else {
                &&& final(self)@ == (InboxView {
                    closed: Some(reason.reason@),
                    queue: Seq::empty(),
                    taken: Seq::empty(),
                    ..old(self)@
                })
                &&& r@ == awaited_ids(tickets_of(old(self)@.queue)) + awaited_ids(
                    old(self)@.taken,
                )
            },
    {
        proof {
            use_type_invariant(&*self);
        }
        let mut out: Vec<u64> = Vec::new();
        if self.closed.is_some() {
            return out;
        }
        let ghost queued = tickets_of(self.queue@);
        let ghost held = self.taken@;
        let mut i: usize = 0;
        proof {
            assert(queued.take(0) =~= Seq::<Ticket>::empty());
        }
        while i < self.queue.len()
            invariant
                i <= self.queue@.len(),
                queued == tickets_of(self.queue@),
                out@ == awaited_ids(queued.take(i as int)),
            decreases self.queue@.len() - i,
        {
            proof {
                assert(queued.take(i + 1).drop_last() =~= queued.take(i as int));
                assert(queued.take(i + 1).last() == queued[i as int]);
            }
            if self.queue[i].ticket.awaited {
                out.push(self.queue[i].ticket.id);
            }
            i += 1;
        }
        proof {
            assert(queued.take(i as int) =~= queued);
        }
        let ghost first = out@;
        let mut j: usize = 0;
        proof {
            assert(held.take(0) =~= Seq::<Ticket>::empty());
            assert(first + awaited_ids(held.take(0)) =~= first);
        }
        while j < self.taken.len()
            invariant
                j <= self.taken@.len(),
                held == self.taken@,
                out@ == first + awaited_ids(held.take(j as int)),
            decreases self.taken@.len() - j,
        {
            proof {
                assert(held.take(j + 1).drop_last() =~= held.take(j as int));
                assert(held.take(j + 1).last() == held[j as int]);
            }
            if self.taken[j].awaited {
                let ghost before = awaited_ids(held.take(j as int));
                out.push(self.taken[j].id);
                proof {
                    assert(out@ =~= first + before.push(held[j as int].id));
                }
            }
            j += 1;
        }
        proof {
            assert(held.take(j as int) =~= held);
        }
        let mut queue: Vec<Queued<M>> = Vec::new();
        let mut taken: Vec<Ticket> = Vec::new();
        proof {
            lemma_parts_in_turn(self.taken@, self.queue@, self.next);
        }
        core::mem::swap(&mut queue, &mut self.queue);
        core::mem::swap(&mut taken, &mut self.taken);
        self.closed = Some(reason);
        proof {
            assert forall|id: u64| #[trigger] out@.contains(id) <==> told_by(
                old(self)@,
                Act::Close(reason.reason@),
                id,
            ) is Some by {
                close_settles_all_owed(old(self)@, reason.reason@, id);
            }
        }
        out
    }

    /// The close in force, if the inbox is closed.
    pub fn closed(&self) -> (r: Option<Closed>)
        ensures
            closed_view(r) == self@.closed,
            is_sound(self@),
    {
        proof {
            use_type_invariant(self);
        }
        match &self.closed {
            Some(closed) => Some(closed.copied()),
            None => None,
        }
    }

    /// Every message answered so far, with its disposition, oldest first.
    pub fn answered(&self) -> (r: &Vec<Answered<M, D>>)
        ensures
            r@ == self@.answered,
    {
        &self.answered
    }
}

proof fn lemma_parts_in_turn<M>(taken: Seq<Ticket>, queue: Seq<Queued<M>>, next: u64)
    requires
        in_turn(taken + tickets_of(queue), next),
    ensures
        in_turn(taken + tickets_of(Seq::<Queued<M>>::empty()), next),
        in_turn(Seq::<Ticket>::empty() + tickets_of(queue), next),
        in_turn(Seq::<Ticket>::empty() + tickets_of(Seq::<Queued<M>>::empty()), next),
{
    let all = taken + tickets_of(queue);
    let count = taken.len() as int;
    let first = taken + tickets_of(Seq::<Queued<M>>::empty());
    let rest = Seq::<Ticket>::empty() + tickets_of(queue);
    assert forall|i: int, j: int| 0 <= i < j < first.len() implies (#[trigger] first[i]).id < (
    #[trigger] first[j]).id by {
        assert(first[i] == all[i] && first[j] == all[j]);
    }
    assert forall|i: int| 0 <= i < first.len() implies (#[trigger] first[i]).id < next by {
        assert(first[i] == all[i]);
    }
    assert forall|i: int, j: int| 0 <= i < j < rest.len() implies (#[trigger] rest[i]).id < (
    #[trigger] rest[j]).id by {
        assert(rest[i] == all[i + count] && rest[j] == all[j + count]);
    }
    assert forall|i: int| 0 <= i < rest.len() implies (#[trigger] rest[i]).id < next by {
        assert(rest[i] == all[i + count]);
    }
}

proof fn lemma_pushed_in_turn(tickets: Seq<Ticket>, ticket: Ticket, next: u64)
    requires
        in_turn(tickets, next),
        ticket.id == next,
        next < u64::MAX,
    ensures
        in_turn(tickets.push(ticket), (next + 1) as u64),
{
    let now = tickets.push(ticket);
    assert forall|i: int, j: int| 0 <= i < j < now.len() implies (#[trigger] now[i]).id < (
    #[trigger] now[j]).id by {
        assert(now[i] == tickets[i]);
        if j < tickets.len() {
            assert(now[j] == tickets[j]);
        }
    }
    assert forall|i: int| 0 <= i < now.len() implies (#[trigger] now[i]).id < next + 1 by {
        if i < tickets.len() {
            assert(now[i] == tickets[i]);
        }
    }
}

proof fn lemma_joined_in_turn(tickets: Seq<Ticket>, more: Seq<Ticket>, first: u64, next: u64)
    requires
        in_turn(tickets, first),
        next == first + more.len(),
        forall|i: int| 0 <= i < more.len() ==> (#[trigger] more[i]).id == first + i,
    ensures
        in_turn(tickets + more, next),
{
    let now = tickets + more;
    let count = tickets.len() as int;
    assert forall|i: int, j: int| 0 <= i < j < now.len() implies (#[trigger] now[i]).id < (
    #[trigger] now[j]).id by {
        if i < count {
            assert(now[i] == tickets[i]);
        } else {
            assert(now[i] == more[i - count]);
        }
        if j < count {
            assert(now[j] == tickets[j]);
        } else {
            assert(now[j] == more[j - count]);
        }
    }
    assert forall|i: int| 0 <= i < now.len() implies (#[trigger] now[i]).id < next by {
        if i < count {
            assert(now[i] == tickets[i]);
        } else {
            assert(now[i] == more[i - count]);
        }
    }
}

proof fn lemma_removed_in_turn(tickets: Seq<Ticket>, at: int, next: u64)
    requires
        in_turn(tickets, next),
        0 <= at < tickets.len(),
    ensures
        in_turn(tickets.remove(at), next),
{
    let now = tickets.remove(at);
    assert forall|i: int, j: int| 0 <= i < j < now.len() implies (#[trigger] now[i]).id < (
    #[trigger] now[j]).id by {
        assert(now[i] == tickets[if i < at { i } else { i + 1 }]);
        assert(now[j] == tickets[if j < at { j } else { j + 1 }]);
    }
    assert forall|i: int| 0 <= i < now.len() implies (#[trigger] now[i]).id < next by {
        assert(now[i] == tickets[if i < at { i } else { i + 1 }]);
    }
}

proof fn lemma_none_taken(taken: Seq<Ticket>, id: u64)
    requires
        forall|i: int| 0 <= i < taken.len() ==> (#[trigger] taken[i]).id != id,
    ensures
        taken_at(taken, id) is None,
    decreases taken.len(),
{
    if taken.len() > 0 {
        let rest = taken.drop_last();
        assert forall|i: int| 0 <= i < rest.len() implies (#[trigger] rest[i]).id != id by {
            assert(rest[i] == taken[i]);
        }
        assert(taken.last() == taken[taken.len() - 1]);
        lemma_none_taken(rest, id);
    }
}

proof fn lemma_awaited_in_turn(tickets: Seq<Ticket>, next: u64)
    requires
        in_turn(tickets, next),
    ensures
        forall|i: int, j: int|
            0 <= i < j < awaited_ids(tickets).len() ==> (#[trigger] awaited_ids(tickets)[i]) < (
            #[trigger] awaited_ids(tickets)[j]),
        forall|k: int|
            0 <= k < awaited_ids(tickets).len() ==> tickets.contains(
                Ticket { id: #[trigger] awaited_ids(tickets)[k], awaited: true },
            ),
    decreases tickets.len(),
{
    if tickets.len() > 0 {
        let rest = tickets.drop_last();
        let last = tickets.last();
        let ids = awaited_ids(tickets);
        let before = awaited_ids(rest);
        assert forall|i: int, j: int| 0 <= i < j < rest.len() implies (#[trigger] rest[i]).id < (
        #[trigger] rest[j]).id by {
            assert(rest[i] == tickets[i] && rest[j] == tickets[j]);
        }
        assert forall|i: int| 0 <= i < rest.len() implies (#[trigger] rest[i]).id < next by {
            assert(rest[i] == tickets[i]);
        }
        lemma_awaited_in_turn(rest, next);
        assert forall|k: int| 0 <= k < ids.len() implies tickets.contains(
            Ticket { id: #[trigger] ids[k], awaited: true },
        ) by {
            if k < before.len() {
                assert(ids[k] == before[k]);
                let t = Ticket { id: before[k], awaited: true };
                assert(rest.contains(t));
                let i = choose|i: int| 0 <= i < rest.len() && rest[i] == t;
                assert(tickets[i] == t);
            } else {
                assert(tickets[tickets.len() - 1] == last);
            }
        }
        assert forall|i: int, j: int| 0 <= i < j < ids.len() implies (#[trigger] ids[i]) < (
        #[trigger] ids[j]) by {
            assert(ids[i] == before[i]);
            if j < before.len() {
                assert(ids[j] == before[j]);
            } else {
                let t = Ticket { id: before[i], awaited: true };
                assert(rest.contains(t));
                let at = choose|at: int| 0 <= at < rest.len() && rest[at] == t;
                assert(tickets[at] == t);
                assert(tickets[at].id < tickets[tickets.len() - 1].id);
            }
        }
    }
}

proof fn lemma_taken_has_id(taken: Seq<Ticket>, id: u64)
    requires
        taken_at(taken, id) is Some,
    ensures
        0 <= taken_at(taken, id)->0 < taken.len(),
        taken[taken_at(taken, id)->0].id == id,
    decreases taken.len(),
{
    if taken.len() > 0 && taken.last().id != id {
        lemma_taken_has_id(taken.drop_last(), id);
    }
}

// ---------------------------------------------------------------------------
// Laws.
// ---------------------------------------------------------------------------

/// Messages are taken in the order they were offered: what is offered last is taken
/// once every message before it was.
pub proof fn taken_in_the_order_offered<M>(queue: Seq<Queued<M>>, one: Queued<M>)
    ensures
        queue.push(one).skip(queue.len() as int) == seq![one],
        queue.len() > 0 ==> queue.push(one)[0] == queue[0] && queue.push(one).skip(1)
            == queue.skip(1).push(one),
{
    assert(queue.push(one).skip(queue.len() as int) =~= seq![one]);
    if queue.len() > 0 {
        assert(queue.push(one).skip(1) =~= queue.skip(1).push(one));
    }
}

/// No two tickets out are one ticket.
pub proof fn tickets_are_distinct<M, D>(inbox: InboxView<M, D>, i: int, j: int)
    requires
        is_sound(inbox),
        0 <= i < tickets_out(inbox).len(),
        0 <= j < tickets_out(inbox).len(),
        i != j,
    ensures
        tickets_out(inbox)[i].id != tickets_out(inbox)[j].id,
{
    let tickets = tickets_out(inbox);
    if i < j {
        assert(tickets[i].id < tickets[j].id);
    } else {
        assert(tickets[j].id < tickets[i].id);
    }
}

/// A message offered is owed an answer under a ticket never given out before, and
/// what was owed before it still is.
pub proof fn offer_owes_one_more<M, D>(inbox: InboxView<M, D>, message: M, id: u64)
    requires
        is_sound(inbox),
        inbox.next < u64::MAX,
    ensures
        !is_owed(inbox, inbox.next),
        ({
            let ticket = Ticket { id: inbox.next, awaited: true };
            let after = InboxView {
                queue: inbox.queue.push(Queued { ticket, message }),
                next: (inbox.next + 1) as u64,
                ..inbox
            };
            is_owed(after, id) <==> is_owed(inbox, id) || id == inbox.next
        }),
{
    let ticket = Ticket { id: inbox.next, awaited: true };
    let after = InboxView {
        queue: inbox.queue.push(Queued { ticket, message }),
        next: (inbox.next + 1) as u64,
        ..inbox
    };
    let was = tickets_out(inbox);
    let now = tickets_out(after);
    assert(now =~= was.push(ticket));
    assert(now[was.len() as int] == ticket);
    let sought = Ticket { id, awaited: true };
    if was.contains(sought) {
        let i = choose|i: int| 0 <= i < was.len() && was[i] == sought;
        assert(now[i] == sought);
    }
    if now.contains(sought) && id != inbox.next {
        let i = choose|i: int| 0 <= i < now.len() && now[i] == sought;
        assert(was[i] == sought);
    }
    if was.contains(ticket) {
        let i = choose|i: int| 0 <= i < was.len() && was[i] == ticket;
        assert(was[i].id < inbox.next);
    }
}

/// Taking a message settles nothing: its sender waits on under the same ticket.
pub proof fn take_settles_nothing<M, D>(inbox: InboxView<M, D>, id: u64)
    requires
        inbox.queue.len() > 0,
    ensures
        ({
            let after = InboxView {
                queue: inbox.queue.skip(1),
                taken: inbox.taken.push(inbox.queue[0].ticket),
                ..inbox
            };
            is_owed(after, id) == is_owed(inbox, id)
        }),
        taken_at(inbox.taken.push(inbox.queue[0].ticket), inbox.queue[0].ticket.id) == Some(
            inbox.taken.len() as int,
        ),
{
    let after = InboxView {
        queue: inbox.queue.skip(1),
        taken: inbox.taken.push(inbox.queue[0].ticket),
        ..inbox
    };
    assert(tickets_out(after) =~= tickets_out(inbox));
}

/// A ticket is settled once: with it taken back, by an answer or by letting its
/// message go, nobody waits on it, no later answer finds it, and every other ticket
/// stands as it did.
pub proof fn settled_once<M, D>(inbox: InboxView<M, D>, id: u64, other: u64)
    requires
        is_sound(inbox),
        taken_at(inbox.taken, id) is Some,
        other != id,
    ensures
        ({
            let at = taken_at(inbox.taken, id)->0;
            let after = InboxView { taken: inbox.taken.remove(at), ..inbox };
            &&& inbox.taken[at].awaited == is_owed(inbox, id)
            &&& !is_owed(after, id)
            &&& taken_at(after.taken, id) is None
            &&& is_owed(after, other) == is_owed(inbox, other)
        }),
{
    lemma_taken_has_id(inbox.taken, id);
    let at = taken_at(inbox.taken, id)->0;
    let after = InboxView { taken: inbox.taken.remove(at), ..inbox };
    let was = tickets_out(inbox);
    let now = tickets_out(after);
    assert(now =~= was.remove(at));
    assert(was[at] == inbox.taken[at]);
    assert forall|i: int| 0 <= i < now.len() implies (#[trigger] now[i]).id != id by {
        if i < at {
            assert(now[i] == was[i]);
            assert(was[i].id < was[at].id);
        } else {
            assert(now[i] == was[i + 1]);
            assert(was[at].id < was[i + 1].id);
        }
    }
    assert forall|i: int| 0 <= i < after.taken.len() implies (#[trigger] after.taken[i]).id
        != id by {
        assert(after.taken[i] == now[i]);
    }
    lemma_none_taken(after.taken, id);
    let mine = Ticket { id, awaited: true };
    if was.contains(mine) {
        let i = choose|i: int| 0 <= i < was.len() && was[i] == mine;
        if i != at {
            tickets_are_distinct(inbox, i, at);
        }
    }
    let sought = Ticket { id: other, awaited: true };
    if was.contains(sought) {
        let i = choose|i: int| 0 <= i < was.len() && was[i] == sought;
        let k = if i < at { i } else { i - 1 };
        assert(now[k] == sought);
    }
    if now.contains(sought) {
        let i = choose|i: int| 0 <= i < now.len() && now[i] == sought;
        let k = if i < at { i } else { i + 1 };
        assert(was[k] == sought);
    }
}

/// A close settles exactly the tickets senders wait on, each once, and leaves none.
pub proof fn close_settles_all_owed<M, D>(inbox: InboxView<M, D>, reason: Seq<char>, id: u64)
    requires
        is_sound(inbox),
    ensures
        ({
            let settled = awaited_ids(tickets_of(inbox.queue)) + awaited_ids(inbox.taken);
            &&& settled.contains(id) <==> is_owed(inbox, id)
            &&& settled.no_duplicates()
        }),
        !is_owed(
            InboxView {
                closed: Some(reason),
                queue: Seq::empty(),
                taken: Seq::empty(),
                ..inbox
            },
            id,
        ),
        taken_at(Seq::empty(), id) is None,
{
    let queued = tickets_of(inbox.queue);
    let taken = inbox.taken;
    let all = tickets_out(inbox);
    let count = taken.len() as int;
    let first = awaited_ids(queued);
    let second = awaited_ids(taken);
    let settled = first + second;
    assert forall|i: int, j: int| 0 <= i < j < taken.len() implies (#[trigger] taken[i]).id < (
    #[trigger] taken[j]).id by {
        assert(taken[i] == all[i] && taken[j] == all[j]);
    }
    assert forall|i: int| 0 <= i < taken.len() implies (#[trigger] taken[i]).id < inbox.next by {
        assert(taken[i] == all[i]);
    }
    assert forall|i: int, j: int| 0 <= i < j < queued.len() implies (#[trigger] queued[i]).id < (
    #[trigger] queued[j]).id by {
        assert(queued[i] == all[i + count] && queued[j] == all[j + count]);
    }
    assert forall|i: int| 0 <= i < queued.len() implies (#[trigger] queued[i]).id < inbox.next by {
        assert(queued[i] == all[i + count]);
    }
    lemma_awaited_in_turn(queued, inbox.next);
    lemma_awaited_in_turn(taken, inbox.next);
    let sought = Ticket { id, awaited: true };
    if is_owed(inbox, id) {
        let i = choose|i: int| 0 <= i < all.len() && all[i] == sought;
        if i < count {
            assert(taken[i] == sought);
            close_settles_every_ticket(taken, i);
            let k = choose|k: int| 0 <= k < second.len() && second[k] == id;
            assert(settled[k + first.len()] == id);
        } else {
            assert(queued[i - count] == sought);
            close_settles_every_ticket(queued, i - count);
            let k = choose|k: int| 0 <= k < first.len() && first[k] == id;
            assert(settled[k] == id);
        }
    }
    if settled.contains(id) {
        let k = choose|k: int| 0 <= k < settled.len() && settled[k] == id;
        if k < first.len() {
            assert(first[k] == id);
            assert(queued.contains(sought));
            let i = choose|i: int| 0 <= i < queued.len() && queued[i] == sought;
            assert(all[i + count] == sought);
        } else {
            assert(second[k - first.len()] == id);
            assert(taken.contains(sought));
            let i = choose|i: int| 0 <= i < taken.len() && taken[i] == sought;
            assert(all[i] == sought);
        }
    }
    assert forall|a: int, b: int|
        0 <= a < settled.len() && 0 <= b < settled.len() && a != b implies settled[a]
        != settled[b] by {
        lemma_settled_apart(inbox, if a < b { a } else { b }, if a < b { b } else { a });
    }
    let after = InboxView::<M, D> {
        closed: Some(reason),
        queue: Seq::empty(),
        taken: Seq::empty(),
        ..inbox
    };
    assert(tickets_out(after).len() == 0);
}

proof fn lemma_act<M, D>(inbox: InboxView<M, D>, act: Act<M, D>, id: u64)
    requires
        is_sound(inbox),
        inbox.next < u64::MAX,
        id < inbox.next,
    ensures
        is_sound(after_act(inbox, act)),
        inbox.next <= after_act(inbox, act).next <= inbox.next + 1,
        told_by(inbox, act, id) is Some ==> is_owed(inbox, id),
        is_owed(after_act(inbox, act), id) <==> is_owed(inbox, id) && told_by(inbox, act, id) is None,
{
    let after = after_act(inbox, act);
    let was = tickets_out(inbox);
    match act {
        Act::Offer(message) => {
            if inbox.closed is None {
                let ticket = Ticket { id: inbox.next, awaited: true };
                assert(tickets_out(after) =~= was.push(ticket));
                lemma_pushed_in_turn(was, ticket, inbox.next);
                offer_owes_one_more(inbox, message, id);
            }
        },
        Act::Take => {
            if inbox.queue.len() > 0 {
                assert(tickets_out(after) =~= was);
                take_settles_nothing(inbox, id);
            }
        },
        Act::Answer(answered, _, _) => {
            lemma_back(inbox, answered, id);
            assert(tickets_out(after) == tickets_out(with_back(inbox, answered)));
        },
        Act::LetGo(let_go) => {
            lemma_back(inbox, let_go, id);
        },
        Act::Close(reason) => {
            if inbox.closed is None {
                close_settles_all_owed(inbox, reason, id);
                assert(tickets_out(after).len() == 0);
            } else {
                assert(was.len() == 0);
            }
        },
    }
}

proof fn lemma_back<M, D>(inbox: InboxView<M, D>, back: u64, id: u64)
    requires
        is_sound(inbox),
    ensures
        is_sound(with_back(inbox, back)),
        is_owed(with_back(inbox, back), id) <==> is_owed(inbox, id) && !(back == id && taken_at(
            inbox.taken,
            id,
        ) is Some && inbox.taken[taken_at(inbox.taken, id)->0].awaited),
        back == id && taken_at(inbox.taken, id) is Some ==> inbox.taken[taken_at(
            inbox.taken,
            id,
        )->0].awaited == is_owed(inbox, id),
{
    if taken_at(inbox.taken, back) is Some {
        lemma_taken_has_id(inbox.taken, back);
        let at = taken_at(inbox.taken, back)->0;
        let was = tickets_out(inbox);
        assert(tickets_out(with_back(inbox, back)) =~= was.remove(at));
        lemma_removed_in_turn(was, at, inbox.next);
        if back == id {
            let other: u64 = if id == 0 { 1 } else { 0 };
            settled_once(inbox, id, other);
        } else {
            settled_once(inbox, back, id);
        }
    }
}

/// A sender is told once what became of its message, whatever is done to the inbox:
/// while it waits it was told nothing, and once told it waits no more.
pub proof fn sender_is_told_once<M, D>(inbox: InboxView<M, D>, acts: Seq<Act<M, D>>, id: u64)
    requires
        is_sound(inbox),
        inbox.next + acts.len() <= u64::MAX,
        id < inbox.next,
        is_owed(inbox, id),
    ensures
        told_by_all(inbox, acts, id).len() <= 1,
        is_owed(after_acts(inbox, acts), id) <==> told_by_all(inbox, acts, id).len() == 0,
{
    lemma_told(inbox, acts, id);
}

/// A sender nobody owes an answer, told already or never waiting, is told nothing.
pub proof fn settled_sender_is_told_nothing<M, D>(
    inbox: InboxView<M, D>,
    acts: Seq<Act<M, D>>,
    id: u64,
)
    requires
        is_sound(inbox),
        inbox.next + acts.len() <= u64::MAX,
        id < inbox.next,
        !is_owed(inbox, id),
    ensures
        told_by_all(inbox, acts, id).len() == 0,
{
    lemma_told(inbox, acts, id);
}

proof fn lemma_told<M, D>(inbox: InboxView<M, D>, acts: Seq<Act<M, D>>, id: u64)
    requires
        is_sound(inbox),
        inbox.next + acts.len() <= u64::MAX,
        id < inbox.next,
    ensures
        !is_owed(inbox, id) ==> told_by_all(inbox, acts, id).len() == 0 && !is_owed(
            after_acts(inbox, acts),
            id,
        ),
        is_owed(inbox, id) ==> told_by_all(inbox, acts, id).len() <= 1 && (is_owed(
            after_acts(inbox, acts),
            id,
        ) <==> told_by_all(inbox, acts, id).len() == 0),
    decreases acts.len(),
{
    if acts.len() > 0 {
        lemma_act(inbox, acts[0], id);
        lemma_told(after_act(inbox, acts[0]), acts.skip(1), id);
    }
}

/// A sender is told the receiver's own answer to its message, and only of a message
/// the receiver took.
pub proof fn told_what_the_receiver_answered<M, D>(inbox: InboxView<M, D>, act: Act<M, D>, id: u64)
    requires
        is_sound(inbox),
        told_by(inbox, act, id) is Some,
    ensures
        match told_by(inbox, act, id)->0 {
            Told::Answered(disposition) => taken_at(inbox.taken, id) is Some && match act {
                Act::Answer(answered, _, given) => answered == id && given == disposition,
                _ => false,
            },
            Told::Closed(reason) => match act {
                Act::LetGo(let_go) => let_go == id && reason == LET_GO@,
                Act::Close(closing) => reason == closing && inbox.closed is None,
                _ => false,
            },
        },
{
}

proof fn lemma_settled_apart<M, D>(inbox: InboxView<M, D>, a: int, b: int)
    requires
        is_sound(inbox),
        0 <= a < b,
        b < awaited_ids(tickets_of(inbox.queue)).len() + awaited_ids(inbox.taken).len(),
    ensures
        (awaited_ids(tickets_of(inbox.queue)) + awaited_ids(inbox.taken))[a] != (awaited_ids(
            tickets_of(inbox.queue),
        ) + awaited_ids(inbox.taken))[b],
{
    let queued = tickets_of(inbox.queue);
    let taken = inbox.taken;
    let all = tickets_out(inbox);
    let count = taken.len() as int;
    let first = awaited_ids(queued);
    let second = awaited_ids(taken);
    assert forall|i: int, j: int| 0 <= i < j < taken.len() implies (#[trigger] taken[i]).id < (
    #[trigger] taken[j]).id by {
        assert(taken[i] == all[i] && taken[j] == all[j]);
    }
    assert forall|i: int| 0 <= i < taken.len() implies (#[trigger] taken[i]).id < inbox.next by {
        assert(taken[i] == all[i]);
    }
    assert forall|i: int, j: int| 0 <= i < j < queued.len() implies (#[trigger] queued[i]).id < (
    #[trigger] queued[j]).id by {
        assert(queued[i] == all[i + count] && queued[j] == all[j + count]);
    }
    assert forall|i: int| 0 <= i < queued.len() implies (#[trigger] queued[i]).id < inbox.next by {
        assert(queued[i] == all[i + count]);
    }
    lemma_awaited_in_turn(queued, inbox.next);
    lemma_awaited_in_turn(taken, inbox.next);
    if a < first.len() && b >= first.len() {
        let x = Ticket { id: first[a], awaited: true };
        let y = Ticket { id: second[b - first.len()], awaited: true };
        assert(queued.contains(x));
        assert(taken.contains(y));
        let i = choose|i: int| 0 <= i < queued.len() && queued[i] == x;
        let j = choose|j: int| 0 <= j < taken.len() && taken[j] == y;
        assert(all[i + count] == x && all[j] == y);
        tickets_are_distinct(inbox, j, i + count);
    } else if b < first.len() {
        assert(first[a] < first[b]);
    } else {
        assert(second[a - first.len()] < second[b - first.len()]);
    }
}

/// A closed inbox settles every ticket a sender waits on: each one queued or taken
/// is among those a close settles.
pub proof fn close_settles_every_ticket(tickets: Seq<Ticket>, i: int)
    requires
        0 <= i < tickets.len(),
        tickets[i].awaited,
    ensures
        awaited_ids(tickets).contains(tickets[i].id),
    decreases tickets.len(),
{
    let rest = tickets.drop_last();
    let now = awaited_ids(tickets);
    let before = awaited_ids(rest);
    if i < rest.len() {
        close_settles_every_ticket(rest, i);
        let k = choose|k: int| 0 <= k < before.len() && before[k] == tickets[i].id;
        assert(now[k] == before[k]);
    } else {
        assert(now[before.len() as int] == tickets[i].id);
    }
}

} // verus!
