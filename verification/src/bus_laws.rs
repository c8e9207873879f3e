//! What holds of judging an offer, and of ending a session.

use crate::ask::{Pending, lines_on};
use crate::ask_laws::the_first_reply_answers;
use crate::bus::{Gated, asked_for, asked_of, gate_judges};
use crate::codec::Served;
use crate::json::JsonView;
use crate::questions::{first_reply, replies_in};
use crate::serve::{ends_as, stands_unanswered, unanswered_among};
use crate::transport::Transport;
use vstd::prelude::*;

verus! {

/// Every gate of the queue an offer is made to judges the offer where it asks of it, and
/// every gate of another queue a record of it is routed to judges that record.
pub proof fn offers_are_judged_by_every_gate(
    gates: Seq<Gated>,
    queue: Seq<char>,
    offered: JsonView,
    routed: Seq<(Seq<char>, JsonView)>,
    g: int,
    i: int,
)
    requires
        0 <= g < gates.len(),
    ensures
        ({
            let asked = asked_for(gates, queue, offered, routed, routed.len() as int);
            &&& gate_judges(gates[g], queue, offered) ==> asked.contains((g, queue, offered))
            &&& 0 <= i < routed.len() && routed[i].0 != queue && gate_judges(
                gates[g],
                routed[i].0,
                routed[i].1,
            ) ==> asked.contains((g, routed[i].0, routed[i].1))
        }),
{
    lemma_asked_of(gates, gates.len() as int, queue, offered, g);
    lemma_asked_grows(gates, queue, offered, routed, 0, routed.len() as int, (g, queue, offered));
    if 0 <= i < routed.len() && routed[i].0 != queue && gate_judges(
        gates[g],
        routed[i].0,
        routed[i].1,
    ) {
        let one = (g, routed[i].0, routed[i].1);
        lemma_asked_of(gates, gates.len() as int, routed[i].0, routed[i].1, g);
        let before = asked_for(gates, queue, offered, routed, i);
        let more = asked_of(gates, gates.len() as int, routed[i].0, routed[i].1);
        let now = asked_for(gates, queue, offered, routed, i + 1);
        let k = choose|k: int| 0 <= k < more.len() && more[k] == one;
        assert(now[before.len() + k] == one);
        lemma_asked_grows(gates, queue, offered, routed, i + 1, routed.len() as int, one);
    }
}

proof fn lemma_asked_of(
    gates: Seq<Gated>,
    n: int,
    target: Seq<char>,
    record: JsonView,
    g: int,
)
    requires
        0 <= g < n <= gates.len(),
    ensures
        gate_judges(gates[g], target, record) ==> asked_of(gates, n, target, record).contains(
            (g, target, record),
        ),
    decreases n,
{
    let before = asked_of(gates, n - 1, target, record);
    let now = asked_of(gates, n, target, record);
    if gate_judges(gates[g], target, record) {
        if g < n - 1 {
            lemma_asked_of(gates, n - 1, target, record, g);
            let k = choose|k: int| 0 <= k < before.len() && before[k] == (g, target, record);
            assert(now[k] == before[k]);
        } else {
            assert(now[before.len() as int] == (g, target, record));
        }
    }
}

proof fn lemma_asked_grows(
    gates: Seq<Gated>,
    queue: Seq<char>,
    offered: JsonView,
    routed: Seq<(Seq<char>, JsonView)>,
    from: int,
    to: int,
    one: (int, Seq<char>, JsonView),
)
    requires
        0 <= from <= to <= routed.len(),
    ensures
        asked_for(gates, queue, offered, routed, from).contains(one) ==> asked_for(
            gates,
            queue,
            offered,
            routed,
            to,
        ).contains(one),
    decreases to - from,
{
    if from < to {
        lemma_asked_grows(gates, queue, offered, routed, from, to - 1, one);
        let before = asked_for(gates, queue, offered, routed, to - 1);
        let now = asked_for(gates, queue, offered, routed, to);
        if before.contains(one) {
            let k = choose|k: int| 0 <= k < before.len() && before[k] == one;
            assert(now[k] == before[k]);
        }
    }
}

/// No gate is asked of a record of a queue that is not its own, or that it does not ask of.
pub proof fn no_other_gate_is_asked(
    gates: Seq<Gated>,
    queue: Seq<char>,
    offered: JsonView,
    routed: Seq<(Seq<char>, JsonView)>,
    n: int,
    k: int,
)
    requires
        0 <= n <= routed.len(),
        0 <= k < asked_for(gates, queue, offered, routed, n).len(),
    ensures
        ({
            let (g, target, record) = asked_for(gates, queue, offered, routed, n)[k];
            &&& 0 <= g < gates.len()
            &&& gates[g].on@ == target
            &&& gate_judges(gates[g], target, record)
            &&& (target == queue && record == offered) || exists|i: int|
                0 <= i < routed.len() && #[trigger] routed[i] == (target, record) && target != queue
        }),
    decreases n,
{
    if n == 0 {
        lemma_asked_are_gates(gates, gates.len() as int, queue, offered, k);
    } else {
        let before = asked_for(gates, queue, offered, routed, n - 1);
        if k < before.len() {
            no_other_gate_is_asked(gates, queue, offered, routed, n - 1, k);
        } else {
            lemma_asked_are_gates(
                gates,
                gates.len() as int,
                routed[n - 1].0,
                routed[n - 1].1,
                k - before.len(),
            );
            assert(routed[n - 1] == (routed[n - 1].0, routed[n - 1].1));
        }
    }
}

proof fn lemma_asked_are_gates(
    gates: Seq<Gated>,
    n: int,
    target: Seq<char>,
    record: JsonView,
    k: int,
)
    requires
        0 <= n <= gates.len(),
        0 <= k < asked_of(gates, n, target, record).len(),
    ensures
        ({
            let (g, at, of) = asked_of(gates, n, target, record)[k];
            &&& 0 <= g < n
            &&& at == target
            &&& of == record
            &&& gate_judges(gates[g], target, record)
        }),
    decreases n,
{
    let before = asked_of(gates, n - 1, target, record);
    if k < before.len() {
        lemma_asked_are_gates(gates, n - 1, target, record, k);
    }
}

/// What a session leaves unanswered is each question it asked that no reply echoes, once,
/// in the order asked.
pub proof fn sessions_leave_what_no_reply_echoes<T: Transport>(
    transport: T,
    asked: Seq<Pending>,
    i: int,
)
    requires
        0 <= i < asked.len(),
    ensures
        ({
            let left = unanswered_among(transport, asked, asked.len() as int);
            let replies = replies_in(lines_on(transport, asked[i].askable.answers.spec@.name));
            let replied = exists|k: int|
                0 <= k < replies.len() && (#[trigger] replies[k]).0 == asked[i].correlation@;
            &&& left.contains(i) <==> !replied
            &&& left.len() <= asked.len()
        }),
{
    lemma_unanswered(transport, asked, asked.len() as int, i);
    let replies = replies_in(lines_on(transport, asked[i].askable.answers.spec@.name));
    let correlation = asked[i].correlation@;
    if exists|k: int| 0 <= k < replies.len() && (#[trigger] replies[k]).0 == correlation {
        let k = choose|k: int| 0 <= k < replies.len() && (#[trigger] replies[k]).0 == correlation;
        lemma_replied(replies, correlation, k);
    } else {
        the_first_reply_answers(replies, correlation, replies.len() as int);
    }
}

proof fn lemma_replied(replies: Seq<(Seq<char>, JsonView)>, correlation: Seq<char>, k: int)
    requires
        0 <= k < replies.len(),
        replies[k].0 == correlation,
    ensures
        first_reply(replies, correlation) is Some,
    decreases replies.len(),
{
    if k < replies.len() - 1 {
        assert(replies.drop_last()[k] == replies[k]);
        lemma_replied(replies.drop_last(), correlation, k);
    }
}

proof fn lemma_unanswered<T: Transport>(transport: T, asked: Seq<Pending>, n: int, i: int)
    requires
        0 <= i < asked.len(),
        0 <= n <= asked.len(),
    ensures
        unanswered_among(transport, asked, n).contains(i) <==> i < n && stands_unanswered(
            transport,
            asked[i],
        ),
        unanswered_among(transport, asked, n).len() <= n,
    decreases n,
{
    if n > 0 {
        lemma_unanswered(transport, asked, n - 1, i);
        let before = unanswered_among(transport, asked, n - 1);
        let now = unanswered_among(transport, asked, n);
        if before.contains(i) {
            let k = choose|k: int| 0 <= k < before.len() && before[k] == i;
            assert(now[k] == i);
        }
        if now.contains(i) && !before.contains(i) {
            let k = choose|k: int| 0 <= k < now.len() && now[k] == i;
            if k < before.len() {
                assert(before[k] == i);
            }
        }
        if i == n - 1 && stands_unanswered(transport, asked[i]) {
            assert(now[before.len() as int] == i);
        }
    }
}

/// A session whose time is up leaves its questions standing, and one whose stream ended
/// abandons each of them that no reply echoes; either way it says how many.
pub proof fn sessions_end_by_how_they_ended<T: Transport>(
    asked: Seq<Pending>,
    bound_reached: bool,
    before: T,
    after: T,
    served: Served,
)
    requires
        ends_as(asked, bound_reached, before, after, served),
    ensures
        ({
            let left = unanswered_among(before, asked, asked.len() as int);
            &&& bound_reached ==> after == before && served is SessionOver && served->standing
                == left.len() as usize
            &&& !bound_reached ==> served is StreamEnded && served->abandoned == left.len()
                as usize
            &&& !bound_reached && left.len() == 0 ==> after == before
        }),
{
}

} // verus!
