//! What holds of an event queue's fold, whatever its log says.

use crate::fold::{
    Event, FoldedView, abandoned_is, blocks, id_of, identified, is_slot_held, is_withheld,
    lemma_field_of_with, lemma_identified_id, marked, remarked, same_key, step, unsuperseded,
    waiting_at,
};
use crate::framing::{lemma_filter_all, lemma_filter_none};
use crate::json::{
    JsonView, NumberView, field, lemma_with_new_field, member, not_under, same, with_field,
    without_field,
};
use crate::policy::{PolicyView, SupersedeView};
use crate::predicate::{admits, at_path};
use vstd::prelude::*;

verus! {

/// Whether a record with `id` is held: waiting, or pending.
pub open spec fn holds_id(folded: FoldedView, id: u64) -> bool {
    ||| exists|i: int| 0 <= i < folded.waiting.len() && id_of(#[trigger] folded.waiting[i]) == Some(id)
    ||| folded.pending is Some && id_of(folded.pending->0) == Some(id)
}

/// Whether every held record has an id, below the one the next record takes,
/// and no two have the same.
pub open spec fn well_kept(folded: FoldedView) -> bool {
    &&& forall|i: int|
        0 <= i < folded.waiting.len() ==> id_of(#[trigger] folded.waiting[i]) is Some && id_of(
            folded.waiting[i],
        )->0 < folded.next_id
    &&& folded.pending is Some ==> id_of(folded.pending->0) is Some && id_of(folded.pending->0)->0
        < folded.next_id
    &&& forall|i: int, j: int|
        0 <= i < j < folded.waiting.len() ==> id_of(#[trigger] folded.waiting[i]) != id_of(
            #[trigger] folded.waiting[j],
        )
    &&& folded.pending is Some ==> forall|i: int|
        0 <= i < folded.waiting.len() ==> id_of(#[trigger] folded.waiting[i]) != id_of(
            folded.pending->0,
        )
}

pub proof fn lemma_waiting_at(waiting: Seq<JsonView>, id: u64)
    ensures
        match waiting_at(waiting, id) {
            Some(at) => 0 <= at < waiting.len() && id_of(waiting[at]) == Some(id) && forall|k: int|
                0 <= k < at ==> id_of(#[trigger] waiting[k]) != Some(id),
            None => forall|k: int|
                0 <= k < waiting.len() ==> id_of(#[trigger] waiting[k]) != Some(id),
        },
    decreases waiting.len(),
{
    if waiting.len() > 0 && id_of(waiting[0]) != Some(id) {
        let rest = waiting.skip(1);
        lemma_waiting_at(rest, id);
        match waiting_at(rest, id) {
            Some(at) => {
                assert(waiting[at + 1] == rest[at]);
                assert forall|k: int| 0 <= k < at + 1 implies id_of(#[trigger] waiting[k]) != Some(
                    id,
                ) by {
                    if k > 0 {
                        assert(waiting[k] == rest[k - 1]);
                    }
                }
            },
            None => {
                assert forall|k: int| 0 <= k < waiting.len() implies id_of(#[trigger] waiting[k])
                    != Some(id) by {
                    if k > 0 {
                        assert(waiting[k] == rest[k - 1]);
                    }
                }
            },
        }
    }
}

/// Leaving a key out leaves every other as it was.
pub proof fn lemma_field_of_without(
    fields: Seq<(Seq<char>, JsonView)>,
    key: Seq<char>,
    sought: Seq<char>,
)
    ensures
        field(without_field(fields, key), sought) == if sought == key {
            None
        } else {
            field(fields, sought)
        },
    decreases fields.len(),
{
    let kept = not_under(key);
    assert(without_field(fields, key) == fields.filter(kept));
    if fields.len() == 0 {
        reveal(Seq::filter);
        assert(fields.filter(kept) =~= fields);
    } else {
        let one = seq![fields[0]];
        let rest = fields.skip(1);
        let fewer = rest.filter(kept);
        assert(without_field(rest, key) == fewer);
        lemma_field_of_without(rest, key, sought);
        assert(fields =~= one + rest);
        Seq::filter_distributes_over_add(one, rest, kept);
        if kept(fields[0]) {
            lemma_filter_all(one, kept);
            let all = one + fewer;
            assert(fields.filter(kept) == all);
            assert(all[0] == fields[0]);
            assert(all.skip(1) =~= fewer);
            assert(field(all, sought) == if fields[0].0 == sought {
                Some(fields[0].1)
            } else {
                field(fewer, sought)
            });
        } else {
            lemma_filter_none(one, kept);
            assert(Seq::<(Seq<char>, JsonView)>::empty() + fewer =~= fewer);
            assert(fields.filter(kept) == fewer);
        }
    }
}

/// Marking a record leaves its id as it was.
pub proof fn lemma_marked_id(record: JsonView, abandoned: bool)
    ensures
        id_of(marked(record, abandoned)) == id_of(record),
{
    match record {
        JsonView::Object(fields) => {
            reveal_strlit("id");
            reveal_strlit("abandoned");
            assert("id"@.len() != "abandoned"@.len());
            let rest = without_field(fields, "abandoned"@);
            lemma_field_of_without(fields, "abandoned"@, "id"@);
            lemma_field_of_with(rest, "abandoned"@, JsonView::Bool(true), "id"@);
        },
        _ => {},
    }
}

pub proof fn lemma_field_none(fields: Seq<(Seq<char>, JsonView)>, key: Seq<char>)
    ensures
        field(fields, key) is None <==> forall|i: int|
            0 <= i < fields.len() ==> (#[trigger] fields[i]).0 != key,
    decreases fields.len(),
{
    if fields.len() > 0 {
        lemma_field_none(fields.skip(1), key);
        assert(forall|i: int| 0 <= i < fields.skip(1).len() ==> fields.skip(1)[i] == fields[i + 1]);
        if fields[0].0 != key {
            if field(fields.skip(1), key) is None {
                assert forall|i: int| 0 <= i < fields.len() implies (#[trigger] fields[i]).0
                    != key by {
                    if i > 0 {
                        assert(fields.skip(1)[i - 1].0 != key);
                    }
                }
            } else {
                let k = choose|k: int|
                    0 <= k < fields.skip(1).len() && (#[trigger] fields.skip(1)[k]).0 == key;
                assert(fields[k + 1].0 == key);
            }
        }
    }
}

/// A key added last and left out again leaves the members as they were.
proof fn lemma_without_new_field(
    fields: Seq<(Seq<char>, JsonView)>,
    key: Seq<char>,
    value: JsonView,
)
    requires
        field(fields, key) is None,
    ensures
        without_field(fields, key) == fields,
        without_field(with_field(fields, key, value), key) == fields,
{
    lemma_field_none(fields, key);
    lemma_filter_all(fields, not_under(key));
    lemma_with_new_field(fields, key, value);
    lemma_filter_drops_last(fields, (key, value), not_under(key));
}

/// An item a filter does not pass is left out from the end.
proof fn lemma_filter_drops_last<A>(items: Seq<A>, last: A, pred: spec_fn(A) -> bool)
    requires
        !pred(last),
    ensures
        items.push(last).filter(pred) == items.filter(pred),
{
    reveal(Seq::filter);
    assert(items.push(last).drop_last() =~= items);
}

/// Abandoning a record and attending it again leaves it as it was.
pub proof fn abandon_then_attend(record: JsonView)
    requires
        member(record, "abandoned"@) is None,
    ensures
        marked(marked(record, true), false) == record,
{
    if let JsonView::Object(fields) = record {
        lemma_without_new_field(fields, "abandoned"@, JsonView::Bool(true));
    }
}

/// A line about a record the fold does not hold, other than one that queues it,
/// folds to nothing: which is what makes a replay from any checkpoint land on
/// the same state.
pub proof fn unheld_line_folds_to_nothing(
    policy: PolicyView,
    folded: FoldedView,
    event: Event,
    record: JsonView,
)
    requires
        event != Event::Queued,
        id_of(record) is Some ==> !holds_id(folded, id_of(record)->0),
    ensures
        step(policy, folded, Some(event), record) == folded,
{
    if let Some(id) = id_of(record) {
        lemma_waiting_at(folded.waiting, id);
        let abandoned = event == Event::Abandoned;
        let mapped = folded.waiting.map_values(|held: JsonView| remarked(held, id, abandoned));
        assert forall|i: int| 0 <= i < mapped.len() implies mapped[i] == folded.waiting[i] by {
            assert(id_of(folded.waiting[i]) != Some(id));
        }
        assert(mapped =~= folded.waiting);
        if let Some(at) = waiting_at(folded.waiting, id) {
            assert(id_of(folded.waiting[at]) == Some(id));
        }
    }
}

/// A queue that gives each record the next id keeps its records apart: every
/// line leaves held records with ids of their own, below the next one, and the
/// next id never goes back.
pub proof fn step_keeps_ids_apart(
    policy: PolicyView,
    folded: FoldedView,
    event: Event,
    record: JsonView,
)
    requires
        well_kept(folded),
        event == Event::Queued && id_of(record) is Some ==> id_of(record)->0 >= folded.next_id,
    ensures
        well_kept(step(policy, folded, Some(event), record)),
        step(policy, folded, Some(event), record).next_id >= folded.next_id,
{
    let after = step(policy, folded, Some(event), record);
    if let Some(id) = id_of(record) {
        match event {
            Event::Queued => {
                if id != u64::MAX {
                    let left = unsuperseded(policy.supersede_on, folded.waiting, record);
                    lemma_unsuperseded(policy.supersede_on, folded.waiting, record);
                    assert forall|i: int| 0 <= i < after.waiting.len() implies id_of(
                        #[trigger] after.waiting[i],
                    ) is Some && id_of(after.waiting[i])->0 < after.next_id by {
                        if i < left.len() {
                            assert(after.waiting[i] == left[i]);
                        }
                    }
                    assert forall|i: int, j: int| 0 <= i < j < after.waiting.len() implies id_of(
                        #[trigger] after.waiting[i],
                    ) != id_of(#[trigger] after.waiting[j]) by {
                        assert(after.waiting[i] == left[i]);
                        if j < left.len() {
                            assert(after.waiting[j] == left[j]);
                        }
                    }
                    if folded.pending is Some {
                        assert forall|i: int| 0 <= i < after.waiting.len() implies id_of(
                            #[trigger] after.waiting[i],
                        ) != id_of(after.pending->0) by {
                            if i < left.len() {
                                assert(after.waiting[i] == left[i]);
                            }
                        }
                    }
                }
            },
            Event::Claimed => {
                lemma_waiting_at(folded.waiting, id);
                if after != folded {
                    let at = waiting_at(folded.waiting, id)->0;
                    let left = folded.waiting.remove(at);
                    assert forall|i: int| 0 <= i < left.len() implies (#[trigger] left[i])
                        == folded.waiting[if i < at { i } else { i + 1 }] by {}
                    assert forall|i: int| 0 <= i < after.waiting.len() implies id_of(
                        #[trigger] after.waiting[i],
                    ) is Some && id_of(after.waiting[i])->0 < after.next_id by {
                        if i < left.len() {
                            assert(after.waiting[i] == left[i]);
                        }
                    }
                    assert forall|i: int, j: int| 0 <= i < j < after.waiting.len() implies id_of(
                        #[trigger] after.waiting[i],
                    ) != id_of(#[trigger] after.waiting[j]) by {
                        assert(after.waiting[i] == left[i]);
                        if j < left.len() {
                            assert(after.waiting[j] == left[j]);
                        }
                    }
                    if after.pending is Some {
                        assert forall|i: int| 0 <= i < after.waiting.len() implies id_of(
                            #[trigger] after.waiting[i],
                        ) != id_of(after.pending->0) by {
                            if i < left.len() {
                                assert(after.waiting[i] == left[i]);
                            }
                        }
                    }
                }
            },
            Event::Answered => {},
            Event::Abandoned | Event::Attended => {
                let abandoned = event == Event::Abandoned;
                assert forall|i: int| 0 <= i < after.waiting.len() implies id_of(
                    #[trigger] after.waiting[i],
                ) == id_of(folded.waiting[i]) by {
                    lemma_marked_id(folded.waiting[i], abandoned);
                }
                if folded.pending is Some {
                    lemma_marked_id(folded.pending->0, abandoned);
                }
            },
        }
    }
}

/// What superseding leaves waiting was waiting, in its order.
pub proof fn lemma_unsuperseded(
    supersede: Option<SupersedeView>,
    waiting: Seq<JsonView>,
    record: JsonView,
)
    requires
        forall|i: int, j: int|
            0 <= i < j < waiting.len() ==> id_of(#[trigger] waiting[i]) != id_of(
                #[trigger] waiting[j],
            ),
    ensures
        forall|i: int|
            0 <= i < unsuperseded(supersede, waiting, record).len() ==> waiting.contains(
                #[trigger] unsuperseded(supersede, waiting, record)[i],
            ),
        forall|i: int, j: int|
            0 <= i < j < unsuperseded(supersede, waiting, record).len() ==> id_of(
                #[trigger] unsuperseded(supersede, waiting, record)[i],
            ) != id_of(#[trigger] unsuperseded(supersede, waiting, record)[j]),
{
    let left = unsuperseded(supersede, waiting, record);
    match supersede {
        Some(s) => {
            let kept = |w: JsonView| !same_key(at_path(w, s.key), at_path(record, s.key));
            if admits(s.when, record) {
                lemma_filter_apart(waiting, kept);
            } else {
                assert forall|i: int| 0 <= i < left.len() implies waiting.contains(
                    #[trigger] left[i],
                ) by {
                    assert(waiting[i] == left[i]);
                }
            }
        },
        None => {
            assert forall|i: int| 0 <= i < left.len() implies waiting.contains(
                #[trigger] left[i],
            ) by {
                assert(waiting[i] == left[i]);
            }
        },
    }
}

proof fn lemma_filter_apart(waiting: Seq<JsonView>, kept: spec_fn(JsonView) -> bool)
    requires
        forall|i: int, j: int|
            0 <= i < j < waiting.len() ==> id_of(#[trigger] waiting[i]) != id_of(
                #[trigger] waiting[j],
            ),
    ensures
        forall|i: int|
            0 <= i < waiting.filter(kept).len() ==> waiting.contains(
                #[trigger] waiting.filter(kept)[i],
            ),
        forall|i: int, j: int|
            0 <= i < j < waiting.filter(kept).len() ==> id_of(
                #[trigger] waiting.filter(kept)[i],
            ) != id_of(#[trigger] waiting.filter(kept)[j]),
    decreases waiting.len(),
{
    reveal(Seq::filter);
    if waiting.len() > 0 {
        let rest = waiting.drop_last();
        lemma_filter_apart(rest, kept);
        let left = waiting.filter(kept);
        let fewer = rest.filter(kept);
        assert forall|i: int| 0 <= i < left.len() implies waiting.contains(#[trigger] left[i]) by {
            if i < fewer.len() {
                assert(left[i] == fewer[i]);
                let k = choose|k: int| 0 <= k < rest.len() && rest[k] == fewer[i];
                assert(waiting[k] == left[i]);
            } else {
                assert(waiting[waiting.len() - 1] == left[i]);
            }
        }
        assert forall|i: int, j: int| 0 <= i < j < left.len() implies id_of(#[trigger] left[i])
            != id_of(#[trigger] left[j]) by {
            assert(left[i] == fewer[i]);
            let k = choose|k: int| 0 <= k < rest.len() && rest[k] == fewer[i];
            if j < fewer.len() {
                assert(left[j] == fewer[j]);
            } else {
                assert(waiting[k] == left[i]);
                assert(waiting[waiting.len() - 1] == left[j]);
            }
        }
    }
}

/// Nothing claimed is handed out twice: once a claim is folded, no waiting
/// record has the claimed one's id.
pub proof fn claimed_record_no_longer_waits(
    policy: PolicyView,
    folded: FoldedView,
    record: JsonView,
)
    requires
        well_kept(folded),
        id_of(record) is Some,
        waiting_at(folded.waiting, id_of(record)->0) is Some,
    ensures
        waiting_at(
            step(policy, folded, Some(Event::Claimed), record).waiting,
            id_of(record)->0,
        ) is None,
{
    let id = id_of(record)->0;
    let after = step(policy, folded, Some(Event::Claimed), record);
    lemma_waiting_at(folded.waiting, id);
    let at = waiting_at(folded.waiting, id)->0;
    let left = folded.waiting.remove(at);
    lemma_waiting_at(after.waiting, id);
    if let Some(found) = waiting_at(after.waiting, id) {
        if found < left.len() {
            let from = if found < at {
                found
            } else {
                found + 1
            };
            assert(after.waiting[found] == folded.waiting[from]);
            if from < at {
                assert(id_of(folded.waiting[from]) != id_of(folded.waiting[at]));
            } else {
                assert(id_of(folded.waiting[at]) != id_of(folded.waiting[from]));
            }
        } else {
            assert(id_of(folded.waiting[at]) != id_of(folded.pending->0));
        }
    }
}

/// At most one record is pending at a time, and queueing never touches it: what
/// a record supersedes is waiting.
pub proof fn queueing_leaves_the_pending_record(
    policy: PolicyView,
    folded: FoldedView,
    record: JsonView,
)
    ensures
        step(policy, folded, Some(Event::Queued), record).pending == folded.pending,
{
}

/// The waiting record a claim of `record` is about, if there is one.
pub open spec fn claimed_by(folded: FoldedView, record: JsonView) -> Option<JsonView> {
    match id_of(record) {
        Some(id) => match waiting_at(folded.waiting, id) {
            Some(at) => Some(folded.waiting[at]),
            None => None,
        },
        None => None,
    }
}

/// A record held for somebody is pending until it is answered: no claim takes its
/// slot.
pub proof fn held_record_stays_pending(policy: PolicyView, folded: FoldedView, record: JsonView)
    requires
        is_slot_held(policy.hold_pending, folded.pending),
    ensures
        step(policy, folded, Some(Event::Claimed), record).pending == folded.pending,
{
}

/// Nothing somebody waits on is lost by a claim that hands out nothing withheld, as
/// every claim of a queue does: on a queue that holds records, every one that blocks
/// and is not abandoned, waiting or pending, is one or the other after.
pub proof fn claims_lose_no_question(
    policy: PolicyView,
    folded: FoldedView,
    record: JsonView,
    question: JsonView,
)
    requires
        policy.hold_pending,
        blocks(question),
        !abandoned_is(question),
        folded.waiting.contains(question) || folded.pending == Some(question),
        claimed_by(folded, record) is Some ==> !is_withheld(
            policy.hold_pending,
            folded.pending,
            claimed_by(folded, record)->0,
        ),
    ensures
        ({
            let after = step(policy, folded, Some(Event::Claimed), record);
            after.waiting.contains(question) || after.pending == Some(question)
        }),
{
    let after = step(policy, folded, Some(Event::Claimed), record);
    if let Some(id) = id_of(record) {
        lemma_waiting_at(folded.waiting, id);
        if let Some(at) = waiting_at(folded.waiting, id) {
            let left = folded.waiting.remove(at);
            if folded.waiting.contains(question) {
                let k = choose|k: int| 0 <= k < folded.waiting.len() && folded.waiting[k] == question;
                if after != folded && k != at {
                    let moved = if k < at {
                        k
                    } else {
                        k - 1
                    };
                    assert(left[moved] == question);
                    assert(after.waiting[moved] == question);
                }
            }
        }
    }
}

/// An answer to the pending record releases the slot and touches nothing else.
pub proof fn answer_releases_the_slot(policy: PolicyView, folded: FoldedView)
    requires
        folded.pending is Some,
        id_of(folded.pending->0) is Some,
    ensures
        step(policy, folded, Some(Event::Answered), folded.pending->0) == (FoldedView {
            pending: None,
            ..folded
        }),
{
}

/// Marks come and go without moving anything: abandoning the held records with
/// an id and attending them again leaves the fold as it was, where none of them
/// was marked.
pub proof fn attending_undoes_abandoning(
    policy: PolicyView,
    folded: FoldedView,
    record: JsonView,
)
    requires
        id_of(record) is Some,
        forall|i: int|
            0 <= i < folded.waiting.len() ==> member(
                #[trigger] folded.waiting[i],
                "abandoned"@,
            ) is None,
        folded.pending is Some ==> member(folded.pending->0, "abandoned"@) is None,
    ensures
        step(
            policy,
            step(policy, folded, Some(Event::Abandoned), record),
            Some(Event::Attended),
            record,
        ) == folded,
{
    let id = id_of(record)->0;
    let away = step(policy, folded, Some(Event::Abandoned), record);
    let back = step(policy, away, Some(Event::Attended), record);
    assert forall|i: int| 0 <= i < folded.waiting.len() implies back.waiting[i]
        == #[trigger] folded.waiting[i] by {
        lemma_marked_id(folded.waiting[i], true);
        abandon_then_attend(folded.waiting[i]);
    }
    assert(back.waiting =~= folded.waiting);
    if folded.pending is Some {
        lemma_marked_id(folded.pending->0, true);
        abandon_then_attend(folded.pending->0);
    }
}

/// A record the supersede rule does not admit, or any where there is none, supersedes
/// nothing: every record that was waiting waits on, in its order, and it waits last.
pub proof fn queueing_unadmitted_supersedes_nothing(
    policy: PolicyView,
    folded: FoldedView,
    record: JsonView,
)
    requires
        id_of(record) is Some,
        id_of(record)->0 < u64::MAX,
        match policy.supersede_on {
            Some(supersede) => !admits(supersede.when, record),
            None => true,
        },
    ensures
        step(policy, folded, Some(Event::Queued), record).waiting == folded.waiting.push(record),
{
}

/// A record the supersede rule admits supersedes exactly the waiting records whose key
/// it has, one without the key those without it: every other waits on, and it waits
/// last.
pub proof fn queueing_supersedes_by_key(
    policy: PolicyView,
    folded: FoldedView,
    record: JsonView,
    waiting: JsonView,
)
    requires
        id_of(record) is Some,
        id_of(record)->0 < u64::MAX,
        policy.supersede_on is Some,
        admits(policy.supersede_on->0.when, record),
    ensures
        ({
            let key = policy.supersede_on->0.key;
            let after = step(policy, folded, Some(Event::Queued), record).waiting;
            let mine = at_path(record, key);
            let its = at_path(waiting, key);
            &&& after.len() > 0
            &&& after.last() == record
            &&& after.drop_last().contains(waiting) <==> folded.waiting.contains(waiting) && !((
            mine is None && its is None) || (mine is Some && its is Some && same(its->0, mine->0)))
        }),
{
    let supersede = policy.supersede_on->0;
    let kept = |w: JsonView| !same_key(at_path(w, supersede.key), at_path(record, supersede.key));
    let left = folded.waiting.filter(kept);
    let after = step(policy, folded, Some(Event::Queued), record).waiting;
    assert(unsuperseded(policy.supersede_on, folded.waiting, record) =~= left);
    assert(after.drop_last() =~= left);
    lemma_filter_holds(folded.waiting, kept, waiting);
}

proof fn lemma_filter_holds<A>(items: Seq<A>, kept: spec_fn(A) -> bool, item: A)
    ensures
        items.filter(kept).contains(item) <==> items.contains(item) && kept(item),
    decreases items.len(),
{
    reveal(Seq::filter);
    let left = items.filter(kept);
    if items.len() > 0 {
        let rest = items.drop_last();
        let fewer = rest.filter(kept);
        lemma_filter_holds(rest, kept, item);
        if left.contains(item) {
            let k = choose|k: int| 0 <= k < left.len() && left[k] == item;
            if k < fewer.len() {
                assert(fewer[k] == item);
                let j = choose|j: int| 0 <= j < rest.len() && rest[j] == item;
                assert(items[j] == item);
            } else {
                assert(items[items.len() - 1] == item);
            }
        }
        if items.contains(item) && kept(item) {
            let j = choose|j: int| 0 <= j < items.len() && items[j] == item;
            if j < rest.len() {
                assert(rest[j] == item);
                let k = choose|k: int| 0 <= k < fewer.len() && fewer[k] == item;
                assert(left[k] == item);
            } else {
                assert(left[left.len() - 1] == item);
            }
        }
    }
}

/// What superseding leaves waits in the order it did: of two records left, the one that
/// waited before still does.
pub proof fn queueing_keeps_the_order(
    policy: PolicyView,
    folded: FoldedView,
    record: JsonView,
    i: int,
    j: int,
)
    requires
        id_of(record) is Some,
        id_of(record)->0 < u64::MAX,
        0 <= i < j < step(policy, folded, Some(Event::Queued), record).waiting.len() - 1,
    ensures
        ({
            let after = step(policy, folded, Some(Event::Queued), record).waiting;
            exists|a: int, b: int|
                0 <= a < b < folded.waiting.len() && #[trigger] folded.waiting[a] == after[i]
                    && #[trigger] folded.waiting[b] == after[j]
        }),
{
    let after = step(policy, folded, Some(Event::Queued), record).waiting;
    let left = unsuperseded(policy.supersede_on, folded.waiting, record);
    assert(after =~= left.push(record));
    match policy.supersede_on {
        Some(supersede) => {
            if admits(supersede.when, record) {
                let kept = |w: JsonView|
                    !same_key(at_path(w, supersede.key), at_path(record, supersede.key));
                assert(left =~= folded.waiting.filter(kept));
                lemma_filter_order(folded.waiting, kept, i, j);
            } else {
                assert(folded.waiting[i] == after[i] && folded.waiting[j] == after[j]);
            }
        },
        None => {
            assert(folded.waiting[i] == after[i] && folded.waiting[j] == after[j]);
        },
    }
}

proof fn lemma_filter_order<A>(items: Seq<A>, kept: spec_fn(A) -> bool, i: int, j: int)
    requires
        0 <= i < j < items.filter(kept).len(),
    ensures
        exists|a: int, b: int|
            0 <= a < b < items.len() && #[trigger] items[a] == items.filter(kept)[i]
                && #[trigger] items[b] == items.filter(kept)[j],
    decreases items.len(),
{
    reveal(Seq::filter);
    let left = items.filter(kept);
    let rest = items.drop_last();
    let fewer = rest.filter(kept);
    if j < fewer.len() {
        lemma_filter_order(rest, kept, i, j);
        let (a, b) = choose|a: int, b: int|
            0 <= a < b < rest.len() && #[trigger] rest[a] == fewer[i] && #[trigger] rest[b]
                == fewer[j];
        assert(items[a] == left[i] && items[b] == left[j]);
    } else {
        lemma_filter_holds(rest, kept, fewer[i]);
        assert(fewer.contains(fewer[i]));
        let a = choose|a: int| 0 <= a < rest.len() && rest[a] == fewer[i];
        assert(items[a] == left[i] && items[items.len() - 1] == left[j]);
    }
}

/// Queueing gives the next record an id past the queued one's, and never one given.
pub proof fn queueing_moves_the_next_id(policy: PolicyView, folded: FoldedView, record: JsonView)
    requires
        id_of(record) is Some,
        id_of(record)->0 < u64::MAX,
    ensures
        ({
            let next = step(policy, folded, Some(Event::Queued), record).next_id;
            &&& next > id_of(record)->0
            &&& next >= folded.next_id
            &&& next == folded.next_id || next == id_of(record)->0 + 1
        }),
{
}

/// A claim takes out the waiting record of its id and no other, and gives no id.
pub proof fn claiming_takes_out_its_record(
    policy: PolicyView,
    folded: FoldedView,
    record: JsonView,
    at: int,
)
    requires
        0 <= at < folded.waiting.len(),
        id_of(record) is Some,
        id_of(folded.waiting[at]) == id_of(record),
        forall|k: int|
            0 <= k < at ==> id_of(#[trigger] folded.waiting[k]) != id_of(record),
    ensures
        ({
            let after = step(policy, folded, Some(Event::Claimed), record);
            let left = folded.waiting.take(at) + folded.waiting.skip(at + 1);
            &&& after.next_id == folded.next_id
            &&& left.is_prefix_of(after.waiting)
            &&& after.waiting == left || (folded.pending is Some && after.waiting == left.push(
                folded.pending->0,
            ))
        }),
{
    let id = id_of(record)->0;
    lemma_waiting_at(folded.waiting, id);
    assert(waiting_at(folded.waiting, id) == Some(at));
    assert(folded.waiting.remove(at) =~= folded.waiting.take(at) + folded.waiting.skip(at + 1));
}

/// What a claim does to the pending slot: a record nobody waits on, and any on a queue
/// that holds none, leaves it; one somebody waits on takes it while it is free or what
/// is in it was abandoned, which then waits last; an abandoned one takes it only while
/// it is free.
pub proof fn claiming_and_the_slot(
    policy: PolicyView,
    folded: FoldedView,
    record: JsonView,
    at: int,
)
    requires
        0 <= at < folded.waiting.len(),
        id_of(record) is Some,
        id_of(folded.waiting[at]) == id_of(record),
        forall|k: int|
            0 <= k < at ==> id_of(#[trigger] folded.waiting[k]) != id_of(record),
    ensures
        ({
            let taken = folded.waiting[at];
            let after = step(policy, folded, Some(Event::Claimed), record);
            let left = folded.waiting.take(at) + folded.waiting.skip(at + 1);
            &&& !policy.hold_pending || !blocks(taken) ==> after.pending == folded.pending
                && after.waiting == left
            &&& policy.hold_pending && blocks(taken) && folded.pending is None ==> after.pending
                == Some(taken) && after.waiting == left
            &&& policy.hold_pending && blocks(taken) && !abandoned_is(taken) && folded.pending
                is Some && abandoned_is(folded.pending->0) ==> after.pending == Some(taken)
                && after.waiting == left.push(folded.pending->0)
            &&& abandoned_is(taken) && folded.pending is Some ==> after.pending == folded.pending
                && after.waiting == left
        }),
{
    let id = id_of(record)->0;
    lemma_waiting_at(folded.waiting, id);
    assert(waiting_at(folded.waiting, id) == Some(at));
    assert(folded.waiting.remove(at) =~= folded.waiting.take(at) + folded.waiting.skip(at + 1));
}

/// An answer to a record that is not the pending one changes nothing, and none touches
/// what waits.
pub proof fn other_answers_change_nothing(
    policy: PolicyView,
    folded: FoldedView,
    record: JsonView,
)
    ensures
        ({
            let after = step(policy, folded, Some(Event::Answered), record);
            &&& after.waiting == folded.waiting
            &&& after.next_id == folded.next_id
            &&& after.pending == folded.pending || after.pending is None
            &&& folded.pending is Some && id_of(record) != id_of(folded.pending->0)
                ==> after.pending == folded.pending
        }),
{
}

/// Marking a record sets whether it is abandoned and leaves every other member as it
/// was.
pub proof fn marking_sets_one_member(record: JsonView, abandoned: bool, key: Seq<char>)
    requires
        record is Object,
    ensures
        abandoned_is(marked(record, abandoned)) == abandoned,
        key != "abandoned"@ ==> member(marked(record, abandoned), key) == member(record, key),
{
    let fields = record->Object_0;
    let rest = without_field(fields, "abandoned"@);
    lemma_field_of_without(fields, "abandoned"@, key);
    lemma_field_of_without(fields, "abandoned"@, "abandoned"@);
    lemma_field_of_with(rest, "abandoned"@, JsonView::Bool(true), key);
    lemma_field_of_with(rest, "abandoned"@, JsonView::Bool(true), "abandoned"@);
}

/// Abandoning and attending mark the held records of an id and no other, each where it
/// stands, and give no id.
pub proof fn marks_reach_their_id_alone(
    policy: PolicyView,
    folded: FoldedView,
    record: JsonView,
    attended: bool,
    i: int,
)
    requires
        id_of(record) is Some,
        0 <= i < folded.waiting.len(),
    ensures
        ({
            let event = if attended {
                Event::Attended
            } else {
                Event::Abandoned
            };
            let after = step(policy, folded, Some(event), record);
            &&& after.next_id == folded.next_id
            &&& after.waiting.len() == folded.waiting.len()
            &&& after.pending is Some <==> folded.pending is Some
            &&& if id_of(folded.waiting[i]) == id_of(record) {
                abandoned_is(after.waiting[i]) == !attended && id_of(after.waiting[i]) == id_of(
                    record,
                )
            } else {
                after.waiting[i] == folded.waiting[i]
            }
            &&& folded.pending is Some ==> if id_of(folded.pending->0) == id_of(record) {
                abandoned_is(after.pending->0) == !attended && id_of(after.pending->0) == id_of(
                    record,
                )
            } else {
                after.pending == folded.pending
            }
        }),
{
    let held = folded.waiting[i];
    lemma_marked_id(held, !attended);
    if held is Object {
        marking_sets_one_member(held, !attended, "id"@);
    }
    if let Some(pending) = folded.pending {
        lemma_marked_id(pending, !attended);
        if pending is Object {
            marking_sets_one_member(pending, !attended, "id"@);
        }
    }
}

/// A record given an id has it, and is otherwise as it was; what is no object is given
/// none.
pub proof fn identifying_sets_one_member(record: JsonView, id: u64, key: Seq<char>)
    ensures
        identified(record, id) is Some <==> record is Object,
        record is Object ==> {
            let numbered = identified(record, id)->0;
            &&& id_of(numbered) == Some(id)
            &&& key != "id"@ ==> member(numbered, key) == member(record, key)
            &&& numbered is Object
        },
{
    lemma_identified_id(record, id);
    if record is Object {
        let fields = record->Object_0;
        let value = JsonView::Number(NumberView::Int(id as int));
        if field(fields, "id"@) is Some {
            lemma_field_of_with(fields, "id"@, value, key);
        } else {
            let all = seq![("id"@, value)] + fields;
            assert(all.skip(1) =~= fields);
            assert(all[0] == ("id"@, value));
            reveal_with_fuel(field, 2);
        }
    }
}

/// A line that names no event queues a record of an id not given yet, and otherwise
/// marks the held one as the line says.
pub proof fn unnamed_events_are_told_by_the_id(
    policy: PolicyView,
    folded: FoldedView,
    record: JsonView,
)
    requires
        id_of(record) is Some,
    ensures
        step(policy, folded, None, record) == step(
            policy,
            folded,
            Some(
                if id_of(record)->0 >= folded.next_id {
                    Event::Queued
                } else if member(record, "abandoned"@) == Some(JsonView::Bool(true)) {
                    Event::Abandoned
                } else {
                    Event::Attended
                },
            ),
            record,
        ),
{
}

/// What a record says of itself: its `id` a whole number, `blocking` and `abandoned`
/// exactly `true`.
pub proof fn records_speak_for_themselves(record: JsonView, n: int)
    ensures
        member(record, "id"@) == Some(JsonView::Number(NumberView::Int(n))) && 0 <= n <= u64::MAX
            ==> id_of(record) == Some(n as u64),
        member(record, "id"@) is None ==> id_of(record) is None,
        blocks(record) <==> member(record, "blocking"@) == Some(JsonView::Bool(true)),
        abandoned_is(record) <==> member(record, "abandoned"@) == Some(JsonView::Bool(true)),
{
}

} // verus!
