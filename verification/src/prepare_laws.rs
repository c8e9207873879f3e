//! What holds of preparing an offer, whatever the layout.

use crate::author::{Allowlist, OpWord};
use crate::codec::frame_conforms;
use crate::fold::{lemma_field_of_with, step};
use crate::json::{Json, JsonView, NumberView, field, member, settled, whole, without_field};
use crate::json_laws::{
    filling_in_replaces_nothing, leaving_out_takes_one_member, putting_at_a_path_is_found_there,
};
use crate::layout::{
    CheckStep, GrantOps, GrantStep, MemberName, PrepareStep, RenameStep, Route, RouteStep,
    StampStep, VersionStep, member_names,
};
use crate::names::QueueName;
use crate::predicate::{admits, at_path, satisfies, when_view};
use crate::prepare::{
    Preparing, checked_value, grant_author, grant_fault, item_word, item_words, member_there,
    prepares, projected, read_version, renamed_member, route_to, routed_by, routed_view,
    routes_of, stamped_all, stamped_member, step_when, taken_members, takes_route, version_fault,
    word_fault, words_fault,
};
use crate::schema::{Registry, held, schema_admits};
use vstd::prelude::*;

verus! {

/// A stamp gives a record the time under its member where it has none there, and leaves
/// what is there, and every other member, as it was.
pub proof fn stamping_fills_in_the_time(
    step: &StampStep,
    record: &Json,
    now: u64,
    r: Json,
    key: Seq<char>,
)
    requires
        call_ensures(StampStep::apply, (step, record, now), r),
    ensures
        !(record@ is Object) ==> r@ == record@,
        record@ is Object ==> r@ is Object && member(r@, key) == if key == step.member@ && member(
            record@,
            key,
        ) is None {
            Some(JsonView::Number(NumberView::Int(now as int)))
        } else {
            member(record@, key)
        },
{
    if record@ is Object {
        filling_in_replaces_nothing(record@->Object_0, step.member@, JsonView::Number(NumberView::Int(now as int)), key);
    }
}

/// A rename moves a member to another name: nothing is left under the old one, the new one
/// has what it had, or the moved value where it had none, and every other member is as it
/// was. A record without the member is left as it is.
pub proof fn renaming_moves_one_member(step: &RenameStep, record: &Json, r: Json, key: Seq<char>)
    requires
        call_ensures(RenameStep::apply, (step, record), r),
        step.from@ != step.to@,
    ensures
        member(record@, step.from@) is None ==> r@ == record@,
        member(record@, step.from@) is Some ==> {
            &&& member(r@, step.from@) is None
            &&& member(r@, step.to@) == if member(record@, step.to@) is Some {
                member(record@, step.to@)
            } else {
                member(record@, step.from@)
            }
            &&& key != step.from@ && key != step.to@ ==> member(r@, key) == member(record@, key)
        },
{
    if let JsonView::Object(fields) = record@ {
        if let Some(value) = field(fields, step.from@) {
            let rest = without_field(fields, step.from@);
            leaving_out_takes_one_member(fields, step.from@, step.to@);
            leaving_out_takes_one_member(fields, step.from@, key);
            filling_in_replaces_nothing(rest, step.to@, value, step.from@);
            filling_in_replaces_nothing(rest, step.to@, value, key);
        }
    }
}

/// A check refuses exactly what its schema refuses: the record, or the value at its path,
/// `null` where there is none. A schema nothing registered refuses all.
pub proof fn checking_refuses_what_the_schema_does(
    step: &CheckStep,
    record: &Json,
    registry: &Registry,
    r: Result<(), String>,
)
    requires
        call_ensures(CheckStep::apply, (step, record, registry), r),
    ensures
        ({
            let checked = if step.at is None {
                record@
            } else if at_path(record@, step.at->0@) is Some {
                at_path(record@, step.at->0@)->0
            } else {
                JsonView::Null
            };
            r is Ok <==> held(registry@, step.schema@) is Some && schema_admits(
                settled(held(registry@, step.schema@)->0),
                settled(checked),
            )
        }),
{
}

/// A version step reads an older version it names as its own, and changes nothing else of
/// a record.
pub proof fn older_versions_are_read_as_the_step_says(
    step: &VersionStep,
    record: &Json,
    r: Result<Json, String>,
    key: Seq<char>,
)
    requires
        call_ensures(VersionStep::apply, (step, record), r),
        r is Ok,
    ensures
        ({
            let found = at_path(record@, step.at@);
            let older = found is Some && whole(found->0) is Some && step.reads@.contains(
                whole(found->0)->0,
            );
            &&& older ==> at_path(r->Ok_0@, step.at@) == Some(
                JsonView::Number(NumberView::Int(step.value as int)),
            )
            &&& !older ==> r->Ok_0@ == record@
            &&& step.at@.len() > 0 && key != step.at@[0] ==> member(r->Ok_0@, key) == member(
                record@,
                key,
            )
        }),
{
    putting_at_a_path_is_found_there(record@, step.at@, JsonView::Number(NumberView::Int(step.value as int)), key);
}

/// Where a version is required, a record is refused unless it has it, or an older one the
/// step names; where none is, no record is.
pub proof fn required_versions_are_required(
    step: &VersionStep,
    record: &Json,
    r: Result<Json, String>,
)
    requires
        call_ensures(VersionStep::apply, (step, record), r),
    ensures
        step.required_when is None ==> r is Ok,
        r is Ok && step.required_when is Some && satisfies(step.required_when->0@, r->Ok_0@)
            ==> at_path(r->Ok_0@, step.at@) is Some && whole(at_path(r->Ok_0@, step.at@)->0)
            == Some(step.value),
        r is Err ==> ({
            let found = at_path(record@, step.at@);
            found is None || whole(found->0) is None || (whole(found->0)->0 != step.value
                && !step.reads@.contains(whole(found->0)->0))
        }),
{
    putting_at_a_path_is_found_there(record@, step.at@, JsonView::Number(NumberView::Int(step.value as int)), Seq::empty());
}

/// A record passes a grant exactly where it names an author, by the path or by default,
/// that is declared, and every op word it names is an op granted to that author.
pub proof fn grants_are_of_granted_words(
    step: &GrantStep,
    record: &Json,
    allowlist: &Allowlist<OpWord>,
    r: Result<(), String>,
)
    requires
        call_ensures(GrantStep::apply, (step, record, allowlist), r),
    ensures
        ({
            let named = at_path(record@, step.author@);
            let author = if named is Some && named->0 is Str {
                Some(named->0->Str_0)
            } else if (named is None || named->0 is Null) && step.default_author is Some {
                Some(step.default_author->0@)
            } else {
                None
            };
            let granted = |word: Seq<char>|
                allowlist.ops().contains(word) && allowlist.granted_to(author->0)->0.contains(word);
            r is Ok <==> author is Some && allowlist.granted_to(author->0) is Some && match step.ops {
                GrantOps::AuthorOnly => true,
                GrantOps::Word(word) => granted(word.word@),
                GrantOps::Each { each, op } => match at_path(record@, each@) {
                    None => true,
                    Some(JsonView::Null) => true,
                    Some(JsonView::Array(items)) => forall|i: int|
                        0 <= i < items.len() ==> ({
                            let word = at_path(#[trigger] items[i], op@);
                            word is Some && word->0 is Str && granted(word->0->Str_0)
                        }),
                    Some(_) => false,
                },
            }
        }),
{
    let found = grant_author(*step, record@);
    if found is Ok && allowlist.granted_to(found->Ok_0) is Some {
        let author = found->Ok_0;
        match step.ops {
            GrantOps::AuthorOnly => {
                lemma_words_fault(*step, *allowlist, author, Seq::empty(), 0);
            },
            GrantOps::Word(word) => {
                let words = seq![word.word@];
                lemma_words_fault(*step, *allowlist, author, words, 0);
                assert(words[0] == word.word@);
            },
            GrantOps::Each { each, op } => {
                lemma_words_fault(*step, *allowlist, author, Seq::empty(), 0);
                if let Some(JsonView::Array(items)) = at_path(record@, each@) {
                    lemma_item_words_of(items, op@);
                    if let Ok(words) = item_words(items, op@) {
                        lemma_words_fault(*step, *allowlist, author, words, 0);
                        assert forall|i: int| 0 <= i < items.len() implies #[trigger] words[i]
                            == item_word(items[i], op@)->0 by {}
                        if words_fault(*step, *allowlist, author, words, 0) is Some {
                            let k = choose|k: int|
                                0 <= k < words.len() && word_fault(
                                    *step,
                                    *allowlist,
                                    author,
                                    #[trigger] words[k],
                                ) is Some;
                            assert(item_word(items[k], op@) == Some(words[k]));
                        }
                    } else {
                        let k = choose|k: int|
                            0 <= k < items.len() && item_word(#[trigger] items[k], op@) is None;
                        assert(item_word(items[k], op@) is None);
                    }
                }
            },
        }
    }
}

proof fn lemma_words_fault(
    step: GrantStep,
    allowlist: Allowlist<OpWord>,
    author: Seq<char>,
    words: Seq<Seq<char>>,
    from: int,
)
    requires
        0 <= from <= words.len(),
    ensures
        words_fault(step, allowlist, author, words, from) is Some <==> exists|k: int|
            from <= k < words.len() && word_fault(step, allowlist, author, #[trigger] words[k])
                is Some,
    decreases words.len() - from,
{
    if from < words.len() {
        lemma_words_fault(step, allowlist, author, words, from + 1);
        if word_fault(step, allowlist, author, words[from]) is None {
            if words_fault(step, allowlist, author, words, from) is Some {
                let k = choose|k: int|
                    from + 1 <= k < words.len() && word_fault(
                        step,
                        allowlist,
                        author,
                        #[trigger] words[k],
                    ) is Some;
                assert(from <= k);
            }
        }
    }
}

proof fn lemma_item_words_of(items: Seq<JsonView>, op: Seq<Seq<char>>)
    ensures
        match item_words(items, op) {
            Ok(words) => words.len() == items.len() && forall|i: int|
                0 <= i < items.len() ==> item_word(#[trigger] items[i], op) == Some(words[i]),
            Err(_) => exists|i: int|
                0 <= i < items.len() && item_word(#[trigger] items[i], op) is None,
        },
    decreases items.len(),
{
    if items.len() > 0 {
        let rest = items.drop_last();
        lemma_item_words_of(rest, op);
        match item_words(rest, op) {
            Ok(before) => {
                assert(items[items.len() - 1] == items.last());
                if item_word(items.last(), op) is Some {
                    let words = item_words(items, op)->Ok_0;
                    assert forall|i: int| 0 <= i < items.len() implies item_word(
                        #[trigger] items[i],
                        op,
                    ) == Some(words[i]) by {
                        if i < rest.len() {
                            assert(rest[i] == items[i]);
                        }
                    }
                }
            },
            Err(_) => {
                let i = choose|i: int|
                    0 <= i < rest.len() && item_word(#[trigger] rest[i], op) is None;
                assert(items[i] == rest[i]);
            },
        }
    }
}

/// Whether a record carries a member: it is there, not `null`, and no empty list.
pub open spec fn is_carried(record: JsonView, name: Seq<char>) -> bool {
    let value = member(record, name);
    value is Some && value != Some(JsonView::Null) && !(value->0 is Array
        && value->0->Array_0.len() == 0)
}

/// Whether a record carries one of the members a route is taken on.
pub open spec fn is_routed(route: Route, record: JsonView) -> bool {
    exists|k: int| 0 <= k < route.on@.len() && is_carried(record, (#[trigger] route.on@[k])@)
}

/// How many of the first `n` routes a record takes.
pub open spec fn routes_taken(routes: Seq<Route>, record: JsonView, n: int) -> nat
    decreases n,
{
    if n <= 0 {
        0
    } else {
        routes_taken(routes, record, n - 1) + if is_routed(routes[n - 1], record) {
            1nat
        } else {
            0
        }
    }
}

proof fn lemma_takes_route(route: Route, fields: Seq<(Seq<char>, JsonView)>)
    ensures
        takes_route(route, fields) == is_routed(route, JsonView::Object(fields)),
{
    let record = JsonView::Object(fields);
    let names = member_names(route.on@);
    if takes_route(route, fields) {
        let k = choose|k: int| 0 <= k < names.len() && member_there(fields, #[trigger] names[k]);
        assert(is_carried(record, route.on@[k]@));
    }
    if is_routed(route, record) {
        let k = choose|k: int|
            0 <= k < route.on@.len() && is_carried(record, (#[trigger] route.on@[k])@);
        assert(member_there(fields, names[k]));
    }
}

proof fn lemma_routed_by(
    routes: Seq<Route>,
    fields: Seq<(Seq<char>, JsonView)>,
    now: u64,
    i: int,
)
    requires
        0 <= i < routes.len(),
    ensures
        ({
            let record = JsonView::Object(fields);
            let made = routed_by(routes, fields, now);
            let at = routes_taken(routes, record, i) as int;
            &&& made.len() == routes_taken(routes, record, routes.len() as int)
            &&& is_routed(routes[i], record) ==> 0 <= at < made.len() && made[at] == (
                routes[i].queue@,
                projected(routes[i], fields, now),
            )
        }),
    decreases routes.len(),
{
    let record = JsonView::Object(fields);
    let n = routes.len() as int;
    let fewer = routes.drop_last();
    lemma_takes_route(routes.last(), fields);
    assert(routes.last() == routes[n - 1]);
    lemma_taken_same(routes, fewer, record, n - 1);
    lemma_taken_same(routes, fewer, record, i);
    if n > 1 {
        lemma_routed_by(fewer, fields, now, if i < n - 1 { i } else { 0 });
        if i < n - 1 {
            assert(fewer[i] == routes[i]);
        }
    } else {
        assert(routed_by(fewer, fields, now).len() == 0);
        assert(routes_taken(routes, record, 0) == 0);
    }
}

proof fn lemma_taken_same(a: Seq<Route>, b: Seq<Route>, record: JsonView, n: int)
    requires
        n <= a.len(),
        n <= b.len(),
        forall|i: int| 0 <= i < n ==> a[i] == b[i],
    ensures
        routes_taken(a, record, n) == routes_taken(b, record, n),
    decreases n,
{
    if n > 0 {
        lemma_taken_same(a, b, record, n - 1);
    }
}

/// An offer becomes one record for each route it takes, in the order they are declared,
/// each onto its route's queue; where it takes none, one onto the queue fallen back to, and
/// none where there is no such route.
pub proof fn offers_take_every_route_they_may(
    step: &RouteStep,
    record: &Json,
    now: u64,
    r: Option<Vec<(QueueName, Json)>>,
    i: int,
)
    requires
        call_ensures(RouteStep::apply, (step, record, now), r),
        record@ is Object,
        0 <= i < step.routes@.len(),
    ensures
        ({
            let all = step.routes@;
            let count = routes_taken(all, record@, all.len() as int);
            let at = routes_taken(all, record@, i) as int;
            &&& count > 0 ==> r is Some && r->0@.len() == count
            &&& is_routed(all[i], record@) ==> {
                &&& count > 0
                &&& 0 <= at < count
                &&& r->0@[at].0@ == all[i].queue@
                &&& r->0@[at].1@ == projected(all[i], record@->Object_0, now)
            }
            &&& count == 0 && step.fallback is None ==> r is None
            &&& count == 0 && step.fallback is Some && all[i].queue@ == step.fallback->0@ ==> r
                is Some && r->0@.len() == 1 && r->0@[0].0@ == step.fallback->0@
            &&& r is Some ==> r->0@.len() > 0
        }),
{
    let fields = record@->Object_0;
    let all = step.routes@;
    lemma_routed_by(all, fields, now, i);
    if let Some(made) = r {
        assert(routed_view(made@).len() == made@.len());
        let at = routes_taken(all, record@, i) as int;
        if is_routed(all[i], record@) {
            assert(routed_view(made@)[at] == (made@[at].0@, made@[at].1@));
        }
        if made@.len() > 0 {
            assert(routed_view(made@)[0] == (made@[0].0@, made@[0].1@));
        }
    }
    if step.fallback is Some && all[i].queue@ == step.fallback->0@ {
        lemma_route_to(all, step.fallback->0@, i);
    }
    if step.fallback is Some {
        if let Some(route) = route_to(all, step.fallback->0@) {
            lemma_route_found(all, step.fallback->0@);
        }
    }
}

proof fn lemma_route_to(routes: Seq<Route>, queue: Seq<char>, i: int)
    requires
        0 <= i < routes.len(),
        routes[i].queue@ == queue,
    ensures
        route_to(routes, queue) is Some,
    decreases i,
{
    if routes[0].queue@ != queue {
        assert(routes.skip(1)[i - 1] == routes[i]);
        lemma_route_to(routes.skip(1), queue, i - 1);
    }
}

proof fn lemma_route_found(routes: Seq<Route>, queue: Seq<char>)
    requires
        route_to(routes, queue) is Some,
    ensures
        route_to(routes, queue)->0.queue@ == queue,
    decreases routes.len(),
{
    if routes[0].queue@ != queue {
        lemma_route_found(routes.skip(1), queue);
    }
}

/// Whether a name is among names.
pub open spec fn is_named(names: Seq<MemberName>, name: Seq<char>) -> bool {
    exists|k: int| 0 <= k < names.len() && (#[trigger] names[k])@ == name
}

/// A routed record carries the members its route takes, as the offer has them, and no
/// other but those stamped; the members stamped hold the time where nothing was taken
/// there. Under a member, the members taken are carried there.
pub proof fn routed_records_carry_what_their_route_takes(
    route: Route,
    fields: Seq<(Seq<char>, JsonView)>,
    now: u64,
    name: Seq<char>,
)
    ensures
        ({
            let made = projected(route, fields, now);
            let time = JsonView::Number(NumberView::Int(now as int));
            let taken = if is_named(route.take@, name) {
                field(fields, name)
            } else {
                None
            };
            match route.under {
                None => member(made, name) == if taken is Some {
                    taken
                } else if is_named(route.stamp@, name) {
                    Some(time)
                } else {
                    None
                },
                Some(under) => {
                    &&& member(made, under@) is Some
                    &&& member(member(made, under@)->0, name) == taken
                    &&& name != under@ ==> member(made, name) == if is_named(route.stamp@, name) {
                        Some(time)
                    } else {
                        None
                    }
                },
            }
        }),
{
    let take = member_names(route.take@);
    let stamp = member_names(route.stamp@);
    lemma_names(route.take@, name);
    lemma_names(route.stamp@, name);
    lemma_taken_members(fields, take, name);
    let taken = taken_members(fields, take);
    match route.under {
        None => {
            lemma_stamped_all(taken, stamp, now, name);
        },
        Some(under) => {
            let base = seq![(under@, JsonView::Object(taken))];
            reveal_with_fuel(field, 2);
            assert(base.skip(1) =~= Seq::<(Seq<char>, JsonView)>::empty());
            lemma_stamped_all(base, stamp, now, name);
            lemma_stamped_all(base, stamp, now, under@);
            assert(field(base, under@) == Some(JsonView::Object(taken)));
        },
    }
}

proof fn lemma_names(names: Seq<MemberName>, name: Seq<char>)
    ensures
        member_names(names).contains(name) <==> is_named(names, name),
{
    let texts = member_names(names);
    if texts.contains(name) {
        let k = choose|k: int| 0 <= k < texts.len() && texts[k] == name;
        assert(names[k]@ == name);
    }
    if is_named(names, name) {
        let k = choose|k: int| 0 <= k < names.len() && (#[trigger] names[k])@ == name;
        assert(texts[k] == name);
    }
}

proof fn lemma_taken_members(
    fields: Seq<(Seq<char>, JsonView)>,
    names: Seq<Seq<char>>,
    name: Seq<char>,
)
    ensures
        field(taken_members(fields, names), name) == if names.contains(name) {
            field(fields, name)
        } else {
            None
        },
    decreases names.len(),
{
    if names.len() > 0 {
        let rest = names.drop_last();
        let last = names.last();
        let before = taken_members(fields, rest);
        lemma_taken_members(fields, rest, name);
        if let Some(value) = field(fields, last) {
            lemma_field_of_with(before, last, value, name);
        }
        lemma_contains_last(names, name);
    }
}

proof fn lemma_contains_last(names: Seq<Seq<char>>, name: Seq<char>)
    requires
        names.len() > 0,
    ensures
        names.contains(name) <==> names.drop_last().contains(name) || names.last() == name,
{
    let rest = names.drop_last();
    if names.contains(name) {
        let k = choose|k: int| 0 <= k < names.len() && names[k] == name;
        if k < rest.len() {
            assert(rest[k] == name);
        }
    }
    if rest.contains(name) {
        let k = choose|k: int| 0 <= k < rest.len() && rest[k] == name;
        assert(names[k] == name);
    }
    assert(names[names.len() - 1] == names.last());
}

proof fn lemma_stamped_all(
    fields: Seq<(Seq<char>, JsonView)>,
    names: Seq<Seq<char>>,
    now: u64,
    name: Seq<char>,
)
    ensures
        field(stamped_all(fields, names, now), name) == if field(fields, name) is Some {
            field(fields, name)
        } else if names.contains(name) {
            Some(JsonView::Number(NumberView::Int(now as int)))
        } else {
            None
        },
    decreases names.len(),
{
    if names.len() > 0 {
        let rest = names.drop_last();
        let before = stamped_all(fields, rest, now);
        lemma_stamped_all(fields, rest, now, name);
        lemma_field_of_with(before, names.last(), JsonView::Number(NumberView::Int(now as int)), name);
        lemma_contains_last(names, name);
    }
}

/// An offer whose layout's steps none of them run on goes, as it is, onto the queue it was
/// offered to.
pub proof fn steps_that_do_not_run_change_nothing(
    with: Preparing,
    steps: Seq<PrepareStep>,
    from: int,
    record: JsonView,
    result: Result<Seq<(Seq<char>, JsonView)>, Seq<char>>,
)
    requires
        prepares(with, steps, from, record, None, result),
        0 <= from,
        forall|i: int|
            from <= i < steps.len() ==> !admits(
                match #[trigger] steps[i] {
                    PrepareStep::Stamp(step) => when_view(step.when),
                    PrepareStep::Rename(step) => when_view(step.when),
                    PrepareStep::Check(step) => when_view(step.when),
                    PrepareStep::Version(step) => when_view(step.when),
                    PrepareStep::Grant(step) => when_view(step.when),
                    PrepareStep::Route(step) => when_view(step.when),
                },
                record,
            ),
    ensures
        result is Ok,
        result->Ok_0 == seq![(with.queue, record)],
    decreases steps.len() - from,
{
    if from < steps.len() {
        assert(!admits(step_when(steps[from]), record));
        steps_that_do_not_run_change_nothing(with, steps, from + 1, record, result);
    }
}

/// Steps run in order, each on what the one before made: a first step that refuses refuses
/// the offer, and one that does not hands on the record as it left it.
pub proof fn steps_run_in_order(
    with: Preparing,
    first: PrepareStep,
    rest: Seq<PrepareStep>,
    record: JsonView,
    result: Result<Seq<(Seq<char>, JsonView)>, Seq<char>>,
)
    requires
        prepares(with, seq![first] + rest, 0, record, None, result),
        admits(step_when(first), record),
    ensures
        match first {
            PrepareStep::Stamp(step) => prepares(
                with,
                rest,
                0,
                stamped_member(record, step.member@, with.now),
                None,
                result,
            ),
            PrepareStep::Rename(step) => prepares(
                with,
                rest,
                0,
                renamed_member(record, step.from@, step.to@),
                None,
                result,
            ),
            PrepareStep::Check(step) => if frame_conforms(
                with.registry,
                step.schema@,
                checked_value(step, record),
            ) {
                prepares(with, rest, 0, record, None, result)
            } else {
                result is Err
            },
            PrepareStep::Version(step) => if version_fault(step, read_version(step, record))
                is Some {
                result is Err
            } else {
                prepares(with, rest, 0, read_version(step, record), None, result)
            },
            PrepareStep::Grant(step) => if grant_fault(step, record, with.allowlist) is Some {
                result is Err
            } else {
                prepares(with, rest, 0, record, None, result)
            },
            PrepareStep::Route(step) => prepares(
                with,
                rest,
                0,
                record,
                routes_of(step, record, with.now),
                result,
            ),
        },
{
    let all = seq![first] + rest;
    assert(all[0] == first);
    assert(all.skip(1) =~= rest);
    match first {
        PrepareStep::Stamp(step) => lemma_prepares_later(
            with,
            all,
            1,
            stamped_member(record, step.member@, with.now),
            None,
            result,
        ),
        PrepareStep::Rename(step) => lemma_prepares_later(
            with,
            all,
            1,
            renamed_member(record, step.from@, step.to@),
            None,
            result,
        ),
        PrepareStep::Version(step) => lemma_prepares_later(
            with,
            all,
            1,
            read_version(step, record),
            None,
            result,
        ),
        PrepareStep::Route(step) => lemma_prepares_later(
            with,
            all,
            1,
            record,
            routes_of(step, record, with.now),
            result,
        ),
        _ => lemma_prepares_later(with, all, 1, record, None, result),
    }
}

proof fn lemma_prepares_later(
    with: Preparing,
    steps: Seq<PrepareStep>,
    from: int,
    record: JsonView,
    routed: Option<Seq<(Seq<char>, JsonView)>>,
    result: Result<Seq<(Seq<char>, JsonView)>, Seq<char>>,
)
    requires
        1 <= from <= steps.len(),
    ensures
        prepares(with, steps, from, record, routed, result) == prepares(
            with,
            steps.skip(1),
            from - 1,
            record,
            routed,
            result,
        ),
    decreases steps.len() - from,
{
    let rest = steps.skip(1);
    if from < steps.len() {
        assert(rest[from - 1] == steps[from]);
        lemma_prepares_later(with, steps, from + 1, record, routed, result);
        match steps[from] {
            PrepareStep::Stamp(step) => lemma_prepares_later(
                with,
                steps,
                from + 1,
                stamped_member(record, step.member@, with.now),
                routed,
                result,
            ),
            PrepareStep::Rename(step) => lemma_prepares_later(
                with,
                steps,
                from + 1,
                renamed_member(record, step.from@, step.to@),
                routed,
                result,
            ),
            PrepareStep::Version(step) => lemma_prepares_later(
                with,
                steps,
                from + 1,
                read_version(step, record),
                routed,
                result,
            ),
            PrepareStep::Route(step) => lemma_prepares_later(
                with,
                steps,
                from + 1,
                record,
                routes_of(step, record, with.now),
                result,
            ),
            _ => {},
        }
    }
}

} // verus!
