//! What holds of members, paths and predicates, whatever the values.

use crate::codec::with_absent;
use crate::event_log::extended;
use crate::fold::lemma_field_of_with;
use crate::fold_laws::lemma_field_of_without;
use crate::json::{JsonView, field, member, same, with_field, without_field};
use crate::predicate::{PredicateView, admits, at_path, satisfies, with_path};
use vstd::prelude::*;

verus! {

/// What an object holds under a key is the first of its members under it.
pub proof fn first_member_is_held(fields: Seq<(Seq<char>, JsonView)>, key: Seq<char>, i: int)
    requires
        0 <= i < fields.len(),
        fields[i].0 == key,
        forall|k: int| 0 <= k < i ==> (#[trigger] fields[k]).0 != key,
    ensures
        field(fields, key) == Some(fields[i].1),
        member(JsonView::Object(fields), key) == Some(fields[i].1),
    decreases i,
{
    if i > 0 {
        let rest = fields.skip(1);
        assert(fields[0].0 != key);
        assert forall|k: int| 0 <= k < i - 1 implies (#[trigger] rest[k]).0 != key by {
            assert(rest[k] == fields[k + 1]);
        }
        first_member_is_held(rest, key, i - 1);
    }
}

/// An object holds nothing under a key none of its members is under, and nothing but an
/// object holds anything.
pub proof fn unnamed_member_is_not_held(
    fields: Seq<(Seq<char>, JsonView)>,
    value: JsonView,
    key: Seq<char>,
)
    requires
        forall|i: int| 0 <= i < fields.len() ==> (#[trigger] fields[i]).0 != key,
    ensures
        field(fields, key) is None,
        !(value is Object) ==> member(value, key) is None,
{
    lemma_field_none_from(fields, key);
}

proof fn lemma_field_none_from(fields: Seq<(Seq<char>, JsonView)>, key: Seq<char>)
    requires
        forall|i: int| 0 <= i < fields.len() ==> (#[trigger] fields[i]).0 != key,
    ensures
        field(fields, key) is None,
    decreases fields.len(),
{
    if fields.len() > 0 {
        let rest = fields.skip(1);
        assert(fields[0].0 != key);
        assert forall|k: int| 0 <= k < rest.len() implies (#[trigger] rest[k]).0 != key by {
            assert(rest[k] == fields[k + 1]);
        }
        lemma_field_none_from(rest, key);
    }
}

/// Setting a member sets it alone, where it first stood, or last: every other member
/// keeps its value and its place.
pub proof fn setting_sets_one_member(
    fields: Seq<(Seq<char>, JsonView)>,
    key: Seq<char>,
    value: JsonView,
    other: Seq<char>,
    i: int,
)
    requires
        0 <= i < fields.len(),
    ensures
        ({
            let set = with_field(fields, key, value);
            &&& field(set, key) == Some(value)
            &&& other != key ==> field(set, other) == field(fields, other)
            &&& set.len() == fields.len() + if field(fields, key) is Some {
                0int
            } else {
                1
            }
            &&& fields[i].0 != key ==> set[i] == fields[i]
            &&& set[i].0 == fields[i].0
        }),
    decreases fields.len(),
{
    lemma_field_of_with(fields, key, value, key);
    lemma_field_of_with(fields, key, value, other);
    lemma_set_in_place(fields, key, value, i);
}

proof fn lemma_set_in_place(
    fields: Seq<(Seq<char>, JsonView)>,
    key: Seq<char>,
    value: JsonView,
    i: int,
)
    requires
        0 <= i < fields.len(),
    ensures
        ({
            let set = with_field(fields, key, value);
            &&& set.len() == fields.len() + if field(fields, key) is Some {
                0int
            } else {
                1
            }
            &&& fields[i].0 != key ==> set[i] == fields[i]
            &&& set[i].0 == fields[i].0
        }),
    decreases fields.len(),
{
    let rest = fields.skip(1);
    let set = with_field(fields, key, value);
    if fields[0].0 == key {
        assert(set =~= seq![(key, value)] + rest);
        if i > 0 {
            assert(set[i] == rest[i - 1]);
        }
    } else {
        let more = with_field(rest, key, value);
        assert(set =~= seq![fields[0]] + more);
        if rest.len() > 0 {
            lemma_set_in_place(rest, key, value, if i > 0 { i - 1 } else { 0 });
        } else {
            assert(more =~= seq![(key, value)]);
        }
        if i > 0 {
            assert(set[i] == more[i - 1]);
        }
    }
}

/// Leaving a key out leaves nothing under it, and every other member as it was.
pub proof fn leaving_out_takes_one_member(
    fields: Seq<(Seq<char>, JsonView)>,
    key: Seq<char>,
    other: Seq<char>,
)
    ensures
        field(without_field(fields, key), key) is None,
        other != key ==> field(without_field(fields, key), other) == field(fields, other),
{
    lemma_field_of_without(fields, key, key);
    lemma_field_of_without(fields, key, other);
}

/// A member set where it is absent never replaces one.
pub proof fn filling_in_replaces_nothing(
    fields: Seq<(Seq<char>, JsonView)>,
    key: Seq<char>,
    value: JsonView,
    other: Seq<char>,
)
    ensures
        field(with_absent(fields, key, value), key) == if field(fields, key) is Some {
            field(fields, key)
        } else {
            Some(value)
        },
        other != key ==> field(with_absent(fields, key, value), other) == field(fields, other),
{
    lemma_field_of_with(fields, key, value, key);
    lemma_field_of_with(fields, key, value, other);
}

/// Members inserted after others win: what is under a key is the last inserted there, and
/// what none was inserted under stays.
pub proof fn inserted_members_win(
    base: Seq<(Seq<char>, JsonView)>,
    fields: Seq<(Seq<char>, JsonView)>,
    key: Seq<char>,
    i: int,
)
    requires
        -1 <= i < fields.len(),
        i >= 0 ==> fields[i].0 == key,
        forall|k: int| i < k < fields.len() ==> (#[trigger] fields[k]).0 != key,
    ensures
        field(extended(base, fields), key) == if i >= 0 {
            Some(fields[i].1)
        } else {
            field(base, key)
        },
    decreases fields.len(),
{
    if fields.len() > 0 {
        let rest = fields.drop_last();
        let last = fields.last();
        lemma_field_of_with(extended(base, rest), last.0, last.1, key);
        assert(last == fields[fields.len() - 1]);
        if i < fields.len() - 1 {
            assert(last.0 != key);
            assert forall|k: int| i < k < rest.len() implies (#[trigger] rest[k]).0 != key by {
                assert(rest[k] == fields[k]);
            }
            inserted_members_win(base, rest, key, i);
        }
    }
}

/// Plain values are the same exactly where they are equal, and values of two kinds never
/// are.
pub proof fn plain_values_are_the_same_where_equal(a: JsonView, b: JsonView)
    requires
        a is Null || a is Bool || a is Str || (a is Number && a->Number_0 is Int),
    ensures
        same(a, b) <==> a == b,
{
    if a is Str && b is Str {
        assert(a->Str_0 == b->Str_0 ==> a == b);
    }
}

/// Lists are the same exactly where they are as long and each item is the same as the
/// other's.
pub proof fn lists_are_the_same_item_by_item(a: Seq<JsonView>, b: Seq<JsonView>)
    ensures
        same(JsonView::Array(a), JsonView::Array(b)) <==> a.len() == b.len() && forall|i: int|
            0 <= i < a.len() ==> same(#[trigger] a[i], b[i]),
{
}

/// Objects that are the same hold the same under every key, in whatever order.
pub proof fn objects_are_the_same_key_by_key(
    a: Seq<(Seq<char>, JsonView)>,
    b: Seq<(Seq<char>, JsonView)>,
    key: Seq<char>,
)
    requires
        same(JsonView::Object(a), JsonView::Object(b)),
        field(a, key) is Some,
    ensures
        a.len() == b.len(),
        field(b, key) is Some,
        same(field(a, key)->0, field(b, key)->0),
{
    let i = lemma_field_at_some(a, key);
    assert(a[i].0 == key);
}

proof fn lemma_field_at_some(fields: Seq<(Seq<char>, JsonView)>, key: Seq<char>) -> (i: int)
    requires
        field(fields, key) is Some,
    ensures
        0 <= i < fields.len(),
        fields[i].0 == key,
        field(fields, key) == Some(fields[i].1),
    decreases fields.len(),
{
    if fields[0].0 == key {
        0
    } else {
        let i = lemma_field_at_some(fields.skip(1), key);
        i + 1
    }
}

/// A path of one key leads to the member under it, one of none to the value itself, and
/// one path after another to where the second leads from where the first did.
pub proof fn paths_lead_key_by_key(
    value: JsonView,
    key: Seq<char>,
    first: Seq<Seq<char>>,
    second: Seq<Seq<char>>,
)
    ensures
        at_path(value, Seq::empty()) == Some(value),
        at_path(value, seq![key]) == member(value, key),
        at_path(value, first + second) == match at_path(value, first) {
            Some(inner) => at_path(inner, second),
            None => None,
        },
    decreases first.len(),
{
    reveal_with_fuel(at_path, 2);
    assert(seq![key].skip(1) =~= Seq::<Seq<char>>::empty());
    if first.len() == 0 {
        assert(first + second =~= second);
    } else {
        assert((first + second).skip(1) =~= first.skip(1) + second);
        assert((first + second)[0] == first[0]);
        if let Some(inner) = member(value, first[0]) {
            paths_lead_key_by_key(inner, key, first.skip(1), second);
        }
    }
}

/// What is put at a path is found there, where something was, and every member the path
/// does not start at is as it was; a path that leads nowhere changes nothing.
pub proof fn putting_at_a_path_is_found_there(
    value: JsonView,
    steps: Seq<Seq<char>>,
    new: JsonView,
    other: Seq<char>,
)
    ensures
        at_path(value, steps) is Some ==> at_path(with_path(value, steps, new), steps) == Some(new),
        at_path(value, steps) is None ==> with_path(value, steps, new) == value,
        steps.len() > 0 && other != steps[0] ==> member(with_path(value, steps, new), other)
            == member(value, other),
    decreases steps.len(),
{
    if steps.len() > 0 {
        if let JsonView::Object(fields) = value {
            if let Some(inner) = field(fields, steps[0]) {
                let deep = with_path(inner, steps.skip(1), new);
                putting_at_a_path_is_found_there(inner, steps.skip(1), new, other);
                lemma_field_of_with(fields, steps[0], deep, steps[0]);
                lemma_field_of_with(fields, steps[0], deep, other);
                if at_path(value, steps) is None {
                    lemma_set_same(fields, steps[0]);
                }
            }
        }
    }
}

proof fn lemma_set_same(fields: Seq<(Seq<char>, JsonView)>, key: Seq<char>)
    requires
        field(fields, key) is Some,
    ensures
        with_field(fields, key, field(fields, key)->0) == fields,
    decreases fields.len(),
{
    let rest = fields.skip(1);
    assert(fields =~= seq![fields[0]] + rest);
    if fields[0].0 != key {
        lemma_set_same(rest, key);
    }
}

/// A test of one field asks what it says of the value at its path: that it is there and
/// the same, there and not null, or there and not empty, and the reverse where it asks
/// the reverse.
pub proof fn field_tests_ask_what_they_say(
    path: Seq<Seq<char>>,
    value: JsonView,
    record: JsonView,
    wanted: bool,
)
    ensures
        satisfies(PredicateView::Equals { field: path, value }, record) <==> at_path(record, path)
            is Some && same(at_path(record, path)->0, value),
        satisfies(PredicateView::Present { field: path, present: true }, record) <==> at_path(
            record,
            path,
        ) is Some && at_path(record, path) != Some(JsonView::Null),
        satisfies(PredicateView::NonEmpty { field: path, non_empty: true }, record) <==> match at_path(
            record,
            path,
        ) {
            None => false,
            Some(JsonView::Null) => false,
            Some(JsonView::Str(text)) => text.len() > 0,
            Some(JsonView::Array(items)) => items.len() > 0,
            Some(JsonView::Object(fields)) => fields.len() > 0,
            Some(_) => true,
        },
        satisfies(PredicateView::Present { field: path, present: false }, record) <==> !satisfies(
            PredicateView::Present { field: path, present: true },
            record,
        ),
        satisfies(PredicateView::NonEmpty { field: path, non_empty: false }, record) <==> !satisfies(
            PredicateView::NonEmpty { field: path, non_empty: true },
            record,
        ),
{
}

/// `all` asks each, `any` asks one, `not` the reverse, and no predicate at all admits
/// every record.
pub proof fn predicates_combine(
    each: Seq<PredicateView>,
    inner: PredicateView,
    record: JsonView,
    i: int,
)
    requires
        0 <= i < each.len(),
    ensures
        satisfies(PredicateView::All(each), record) ==> satisfies(each[i], record),
        satisfies(each[i], record) ==> satisfies(PredicateView::Any(each), record),
        !satisfies(PredicateView::All(each), record) <==> exists|k: int|
            0 <= k < each.len() && !satisfies(#[trigger] each[k], record),
        !satisfies(PredicateView::Any(each), record) <==> forall|k: int|
            0 <= k < each.len() ==> !satisfies(#[trigger] each[k], record),
        satisfies(PredicateView::Not(Box::new(inner)), record) == !satisfies(inner, record),
        satisfies(PredicateView::All(Seq::empty()), record),
        !satisfies(PredicateView::Any(Seq::empty()), record),
        admits(None, record),
        admits(Some(inner), record) == satisfies(inner, record),
{
    let all = PredicateView::All(each);
    let any = PredicateView::Any(each);
    let one = each[i];
    if satisfies(all, record) {
        assert(satisfies(all->All_0[i], record));
    }
    if satisfies(one, record) {
        assert(satisfies(any->Any_0[i], record));
        assert(satisfies(any, record));
    }
    assert forall|k: int| 0 <= k < each.len() && satisfies(#[trigger] each[k], record) implies satisfies(
        any,
        record,
    ) by {
        assert(satisfies(any->Any_0[k], record));
    }
    if satisfies(any, record) {
        let k = choose|k: int| 0 <= k < any->Any_0.len() && satisfies(#[trigger] any->Any_0[k], record);
        assert(satisfies(each[k], record));
    }
}

} // verus!
