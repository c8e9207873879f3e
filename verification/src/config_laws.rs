//! What holds of configurations, of what is raised under them, and of the words they are
//! told in.

use crate::ask::Lifetime;
use crate::author::{op_words, with_word};
use crate::bind::{
    are_queues_of, bound_grants, bound_reason, configured_queue, granted_each, last_spec,
    spec_under,
};
use crate::codec::{ServeOptions, with_absent};
use crate::config::{ConfiguredAuthor, QueueConfig};
use crate::correlation::ABOUT;
use crate::fold::lemma_field_of_with;
use crate::json::{Json, JsonView, member};
use crate::json_laws::filling_in_replaces_nothing;
use crate::layout::{Grants, LayoutAuthor, grants_among, once_each};
use crate::policy::{PolicyView, QueueSpec, QueueSpecView, is_event_policy};
use crate::spool::{Look, LookStep, look_step};
use crate::subscription::Subscription;
use crate::table::lookup;
use crate::text::{
    holds_part, is_blank, is_white_space, joined, leading, lemma_leading_bound,
    lemma_trailing_bound, occurs_at, replaced, starts, texts, trailing, trimmed,
};
use crate::validate::{PassCache, PassKey, PassRecord};
use vstd::prelude::*;

verus! {

/// A queue of a bus is what its configuration sets, key by key, over what the layout
/// declares: a key set is the configuration's, one left out the layout's.
pub proof fn configured_keys_override_declared_ones(
    queues: Seq<(Seq<char>, QueueSpec)>,
    base: Seq<QueueSpecView>,
    configured: Seq<(Seq<char>, QueueConfig)>,
    name: Seq<char>,
    declared: QueueSpecView,
    keys: QueueConfig,
)
    requires
        are_queues_of(queues, base, configured),
        last_spec(base, name) == Some(declared),
        lookup(configured, name) == Some(keys),
    ensures
        ({
            let bound = spec_under(queues, name)->0;
            &&& spec_under(queues, name) is Some
            &&& keys.answers is Some ==> bound.answers == Some(keys.answers->0@)
            &&& keys.answers is None ==> bound.answers == declared.answers
            &&& keys.schema is Some ==> bound.schema == Some(keys.schema->0@)
            &&& keys.schema is None ==> bound.schema == declared.schema
            &&& keys.claims is Some ==> bound.claims == Some(keys.claims->0@)
            &&& keys.claims is None ==> bound.claims == declared.claims
            &&& keys.numbered is Some ==> bound.numbered == keys.numbered->0
            &&& keys.numbered is None ==> bound.numbered == declared.numbered
            &&& keys.policy.hold_pending is Some ==> bound.policy.hold_pending
                == keys.policy.hold_pending->0
            &&& keys.policy.hold_pending is None ==> bound.policy.hold_pending
                == declared.policy.hold_pending
            &&& keys.policy.blocking_first is Some ==> bound.policy.blocking_first
                == keys.policy.blocking_first->0
            &&& keys.policy.blocking_first is None ==> bound.policy.blocking_first
                == declared.policy.blocking_first
            &&& keys.policy.supersede_on is Some ==> bound.policy.supersede_on == Some(
                keys.policy.supersede_on->0@,
            )
            &&& keys.policy.supersede_on is None ==> bound.policy.supersede_on
                == declared.policy.supersede_on
            &&& keys.policy.projection is Some ==> bound.policy.projection == Some(
                keys.policy.projection->0@,
            )
            &&& keys.policy.projection is None ==> bound.policy.projection
                == declared.policy.projection
        }),
{
    assert(spec_under(queues, name) == configured_queue(
        last_spec(base, name),
        lookup(configured, name),
        name,
    ));
}

/// A queue only a configuration declares holds nothing pending, puts no record first,
/// supersedes nothing and keeps no projection but where the configuration says so.
pub proof fn added_queues_are_plain_but_for_their_keys(
    queues: Seq<(Seq<char>, QueueSpec)>,
    base: Seq<QueueSpecView>,
    configured: Seq<(Seq<char>, QueueConfig)>,
    name: Seq<char>,
    keys: QueueConfig,
)
    requires
        are_queues_of(queues, base, configured),
        last_spec(base, name) is None,
        lookup(configured, name) == Some(keys),
    ensures
        ({
            let bound = spec_under(queues, name)->0;
            &&& spec_under(queues, name) is Some
            &&& bound.name == name
            &&& keys.answers is None ==> bound.answers is None
            &&& keys.numbered is None ==> !bound.numbered
            &&& keys.policy.hold_pending is None ==> !bound.policy.hold_pending
            &&& keys.policy.blocking_first is None ==> !bound.policy.blocking_first
            &&& keys.policy.supersede_on is None ==> bound.policy.supersede_on is None
            &&& keys.policy.projection is None ==> bound.policy.projection is None
        }),
{
    assert(spec_under(queues, name) == configured_queue(
        last_spec(base, name),
        lookup(configured, name),
        name,
    ));
}

/// A queue no configuration mentions is the layout's, and a queue neither declares is none.
pub proof fn unmentioned_queues_are_the_layouts(
    queues: Seq<(Seq<char>, QueueSpec)>,
    base: Seq<QueueSpecView>,
    configured: Seq<(Seq<char>, QueueConfig)>,
    name: Seq<char>,
)
    requires
        are_queues_of(queues, base, configured),
        lookup(configured, name) is None,
    ensures
        spec_under(queues, name) == last_spec(base, name),
{
}

/// What keeps events is what holds records, puts some first, supersedes some or keeps a
/// projection, and nothing else.
pub proof fn events_are_kept_where_a_policy_needs_them(policy: PolicyView)
    ensures
        is_event_policy(policy) <==> policy.hold_pending || policy.blocking_first
            || policy.supersede_on is Some || policy.projection is Some,
{
}

/// Words given once each are the words given, none twice.
pub proof fn grants_are_the_words_given(words: Seq<Seq<char>>, word: Seq<char>, i: int, j: int)
    ensures
        once_each(words).contains(word) <==> words.contains(word),
        granted_each(words).contains(word) <==> words.contains(word),
        0 <= i < j < granted_each(words).len() ==> granted_each(words)[i] != granted_each(
            words,
        )[j],
    decreases words.len(),
{
    if words.len() > 0 {
        let rest = words.drop_last();
        let last = words.last();
        grants_are_the_words_given(rest, word, i, j);
        grants_are_the_words_given(rest, last, i, j);
        lemma_with_word(once_each(rest), last, word);
        lemma_with_word(granted_each(rest), last, word);
        assert(words.contains(word) <==> rest.contains(word) || word == last) by {
            if words.contains(word) {
                let k = choose|k: int| 0 <= k < words.len() && words[k] == word;
                if k < rest.len() {
                    assert(rest[k] == word);
                }
            }
            if rest.contains(word) {
                let k = choose|k: int| 0 <= k < rest.len() && rest[k] == word;
                assert(words[k] == word);
            }
            assert(words[words.len() - 1] == last);
        }
        if 0 <= i < j < granted_each(words).len() {
            let before = granted_each(rest);
            if j < before.len() {
                assert(granted_each(words)[i] == before[i]);
            } else if granted_each(words)[i] == last {
                assert(before[i] == last);
                assert(before.contains(last));
            }
        }
    } else {
        assert(!words.contains(word));
    }
}

proof fn lemma_with_word(words: Seq<Seq<char>>, last: Seq<char>, word: Seq<char>)
    ensures
        with_word(words, last).contains(word) <==> words.contains(word) || word == last,
{
    let now = words.push(last);
    assert(now[words.len() as int] == last);
    if words.contains(word) {
        let k = choose|k: int| 0 <= k < words.len() && words[k] == word;
        assert(now[k] == word);
    }
    if now.contains(word) && word != last {
        let k = choose|k: int| 0 <= k < now.len() && now[k] == word;
        assert(words[k] == word);
    }
}

/// An author a layout grants every operation may issue each, one it grants some those
/// alone, and one it does not declare none.
pub proof fn layouts_grant_what_they_declare(
    operations: Seq<Seq<char>>,
    authors: Seq<(Seq<char>, LayoutAuthor)>,
    author: Seq<char>,
    word: Seq<char>,
)
    ensures
        lookup(authors, author) is None ==> grants_among(operations, authors, author) is None,
        lookup(authors, author) is Some ==> {
            let granted = grants_among(operations, authors, author);
            &&& granted is Some
            &&& match lookup(authors, author)->0.grants {
                Grants::EveryOp => granted->0.contains(word) <==> operations.contains(word),
                Grants::Only(capabilities) => granted->0.contains(word) <==> op_words(
                    capabilities@,
                ).contains(word),
            }
        },
{
    grants_are_the_words_given(operations, word, 0, 0);
    if let Some(declared) = lookup(authors, author) {
        if let Grants::Only(capabilities) = declared.grants {
            grants_are_the_words_given(op_words(capabilities@), word, 0, 0);
        }
    }
}

/// An author is granted what its configuration lists, where it has one, and what the layout
/// grants it where it has none.
pub proof fn authors_are_granted_what_is_listed(
    granted: Option<Seq<Seq<char>>>,
    configured: Option<ConfiguredAuthor>,
    word: Seq<char>,
)
    ensures
        configured is None ==> bound_grants(granted, configured) == granted,
        configured is Some ==> bound_grants(granted, configured) is Some && (bound_grants(
            granted,
            configured,
        )->0.contains(word) <==> texts(configured->0.config.capabilities@).contains(word)),
{
    if let Some(configured) = configured {
        grants_are_the_words_given(texts(configured.config.capabilities@), word, 0, 0);
    }
}

/// A refused operation is refused for what the configuration says of it, or for being
/// narrowed away, and otherwise for what the layout said.
pub proof fn refusals_give_the_nearest_reason(
    granted: Option<Seq<Seq<char>>>,
    reason: Option<Seq<char>>,
    configured: Option<ConfiguredAuthor>,
    op: Seq<char>,
)
    ensures
        configured is None ==> bound_reason(granted, reason, configured, op) == reason,
        configured is Some && lookup(configured->0.config.refusals@, op) is Some ==> bound_reason(
            granted,
            reason,
            configured,
            op,
        ) == Some(lookup(configured->0.config.refusals@, op)->0@),
        configured is Some && lookup(configured->0.config.refusals@, op) is None && !(granted
            is Some && granted->0.contains(op)) ==> bound_reason(granted, reason, configured, op)
            == reason,
{
}

/// A durable listener's records name it as their asker, whatever they say themselves, and a
/// session's are as they are.
pub proof fn listeners_raise_under_their_own_name(
    listener: &Subscription,
    record: &Json,
    r: Json,
    key: Seq<char>,
)
    requires
        call_ensures(Subscription::raised, (listener, record), r),
    ensures
        listener.lives() is Session ==> r@ == record@,
        listener.lives() is Durable && record@ is Object ==> member(r@, "asker"@) == Some(
            JsonView::Str(listener.lives()->Durable_0@),
        ),
        record@ is Object && key != "asker"@ ==> member(r@, key) == member(record@, key),
{
    if let Lifetime::Durable(asker) = listener.lives() {
        if let JsonView::Object(fields) = record@ {
            lemma_field_of_with(fields, "asker"@, JsonView::Str(asker@), "asker"@);
            lemma_field_of_with(fields, "asker"@, JsonView::Str(asker@), key);
        }
    }
}

/// A session's records name its asker and what it is about where they name neither, and
/// keep what they name.
pub proof fn sessions_fill_in_their_asker(
    options: &ServeOptions,
    record: &Json,
    r: Json,
    key: Seq<char>,
)
    requires
        call_ensures(ServeOptions::raised, (options, record), r),
        record@ is Object,
    ensures
        member(record@, key) is Some ==> member(r@, key) == member(record@, key),
        options.asker is Some && member(record@, "asker"@) is None ==> member(r@, "asker"@)
            == Some(JsonView::Str(options.asker->0@)),
        options.about is Some && member(record@, "about"@) is None ==> member(r@, "about"@)
            == Some(JsonView::Str(options.about->0@)),
        key != "asker"@ && key != "about"@ ==> member(r@, key) == member(record@, key),
{
    reveal_strlit("asker");
    reveal_strlit("about");
    assert("asker"@[1] != "about"@[1]);
    assert(ABOUT@ == "about"@);
    let fields = record@->Object_0;
    let first = match options.asker {
        Some(asker) => with_absent(fields, "asker"@, JsonView::Str(asker@)),
        None => fields,
    };
    if let Some(asker) = options.asker {
        filling_in_replaces_nothing(fields, "asker"@, JsonView::Str(asker@), key);
        filling_in_replaces_nothing(fields, "asker"@, JsonView::Str(asker@), "about"@);
    }
    if let Some(about) = options.about {
        filling_in_replaces_nothing(first, "about"@, JsonView::Str(about@), key);
        filling_in_replaces_nothing(first, "about"@, JsonView::Str(about@), "asker"@);
    }
}

/// A pass is remembered only of the same content, under the same bar, fingerprint and
/// command.
pub proof fn passes_are_remembered_of_their_own_key(
    record: &Option<PassRecord>,
    key: &PassKey,
    r: bool,
)
    requires
        call_ensures(PassCache::holds_pass, (record, key), r),
    ensures
        record is None ==> !r,
        r ==> record->0.content@ == key.content@ && record->0.bar@ == key.bar@
            && record->0.fingerprint@ == key.fingerprint@ && texts(record->0.command@) == texts(
            key.command@,
        ),
{
}

/// A sender takes its message back only while nothing has taken it: where the receiver
/// closed, or once its wait is past; a message taken by a receiver that is bound is waited
/// for.
pub proof fn senders_take_back_what_nothing_took(look: Look, r: LookStep)
    requires
        call_ensures(look_step, (look,), r),
    ensures
        look.offered && look.closed ==> r == LookStep::WithdrawClosed,
        look.offered && !look.closed && look.elapsed ==> r == LookStep::WithdrawElapsed,
        look.offered && !look.closed && !look.elapsed ==> r == LookStep::Sleep,
        !look.offered ==> r != LookStep::WithdrawClosed && r != LookStep::WithdrawElapsed,
        !look.offered && look.taken && look.bound ==> r == LookStep::Sleep,
        !look.offered && !look.bound ==> r == LookStep::LastLook,
{
}

/// Text that holds no part to be replaced is itself, and a part alone is what replaces it.
pub proof fn replacing_replaces_the_part_alone(text: Seq<char>, part: Seq<char>, with: Seq<char>)
    requires
        part.len() > 0,
    ensures
        !holds_part(text, part) ==> replaced(text, part, with) == text,
        replaced(part, part, with) == with,
        replaced(part + text, part, with) == with + replaced(text, part, with),
    decreases text.len(),
{
    assert(part.subrange(0, part.len() as int) =~= part);
    assert(starts(part, part));
    assert(part.skip(part.len() as int) =~= Seq::<char>::empty());
    assert(replaced(Seq::<char>::empty(), part, with) =~= Seq::<char>::empty());
    assert(with + Seq::<char>::empty() =~= with);
    let both = part + text;
    assert(both.subrange(0, part.len() as int) =~= part);
    assert(starts(both, part));
    assert(both.skip(part.len() as int) =~= text);
    if !holds_part(text, part) && text.len() > 0 {
        let rest = text.skip(1);
        if starts(text, part) {
            assert(occurs_at(text, part, 0));
        }
        if holds_part(rest, part) {
            let at = choose|at: int| occurs_at(rest, part, at);
            assert(text.subrange(at + 1, at + 1 + part.len()) =~= rest.subrange(
                at,
                at + part.len(),
            ));
            assert(occurs_at(text, part, at + 1));
        }
        replacing_replaces_the_part_alone(rest, part, with);
        assert(seq![text[0]] + rest =~= text);
    }
}

/// Trimmed text has no white space at either end, and is the text but for that.
pub proof fn trimming_takes_white_space_at_the_ends(text: Seq<char>)
    ensures
        ({
            let out = trimmed(text);
            &&& out.len() > 0 ==> !is_white_space(out[0]) && !is_white_space(out.last())
            &&& out.len() == 0 <==> is_blank(text)
            &&& exists|at: int|
                0 <= at && at + out.len() <= text.len() && out == #[trigger] text.subrange(
                    at,
                    at + out.len(),
                ) && is_blank(text.take(at)) && is_blank(text.skip(at + out.len()))
        }),
{
    let a = leading(text) as int;
    lemma_leading_bound(text);
    lemma_leading_run(text);
    let rest = text.skip(a);
    let b = trailing(rest) as int;
    lemma_trailing_bound(rest);
    lemma_trailing_run(rest);
    let out = trimmed(text);
    assert(out == rest.take(rest.len() - b));
    assert(text.subrange(a, a + out.len()) =~= out);
    assert(text.skip(a + out.len()) =~= rest.skip(rest.len() - b));
    if out.len() > 0 {
        assert(out[0] == rest[0]);
        assert(rest[0] == text[a]);
    } else {
        assert(rest.skip(rest.len() - b) =~= rest);
        assert forall|i: int| 0 <= i < text.len() implies is_white_space(#[trigger] text[i]) by {
            if i < a {
                assert(text.take(a)[i] == text[i]);
            } else {
                assert(rest[i - a] == text[i]);
            }
        }
    }
    if is_blank(text) && out.len() > 0 {
        assert(is_white_space(text[a]));
    }
}

proof fn lemma_leading_run(text: Seq<char>)
    ensures
        leading(text) <= text.len(),
        is_blank(text.take(leading(text) as int)),
        leading(text) < text.len() ==> !is_white_space(text[leading(text) as int]),
    decreases text.len(),
{
    if text.len() > 0 && is_white_space(text[0]) {
        let rest = text.skip(1);
        lemma_leading_run(rest);
        let n = leading(rest) as int;
        let head = text.take(n + 1);
        assert forall|i: int| 0 <= i < head.len() implies is_white_space(#[trigger] head[i]) by {
            if i > 0 {
                assert(rest.take(n)[i - 1] == head[i]);
            }
        }
    }
}

proof fn lemma_trailing_run(text: Seq<char>)
    ensures
        trailing(text) <= text.len(),
        is_blank(text.skip(text.len() - trailing(text))),
        trailing(text) < text.len() ==> !is_white_space(
            text.take(text.len() - trailing(text)).last(),
        ),
    decreases text.len(),
{
    if text.len() > 0 && is_white_space(text.last()) {
        let rest = text.drop_last();
        lemma_trailing_run(rest);
        let n = trailing(rest) as int;
        let tail = text.skip(text.len() - n - 1);
        let less = rest.skip(rest.len() - n);
        assert forall|i: int| 0 <= i < tail.len() implies is_white_space(#[trigger] tail[i]) by {
            if i < less.len() {
                assert(less[i] == tail[i]);
            } else {
                assert(tail[i] == text.last());
            }
        }
        assert(text.take(text.len() - n - 1) =~= rest.take(rest.len() - n));
    } else {
        assert(text.take(text.len() as int) =~= text);
    }
}

/// Texts are joined in their order, with the separator between each two.
pub proof fn joining_puts_the_separator_between(
    parts: Seq<Seq<char>>,
    sep: Seq<char>,
    last: Seq<char>,
)
    ensures
        joined(Seq::empty(), sep) == Seq::<char>::empty(),
        joined(seq![last], sep) == last,
        parts.len() > 0 ==> joined(parts.push(last), sep) == joined(parts, sep) + sep + last,
{
    assert(parts.push(last).drop_last() =~= parts);
    assert(parts.push(last).last() == last);
}

} // verus!
