//! What holds of the events a stream carries, and of what validators say of a message.

use crate::bounds::{
    MAX_PAYLOAD_TEXT_BYTES, TRUNCATED_KEY, any_past_bound, bound_payload, bounded_value,
    bounded_values, head_is_within, head_within, is_past_bound, tail_is_within, tail_within,
};
use crate::bus::Gated;
use crate::emit::{Emitted, Emitter, EmitterView, emitted_as, is_stamped};
use crate::envelope::{ArtifactRef, Envelope, envelope_json};
use crate::event_log::extended;
use crate::filter::takes;
use crate::fold::lemma_field_of_with;
use crate::json::{Json, JsonView, NumberView, field, fields_view, member};
use crate::json_laws::{first_member_is_held, setting_sets_one_member};
use crate::names::QueueName;
use crate::predicate::{at_path, satisfies};
use crate::redact::{
    MIN_SECRET_LEN, is_credential_name, redacted, redacted_fields, redacted_value, secrets_in,
    with_secret_of,
};
use crate::text::is_blank;
use crate::validate::{
    CommandValidator, Verdict, VerdictView, When, combined, first_refusal, first_unjudged,
    only_passes_pass, verdicts_view,
};
use vstd::prelude::*;
use vstd::utf8::encode_utf8;

verus! {

/// A text is cut no shorter than its bound asks: one more character of it would be past
/// the bound.
pub proof fn heads_and_tails_are_the_longest(text: Seq<char>, limit: nat)
    ensures
        ({
            let head = head_within(text, limit);
            head.len() < text.len() ==> encode_utf8(text.take(head.len() as int + 1)).len() > limit
        }),
        ({
            let tail = tail_within(text, limit);
            tail.len() < text.len() ==> encode_utf8(text.skip(text.len() - tail.len() - 1)).len()
                > limit
        }),
    decreases text.len(),
{
    head_is_within(text, limit);
    tail_is_within(text, limit);
    lemma_head_longest(text, limit);
    lemma_tail_longest(text, limit);
}

proof fn lemma_head_longest(text: Seq<char>, limit: nat)
    ensures
        head_within(text, limit).len() < text.len() ==> encode_utf8(
            text.take(head_within(text, limit).len() as int + 1),
        ).len() > limit,
    decreases text.len(),
{
    if text.len() > 0 && encode_utf8(text).len() > limit {
        let rest = text.drop_last();
        let head = head_within(rest, limit);
        lemma_head_longest(rest, limit);
        head_is_within(rest, limit);
        if head.len() < rest.len() {
            assert(rest.take(head.len() as int + 1) =~= text.take(head.len() as int + 1));
        } else {
            assert(text.take(head.len() as int + 1) =~= text);
        }
    }
}

proof fn lemma_tail_longest(text: Seq<char>, limit: nat)
    ensures
        tail_within(text, limit).len() < text.len() ==> encode_utf8(
            text.skip(text.len() - tail_within(text, limit).len() - 1),
        ).len() > limit,
    decreases text.len(),
{
    if text.len() > 0 && encode_utf8(text).len() > limit {
        let rest = text.skip(1);
        let tail = tail_within(rest, limit);
        lemma_tail_longest(rest, limit);
        tail_is_within(rest, limit);
        if tail.len() < rest.len() {
            assert(rest.skip(rest.len() - tail.len() - 1) =~= text.skip(
                text.len() - tail.len() - 1,
            ));
        } else {
            assert(text.skip(0) =~= text);
        }
    }
}

/// A payload keeps its members in their order: a text past the bound is cut to a head of
/// it, every other value is untouched, and the payload is marked exactly where one was cut.
pub proof fn payloads_are_cut_text_by_text(
    payload: &Vec<(String, Json)>,
    r: Vec<(String, Json)>,
    i: int,
)
    requires
        call_ensures(bound_payload, (payload,), r),
        0 <= i < payload@.len(),
        payload@[i].0@ != "truncated"@,
    ensures
        ({
            let value = payload@[i].1@;
            let cut = value is Str && encode_utf8(value->Str_0).len() > MAX_PAYLOAD_TEXT_BYTES;
            &&& payload@.len() <= r@.len()
            &&& r@[i].0@ == payload@[i].0@
            &&& !cut ==> r@[i].1@ == value
            &&& cut ==> r@[i].1@ is Str && encode_utf8(r@[i].1@->Str_0).len()
                <= MAX_PAYLOAD_TEXT_BYTES && r@[i].1@->Str_0.is_prefix_of(value->Str_0)
            &&& cut ==> field(fields_view(r@), "truncated"@) == Some(JsonView::Bool(true))
        }),
{
    let all = fields_view(payload@);
    let values = bounded_values(all);
    let out = fields_view(r@);
    assert(all[i] == (payload@[i].0@, payload@[i].1@));
    assert(values[i] == (all[i].0, bounded_value(all[i].1)));
    assert(TRUNCATED_KEY@ == "truncated"@);
    if let JsonView::Str(text) = all[i].1 {
        head_is_within(text, MAX_PAYLOAD_TEXT_BYTES as nat);
        if encode_utf8(text).len() > MAX_PAYLOAD_TEXT_BYTES {
            assert(is_past_bound(all[i].1));
            assert(any_past_bound(all));
            lemma_field_of_with(values, "truncated"@, JsonView::Bool(true), "truncated"@);
        }
    }
    setting_sets_one_member(values, "truncated"@, JsonView::Bool(true), "truncated"@, i);
    assert(out[i] == (r@[i].0@, r@[i].1@));
}

/// Redacting keeps the shape of a value and reaches every text in it: each member and each
/// item is redacted, and what holds no text is itself.
pub proof fn redacting_reaches_every_text(
    value: JsonView,
    secrets: Seq<Seq<char>>,
    key: Seq<char>,
    i: int,
)
    ensures
        value is Str ==> redacted_value(value, secrets) == JsonView::Str(
            redacted(value->Str_0, secrets),
        ),
        value is Null || value is Bool || value is Number ==> redacted_value(value, secrets)
            == value,
        value is Array ==> redacted_value(value, secrets) is Array && redacted_value(
            value,
            secrets,
        )->Array_0.len() == value->Array_0.len() && (0 <= i < value->Array_0.len()
            ==> redacted_value(value, secrets)->Array_0[i] == redacted_value(
            value->Array_0[i],
            secrets,
        )),
        value is Object ==> redacted_value(value, secrets) is Object && match member(value, key) {
            Some(inner) => member(redacted_value(value, secrets), key) == Some(
                redacted_value(inner, secrets),
            ),
            None => member(redacted_value(value, secrets), key) is None,
        },
{
    if let JsonView::Object(fields) = value {
        let out = redacted_value(value, secrets)->Object_0;
        assert forall|k: int| 0 <= k < fields.len() implies #[trigger] out[k] == (
            fields[k].0,
            redacted_value(fields[k].1, secrets),
        ) by {}
        lemma_mapped_field(fields, out, secrets, key);
    }
}

proof fn lemma_mapped_field(
    fields: Seq<(Seq<char>, JsonView)>,
    out: Seq<(Seq<char>, JsonView)>,
    secrets: Seq<Seq<char>>,
    key: Seq<char>,
)
    requires
        out.len() == fields.len(),
        forall|k: int|
            0 <= k < fields.len() ==> #[trigger] out[k] == (
                fields[k].0,
                redacted_value(fields[k].1, secrets),
            ),
    ensures
        match field(fields, key) {
            Some(inner) => field(out, key) == Some(redacted_value(inner, secrets)),
            None => field(out, key) is None,
        },
    decreases fields.len(),
{
    if fields.len() > 0 {
        assert(out[0] == (fields[0].0, redacted_value(fields[0].1, secrets)));
        let rest = fields.skip(1);
        let more = out.skip(1);
        assert forall|k: int| 0 <= k < rest.len() implies #[trigger] more[k] == (
            rest[k].0,
            redacted_value(rest[k].1, secrets),
        ) by {
            assert(more[k] == out[k + 1]);
        }
        lemma_mapped_field(rest, more, secrets, key);
    }
}

/// A secret named is held from then on, and so is every one held before.
pub proof fn named_secrets_are_held(secrets: Seq<Seq<char>>, secret: Seq<char>, other: Seq<char>)
    requires
        secret.len() > 0,
    ensures
        with_secret_of(secrets, secret).contains(secret),
        with_secret_of(secrets, secret).contains(other) <==> secrets.contains(other) || other
            == secret,
{
    let now = secrets.push(secret);
    assert(now[secrets.len() as int] == secret);
    if secrets.contains(other) {
        let k = choose|k: int| 0 <= k < secrets.len() && secrets[k] == other;
        assert(now[k] == other);
    }
    if now.contains(other) && other != secret {
        let k = choose|k: int| 0 <= k < now.len() && now[k] == other;
        assert(secrets[k] == other);
    }
}

/// The value of every variable of an environment whose name says it is a credential is
/// held, where it is long enough.
pub proof fn credentials_of_an_environment_are_held(vars: Seq<(String, String)>, i: int)
    requires
        0 <= i < vars.len(),
        is_credential_name(vars[i].0@),
        encode_utf8(vars[i].1@).len() >= MIN_SECRET_LEN,
        vars[i].1@.len() > 0,
    ensures
        secrets_in(vars, vars.len() as int).contains(vars[i].1@),
{
    lemma_secret_stays(vars, i, vars.len() as int);
}

proof fn lemma_secret_stays(vars: Seq<(String, String)>, i: int, n: int)
    requires
        0 <= i < n <= vars.len(),
        is_credential_name(vars[i].0@),
        encode_utf8(vars[i].1@).len() >= MIN_SECRET_LEN,
        vars[i].1@.len() > 0,
    ensures
        secrets_in(vars, n).contains(vars[i].1@),
    decreases n,
{
    let before = secrets_in(vars, n - 1);
    let secret = vars[n - 1].1@;
    if i < n - 1 {
        lemma_secret_stays(vars, i, n - 1);
        if secret.len() > 0 {
            named_secrets_are_held(before, secret, vars[i].1@);
        }
    } else {
        named_secrets_are_held(before, secret, secret);
    }
}

/// What an emitter stamps is what it was given: its own stream, source, version and labels,
/// the event's kind, time and dimensions, and the payload member by member, redacted.
pub proof fn events_are_stamped_as_given(
    emitter: EmitterView,
    kind: Seq<char>,
    dimensions: Seq<(Seq<char>, JsonView)>,
    payload: Seq<(Seq<char>, JsonView)>,
    artifacts: Seq<ArtifactRef>,
    ts: Seq<char>,
    envelope: Envelope,
    i: int,
)
    requires
        is_stamped(emitter, kind, dimensions, payload, artifacts, ts, envelope),
        0 <= i < payload.len(),
        payload[i].0 != "truncated"@,
        match payload[i].1 {
            JsonView::Str(text) => encode_utf8(redacted(text, emitter.secrets)).len()
                <= MAX_PAYLOAD_TEXT_BYTES,
            _ => true,
        },
    ensures
        envelope.stream@ == emitter.stream,
        envelope.source.0@ == emitter.source,
        envelope.v == emitter.version,
        envelope.labels@ == emitter.labels,
        envelope.kind.0@ == kind,
        envelope.ts@ == ts,
        fields_view(envelope.dimensions@) == dimensions,
        envelope.artifacts@ == artifacts,
        i < envelope.payload@.len(),
        envelope.payload@[i].0@ == payload[i].0,
        envelope.payload@[i].1@ == redacted_value(payload[i].1, emitter.secrets),
{
    let clean = redacted_fields(payload, emitter.secrets);
    let values = bounded_values(clean);
    let out = fields_view(envelope.payload@);
    assert(clean[i] == (payload[i].0, redacted_value(payload[i].1, emitter.secrets)));
    assert(values[i] == (clean[i].0, bounded_value(clean[i].1)));
    if let JsonView::Str(text) = clean[i].1 {
        head_is_within(text, MAX_PAYLOAD_TEXT_BYTES as nat);
    }
    assert(TRUNCATED_KEY@ == "truncated"@);
    setting_sets_one_member(values, "truncated"@, JsonView::Bool(true), "truncated"@, i);
    assert(out[i] == (envelope.payload@[i].0@, envelope.payload@[i].1@));
}

/// An event is written where the emitter's filter takes it, numbered one past the last
/// number, and not where it does not; what is not written takes no number.
pub proof fn events_are_written_where_they_are_taken(
    before: Emitter,
    after: Emitter,
    kind: Seq<char>,
    dimensions: Seq<(Seq<char>, JsonView)>,
    payload: Seq<(Seq<char>, JsonView)>,
    artifacts: Seq<ArtifactRef>,
    ts: Seq<char>,
    held: u64,
    emitted: Emitted,
)
    requires
        emitted_as(before, after, kind, dimensions, payload, artifacts, ts, held, emitted),
        before.before_next(held) < u64::MAX,
    ensures
        ({
            let taken = takes(
                before@.includes,
                before@.exclude,
                before@.source,
                kind,
                extended(dimensions, before@.labels),
            );
            let last = match before.taken() {
                Some(n) => n,
                None => held,
            };
            &&& emitted.line is Some <==> taken
            &&& emitted.envelope.seq == last + 1
            &&& before.taken() is Some && taken ==> after.taken() == Some(emitted.envelope.seq)
            &&& before.taken() is Some && !taken ==> after.taken() == before.taken()
            &&& before.taken() is None ==> after.taken() is None
        }),
{
}

/// An envelope is written with each of its parts under its own key.
pub proof fn envelopes_are_written_key_by_key(envelope: Envelope)
    ensures
        ({
            let written = envelope_json(envelope);
            &&& member(written, "v"@) == Some(
                JsonView::Number(NumberView::Int(envelope.v as int)),
            )
            &&& member(written, "ts"@) == Some(JsonView::Str(envelope.ts@))
            &&& member(written, "stream"@) == Some(JsonView::Str(envelope.stream@))
            &&& member(written, "seq"@) == Some(
                JsonView::Number(NumberView::Int(envelope.seq as int)),
            )
            &&& member(written, "source"@) == Some(JsonView::Str(envelope.source.0@))
            &&& member(written, "kind"@) == Some(JsonView::Str(envelope.kind.0@))
        }),
{
    reveal_strlit("v");
    reveal_strlit("ts");
    reveal_strlit("stream");
    reveal_strlit("seq");
    reveal_strlit("source");
    reveal_strlit("kind");
    assert("v"@.len() == 1);
    assert("ts"@.len() == 2);
    assert("seq"@.len() == 3);
    assert("kind"@.len() == 4);
    assert("stream"@.len() == 6);
    assert("source"@.len() == 6);
    assert("stream"@[1] != "source"@[1]);
    let fields = envelope_json(envelope)->Object_0;
    assert(fields[0].0 == "v"@);
    assert(fields[1].0 == "ts"@);
    assert(fields[2].0 == "stream"@);
    assert(fields[3].0 == "seq"@);
    assert(fields[4].0 == "source"@);
    assert(fields[5].0 == "kind"@);
    first_member_is_held(fields, "v"@, 0);
    first_member_is_held(fields, "ts"@, 1);
    first_member_is_held(fields, "stream"@, 2);
    first_member_is_held(fields, "seq"@, 3);
    first_member_is_held(fields, "source"@, 4);
    first_member_is_held(fields, "kind"@, 5);
}

/// The first refusal decides several verdicts, whatever else could not be judged; where
/// none refuses, the first that could not be judged does.
pub proof fn the_first_refusal_decides(verdicts: &Vec<Verdict>, r: Verdict, i: int)
    requires
        call_ensures(combined, (verdicts,), r),
        0 <= i < verdicts@.len(),
    ensures
        verdicts@[i]@ is Refuse && (forall|k: int|
            0 <= k < i ==> !((#[trigger] verdicts@[k])@ is Refuse)) ==> r@ == verdicts@[i]@,
        verdicts@[i]@ is Unjudged && (forall|k: int|
            0 <= k < verdicts@.len() ==> !((#[trigger] verdicts@[k])@ is Refuse)) && (forall|k: int|
            0 <= k < i ==> !((#[trigger] verdicts@[k])@ is Unjudged)) ==> r@ == verdicts@[i]@,
        r@ is Pass ==> verdicts@[i]@ is Pass,
{
    let all = verdicts_view(verdicts@);
    assert forall|k: int| 0 <= k < all.len() implies #[trigger] all[k] == verdicts@[k]@ by {}
    only_passes_pass(all);
    if r@ is Pass {
        assert(all[i] is Pass);
    }
    if verdicts@[i]@ is Refuse && (forall|k: int|
        0 <= k < i ==> !((#[trigger] verdicts@[k])@ is Refuse)) {
        lemma_first_refusal_at(all, i);
    }
    if forall|k: int| 0 <= k < verdicts@.len() ==> !((#[trigger] verdicts@[k])@ is Refuse) {
        lemma_no_refusal(all);
        if verdicts@[i]@ is Unjudged && (forall|k: int|
            0 <= k < i ==> !((#[trigger] verdicts@[k])@ is Unjudged)) {
            lemma_first_unjudged_at(all, i);
        }
    }
}

proof fn lemma_no_refusal(verdicts: Seq<VerdictView>)
    requires
        forall|k: int| 0 <= k < verdicts.len() ==> !(#[trigger] verdicts[k] is Refuse),
    ensures
        first_refusal(verdicts) is None,
    decreases verdicts.len(),
{
    if verdicts.len() > 0 {
        let rest = verdicts.drop_last();
        assert forall|k: int| 0 <= k < rest.len() implies !(#[trigger] rest[k] is Refuse) by {
            assert(rest[k] == verdicts[k]);
        }
        lemma_no_refusal(rest);
        assert(verdicts.last() == verdicts[verdicts.len() - 1]);
    }
}

proof fn lemma_first_refusal_at(verdicts: Seq<VerdictView>, i: int)
    requires
        0 <= i < verdicts.len(),
        verdicts[i] is Refuse,
        forall|k: int| 0 <= k < i ==> !(#[trigger] verdicts[k] is Refuse),
    ensures
        first_refusal(verdicts) == Some(verdicts[i]->Refuse_0),
    decreases verdicts.len(),
{
    let rest = verdicts.drop_last();
    if i < rest.len() {
        assert forall|k: int| 0 <= k < i implies !(#[trigger] rest[k] is Refuse) by {
            assert(rest[k] == verdicts[k]);
        }
        assert(rest[i] == verdicts[i]);
        lemma_first_refusal_at(rest, i);
    } else {
        assert forall|k: int| 0 <= k < rest.len() implies !(#[trigger] rest[k] is Refuse) by {
            assert(rest[k] == verdicts[k]);
        }
        lemma_no_refusal(rest);
        assert(verdicts.last() == verdicts[i]);
    }
}

proof fn lemma_first_unjudged_at(verdicts: Seq<VerdictView>, i: int)
    requires
        0 <= i < verdicts.len(),
        verdicts[i] is Unjudged,
        forall|k: int| 0 <= k < i ==> !(#[trigger] verdicts[k] is Unjudged),
    ensures
        first_unjudged(verdicts) == Some(verdicts[i]->Unjudged_0),
    decreases verdicts.len(),
{
    let rest = verdicts.drop_last();
    if i < rest.len() {
        assert forall|k: int| 0 <= k < i implies !(#[trigger] rest[k] is Unjudged) by {
            assert(rest[k] == verdicts[k]);
        }
        assert(rest[i] == verdicts[i]);
        lemma_first_unjudged_at(rest, i);
    } else {
        lemma_no_unjudged(verdicts, i);
        assert(verdicts.last() == verdicts[i]);
        assert(rest =~= verdicts.take(i));
    }
}

proof fn lemma_no_unjudged(verdicts: Seq<VerdictView>, n: int)
    requires
        0 <= n <= verdicts.len(),
        forall|k: int| 0 <= k < n ==> !(#[trigger] verdicts[k] is Unjudged),
    ensures
        first_unjudged(verdicts.take(n)) is None,
    decreases n,
{
    if n > 0 {
        lemma_no_unjudged(verdicts, n - 1);
        assert(verdicts.take(n).drop_last() =~= verdicts.take(n - 1));
        assert(verdicts.take(n).last() == verdicts[n - 1]);
    }
}

/// A command passes a message by ending with 0, refuses it by ending with 1, for what it
/// said where it said anything, and judges nothing by any other end.
pub proof fn commands_judge_by_how_they_end(
    validator: &CommandValidator,
    code: Option<i32>,
    stderr: &str,
    r: Verdict,
)
    requires
        call_ensures(CommandValidator::verdict_of, (validator, code, stderr), r),
    ensures
        r@ is Pass <==> code == Some(0i32),
        r@ is Refuse <==> code == Some(1i32),
        r@ is Unjudged <==> code != Some(0i32) && code != Some(1i32),
        code == Some(1i32) && !is_blank(stderr@) ==> r@ == VerdictView::Refuse(stderr@),
{
}

/// A gate asks of every record offered to its queue, and of none offered to another; one
/// with a `when` of those alone that satisfy it, one of a member those that hold
/// something there.
pub proof fn gates_judge_their_own_queue(gate: &Gated, target: &QueueName, record: &Json, r: bool)
    requires
        call_ensures(Gated::judges, (gate, target, record), r),
    ensures
        gate.on@ != target@ ==> !r,
        gate.on@ == target@ && gate.when is None ==> r,
        gate.on@ == target@ && gate.when is Some ==> match gate.when->0 {
            When::Carries(path) => r == match at_path(record@, path@) {
                None => false,
                Some(JsonView::Null) => false,
                Some(JsonView::Str(text)) => text.len() > 0,
                Some(JsonView::Array(items)) => items.len() > 0,
                Some(JsonView::Object(fields)) => fields.len() > 0,
                Some(_) => true,
            },
            When::Matches(predicate) => r == satisfies(predicate@, record@),
        },
{
}

} // verus!
