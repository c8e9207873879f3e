//! What holds of questions, the replies bound to them and the waits between.

use crate::ask::{AskOptions, MessageSchema, Raised, asked_record, first_fresh, lines_on};
use crate::bind::Layout;
use crate::bus::{Bus, BusError};
use crate::codec::{address_view, asker_view};
use crate::correlation::{ABOUT, CORRELATION, Correlation, correlation_fault};
use crate::fold::{blocks, id_of, lemma_field_of_with};
use crate::fold_laws::lemma_field_of_without;
use crate::json::{Json, JsonView, field, member, settled, with_field};
use crate::names::QueueName;
use crate::plan::carried;
use crate::questions::{
    QuestionView, binding_of, first_reply, is_asked, lemma_asked_as, question_of, questions_in,
    record_of_line, replies_in, reply_of,
};
use crate::queue_reads::is_marked;
use crate::reply::{Settled, WaitStep, settles, stamped, stamped_each, wait_step};
use crate::transport::Transport;
use vstd::prelude::*;

verus! {

proof fn lemma_asked_keys()
    ensures
        CORRELATION@ == "correlation"@,
        ABOUT@ == "about"@,
        "blocking"@ != "asker"@,
        "blocking"@ != "about"@,
        "blocking"@ != "correlation"@,
        "asker"@ != "about"@,
        "asker"@ != "correlation"@,
        "about"@ != "correlation"@,
{
    reveal_strlit("blocking");
    reveal_strlit("asker");
    reveal_strlit("about");
    reveal_strlit("correlation");
    assert("asker"@[1] != "about"@[1]);
    assert("blocking"@.len() == 8);
    assert("asker"@.len() == 5);
    assert("about"@.len() == 5);
    assert("correlation"@.len() == 11);
}

/// A question is raised as its options ask: it blocks exactly where they say so, whatever
/// it says itself, it names the asker and what it is about where they do, it carries its
/// correlation, and is otherwise the question that was asked.
pub proof fn questions_are_raised_as_asked<'a, L: Layout, T: Transport>(
    bus: &Bus<'a, L>,
    transport: &T,
    queue: &QueueName,
    schema: &MessageSchema,
    question: &Json,
    options: &AskOptions,
    candidates: &Vec<Correlation>,
    r: Result<Option<Raised>, BusError>,
    key: Seq<char>,
)
    requires
        call_ensures(
            Bus::<'a, L>::raise::<T>,
            (bus, transport, queue, schema, question, options, candidates),
            r,
        ),
        r is Ok,
        r->Ok_0 is Some,
    ensures
        ({
            let raised = r->Ok_0->0;
            let offered = raised.offered@;
            &&& blocks(offered) == options.blocking
            &&& member(offered, "correlation"@) == Some(JsonView::Str(raised.correlation@))
            &&& options.asker is Some ==> member(offered, "asker"@) == Some(
                JsonView::Str(options.asker->0@),
            )
            &&& options.asker is None ==> member(offered, "asker"@) == member(question@, "asker"@)
            &&& options.about is Some ==> member(offered, "about"@) == Some(
                JsonView::Str(options.about->0@),
            )
            &&& options.about is None ==> member(offered, "about"@) == member(question@, "about"@)
            &&& key != "blocking"@ && key != "asker"@ && key != "about"@ && key != "correlation"@
                ==> member(offered, key) == member(question@, key)
        }),
{
    let raised = r->Ok_0->0;
    let fields = question@->Object_0;
    lemma_asked_keys();
    lemma_asked_member(
        fields,
        options.blocking,
        asker_view(options.asker),
        address_view(options.about),
        raised.correlation@,
        "blocking"@,
    );
    lemma_asked_member(
        fields,
        options.blocking,
        asker_view(options.asker),
        address_view(options.about),
        raised.correlation@,
        "asker"@,
    );
    lemma_asked_member(
        fields,
        options.blocking,
        asker_view(options.asker),
        address_view(options.about),
        raised.correlation@,
        "about"@,
    );
    lemma_asked_member(
        fields,
        options.blocking,
        asker_view(options.asker),
        address_view(options.about),
        raised.correlation@,
        "correlation"@,
    );
    lemma_asked_member(
        fields,
        options.blocking,
        asker_view(options.asker),
        address_view(options.about),
        raised.correlation@,
        key,
    );
}

proof fn lemma_asked_member(
    fields: Seq<(Seq<char>, JsonView)>,
    blocking: bool,
    asker: Option<Seq<char>>,
    about: Option<Seq<char>>,
    correlation: Seq<char>,
    key: Seq<char>,
)
    ensures
        field(asked_record(fields, blocking, asker, about, correlation), key) == if key
            == "correlation"@ {
            Some(JsonView::Str(correlation))
        } else if key == "about"@ && about is Some {
            Some(JsonView::Str(about->0))
        } else if key == "asker"@ && asker is Some {
            Some(JsonView::Str(asker->0))
        } else if key == "blocking"@ {
            Some(JsonView::Bool(blocking))
        } else {
            field(fields, key)
        },
{
    lemma_asked_keys();
    let flagged = with_field(fields, "blocking"@, JsonView::Bool(blocking));
    lemma_field_of_with(fields, "blocking"@, JsonView::Bool(blocking), key);
    let named = match asker {
        Some(asker) => {
            lemma_field_of_with(flagged, "asker"@, JsonView::Str(asker), key);
            with_field(flagged, "asker"@, JsonView::Str(asker))
        },
        None => flagged,
    };
    let aimed = match about {
        Some(about) => {
            lemma_field_of_with(named, ABOUT@, JsonView::Str(about), key);
            with_field(named, ABOUT@, JsonView::Str(about))
        },
        None => named,
    };
    lemma_field_of_with(aimed, CORRELATION@, JsonView::Str(correlation), key);
}

/// A question is raised under the first candidate no question on its queue carries, and
/// under none where each is carried already.
pub proof fn correlations_are_fresh<'a, L: Layout, T: Transport>(
    bus: &Bus<'a, L>,
    transport: &T,
    queue: &QueueName,
    schema: &MessageSchema,
    question: &Json,
    options: &AskOptions,
    candidates: &Vec<Correlation>,
    r: Result<Option<Raised>, BusError>,
    i: int,
)
    requires
        call_ensures(
            Bus::<'a, L>::raise::<T>,
            (bus, transport, queue, schema, question, options, candidates),
            r,
        ),
        r is Ok,
        0 <= i < candidates@.len(),
    ensures
        ({
            let asked = questions_in(lines_on(*transport, queue@));
            let carried = |c: Seq<char>|
                exists|k: int| 0 <= k < asked.len() && (#[trigger] asked[k]).correlation == c;
            &&& r->Ok_0 is None ==> carried(candidates@[i]@)
            &&& r->Ok_0 is Some ==> !carried(r->Ok_0->0.correlation@)
            &&& r->Ok_0 is Some && !carried(candidates@[i]@) && (forall|k: int|
                0 <= k < i ==> carried((#[trigger] candidates@[k])@)) ==> r->Ok_0->0.correlation@
                == candidates@[i]@
        }),
{
    let asked = questions_in(lines_on(*transport, queue@));
    lemma_first_fresh(candidates@, asked, 0);
    let carried = |c: Seq<char>|
        exists|k: int| 0 <= k < asked.len() && (#[trigger] asked[k]).correlation == c;
    if let Some(at) = first_fresh(candidates@, asked, 0) {
        if at < i {
            assert(!is_asked(asked, candidates@[at]@));
            assert(!carried(candidates@[at]@));
        }
        if i < at {
            assert(is_asked(asked, candidates@[i]@));
        }
    } else {
        assert(is_asked(asked, candidates@[i]@));
    }
}

proof fn lemma_first_fresh(candidates: Seq<Correlation>, questions: Seq<QuestionView>, from: int)
    requires
        0 <= from <= candidates.len(),
    ensures
        match first_fresh(candidates, questions, from) {
            Some(at) => from <= at < candidates.len() && !is_asked(questions, candidates[at]@)
                && forall|k: int|
                from <= k < at ==> is_asked(questions, (#[trigger] candidates[k])@),
            None => forall|k: int|
                from <= k < candidates.len() ==> is_asked(questions, (#[trigger] candidates[k])@),
        },
    decreases candidates.len() - from,
{
    if from < candidates.len() && is_asked(questions, candidates[from]@) {
        lemma_first_fresh(candidates, questions, from + 1);
    }
}

/// Every queued line with a correlation and an id asks its question, and nothing else asks
/// one: a question asked is one some line queued, with that line's id, and the first line
/// of a correlation is the one that asked.
pub proof fn questions_are_what_lines_queue(lines: Seq<(JsonView, int)>, i: int, text: Seq<char>)
    requires
        0 <= i < lines.len(),
        member(lines[i].0, "event"@) == Some(JsonView::Str("queued"@)),
        member(lines[i].0, "correlation"@) == Some(JsonView::Str(text)),
        correlation_fault(text) is None,
        id_of(lines[i].0) is Some,
        forall|k: int|
            0 <= k < i ==> member((#[trigger] lines[k]).0, "correlation"@) != Some(
                JsonView::Str(text),
            ),
    ensures
        exists|q: int|
            {
                &&& 0 <= q < questions_in(lines).len()
                &&& (#[trigger] questions_in(lines)[q]).correlation == text
                &&& Some(questions_in(lines)[q].id) == id_of(lines[i].0)
                &&& questions_in(lines)[q].position == lines[i].1
            },
    decreases lines.len(),
{
    let rest = lines.drop_last();
    let before = questions_in(rest);
    let now = questions_in(lines);
    assert(lines.last() == lines[lines.len() - 1]);
    if i < rest.len() {
        assert(rest[i] == lines[i]);
        assert forall|k: int| 0 <= k < i implies member(
            (#[trigger] rest[k]).0,
            "correlation"@,
        ) != Some(JsonView::Str(text)) by {
            assert(rest[k] == lines[k]);
        }
        questions_are_what_lines_queue(rest, i, text);
        let q = choose|q: int|
            {
                &&& 0 <= q < before.len()
                &&& (#[trigger] before[q]).correlation == text
                &&& Some(before[q].id) == id_of(rest[i].0)
                &&& before[q].position == rest[i].1
            };
        assert(now[q] == before[q]);
    } else {
        lemma_line_record(lines[i].0);
        lemma_unasked(rest, text);
        let question = question_of(lines[i].0, lines[i].1)->0;
        assert(question.correlation == text);
        assert(!is_asked(before, text));
        assert(now[before.len() as int] == question);
    }
}

proof fn lemma_line_record(line: JsonView)
    ensures
        member(record_of_line(line), CORRELATION@) == member(line, "correlation"@),
        CORRELATION@ == "correlation"@,
        id_of(record_of_line(line)) == id_of(line),
{
    lemma_asked_keys();
    reveal_strlit("event");
    reveal_strlit("correlation");
    reveal_strlit("id");
    assert("event"@.len() == 5);
    assert("correlation"@.len() == 11);
    assert("id"@.len() == 2);
    if let JsonView::Object(fields) = line {
        lemma_field_of_without(fields, "event"@, "correlation"@);
        lemma_field_of_without(fields, "event"@, "id"@);
    }
}

proof fn lemma_unasked(lines: Seq<(JsonView, int)>, text: Seq<char>)
    requires
        forall|k: int|
            0 <= k < lines.len() ==> member((#[trigger] lines[k]).0, "correlation"@) != Some(
                JsonView::Str(text),
            ),
    ensures
        !is_asked(questions_in(lines), text),
    decreases lines.len(),
{
    if lines.len() > 0 {
        let rest = lines.drop_last();
        assert forall|k: int| 0 <= k < rest.len() implies member(
            (#[trigger] rest[k]).0,
            "correlation"@,
        ) != Some(JsonView::Str(text)) by {
            assert(rest[k] == lines[k]);
        }
        lemma_unasked(rest, text);
        let before = questions_in(rest);
        let now = questions_in(lines);
        assert(lines.last() == lines[lines.len() - 1]);
        lemma_line_record(lines.last().0);
        if is_asked(now, text) {
            let q = choose|q: int| 0 <= q < now.len() && (#[trigger] now[q]).correlation == text;
            if q < before.len() {
                assert(before[q] == now[q]);
            }
        }
    }
}

/// What carries no correlation, no id, or was not queued asks nothing.
pub proof fn other_lines_ask_nothing(lines: Seq<(JsonView, int)>, line: (JsonView, int))
    requires
        ({
            ||| member(line.0, "event"@) != Some(JsonView::Str("queued"@))
            ||| id_of(line.0) is None
            ||| !(member(line.0, "correlation"@) is Some && member(line.0, "correlation"@)->0 is Str)
        }),
    ensures
        questions_in(lines.push(line)) == questions_in(lines),
{
    lemma_line_record(line.0);
    assert(lines.push(line).drop_last() =~= lines);
    assert(lines.push(line).last() == line);
}

/// A line of an answer queue that echoes a correlation replies to it, queued or plain, and
/// one of another event replies to nothing.
pub proof fn replies_are_what_lines_echo(
    lines: Seq<(JsonView, int)>,
    line: (JsonView, int),
    text: Seq<char>,
)
    requires
        member(line.0, "correlation"@) == Some(JsonView::Str(text)),
        correlation_fault(text) is None,
    ensures
        ({
            let event = member(line.0, "event"@);
            let told = event is Some && event->0 is Str && event != Some(
                JsonView::Str("queued"@),
            );
            let now = replies_in(lines.push(line));
            &&& told ==> now == replies_in(lines)
            &&& !told ==> now.len() == replies_in(lines).len() + 1 && now.last().0 == text
                && now.drop_last() == replies_in(lines)
        }),
{
    lemma_line_record(line.0);
    assert(lines.push(line).drop_last() =~= lines);
    assert(lines.push(line).last() == line);
    let before = replies_in(lines);
    if let Some(reply) = reply_of(line.0) {
        assert(before.push(reply).drop_last() =~= before);
    }
}

/// The first reply that echoes a question's correlation is its answer, whatever follows.
pub proof fn the_first_reply_answers(
    replies: Seq<(Seq<char>, JsonView)>,
    correlation: Seq<char>,
    i: int,
)
    requires
        0 <= i <= replies.len(),
        i < replies.len() ==> replies[i].0 == correlation,
        forall|k: int| 0 <= k < i ==> (#[trigger] replies[k]).0 != correlation,
    ensures
        first_reply(replies, correlation) == if i < replies.len() {
            Some(replies[i].1)
        } else {
            None
        },
    decreases replies.len(),
{
    if replies.len() > 0 {
        let rest = replies.drop_last();
        assert(replies.last() == replies[replies.len() - 1]);
        assert forall|k: int| 0 <= k < i && k < rest.len() implies (#[trigger] rest[k]).0
            != correlation by {
            assert(rest[k] == replies[k]);
        }
        if i < rest.len() {
            assert(rest[i] == replies[i]);
            the_first_reply_answers(rest, correlation, i);
        } else {
            the_first_reply_answers(rest, correlation, rest.len() as int);
        }
    }
}

/// What a wait is settled with: the reply where there is one, though the question was
/// abandoned; that it was abandoned where there is none and it was; nothing otherwise.
pub proof fn replies_come_before_abandonment<T: Transport>(
    transport: T,
    questions: Seq<char>,
    answers: Seq<char>,
    correlation: Seq<char>,
    id: u64,
    settled: Option<Settled>,
    i: int,
)
    requires
        settles(transport, questions, answers, correlation, id, settled),
        ({
            let replies = replies_in(lines_on(transport, answers));
            &&& 0 <= i <= replies.len()
            &&& i < replies.len() ==> replies[i].0 == correlation
            &&& forall|k: int| 0 <= k < i ==> (#[trigger] replies[k]).0 != correlation
        }),
    ensures
        ({
            let replies = replies_in(lines_on(transport, answers));
            if i < replies.len() {
                settled is Some && settled->0 is Replied && settled->0->Replied_0@ == replies[i].1
            } else {
                &&& settled is Some ==> settled->0 is Abandoned
                &&& settled is Some <==> is_marked(transport.log(questions), id)
            }
        }),
{
    the_first_reply_answers(replies_in(lines_on(transport, answers)), correlation, i);
}

/// A reply binds to the pending question it echoes, one that echoes none to the only
/// question pending, and to nothing where that is not one question.
pub proof fn replies_bind_to_one_question(
    pending: Seq<QuestionView>,
    echoed: Option<Seq<char>>,
    i: int,
)
    ensures
        echoed is None ==> (binding_of(pending, echoed) is Ok <==> pending.len() == 1),
        echoed is None && pending.len() == 1 ==> binding_of(pending, echoed)->Ok_0 == pending[0],
        echoed is Some && 0 <= i < pending.len() && pending[i].correlation == echoed->0 && (forall|
            k: int,
        |
            0 <= k < i ==> (#[trigger] pending[k]).correlation != echoed->0) ==> binding_of(
            pending,
            echoed,
        ) == Ok::<QuestionView, Seq<char>>(pending[i]),
        echoed is Some && (forall|k: int|
            0 <= k < pending.len() ==> (#[trigger] pending[k]).correlation != echoed->0)
            ==> binding_of(pending, echoed) is Err,
{
    if echoed is Some && 0 <= i < pending.len() && pending[i].correlation == echoed->0 && (forall|
        k: int,
    |
        0 <= k < i ==> (#[trigger] pending[k]).correlation != echoed->0) {
        lemma_asked_as(pending, echoed->0, i);
    }
}

/// A reply is stamped with the correlation it answers, and is otherwise as it was.
pub proof fn replies_are_stamped(record: &Json, correlation: &Correlation, r: Json, key: Seq<char>)
    requires
        call_ensures(stamped, (record, correlation), r),
    ensures
        record@ is Object ==> member(r@, "correlation"@) == Some(JsonView::Str(correlation@)),
        record@ is Object && key != "correlation"@ ==> member(r@, key) == member(record@, key),
        !(record@ is Object) ==> r@ == record@,
{
    lemma_asked_keys();
    if record@ is Object {
        let value = JsonView::Str(correlation@);
        lemma_field_of_with(record@->Object_0, "correlation"@, value, "correlation"@);
        lemma_field_of_with(record@->Object_0, "correlation"@, value, key);
    }
}

/// Of the records a reply becomes, those that go to the answer queue are stamped, and no
/// other is touched.
pub proof fn only_answers_are_stamped(
    routed: Seq<(Seq<char>, JsonView)>,
    answers: Seq<char>,
    correlation: Seq<char>,
    i: int,
)
    requires
        0 <= i < routed.len(),
    ensures
        ({
            let out = stamped_each(routed, answers, Some(correlation));
            &&& out.len() == routed.len()
            &&& out[i].0 == routed[i].0
            &&& routed[i].0 != answers ==> out[i] == routed[i]
            &&& routed[i].0 == answers && routed[i].1 is Object ==> member(
                out[i].1,
                "correlation"@,
            ) == Some(JsonView::Str(correlation))
            &&& stamped_each(routed, answers, None)[i] == routed[i]
        }),
{
    lemma_asked_keys();
    if routed[i].1 is Object {
        lemma_field_of_with(
            routed[i].1->Object_0,
            "correlation"@,
            JsonView::Str(correlation),
            "correlation"@,
        );
    }
}

/// A wait ends with what settles it, and otherwise once its time is up; until then it waits
/// on, no longer than is left.
pub proof fn waits_end_when_settled_or_out_of_time(
    settled: Option<Settled>,
    left: Option<u64>,
    r: WaitStep,
)
    requires
        call_ensures(wait_step, (settled, left), r),
    ensures
        settled is Some ==> r == WaitStep::Settled(settled->0),
        settled is None && left == Some(0u64) ==> r is TimedOut,
        settled is None && left != Some(0u64) ==> r is Wait && r->Wait_0 > 0 && (left is Some
            ==> r->Wait_0 <= left->0),
{
}

} // verus!
