//! The questions a queue's log has queued, the replies an answer queue holds, and
//! which question a reply binds to.

use crate::correlation::{CORRELATION, Correlation, correlation_fault};
use crate::fold::{id_of, optional_view, record_id};
use crate::json::{Json, JsonView, fields_without, group_json_views, member, without_field};
use crate::names::Position;
use crate::queue::Claimed;
use crate::queue_ops::entries_of;
use crate::text::{cat3, cat4, decimal, decimal_of, join, joined, same_text, texts};
use vstd::prelude::*;

verus! {

/// A question on a queue.
#[derive(Debug)]
pub struct Question {
    /// What a reply echoes to answer it.
    pub correlation: Correlation,
    /// Its record, and where it was queued.
    pub claimed: Claimed<Json>,
    /// Its id.
    pub id: u64,
}

/// What a question is.
pub struct QuestionView {
    pub correlation: Seq<char>,
    pub record: JsonView,
    pub position: int,
    pub id: u64,
    pub claimed_id: Option<u64>,
}

impl View for Question {
    type V = QuestionView;

    open spec fn view(&self) -> QuestionView {
        QuestionView {
            correlation: self.correlation@,
            record: self.claimed.record@,
            position: self.claimed.position@ as int,
            id: self.id,
            claimed_id: self.claimed.id,
        }
    }
}

/// What questions are.
pub open spec fn questions_view(questions: Seq<Question>) -> Seq<QuestionView> {
    Seq::new(questions.len(), |i: int| questions[i]@)
}

/// A log line without its event.
pub open spec fn record_of_line(line: JsonView) -> JsonView {
    match line {
        JsonView::Object(fields) => JsonView::Object(without_field(fields, "event"@)),
        other => other,
    }
}

/// The correlation a record carries.
pub open spec fn correlation_in(record: JsonView) -> Option<Seq<char>> {
    match member(record, CORRELATION@) {
        Some(JsonView::Str(text)) => if correlation_fault(text) is None {
            Some(text)
        } else {
            None
        },
        _ => None,
    }
}

/// The question a log line queues: a record with a correlation and an id.
pub open spec fn question_of(line: JsonView, after: int) -> Option<QuestionView> {
    let record = record_of_line(line);
    if member(line, "event"@) == Some(JsonView::Str("queued"@)) && correlation_in(record) is Some
        && id_of(record) is Some {
        Some(
            QuestionView {
                correlation: correlation_in(record)->0,
                record,
                position: after,
                id: id_of(record)->0,
                claimed_id: id_of(record),
            },
        )
    } else {
        None
    }
}

/// Whether a question with a correlation is among `questions`.
pub open spec fn is_asked(questions: Seq<QuestionView>, correlation: Seq<char>) -> bool {
    exists|i: int| 0 <= i < questions.len() && (#[trigger] questions[i]).correlation == correlation
}

/// Every question lines queue, in order, each correlation once.
pub open spec fn questions_in(lines: Seq<(JsonView, int)>) -> Seq<QuestionView>
    decreases lines.len(),
{
    if lines.len() == 0 {
        Seq::empty()
    } else {
        let before = questions_in(lines.drop_last());
        match question_of(lines.last().0, lines.last().1) {
            Some(question) => if is_asked(before, question.correlation) {
                before
            } else {
                before.push(question)
            },
            None => before,
        }
    }
}

/// The reply a line of an answer queue is: a record that echoes a correlation,
/// queued or plain.
pub open spec fn reply_of(line: JsonView) -> Option<(Seq<char>, JsonView)> {
    let record = record_of_line(line);
    let held = match member(line, "event"@) {
        Some(JsonView::Str(event)) => event == "queued"@,
        _ => true,
    };
    if held && correlation_in(record) is Some {
        Some((correlation_in(record)->0, record))
    } else {
        None
    }
}

/// Every reply lines hold, oldest first.
pub open spec fn replies_in(lines: Seq<(JsonView, int)>) -> Seq<(Seq<char>, JsonView)>
    decreases lines.len(),
{
    if lines.len() == 0 {
        Seq::empty()
    } else {
        let before = replies_in(lines.drop_last());
        match reply_of(lines.last().0) {
            Some(reply) => before.push(reply),
            None => before,
        }
    }
}

/// Whether a reply echoing a correlation is among `replies`.
pub open spec fn is_replied(replies: Seq<(Seq<char>, JsonView)>, correlation: Seq<char>) -> bool {
    exists|i: int| 0 <= i < replies.len() && (#[trigger] replies[i]).0 == correlation
}

/// The first reply echoing a correlation.
pub open spec fn first_reply(replies: Seq<(Seq<char>, JsonView)>, correlation: Seq<char>) -> Option<
    JsonView,
>
    decreases replies.len(),
{
    if replies.len() == 0 {
        None
    } else {
        match first_reply(replies.drop_last(), correlation) {
            Some(record) => Some(record),
            None => if replies.last().0 == correlation {
                Some(replies.last().1)
            } else {
                None
            },
        }
    }
}

/// The questions no reply answers.
pub open spec fn outstanding_of(
    questions: Seq<QuestionView>,
    replies: Seq<(Seq<char>, JsonView)>,
) -> Seq<QuestionView>
    decreases questions.len(),
{
    if questions.len() == 0 {
        Seq::empty()
    } else {
        let before = outstanding_of(questions.drop_last(), replies);
        if is_replied(replies, questions.last().correlation) {
            before
        } else {
            before.push(questions.last())
        }
    }
}

/// What a reply is.
pub open spec fn replies_view(replies: Seq<(Correlation, Json)>) -> Seq<(Seq<char>, JsonView)> {
    Seq::new(replies.len(), |i: int| (replies[i].0@, replies[i].1@))
}

/// A log line without its event.
pub fn without_event(line: &Json) -> (r: Json)
    ensures
        r@ == record_of_line(line@),
{
    broadcast use group_json_views;

    match line {
        Json::Object(fields) => Json::Object(fields_without(fields, "event")),
        other => other.copied(),
    }
}

/// The correlation a record carries.
pub fn correlation_of(record: &Json) -> (r: Option<Correlation>)
    ensures
        match r {
            Some(correlation) => correlation_in(record@) == Some(correlation@),
            None => correlation_in(record@) is None,
        },
{
    match record.get(CORRELATION) {
        Some(value) => match value.as_str() {
            Some(text) => match Correlation::from_str(text) {
                Ok(correlation) => Some(correlation),
                Err(_) => None,
            },
            None => None,
        },
        None => None,
    }
}

pub(crate) fn asked_among(questions: &Vec<Question>, correlation: &Correlation) -> (r: Option<usize>)
    ensures
        match r {
            Some(at) => at < questions@.len() && questions@[at as int].correlation@
                == correlation@ && is_asked(questions_view(questions@), correlation@) && forall|
                k: int,
            |
                0 <= k < at ==> (#[trigger] questions@[k]).correlation@ != correlation@,
            None => !is_asked(questions_view(questions@), correlation@),
        },
{
    let mut i: usize = 0;
    while i < questions.len()
        invariant
            i <= questions@.len(),
            forall|k: int| 0 <= k < i ==> (#[trigger] questions@[k]).correlation@ != correlation@,
        decreases questions@.len() - i,
    {
        if questions[i].correlation.equals(correlation) {
            proof {
                assert(questions_view(questions@)[i as int].correlation == correlation@);
            }
            return Some(i);
        }
        i += 1;
    }
    proof {
        let all = questions_view(questions@);
        assert forall|k: int| 0 <= k < all.len() implies (#[trigger] all[k]).correlation
            != correlation@ by {
            assert(questions@[k].correlation@ != correlation@);
        }
    }
    None
}

/// Every question lines queue, in order, each correlation once.
pub fn questions_among(lines: &Vec<(Json, Position)>) -> (r: Vec<Question>)
    ensures
        questions_view(r@) == questions_in(entries_of(lines@)),
{
    let ghost all = entries_of(lines@);
    let mut found: Vec<Question> = Vec::new();
    let mut i: usize = 0;
    proof {
        assert(all.take(0) =~= Seq::<(JsonView, int)>::empty());
        assert(questions_view(found@) =~= Seq::<QuestionView>::empty());
    }
    while i < lines.len()
        invariant
            i <= lines@.len(),
            all == entries_of(lines@),
            questions_view(found@) == questions_in(all.take(i as int)),
        decreases lines@.len() - i,
    {
        let line = &lines[i].0;
        let after = lines[i].1;
        proof {
            assert(all.take(i + 1).drop_last() =~= all.take(i as int));
            assert(all.take(i + 1).last() == (line@, after@ as int));
        }
        let queued = match line.get("event") {
            Some(word) => match word.as_str() {
                Some(text) => same_text(text, "queued"),
                None => false,
            },
            None => false,
        };
        if queued {
            let record = without_event(line);
            let id = record_id(&record);
            let carried = correlation_of(&record);
            if let (Some(correlation), Some(id)) = (carried, id) {
                if asked_among(&found, &correlation).is_none() {
                    let ghost before = questions_view(found@);
                    let one = Question {
                        correlation,
                        claimed: Claimed { record, position: after, id: Some(id) },
                        id,
                    };
                    let ghost seen = one@;
                    found.push(one);
                    proof {
                        assert(questions_view(found@) =~= before.push(seen));
                    }
                }
            }
        }
        i += 1;
    }
    proof {
        assert(all.take(i as int) =~= all);
    }
    found
}

/// Every reply lines hold, oldest first.
pub fn replies_among(lines: &Vec<(Json, Position)>) -> (r: Vec<(Correlation, Json)>)
    ensures
        replies_view(r@) == replies_in(entries_of(lines@)),
{
    let ghost all = entries_of(lines@);
    let mut found: Vec<(Correlation, Json)> = Vec::new();
    let mut i: usize = 0;
    proof {
        assert(all.take(0) =~= Seq::<(JsonView, int)>::empty());
        assert(replies_view(found@) =~= Seq::<(Seq<char>, JsonView)>::empty());
    }
    while i < lines.len()
        invariant
            i <= lines@.len(),
            all == entries_of(lines@),
            replies_view(found@) == replies_in(all.take(i as int)),
        decreases lines@.len() - i,
    {
        let line = &lines[i].0;
        proof {
            assert(all.take(i + 1).drop_last() =~= all.take(i as int));
            assert(all.take(i + 1).last() == (line@, lines@[i as int].1@ as int));
        }
        let held = match line.get("event") {
            Some(word) => match word.as_str() {
                Some(text) => same_text(text, "queued"),
                None => true,
            },
            None => true,
        };
        if held {
            let record = without_event(line);
            if let Some(correlation) = correlation_of(&record) {
                let ghost before = replies_view(found@);
                let ghost seen = (correlation@, record@);
                found.push((correlation, record));
                proof {
                    assert(replies_view(found@) =~= before.push(seen));
                }
            }
        }
        i += 1;
    }
    proof {
        assert(all.take(i as int) =~= all);
    }
    found
}

fn replied_among(replies: &Vec<(Correlation, Json)>, correlation: &Correlation) -> (r: bool)
    ensures
        r == is_replied(replies_view(replies@), correlation@),
{
    let mut i: usize = 0;
    while i < replies.len()
        invariant
            i <= replies@.len(),
            forall|k: int| 0 <= k < i ==> (#[trigger] replies@[k]).0@ != correlation@,
        decreases replies@.len() - i,
    {
        if replies[i].0.equals(correlation) {
            proof {
                assert(replies_view(replies@)[i as int].0 == correlation@);
            }
            return true;
        }
        i += 1;
    }
    proof {
        let all = replies_view(replies@);
        assert forall|k: int| 0 <= k < all.len() implies (#[trigger] all[k]).0 != correlation@ by {
            assert(replies@[k].0@ != correlation@);
        }
    }
    false
}

/// The first reply echoing a correlation.
pub fn first_reply_to(replies: &Vec<(Correlation, Json)>, correlation: &Correlation) -> (r: Option<
    Json,
>)
    ensures
        optional_view(r) == first_reply(replies_view(replies@), correlation@),
{
    let ghost all = replies_view(replies@);
    let mut i: usize = 0;
    proof {
        assert(all.take(0) =~= Seq::<(Seq<char>, JsonView)>::empty());
    }
    while i < replies.len()
        invariant
            i <= replies@.len(),
            all == replies_view(replies@),
            first_reply(all.take(i as int), correlation@) is None,
        decreases replies@.len() - i,
    {
        proof {
            assert(all.take(i + 1).drop_last() =~= all.take(i as int));
            assert(all.take(i + 1).last() == all[i as int]);
        }
        if replies[i].0.equals(correlation) {
            proof {
                lemma_first_reply_stays(all, i + 1, correlation@);
            }
            return Some(replies[i].1.copied());
        }
        i += 1;
    }
    proof {
        assert(all.take(i as int) =~= all);
    }
    None
}

proof fn lemma_first_reply_stays(
    replies: Seq<(Seq<char>, JsonView)>,
    n: int,
    correlation: Seq<char>,
)
    requires
        0 <= n <= replies.len(),
        first_reply(replies.take(n), correlation) is Some,
    ensures
        first_reply(replies, correlation) == first_reply(replies.take(n), correlation),
    decreases replies.len(),
{
    if n < replies.len() {
        assert(replies.drop_last().take(n) =~= replies.take(n));
        lemma_first_reply_stays(replies.drop_last(), n, correlation);
    } else {
        assert(replies.take(n) =~= replies);
    }
}

/// The questions no reply answers.
pub fn outstanding(questions: Vec<Question>, replies: &Vec<(Correlation, Json)>) -> (r: Vec<
    Question,
>)
    ensures
        questions_view(r@) == outstanding_of(questions_view(questions@), replies_view(replies@)),
{
    let ghost all = questions_view(questions@);
    let ghost replied = replies_view(replies@);
    let count: usize = questions.len();
    let mut rest = questions;
    let mut found: Vec<Question> = Vec::new();
    let mut i: usize = 0;
    proof {
        assert(all.take(0) =~= Seq::<QuestionView>::empty());
        assert(questions_view(found@) =~= Seq::<QuestionView>::empty());
    }
    while rest.len() > 0
        invariant
            i + rest@.len() == count == all.len(),
            replied == replies_view(replies@),
            questions_view(rest@) =~= all.skip(i as int),
            questions_view(found@) == outstanding_of(all.take(i as int), replied),
        decreases rest@.len(),
    {
        let ghost tail = questions_view(rest@);
        let next = rest.remove(0);
        proof {
            assert(tail[0] == all[i as int]);
            assert(next@ == all[i as int]);
            assert(all.take(i + 1).drop_last() =~= all.take(i as int));
            assert(all.take(i + 1).last() == all[i as int]);
            assert(questions_view(rest@) =~= tail.skip(1));
        }
        if !replied_among(replies, &next.correlation) {
            let ghost before = questions_view(found@);
            let ghost seen = next@;
            found.push(next);
            proof {
                assert(questions_view(found@) =~= before.push(seen));
            }
        }
        i += 1;
    }
    proof {
        assert(all.take(i as int) =~= all);
    }
    found
}

// ---------------------------------------------------------------------------
// Which question a reply binds to.
// ---------------------------------------------------------------------------

/// How many pending asks a refusal names.
pub const SHOWN: usize = 8;

/// The correlations of the first `n` questions.
pub open spec fn named_first(questions: Seq<QuestionView>, n: int) -> Seq<Seq<char>> {
    Seq::new(n as nat, |i: int| questions[i].correlation)
}

/// What is pending, in words: the first few by name, and how many more.
pub open spec fn listing_words(questions: Seq<QuestionView>) -> Seq<char> {
    if questions.len() == 0 {
        "nothing is pending there"@
    } else if questions.len() > SHOWN {
        "pending there: "@ + joined(named_first(questions, SHOWN as int), ", "@) + (" and "@
            + decimal((questions.len() - SHOWN) as nat) + " more"@)
    } else {
        "pending there: "@ + joined(named_first(questions, questions.len() as int), ", "@) + ""@
    }
}

/// What is pending, in words.
pub fn pending_words(questions: &Vec<Question>) -> (r: String)
    ensures
        r@ == listing_words(questions_view(questions@)),
{
    let ghost all = questions_view(questions@);
    if questions.len() == 0 {
        return "nothing is pending there".to_owned();
    }
    let shown: usize = if questions.len() > SHOWN {
        SHOWN
    } else {
        questions.len()
    };
    let mut names: Vec<String> = Vec::new();
    let mut i: usize = 0;
    while i < shown
        invariant
            i <= shown <= questions@.len(),
            all == questions_view(questions@),
            texts(names@) =~= named_first(all, i as int),
        decreases shown - i,
    {
        let ghost before = texts(names@);
        names.push(questions[i].correlation.as_str().to_owned());
        proof {
            assert(texts(names@) =~= before.push(all[i as int].correlation));
        }
        i += 1;
    }
    let named = join(&names, ", ");
    let more = if questions.len() > SHOWN {
        let count = decimal_of((questions.len() - SHOWN) as u64);
        cat3(" and ", count.as_str(), " more")
    } else {
        "".to_owned()
    };
    cat3("pending there: ", named.as_str(), more.as_str())
}

/// Which pending ask a reply binds to: the one whose correlation it echoes, or,
/// echoing none, the only one there is. Otherwise why it binds to none.
pub open spec fn binding_of(pending: Seq<QuestionView>, echoed: Option<Seq<char>>) -> Result<
    QuestionView,
    Seq<char>,
> {
    match echoed {
        Some(correlation) => if is_asked(pending, correlation) {
            Ok(asked_as(pending, correlation))
        } else {
            Err(
                "no pending ask carries the correlation "@ + correlation
                    + ", so the reply echoing it answers nothing; "@ + listing_words(pending),
            )
        },
        None => if pending.len() == 1 {
            Ok(pending[0])
        } else if pending.len() == 0 {
            Err("the reply echoes no correlation, and no ask is pending to bind it to"@)
        } else {
            Err(
                "the reply echoes no correlation, and "@ + decimal(pending.len())
                    + " asks are pending, so it binds to none of them; echo one — "@
                    + listing_words(pending),
            )
        },
    }
}

/// The first question with a correlation.
pub open spec fn asked_as(questions: Seq<QuestionView>, correlation: Seq<char>) -> QuestionView
    decreases questions.len(),
{
    if questions.len() == 0 || questions[0].correlation == correlation {
        questions[0]
    } else {
        asked_as(questions.skip(1), correlation)
    }
}

pub proof fn lemma_asked_as(questions: Seq<QuestionView>, correlation: Seq<char>, at: int)
    requires
        0 <= at < questions.len(),
        questions[at].correlation == correlation,
        forall|k: int| 0 <= k < at ==> (#[trigger] questions[k]).correlation != correlation,
    ensures
        asked_as(questions, correlation) == questions[at],
    decreases at,
{
    if at > 0 {
        let rest = questions.skip(1);
        assert(questions[0].correlation != correlation);
        assert(rest[at - 1] == questions[at]);
        assert forall|k: int| 0 <= k < at - 1 implies (#[trigger] rest[k]).correlation
            != correlation by {
            assert(questions[k + 1].correlation != correlation);
        }
        lemma_asked_as(rest, correlation, at - 1);
    }
}

/// Which pending ask a reply binds to, by its place.
pub fn bind_reply(pending: &Vec<Question>, echoed: Option<&Correlation>) -> (r: Result<
    usize,
    String,
>)
    ensures
        match r {
            Ok(at) => at < pending@.len() && binding_of(
                questions_view(pending@),
                echoed_view(echoed),
            ) == Ok::<QuestionView, Seq<char>>(pending@[at as int]@),
            Err(why) => binding_of(questions_view(pending@), echoed_view(echoed)) == Err::<
                QuestionView,
                Seq<char>,
            >(why@),
        },
{
    let ghost all = questions_view(pending@);
    match echoed {
        Some(correlation) => match asked_among(pending, correlation) {
            Some(at) => {
                proof {
                    assert forall|k: int| 0 <= k < at implies (#[trigger] all[k]).correlation
                        != correlation@ by {
                        assert(pending@[k].correlation@ != correlation@);
                    }
                    lemma_asked_as(all, correlation@, at as int);
                }
                Ok(at)
            },
            None => {
                let listed = pending_words(pending);
                Err(
                    cat4(
                        "no pending ask carries the correlation ",
                        correlation.as_str(),
                        ", so the reply echoing it answers nothing; ",
                        listed.as_str(),
                    ),
                )
            },
        },
        None => {
            if pending.len() == 1 {
                return Ok(0);
            }
            if pending.len() == 0 {
                return Err(
                    "the reply echoes no correlation, and no ask is pending to bind it to".to_owned(),
                );
            }
            let count = decimal_of(pending.len() as u64);
            let listed = pending_words(pending);
            Err(
                cat4(
                    "the reply echoes no correlation, and ",
                    count.as_str(),
                    " asks are pending, so it binds to none of them; echo one — ",
                    listed.as_str(),
                ),
            )
        },
    }
}

/// The correlation a reply echoes, if any.
pub open spec fn echoed_view(echoed: Option<&Correlation>) -> Option<Seq<char>> {
    match echoed {
        Some(correlation) => Some(correlation@),
        None => None,
    }
}

// ---------------------------------------------------------------------------
// Laws.
// ---------------------------------------------------------------------------

/// No two questions of a log carry one correlation.
pub proof fn questions_are_distinct(lines: Seq<(JsonView, int)>, i: int, j: int)
    requires
        0 <= i < j < questions_in(lines).len(),
    ensures
        questions_in(lines)[i].correlation != questions_in(lines)[j].correlation,
    decreases lines.len(),
{
    let before = questions_in(lines.drop_last());
    if j < before.len() {
        questions_are_distinct(lines.drop_last(), i, j);
    } else {
        assert(before[i].correlation == questions_in(lines)[i].correlation);
    }
}

/// A question stays asked, whatever is appended after it.
pub proof fn question_stays_asked(
    lines: Seq<(JsonView, int)>,
    more: Seq<(JsonView, int)>,
    correlation: Seq<char>,
)
    requires
        is_asked(questions_in(lines), correlation),
    ensures
        is_asked(questions_in(lines + more), correlation),
    decreases more.len(),
{
    if more.len() == 0 {
        assert(lines + more =~= lines);
    } else {
        assert((lines + more).drop_last() =~= lines + more.drop_last());
        question_stays_asked(lines, more.drop_last(), correlation);
        let before = questions_in(lines + more.drop_last());
        let now = questions_in(lines + more);
        let i = choose|i: int| 0 <= i < before.len() && before[i].correlation == correlation;
        assert(now[i] == before[i]);
    }
}

/// A question a reply echoes is no longer pending, and every other one is as
/// pending as it was.
pub proof fn reply_settles_only_its_question(
    questions: Seq<QuestionView>,
    replies: Seq<(Seq<char>, JsonView)>,
    reply: (Seq<char>, JsonView),
    correlation: Seq<char>,
)
    ensures
        is_asked(outstanding_of(questions, replies.push(reply)), correlation) == (is_asked(
            outstanding_of(questions, replies),
            correlation,
        ) && correlation != reply.0),
{
    lemma_outstanding(questions, replies, correlation);
    lemma_outstanding(questions, replies.push(reply), correlation);
    assert(is_replied(replies.push(reply), correlation) == (is_replied(replies, correlation)
        || correlation == reply.0)) by {
        let now = replies.push(reply);
        assert(now[replies.len() as int] == reply);
        if is_replied(replies, correlation) {
            let i = choose|i: int| 0 <= i < replies.len() && replies[i].0 == correlation;
            assert(now[i].0 == correlation);
        }
        if is_replied(now, correlation) {
            let i = choose|i: int| 0 <= i < now.len() && now[i].0 == correlation;
            if i < replies.len() {
                assert(replies[i].0 == correlation);
            }
        }
    }
}

proof fn lemma_outstanding(
    questions: Seq<QuestionView>,
    replies: Seq<(Seq<char>, JsonView)>,
    correlation: Seq<char>,
)
    ensures
        is_asked(outstanding_of(questions, replies), correlation) == (is_asked(
            questions,
            correlation,
        ) && !is_replied(replies, correlation)),
    decreases questions.len(),
{
    if questions.len() > 0 {
        let rest = questions.drop_last();
        lemma_outstanding(rest, replies, correlation);
        let before = outstanding_of(rest, replies);
        let now = outstanding_of(questions, replies);
        if is_asked(rest, correlation) {
            let i = choose|i: int| 0 <= i < rest.len() && rest[i].correlation == correlation;
            assert(questions[i].correlation == correlation);
        }
        if is_asked(questions, correlation) {
            let i = choose|i: int|
                0 <= i < questions.len() && questions[i].correlation == correlation;
            if i < rest.len() {
                assert(rest[i].correlation == correlation);
            }
        }
        if is_asked(before, correlation) {
            let i = choose|i: int| 0 <= i < before.len() && before[i].correlation == correlation;
            assert(now[i].correlation == correlation);
        }
        if is_asked(now, correlation) {
            let i = choose|i: int| 0 <= i < now.len() && now[i].correlation == correlation;
            if i < before.len() {
                assert(before[i].correlation == correlation);
            }
        }
        if !is_replied(replies, questions.last().correlation) && questions.last().correlation
            == correlation {
            assert(now[before.len() as int].correlation == correlation);
        }
        if questions.last().correlation == correlation {
            assert(questions[questions.len() - 1].correlation == correlation);
        }
    }
}

/// A reply that echoes a correlation binds to the question that carries it.
pub proof fn reply_binds_to_what_it_echoes(pending: Seq<QuestionView>, correlation: Seq<char>)
    requires
        is_asked(pending, correlation),
    ensures
        binding_of(pending, Some(correlation)) is Ok,
        binding_of(pending, Some(correlation))->Ok_0.correlation == correlation,
{
    lemma_asked_carries(pending, correlation);
}

proof fn lemma_asked_carries(pending: Seq<QuestionView>, correlation: Seq<char>)
    requires
        is_asked(pending, correlation),
    ensures
        asked_as(pending, correlation).correlation == correlation,
    decreases pending.len(),
{
    let i = choose|i: int| 0 <= i < pending.len() && pending[i].correlation == correlation;
    if pending[0].correlation != correlation {
        assert(pending.skip(1)[i - 1].correlation == correlation);
        lemma_asked_carries(pending.skip(1), correlation);
    }
}

} // verus!
