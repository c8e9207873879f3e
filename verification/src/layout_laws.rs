//! What a layout, a configuration and a codec nothing is wrong with have in common.

use crate::author::{OpWord, op_words};
use crate::bind::queues_fault;
use crate::bus::gates_fault;
use crate::codec::{
    Binding, BindingAction, CodecConfig, FrameConfig, binding_fault, bindings_fault, codec_fault,
    frames_fault,
};
use crate::config::{ValidatorConfig, validator_fault};
use crate::envelope::Envelope;
use crate::json::JsonView;
use crate::layout::{
    Grants, LayoutAuthor, LayoutDocument, LayoutName, NonEmpty, PrepareStep, Route,
    answers_fault, authors_fault, first_word, operations_fault, ops_fault, prepare_fault,
    queue_names, route_queues, routes_fault, step_fault, steps_fault, twice_fault,
};
use crate::mapping::{mappings_fault, string_fault, strings_fault};
use crate::policy::{QueueSpec, QueueSpecView, specs_view};
use crate::read::{
    FileReadings, Reading, envelopes_in, envelopes_of, merged, merged_is_in_order, records_among,
};
use crate::schema::{SchemaIdView, held};
use crate::table::{Table, lookup, names_of};
use crate::template::is_dotted;
use crate::text::{decimal, is_blank, lemma_before_irreflexive, text_before};
use vstd::prelude::*;

verus! {

proof fn lemma_first_word(words: Seq<Seq<char>>, word: Seq<char>)
    ensures
        first_word(words, word) is Some <==> words.contains(word),
    decreases words.len(),
{
    if words.len() > 0 {
        let rest = words.skip(1);
        lemma_first_word(rest, word);
        if words.contains(word) && words[0] != word {
            let k = choose|k: int| 0 <= k < words.len() && words[k] == word;
            assert(rest[k - 1] == word);
        }
        if rest.contains(word) {
            let k = choose|k: int| 0 <= k < rest.len() && rest[k] == word;
            assert(words[k + 1] == word);
        }
        assert(words[0] == word ==> words.contains(word));
    }
}

/// Nothing is declared twice exactly where no two names are one.
pub proof fn names_declared_twice_are_refused(names: Seq<Seq<char>>, from: int)
    requires
        0 <= from <= names.len(),
    ensures
        twice_fault(names, from) is None <==> forall|i: int, j: int|
            0 <= i < j < names.len() && from <= j ==> #[trigger] names[i] != #[trigger] names[j],
    decreases names.len() - from,
{
    if from < names.len() {
        names_declared_twice_are_refused(names, from + 1);
        lemma_first_word(names.take(from), names[from]);
        let head = names.take(from);
        if head.contains(names[from]) {
            let k = choose|k: int| 0 <= k < head.len() && head[k] == names[from];
            assert(names[k] == names[from]);
        } else {
            assert forall|i: int| 0 <= i < from implies #[trigger] names[i] != names[from] by {
                assert(head[i] == names[i]);
            }
        }
    }
}

/// Every queue's answers go to a queue that is declared.
pub proof fn answers_go_to_declared_queues(queues: Seq<QueueSpecView>, from: int, i: int)
    requires
        0 <= from <= i < queues.len(),
        answers_fault(queues, from) is None,
        queues[i].answers is Some,
    ensures
        exists|k: int|
            0 <= k < queues.len() && (#[trigger] queues[k]).name == queues[i].answers->0,
    decreases i - from,
{
    if from < i {
        answers_go_to_declared_queues(queues, from + 1, i);
    } else {
        let names = queue_names(queues);
        let sought = queues[i].answers->0;
        let k = choose|k: int| 0 <= k < names.len() && names[k] == sought;
        assert(queues[k].name == sought);
    }
}

/// Nothing is wrong with the answers of queues that each answer on a declared one.
pub proof fn declared_answers_are_taken(queues: Seq<QueueSpecView>, from: int, at: Seq<int>)
    requires
        0 <= from <= queues.len(),
        at.len() == queues.len(),
        forall|i: int|
            from <= i < queues.len() && (#[trigger] queues[i]).answers is Some ==> 0 <= at[i]
                < queues.len() && queue_names(queues)[at[i]] == queues[i].answers->0,
    ensures
        answers_fault(queues, from) is None,
    decreases queues.len() - from,
{
    if from < queues.len() {
        declared_answers_are_taken(queues, from + 1, at);
        if queues[from].answers is Some {
            assert(queue_names(queues)[at[from]] == queues[from].answers->0);
        }
    }
}

/// Operations are words of more than white space, each declared once.
pub proof fn operations_are_declared_once(operations: Seq<Seq<char>>, from: int)
    requires
        0 <= from <= operations.len(),
    ensures
        operations_fault(operations, from) is None <==> (forall|i: int|
            from <= i < operations.len() ==> !is_blank(#[trigger] operations[i])) && (forall|
            i: int,
            j: int,
        |
            0 <= i < j < operations.len() && from <= j ==> #[trigger] operations[i]
                != #[trigger] operations[j]),
    decreases operations.len() - from,
{
    if from < operations.len() {
        operations_are_declared_once(operations, from + 1);
        let head = operations.take(from);
        if head.contains(operations[from]) {
            let k = choose|k: int| 0 <= k < head.len() && head[k] == operations[from];
            assert(operations[k] == operations[from]);
        } else {
            assert forall|i: int| 0 <= i < from implies #[trigger] operations[i]
                != operations[from] by {
                assert(head[i] == operations[i]);
            }
        }
    }
}

/// What an author is granted are operations of the layout.
pub proof fn capabilities_are_operations(
    operations: Seq<Seq<char>>,
    key: Seq<char>,
    words: Seq<Seq<char>>,
    from: int,
)
    requires
        0 <= from <= words.len(),
    ensures
        ops_fault(operations, key, words, from) is None <==> forall|i: int|
            from <= i < words.len() ==> operations.contains(#[trigger] words[i]),
    decreases words.len() - from,
{
    if from < words.len() {
        capabilities_are_operations(operations, key, words, from + 1);
    }
}

/// What an author is refused are operations of the layout that it is not granted.
pub proof fn refusals_are_of_what_is_not_granted(
    operations: Seq<Seq<char>>,
    author: Seq<char>,
    grants: Grants,
    words: Seq<Seq<char>>,
    from: int,
)
    requires
        0 <= from <= words.len(),
    ensures
        crate::layout::refusals_fault(operations, author, grants, words, from) is None <==> forall|
            i: int,
        |
            from <= i < words.len() ==> operations.contains(#[trigger] words[i]) && match grants {
                Grants::EveryOp => false,
                Grants::Only(capabilities) => !op_words(capabilities@).contains(words[i]),
            },
    decreases words.len() - from,
{
    if from < words.len() {
        refusals_are_of_what_is_not_granted(operations, author, grants, words, from + 1);
    }
}

/// Every author of a layout is granted, and refused, only what it may be.
pub proof fn authors_are_each_checked(
    operations: Seq<Seq<char>>,
    authors: Seq<(Seq<char>, LayoutAuthor)>,
    from: int,
    i: int,
    k: int,
)
    requires
        0 <= from <= i < authors.len(),
        authors_fault(operations, authors, from) is None,
    ensures
        match authors[i].1.grants {
            Grants::EveryOp => true,
            Grants::Only(capabilities) => 0 <= k < capabilities@.len() ==> operations.contains(
                capabilities@[k].word@,
            ),
        },
        0 <= k < authors[i].1.refusals@.len() ==> operations.contains(
            authors[i].1.refusals@[k].0,
        ),
    decreases i - from,
{
    if from < i {
        authors_are_each_checked(operations, authors, from + 1, i, k);
    } else {
        let author = authors[i].1;
        let name = authors[i].0;
        let refused = names_of(author.refusals@);
        refusals_are_of_what_is_not_granted(operations, name, author.grants, refused, 0);
        if 0 <= k < author.refusals@.len() {
            assert(refused[k] == author.refusals@[k].0);
        }
        if let Grants::Only(capabilities) = author.grants {
            let words = op_words(capabilities@);
            capabilities_are_operations(operations, "authors."@ + name + ".capabilities"@, words, 0);
            if 0 <= k < capabilities@.len() {
                assert(words[k] == capabilities@[k].word@);
            }
        }
    }
}

/// Routes lead to declared queues, fall back to one of their own, and end their queue's
/// steps.
pub proof fn routes_lead_to_declared_queues(
    declared: Seq<Seq<char>>,
    queue: Seq<char>,
    steps: Seq<PrepareStep>,
    from: int,
    i: int,
    k: int,
)
    requires
        0 <= from <= i < steps.len(),
        steps_fault(declared, queue, steps, from) is None,
        steps[i] is Route,
    ensures
        i == steps.len() - 1,
        0 <= k < steps[i]->Route_0.routes@.len() ==> declared.contains(
            steps[i]->Route_0.routes@[k].queue@,
        ),
        steps[i]->Route_0.fallback is Some ==> exists|r: int|
            0 <= r < steps[i]->Route_0.routes@.len() && (
            #[trigger] steps[i]->Route_0.routes@[r]).queue@ == steps[i]->Route_0.fallback->0@,
    decreases i - from,
{
    if from < i {
        routes_lead_to_declared_queues(declared, queue, steps, from + 1, i, k);
    } else {
        let route = steps[i]->Route_0;
        let queues = route_queues(route.routes@);
        assert(step_fault(declared, steps[i]) is None);
        lemma_routes(declared, queues, 0);
        if 0 <= k < route.routes@.len() {
            assert(queues[k] == route.routes@[k].queue@);
        }
        if route.fallback is Some {
            let r = choose|r: int| 0 <= r < queues.len() && queues[r] == route.fallback->0@;
            assert(route.routes@[r].queue@ == route.fallback->0@);
        }
    }
}

proof fn lemma_routes(declared: Seq<Seq<char>>, queues: Seq<Seq<char>>, from: int)
    requires
        0 <= from <= queues.len(),
    ensures
        routes_fault(declared, queues, from) is None <==> forall|i: int|
            from <= i < queues.len() ==> declared.contains(#[trigger] queues[i]),
    decreases queues.len() - from,
{
    if from < queues.len() {
        lemma_routes(declared, queues, from + 1);
    }
}

/// Steps are of declared queues, and each is checked.
pub proof fn prepared_queues_are_declared(
    declared: Seq<Seq<char>>,
    prepare: Seq<(Seq<char>, Vec<PrepareStep>)>,
    from: int,
    i: int,
)
    requires
        0 <= from <= i < prepare.len(),
        prepare_fault(declared, prepare, from) is None,
    ensures
        declared.contains(prepare[i].0),
        steps_fault(declared, prepare[i].0, prepare[i].1@, 0) is None,
    decreases i - from,
{
    if from < i {
        prepared_queues_are_declared(declared, prepare, from + 1, i);
    }
}

/// Every queue of a configuration is checked against a schema that is registered, and
/// answered on a queue that is declared.
pub proof fn bound_queues_are_whole(
    queues: Seq<(Seq<char>, QueueSpec)>,
    schemas: Seq<(SchemaIdView, JsonView)>,
    from: int,
)
    requires
        0 <= from <= queues.len(),
    ensures
        queues_fault(queues, schemas, from) is None <==> forall|i: int|
            from <= i < queues.len() ==> ({
                let queue = (#[trigger] queues[i]).1@;
                &&& queue.schema is Some ==> held(schemas, queue.schema->0) is Some
                &&& queue.answers is Some ==> lookup(queues, queue.answers->0) is Some
            }),
    decreases queues.len() - from,
{
    if from < queues.len() {
        bound_queues_are_whole(queues, schemas, from + 1);
    }
}

/// Every validator of a configuration judges a queue that is declared.
pub proof fn gates_are_of_declared_queues(
    declared: Seq<ValidatorConfig>,
    queues: Seq<(Seq<char>, QueueSpec)>,
    from: int,
    i: int,
)
    requires
        0 <= from <= i < declared.len(),
        gates_fault(declared, queues, from) is None,
    ensures
        lookup(queues, declared[i].on@) is Some,
        validator_fault(declared[i], i as nat) is None,
    decreases i - from,
{
    if from < i {
        gates_are_of_declared_queues(declared, queues, from + 1, i);
    }
}

/// A codec selects by a path, has an entry, and each entry a binding; each binding asks by
/// a path for a plain value, and what it says has nothing wrong with it.
pub proof fn codecs_are_whole(name: Seq<char>, config: CodecConfig, i: int, j: int)
    requires
        codec_fault(name, config) is None,
        0 <= i < config.frames@.len(),
    ensures
        is_dotted(config.select@),
        config.frames@.len() > 0,
        config.frames@[i].1.bindings@.len() > 0,
        0 <= j < config.frames@[i].1.bindings@.len() ==> ({
            let binding = config.frames@[i].1.bindings@[j];
            &&& binding.when is Some ==> is_dotted(binding.when->0.field@) && !(
            binding.when->0.equals@ is Array) && !(binding.when->0.equals@ is Object)
            &&& match binding.action {
                BindingAction::Answer { response } => strings_fault(response@, false) is None,
                BindingAction::Refuse { message } => string_fault(message@, false) is None,
                BindingAction::Raise { record, response, fail } => strings_fault(record@, false)
                    is None && (response is Some <==> fail is None),
                BindingAction::Ask { record, response, unanswered, .. } => strings_fault(
                    record@,
                    false,
                ) is None && strings_fault(response@, true) is None && strings_fault(
                    unanswered@,
                    false,
                ) is None && mappings_fault(response@) is None,
            }
        }),
{
    lemma_frames(name, config.frames@, 0, i);
    let at = "codecs."@ + name + ".frames."@ + config.frames@[i].0;
    if 0 <= j < config.frames@[i].1.bindings@.len() {
        lemma_bindings(at, config.frames@[i].1.bindings@, 0, j);
    }
}

proof fn lemma_frames(
    name: Seq<char>,
    frames: Seq<(Seq<char>, FrameConfig)>,
    from: int,
    i: int,
)
    requires
        0 <= from <= i < frames.len(),
        frames_fault(name, frames, from) is None,
    ensures
        frames[i].1.bindings@.len() > 0,
        bindings_fault("codecs."@ + name + ".frames."@ + frames[i].0, frames[i].1.bindings@, 0)
            is None,
    decreases i - from,
{
    if from < i {
        lemma_frames(name, frames, from + 1, i);
    }
}

proof fn lemma_bindings(at: Seq<char>, bindings: Seq<Binding>, from: int, j: int)
    requires
        0 <= from <= j < bindings.len(),
        bindings_fault(at, bindings, from) is None,
    ensures
        binding_fault(at + ".bindings["@ + decimal(j as nat) + "]"@, bindings[j]) is None,
    decreases j - from,
{
    if from < j {
        lemma_bindings(at, bindings, from + 1, j);
    }
}

/// Merged streams run by their stamps, events of one stamp by their stream, and those of
/// one stream by their numbers.
pub proof fn merged_streams_run_by_time(envelopes: Seq<Envelope>, i: int, j: int)
    requires
        0 <= i < j < merged(envelopes).len(),
    ensures
        ({
            let a = merged(envelopes)[i];
            let b = merged(envelopes)[j];
            &&& !text_before(b.ts@, a.ts@)
            &&& a.ts@ == b.ts@ ==> !text_before(b.stream@, a.stream@)
            &&& a.ts@ == b.ts@ && a.stream@ == b.stream@ ==> a.seq <= b.seq
        }),
{
    merged_is_in_order(envelopes, i, j);
    let a = merged(envelopes)[i];
    let b = merged(envelopes)[j];
    if a.ts@ == b.ts@ {
        lemma_before_irreflexive(a.ts@);
        if a.stream@ == b.stream@ {
            lemma_before_irreflexive(a.stream@);
        }
    }
}

/// Every whole envelope of every file is among those merged, and every one among them is of
/// some file.
pub proof fn every_envelope_read_is_merged(
    files: Seq<FileReadings>,
    n: int,
    i: int,
    k: int,
)
    requires
        0 <= i < n <= files.len(),
        0 <= k < files[i].readings@.len(),
        files[i].readings@[k] is Record,
    ensures
        envelopes_in(files, n).contains(files[i].readings@[k]->Record_0.envelope),
    decreases n,
{
    let one = files[i].readings@[k]->Record_0;
    let before = envelopes_in(files, n - 1);
    let records = records_among(files[n - 1].readings@);
    let more = envelopes_of(records);
    let now = envelopes_in(files, n);
    assert(now == before + more);
    if i < n - 1 {
        every_envelope_read_is_merged(files, n - 1, i, k);
        let at = choose|at: int| 0 <= at < before.len() && before[at] == one.envelope;
        assert(now[at] == one.envelope);
    } else {
        lemma_record_among(files[i].readings@, k);
        let at = choose|at: int| 0 <= at < records.len() && records[at] == one;
        assert(more[at] == one.envelope);
        assert(now[before.len() + at] == one.envelope);
    }
}

proof fn lemma_record_among(readings: Seq<Reading>, k: int)
    requires
        0 <= k < readings.len(),
        readings[k] is Record,
    ensures
        records_among(readings).contains(readings[k]->Record_0),
    decreases readings.len(),
{
    let rest = readings.drop_last();
    let before = records_among(rest);
    let now = records_among(readings);
    assert(readings.last() == readings[readings.len() - 1]);
    if k < rest.len() {
        assert(rest[k] == readings[k]);
        lemma_record_among(rest, k);
        let at = choose|at: int| 0 <= at < before.len() && before[at] == readings[k]->Record_0;
        assert(now[at] == before[at]);
    } else {
        assert(now[before.len() as int] == readings[k]->Record_0);
    }
}

/// Where nothing is wrong with a layout, no two of its queues share a name, answers go to
/// its own queues, its operations are declared once, and steps are of its queues.
pub proof fn layouts_hold_together(
    name: LayoutName,
    description: Option<String>,
    queues: NonEmpty<QueueSpec>,
    operations: Vec<OpWord>,
    authors: Table<LayoutAuthor>,
    prepare: Table<Vec<PrepareStep>>,
    r: Result<LayoutDocument, String>,
    i: int,
    j: int,
)
    requires
        call_ensures(
            LayoutDocument::new,
            (name, description, queues, operations, authors, prepare),
            r,
        ),
        r is Ok,
    ensures
        0 <= i < j < queues@.len() ==> queues@[i]@.name != queues@[j]@.name,
        0 <= i < queues@.len() && queues@[i]@.answers is Some ==> exists|k: int|
            0 <= k < queues@.len() && (#[trigger] queues@[k])@.name == queues@[i]@.answers->0,
        0 <= i < j < operations@.len() ==> operations@[i].word@ != operations@[j].word@,
        0 <= i < operations@.len() ==> !is_blank(operations@[i].word@),
        0 <= i < authors@.len() ==> match authors@[i].1.grants {
            Grants::EveryOp => true,
            Grants::Only(capabilities) => 0 <= j < capabilities@.len() ==> exists|k: int|
                0 <= k < operations@.len() && (#[trigger] operations@[k]).word@
                    == capabilities@[j].word@,
        },
        0 <= i < prepare@.len() ==> exists|k: int|
            0 <= k < queues@.len() && (#[trigger] queues@[k])@.name == prepare@[i].0,
{
    let specs = specs_view(queues@);
    let names = queue_names(specs);
    let words = op_words(operations@);
    names_declared_twice_are_refused(names, 0);
    operations_are_declared_once(words, 0);
    if 0 <= i < j < queues@.len() {
        assert(names[i] == queues@[i]@.name && names[j] == queues@[j]@.name);
    }
    if 0 <= i < queues@.len() && queues@[i]@.answers is Some {
        assert(specs[i] == queues@[i]@);
        answers_go_to_declared_queues(specs, 0, i);
        let k = choose|k: int|
            0 <= k < specs.len() && (#[trigger] specs[k]).name == specs[i].answers->0;
        assert(queues@[k]@.name == specs[k].name);
    }
    if 0 <= i < operations@.len() {
        assert(words[i] == operations@[i].word@);
        if i < j < operations@.len() {
            assert(words[j] == operations@[j].word@);
        }
    }
    if 0 <= i < authors@.len() {
        authors_are_each_checked(words, authors@, 0, i, j);
        if let Grants::Only(capabilities) = authors@[i].1.grants {
            if 0 <= j < capabilities@.len() {
                let k = choose|k: int| 0 <= k < words.len() && words[k] == capabilities@[j].word@;
                assert(operations@[k].word@ == words[k]);
            }
        }
    }
    if 0 <= i < prepare@.len() {
        prepared_queues_are_declared(names, prepare@, 0, i);
        let k = choose|k: int| 0 <= k < names.len() && names[k] == prepare@[i].0;
        assert(queues@[k]@.name == names[k]);
    }
}

} // verus!
