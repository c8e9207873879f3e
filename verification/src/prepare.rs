//! Preparing an offer: a queue's steps, run in order over what was offered to
//! it, each passed over where its `when` does not hold.

use crate::author::{Allowlist, Author, NOT_GRANTED, OpWord, Operation, or_none};
use crate::codec::{first_of_two, frame_conforms, set_absent, with_absent};
use crate::json::{
    Json, JsonView, NumberView, copied_fields, field, fields_view, fields_without, get_field,
    group_json_views, items_view, set_field, settled, text_of, whole, with_field, without_field,
};
use crate::layout::{
    CheckStep, GrantOps, GrantStep, LayoutDocument, LayoutParts, PrepareStep, RenameStep, Route,
    RouteStep, StampStep, VersionStep, member_names,
};
use crate::names::QueueName;
use crate::predicate::{
    FieldPath, PredicateView, admits, admitted, at_path, satisfies, when_view, with_path,
};
use crate::schema::{
    CheckError, Registry, SchemaIdView, held, id_text, schema_violation, unknown_words,
};
use crate::table::lookup;
use crate::text::{
    cat3, cat4, cat5, cat7, decimal, decimal_of, join, joined, replace, replaced, same_text,
    texts,
};
use vstd::prelude::*;

verus! {

/// `std::time::SystemTime::now` since the Unix epoch, in milliseconds; nothing where it
/// is before the epoch. No more is said of it: it is what the clock says.
#[verifier::external_body]
fn clock_millis() -> (r: Option<u128>) {
    let now = std::time::SystemTime::now();
    now.duration_since(std::time::UNIX_EPOCH).ok().map(|elapsed| elapsed.as_millis())
}

/// Whether the clock, when asked, gave `elapsed`.
pub closed spec fn is_clock_millis(elapsed: Option<u128>) -> bool {
    call_ensures(clock_millis, (), elapsed)
}

/// A number of milliseconds as a stamp holds it: none before the epoch, and no more
/// than the largest number.
pub open spec fn stamped_millis(elapsed: Option<u128>) -> u64 {
    match elapsed {
        Some(millis) => if millis > u64::MAX {
            u64::MAX
        } else {
            millis as u64
        },
        None => 0,
    }
}

/// A number of milliseconds as a stamp holds it: none before the epoch, and no more
/// than the largest number.
pub fn stamp_millis(elapsed: Option<u128>) -> (r: u64)
    ensures
        r == stamped_millis(elapsed),
{
    match elapsed {
        Some(millis) => if millis > u64::MAX as u128 {
            u64::MAX
        } else {
            millis as u64
        },
        None => 0,
    }
}

/// `template` with each `{key}` replaced by `value`.
pub open spec fn put(template: Seq<char>, key: Seq<char>, value: Seq<char>) -> Seq<char> {
    replaced(template, "{"@ + key + "}"@, value)
}

/// `template` with each `{key}` replaced by `value`.
pub fn fill(template: &str, key: &str, value: &str) -> (r: String)
    ensures
        r@ == put(template@, key@, value@),
{
    let place = cat3("{", key, "}");
    replace(template, place.as_str(), value)
}

/// A text, or another where there is none.
pub open spec fn text_or(text: Option<String>, other: Seq<char>) -> Seq<char> {
    match text {
        Some(text) => text@,
        None => other,
    }
}

fn text_else<'a>(text: &'a Option<String>, other: &'a str) -> (r: &'a str)
    ensures
        r@ == text_or(*text, other@),
{
    match text {
        Some(text) => text.as_str(),
        None => other,
    }
}

/// The value of a whole number.
pub open spec fn number(n: u64) -> JsonView {
    JsonView::Number(NumberView::Int(n as int))
}

// ---------------------------------------------------------------------------
// Stamps and renames.
// ---------------------------------------------------------------------------

/// A record with a member stamped, where it is an object that has none.
pub open spec fn stamped_member(record: JsonView, name: Seq<char>, now: u64) -> JsonView {
    match record {
        JsonView::Object(fields) => JsonView::Object(with_absent(fields, name, number(now))),
        _ => record,
    }
}

/// A record with a member moved to another name, dropped where that is there.
pub open spec fn renamed_member(record: JsonView, from: Seq<char>, to: Seq<char>) -> JsonView {
    match record {
        JsonView::Object(fields) => match field(fields, from) {
            Some(value) => JsonView::Object(
                with_absent(without_field(fields, from), to, value),
            ),
            None => record,
        },
        _ => record,
    }
}

impl StampStep {
    /// The record with the step's member stamped.
    pub fn apply(&self, record: &Json, now: u64) -> (r: Json)
        ensures
            r@ == stamped_member(record@, self.member@, now),
    {
        broadcast use group_json_views;

        match record {
            Json::Object(fields) => {
                let mut out = copied_fields(fields);
                set_absent(&mut out, self.member.as_str(), Json::whole(now));
                Json::Object(out)
            },
            _ => record.copied(),
        }
    }
}

impl RenameStep {
    /// The record with the step's member moved.
    pub fn apply(&self, record: &Json) -> (r: Json)
        ensures
            r@ == renamed_member(record@, self.from@, self.to@),
    {
        broadcast use group_json_views;

        match record {
            Json::Object(fields) => match get_field(fields, self.from.as_str()) {
                Some(value) => {
                    let value = value.copied();
                    let mut out = fields_without(fields, self.from.as_str());
                    set_absent(&mut out, self.to.as_str(), value);
                    Json::Object(out)
                },
                None => record.copied(),
            },
            _ => record.copied(),
        }
    }
}

// ---------------------------------------------------------------------------
// Checks and versions.
// ---------------------------------------------------------------------------

/// The value a check looks at: `null` where the path holds none.
pub open spec fn checked_value(step: CheckStep, record: JsonView) -> JsonView {
    match step.at {
        Some(path) => match at_path(record, path@) {
            Some(value) => value,
            None => JsonView::Null,
        },
        None => record,
    }
}

/// What a check refused, in words: where, and what.
pub open spec fn violation_words(pointer: Seq<char>, message: Seq<char>) -> Seq<char> {
    if pointer.len() == 0 {
        message
    } else {
        "at "@ + pointer + ": "@ + message
    }
}

/// Why a value does not conform to a registered schema, in a layout's words.
pub open spec fn refused_check(
    registry: Seq<(SchemaIdView, JsonView)>,
    id: SchemaIdView,
    value: JsonView,
) -> Seq<char> {
    match held(registry, id) {
        Some(document) => {
            let found = schema_violation(settled(document), settled(value))->0;
            violation_words(found.0, found.1)
        },
        None => unknown_words(registry, id),
    }
}

/// What a violation is refused with.
pub fn check_refusal(refusal: &str, pointer: &str, message: &str) -> (r: String)
    ensures
        r@ == put(refusal@, "why"@, violation_words(pointer@, message@)),
{
    if pointer.is_empty() {
        fill(refusal, "why", message)
    } else {
        let why = cat4("at ", pointer, ": ", message);
        fill(refusal, "why", why.as_str())
    }
}

impl CheckStep {
    /// Refuses what the step's schema refuses.
    pub fn apply(&self, record: &Json, registry: &Registry) -> (r: Result<(), String>)
        ensures
            match r {
                Ok(()) => frame_conforms(
                    registry@,
                    self.schema@,
                    checked_value(*self, record@),
                ),
                Err(why) => !frame_conforms(
                    registry@,
                    self.schema@,
                    checked_value(*self, record@),
                ) && why@ == put(
                    self.refusal@,
                    "why"@,
                    refused_check(registry@, self.schema@, checked_value(*self, record@)),
                ),
            },
    {
        let nothing = Json::Null;
        let checked = match &self.at {
            Some(path) => match path.get(record) {
                Some(value) => value,
                None => &nothing,
            },
            None => record,
        };
        match registry.check(&self.schema, checked) {
            Ok(()) => Ok(()),
            Err(CheckError::Violation(violation)) => {
                let why = check_refusal(
                    self.refusal.as_str(),
                    violation.pointer.as_str(),
                    violation.message.as_str(),
                );
                Err(why)
            },
            Err(CheckError::Registry(failure)) => {
                let said = failure.message();
                Err(fill(self.refusal.as_str(), "why", said.as_str()))
            },
        }
    }
}

/// The record as a version step reads it: a version it reads is the one it
/// names.
pub open spec fn read_version(step: VersionStep, record: JsonView) -> JsonView {
    match at_path(record, step.at@) {
        Some(value) => match whole(value) {
            Some(found) => if step.reads@.contains(found) {
                with_path(record, step.at@, number(step.value))
            } else {
                record
            },
            None => record,
        },
        None => record,
    }
}

/// The version there, in words.
pub open spec fn found_words(found: Option<JsonView>) -> Seq<char> {
    match found {
        Some(value) => text_of(value),
        None => "none"@,
    }
}

/// What a version step refuses a record, as it reads it, with.
pub open spec fn version_fault(step: VersionStep, record: JsonView) -> Option<Seq<char>> {
    let found = at_path(record, step.at@);
    let version = match found {
        Some(value) => whole(value),
        None => None,
    };
    if step.required_when is Some && satisfies(step.required_when->0@, record) && version != Some(
        step.value,
    ) {
        Some(
            put(
                put(step.refusal@, "value"@, decimal(step.value as nat)),
                "found"@,
                found_words(found),
            ),
        )
    } else {
        None
    }
}

fn has_version_number(versions: &Vec<u64>, version: u64) -> (r: bool)
    ensures
        r == versions@.contains(version),
{
    let mut i: usize = 0;
    while i < versions.len()
        invariant
            i <= versions@.len(),
            forall|k: int| 0 <= k < i ==> versions@[k] != version,
        decreases versions@.len() - i,
    {
        if versions[i] == version {
            proof {
                assert(versions@[i as int] == version);
            }
            return true;
        }
        i += 1;
    }
    false
}

impl VersionStep {
    /// The record as the step reads it, refused where another version is
    /// required.
    pub fn apply(&self, record: &Json) -> (r: Result<Json, String>)
        ensures
            match r {
                Ok(read) => read@ == read_version(*self, record@) && version_fault(
                    *self,
                    read@,
                ) is None,
                Err(why) => version_fault(*self, read_version(*self, record@)) == Some(why@),
            },
    {
        let mut reads = false;
        if let Some(value) = self.at.get(record) {
            if let Some(found) = value.as_u64() {
                reads = has_version_number(&self.reads, found);
            }
        }
        let read = if reads {
            self.at.replaced(record, &Json::whole(self.value))
        } else {
            record.copied()
        };
        let required = match &self.required_when {
            Some(required) => required.matches(&read),
            None => false,
        };
        if required {
            let found = self.at.get(&read);
            let version = match found {
                Some(value) => value.as_u64(),
                None => None,
            };
            if version != Some(self.value) {
                let shown = match found {
                    Some(value) => value.render(),
                    None => "none".to_owned(),
                };
                let wanted = decimal_of(self.value);
                let first = fill(self.refusal.as_str(), "value", wanted.as_str());
                return Err(fill(first.as_str(), "found", shown.as_str()));
            }
        }
        Ok(read)
    }
}

// ---------------------------------------------------------------------------
// Grants.
// ---------------------------------------------------------------------------

/// What a grant step refuses a malformed record with.
pub open spec fn malformed_words(step: GrantStep, why: Seq<char>) -> Seq<char> {
    put(text_or(step.malformed, "{why}"@), "why"@, why)
}

/// The author a grant step finds, or what it refuses the record with.
pub open spec fn grant_author(step: GrantStep, record: JsonView) -> Result<Seq<char>, Seq<char>> {
    let named = joined(step.author@, "."@);
    match at_path(record, step.author@) {
        Some(JsonView::Str(word)) => Ok(word),
        Some(JsonView::Null) | None => match step.default_author {
            Some(author) => Ok(author@),
            None => Err(malformed_words(step, "`"@ + named + "` names no author"@)),
        },
        Some(_) => Err(malformed_words(step, "`"@ + named + "` is not text"@)),
    }
}

/// The op word at a path in an item.
pub open spec fn item_word(item: JsonView, op: Seq<Seq<char>>) -> Option<Seq<char>> {
    match at_path(item, op) {
        Some(JsonView::Str(word)) => Some(word),
        _ => None,
    }
}

/// The op words of items, or where the first that names none is.
pub open spec fn item_words(items: Seq<JsonView>, op: Seq<Seq<char>>) -> Result<
    Seq<Seq<char>>,
    int,
>
    decreases items.len(),
{
    if items.len() == 0 {
        Ok(Seq::empty())
    } else {
        match item_words(items.drop_last(), op) {
            Err(at) => Err(at),
            Ok(before) => match item_word(items.last(), op) {
                Some(word) => Ok(before.push(word)),
                None => Err(items.len() - 1),
            },
        }
    }
}

/// The op words a grant step finds, or what it refuses the record with.
pub open spec fn grant_words(step: GrantStep, record: JsonView) -> Result<
    Seq<Seq<char>>,
    Seq<char>,
> {
    match step.ops {
        GrantOps::AuthorOnly => Ok(Seq::empty()),
        GrantOps::Word(word) => Ok(seq![word.word@]),
        GrantOps::Each { each, op } => {
            let list = joined(each@, "."@);
            match at_path(record, each@) {
                None => Ok(Seq::empty()),
                Some(JsonView::Null) => Ok(Seq::empty()),
                Some(JsonView::Array(items)) => match item_words(items, op@) {
                    Ok(words) => Ok(words),
                    Err(at) => Err(
                        malformed_words(
                            step,
                            "`"@ + list + "["@ + decimal(at as nat) + "]` names no `"@ + joined(
                                op@,
                                "."@,
                            ) + "`"@,
                        ),
                    ),
                },
                Some(_) => Err(malformed_words(step, "`"@ + list + "` is not a list"@)),
            }
        },
    }
}

/// What a grant step refuses one op word of an author's with.
pub open spec fn word_fault(
    step: GrantStep,
    allowlist: Allowlist<OpWord>,
    author: Seq<char>,
    word: Seq<char>,
) -> Option<Seq<char>> {
    if !allowlist.ops().contains(word) {
        Some(
            put(
                put(
                    text_or(step.unknown, "'{op}' is not an op; the ops are: {ops}"@),
                    "op"@,
                    word,
                ),
                "ops"@,
                joined(allowlist.ops(), ", "@),
            ),
        )
    } else if !or_none(allowlist.granted_to(author)).contains(word) {
        Some(
            put(
                put(
                    put(
                        text_or(
                            step.refusal,
                            "'{op}' is not an op {author} may issue: {reason}"@,
                        ),
                        "op"@,
                        word,
                    ),
                    "author"@,
                    author,
                ),
                "reason"@,
                match allowlist.reason_for(author, word) {
                    Some(reason) => reason,
                    None => NOT_GRANTED@,
                },
            ),
        )
    } else {
        None
    }
}

/// What a grant step refuses the first of an author's op words with.
pub open spec fn words_fault(
    step: GrantStep,
    allowlist: Allowlist<OpWord>,
    author: Seq<char>,
    words: Seq<Seq<char>>,
    from: int,
) -> Option<Seq<char>>
    decreases words.len() - from,
{
    if from < 0 || from >= words.len() {
        None
    } else {
        first_of_two(
            word_fault(step, allowlist, author, words[from]),
            words_fault(step, allowlist, author, words, from + 1),
        )
    }
}

/// What a grant step refuses a record with: a record that names no author, an
/// author not declared, op words that are not text, and the first op word that
/// is none, or is not granted.
pub open spec fn grant_fault(
    step: GrantStep,
    record: JsonView,
    allowlist: Allowlist<OpWord>,
) -> Option<Seq<char>> {
    match grant_author(step, record) {
        Err(why) => Some(why),
        Ok(author) => if allowlist.granted_to(author) is None {
            Some(
                put(
                    put(
                        text_or(
                            step.undeclared,
                            "the author `{author}` is not declared; the declared authors are: {authors}"@,
                        ),
                        "author"@,
                        author,
                    ),
                    "authors"@,
                    joined(allowlist.author_names(), ", "@),
                ),
            )
        } else {
            match grant_words(step, record) {
                Err(why) => Some(why),
                Ok(words) => words_fault(step, allowlist, author, words, 0),
            }
        },
    }
}

proof fn lemma_item_words_err(items: Seq<JsonView>, n: int, op: Seq<Seq<char>>)
    requires
        0 <= n <= items.len(),
        item_words(items.take(n), op) is Err,
    ensures
        item_words(items, op) == item_words(items.take(n), op),
    decreases items.len(),
{
    if n == items.len() {
        assert(items.take(n) =~= items);
    } else {
        assert(items.drop_last().take(n) =~= items.take(n));
        lemma_item_words_err(items.drop_last(), n, op);
    }
}

fn words_of_items(items: &Vec<Json>, op: &FieldPath) -> (r: Result<Vec<String>, usize>)
    ensures
        match r {
            Ok(words) => item_words(items_view(items@), op@) is Ok && item_words(
                items_view(items@),
                op@,
            )->Ok_0 == texts(words@),
            Err(at) => item_words(items_view(items@), op@) is Err && item_words(
                items_view(items@),
                op@,
            )->Err_0 == at,
        },
{
    let ghost all = items_view(items@);
    let mut out: Vec<String> = Vec::new();
    let mut i: usize = 0;
    proof {
        assert(all.take(0) =~= Seq::<JsonView>::empty());
        assert(texts(out@) =~= Seq::<Seq<char>>::empty());
    }
    while i < items.len()
        invariant
            i <= items@.len(),
            all == items_view(items@),
            item_words(all.take(i as int), op@) is Ok,
            item_words(all.take(i as int), op@)->Ok_0 == texts(out@),
        decreases items@.len() - i,
    {
        let ghost before = texts(out@);
        proof {
            assert(all.take(i + 1).drop_last() =~= all.take(i as int));
            assert(all.take(i + 1).last() == items@[i as int]@);
        }
        match op.get(&items[i]) {
            Some(Json::Str(word)) => {
                out.push(word.clone());
                proof {
                    assert(texts(out@) =~= before.push(word@));
                }
            },
            _ => {
                proof {
                    lemma_item_words_err(all, i + 1, op@);
                }
                return Err(i);
            },
        }
        i += 1;
    }
    proof {
        assert(all.take(i as int) =~= all);
    }
    Ok(out)
}

impl GrantStep {
    fn malformed(&self, why: &str) -> (r: String)
        ensures
            r@ == malformed_words(*self, why@),
    {
        fill(text_else(&self.malformed, "{why}"), "why", why)
    }

    fn author_in(&self, record: &Json) -> (r: Result<Author, String>)
        ensures
            match r {
                Ok(author) => grant_author(*self, record@) is Ok && grant_author(
                    *self,
                    record@,
                )->Ok_0 == author@,
                Err(why) => grant_author(*self, record@) is Err && grant_author(
                    *self,
                    record@,
                )->Err_0 == why@,
            },
    {
        let named = self.author.to_text();
        match self.author.get(record) {
            Some(Json::Str(word)) => Ok(Author::new(word.as_str())),
            Some(Json::Null) => match &self.default_author {
                Some(author) => Ok(author.clone()),
                None => {
                    let why = cat3("`", named.as_str(), "` names no author");
                    Err(self.malformed(why.as_str()))
                },
            },
            None => match &self.default_author {
                Some(author) => Ok(author.clone()),
                None => {
                    let why = cat3("`", named.as_str(), "` names no author");
                    Err(self.malformed(why.as_str()))
                },
            },
            Some(_) => {
                let why = cat3("`", named.as_str(), "` is not text");
                Err(self.malformed(why.as_str()))
            },
        }
    }

    fn words_in_record(&self, record: &Json) -> (r: Result<Vec<String>, String>)
        ensures
            match r {
                Ok(words) => grant_words(*self, record@) is Ok && grant_words(
                    *self,
                    record@,
                )->Ok_0 == texts(words@),
                Err(why) => grant_words(*self, record@) is Err && grant_words(
                    *self,
                    record@,
                )->Err_0 == why@,
            },
    {
        broadcast use group_json_views;

        let none: Vec<String> = Vec::new();
        proof {
            assert(texts(none@) =~= Seq::<Seq<char>>::empty());
        }
        match &self.ops {
            GrantOps::AuthorOnly => Ok(none),
            GrantOps::Word(word) => {
                let mut one: Vec<String> = Vec::new();
                one.push(word.word.clone());
                proof {
                    assert(texts(one@) =~= seq![word.word@]);
                }
                Ok(one)
            },
            GrantOps::Each { each, op } => {
                let list = each.to_text();
                match each.get(record) {
                    None => Ok(none),
                    Some(Json::Null) => Ok(none),
                    Some(Json::Array(items)) => match words_of_items(items, op) {
                        Ok(words) => Ok(words),
                        Err(at) => {
                            let here = decimal_of(at as u64);
                            let within = op.to_text();
                            let why = cat7(
                                "`",
                                list.as_str(),
                                "[",
                                here.as_str(),
                                "]` names no `",
                                within.as_str(),
                                "`",
                            );
                            Err(self.malformed(why.as_str()))
                        },
                    },
                    Some(_) => {
                        let why = cat3("`", list.as_str(), "` is not a list");
                        Err(self.malformed(why.as_str()))
                    },
                }
            },
        }
    }

    fn check_word(&self, allowlist: &Allowlist<OpWord>, author: &Author, word: &str) -> (r: Result<
        (),
        String,
    >)
        ensures
            match r {
                Ok(()) => word_fault(*self, *allowlist, author@, word@) is None,
                Err(why) => word_fault(*self, *allowlist, author@, word@) == Some(why@),
            },
    {
        if allowlist.op(word).is_none() {
            let listed = allowlist.op_list();
            let first = fill(
                text_else(&self.unknown, "'{op}' is not an op; the ops are: {ops}"),
                "op",
                word,
            );
            return Err(fill(first.as_str(), "ops", listed.as_str()));
        }
        let op = OpWord { word: word.to_owned() };
        match allowlist.allows(author, &op) {
            Ok(()) => Ok(()),
            Err(refusal) => {
                let first = fill(
                    text_else(&self.refusal, "'{op}' is not an op {author} may issue: {reason}"),
                    "op",
                    refusal.op.as_str(),
                );
                let second = fill(first.as_str(), "author", refusal.author.as_str());
                Err(fill(second.as_str(), "reason", refusal.reason.as_str()))
            },
        }
    }

    /// Refuses an author not declared, and each op word it is not granted.
    pub fn apply(&self, record: &Json, allowlist: &Allowlist<OpWord>) -> (r: Result<(), String>)
        ensures
            match r {
                Ok(()) => grant_fault(*self, record@, *allowlist) is None,
                Err(why) => grant_fault(*self, record@, *allowlist) == Some(why@),
            },
    {
        let author = match self.author_in(record) {
            Ok(author) => author,
            Err(why) => {
                return Err(why);
            },
        };
        if !allowlist.declares(&author) {
            let names = allowlist.authors();
            let listed = join(&names, ", ");
            let first = fill(
                text_else(
                    &self.undeclared,
                    "the author `{author}` is not declared; the declared authors are: {authors}",
                ),
                "author",
                author.as_str(),
            );
            return Err(fill(first.as_str(), "authors", listed.as_str()));
        }
        let words = match self.words_in_record(record) {
            Ok(words) => words,
            Err(why) => {
                return Err(why);
            },
        };
        let ghost all = texts(words@);
        let mut i: usize = 0;
        while i < words.len()
            invariant
                i <= words@.len(),
                all == texts(words@),
                grant_author(*self, record@) is Ok,
                grant_author(*self, record@)->Ok_0 == author@,
                allowlist.granted_to(author@) is Some,
                grant_words(*self, record@) is Ok,
                grant_words(*self, record@)->Ok_0 == all,
                words_fault(*self, *allowlist, author@, all, 0) == words_fault(
                    *self,
                    *allowlist,
                    author@,
                    all,
                    i as int,
                ),
            decreases words@.len() - i,
        {
            proof {
                assert(all[i as int] == words@[i as int]@);
            }
            if let Err(why) = self.check_word(allowlist, &author, words[i].as_str()) {
                return Err(why);
            }
            i += 1;
        }
        Ok(())
    }
}

// ---------------------------------------------------------------------------
// Routes.
// ---------------------------------------------------------------------------

/// Whether a routed member is there: present, not `null`, not an empty list.
pub open spec fn member_there(fields: Seq<(Seq<char>, JsonView)>, name: Seq<char>) -> bool {
    match field(fields, name) {
        None => false,
        Some(JsonView::Null) => false,
        Some(JsonView::Array(items)) => items.len() > 0,
        Some(_) => true,
    }
}

/// Whether any of several members is there.
pub open spec fn any_there(fields: Seq<(Seq<char>, JsonView)>, names: Seq<Seq<char>>) -> bool {
    exists|i: int| 0 <= i < names.len() && member_there(fields, #[trigger] names[i])
}

/// Those of several members a record has, in the order they are named.
pub open spec fn taken_members(
    fields: Seq<(Seq<char>, JsonView)>,
    names: Seq<Seq<char>>,
) -> Seq<(Seq<char>, JsonView)>
    decreases names.len(),
{
    if names.len() == 0 {
        Seq::empty()
    } else {
        let before = taken_members(fields, names.drop_last());
        match field(fields, names.last()) {
            Some(value) => with_field(before, names.last(), value),
            None => before,
        }
    }
}

/// Members stamped, each where it is not there.
pub open spec fn stamped_all(
    fields: Seq<(Seq<char>, JsonView)>,
    names: Seq<Seq<char>>,
    now: u64,
) -> Seq<(Seq<char>, JsonView)>
    decreases names.len(),
{
    if names.len() == 0 {
        fields
    } else {
        with_absent(stamped_all(fields, names.drop_last(), now), names.last(), number(now))
    }
}

/// What a route makes of a record.
pub open spec fn projected(route: Route, fields: Seq<(Seq<char>, JsonView)>, now: u64) -> JsonView {
    let taken = taken_members(fields, member_names(route.take@));
    let base = match route.under {
        Some(under) => seq![(under@, JsonView::Object(taken))],
        None => taken,
    };
    JsonView::Object(stamped_all(base, member_names(route.stamp@), now))
}

/// Whether a record takes a route.
pub open spec fn takes_route(route: Route, fields: Seq<(Seq<char>, JsonView)>) -> bool {
    any_there(fields, member_names(route.on@))
}

/// The records the routes a record takes make of it, in the order declared.
pub open spec fn routed_by(
    routes: Seq<Route>,
    fields: Seq<(Seq<char>, JsonView)>,
    now: u64,
) -> Seq<(Seq<char>, JsonView)>
    decreases routes.len(),
{
    if routes.len() == 0 {
        Seq::empty()
    } else {
        let before = routed_by(routes.drop_last(), fields, now);
        if takes_route(routes.last(), fields) {
            before.push((routes.last().queue@, projected(routes.last(), fields, now)))
        } else {
            before
        }
    }
}

/// The first route to a queue.
pub open spec fn route_to(routes: Seq<Route>, queue: Seq<char>) -> Option<Route>
    decreases routes.len(),
{
    if routes.len() == 0 {
        None
    } else if routes[0].queue@ == queue {
        Some(routes[0])
    } else {
        route_to(routes.skip(1), queue)
    }
}

/// What a route step makes of a record: what the routes it takes do, what the
/// fallback route does where it takes none, and nothing where there is none.
pub open spec fn routes_of(step: RouteStep, record: JsonView, now: u64) -> Option<
    Seq<(Seq<char>, JsonView)>,
> {
    match record {
        JsonView::Object(fields) => {
            let taken = routed_by(step.routes@, fields, now);
            if taken.len() > 0 {
                Some(taken)
            } else {
                match step.fallback {
                    None => None,
                    Some(queue) => match route_to(step.routes@, queue@) {
                        Some(route) => Some(seq![(route.queue@, projected(route, fields, now))]),
                        None => None,
                    },
                }
            }
        },
        _ => None,
    }
}

/// Records, each with the queue it goes to.
pub open spec fn routed_view(routed: Seq<(QueueName, Json)>) -> Seq<(Seq<char>, JsonView)> {
    Seq::new(routed.len(), |i: int| (routed[i].0@, routed[i].1@))
}

fn carries(fields: &Vec<(String, Json)>, name: &str) -> (r: bool)
    ensures
        r == member_there(fields_view(fields@), name@),
{
    broadcast use group_json_views;

    match get_field(fields, name) {
        None => false,
        Some(Json::Null) => false,
        Some(Json::Array(items)) => items.len() > 0,
        Some(_) => true,
    }
}

impl Route {
    fn is_taken(&self, fields: &Vec<(String, Json)>) -> (r: bool)
        ensures
            r == takes_route(*self, fields_view(fields@)),
    {
        let on = self.on.items();
        let ghost names = member_names(self.on@);
        let mut i: usize = 0;
        while i < on.len()
            invariant
                i <= on@.len(),
                on@ == self.on@,
                names == member_names(on@),
                forall|k: int|
                    0 <= k < i ==> !member_there(fields_view(fields@), #[trigger] names[k]),
            decreases on@.len() - i,
        {
            proof {
                assert(names[i as int] == on@[i as int]@);
            }
            if carries(fields, on[i].as_str()) {
                return true;
            }
            i += 1;
        }
        false
    }

    fn project(&self, fields: &Vec<(String, Json)>, now: u64) -> (r: Json)
        ensures
            r@ == projected(*self, fields_view(fields@), now),
    {
        broadcast use group_json_views;

        let take = self.take.items();
        let ghost names = member_names(self.take@);
        let mut taken: Vec<(String, Json)> = Vec::new();
        let mut i: usize = 0;
        proof {
            assert(names.take(0) =~= Seq::<Seq<char>>::empty());
            assert(fields_view(taken@) =~= Seq::<(Seq<char>, JsonView)>::empty());
        }
        while i < take.len()
            invariant
                i <= take@.len(),
                take@ == self.take@,
                names == member_names(take@),
                fields_view(taken@) == taken_members(
                    fields_view(fields@),
                    names.take(i as int),
                ),
            decreases take@.len() - i,
        {
            proof {
                assert(names.take(i + 1).drop_last() =~= names.take(i as int));
                assert(names.take(i + 1).last() == take@[i as int]@);
            }
            if let Some(value) = get_field(fields, take[i].as_str()) {
                set_field(&mut taken, take[i].as_str(), value.copied());
            }
            i += 1;
        }
        proof {
            assert(names.take(i as int) =~= names);
        }
        let mut out = match &self.under {
            Some(under) => {
                let mut wrapped: Vec<(String, Json)> = Vec::new();
                let inner = Json::Object(taken);
                wrapped.push((under.as_str().to_owned(), inner));
                proof {
                    assert(fields_view(wrapped@) =~= seq![(under@, inner@)]);
                }
                wrapped
            },
            None => taken,
        };
        let ghost base = fields_view(out@);
        let ghost stamps = member_names(self.stamp@);
        let mut j: usize = 0;
        proof {
            assert(stamps.take(0) =~= Seq::<Seq<char>>::empty());
        }
        while j < self.stamp.len()
            invariant
                j <= self.stamp@.len(),
                stamps == member_names(self.stamp@),
                fields_view(out@) == stamped_all(base, stamps.take(j as int), now),
            decreases self.stamp@.len() - j,
        {
            proof {
                assert(stamps.take(j + 1).drop_last() =~= stamps.take(j as int));
                assert(stamps.take(j + 1).last() == self.stamp@[j as int]@);
            }
            set_absent(&mut out, self.stamp[j].as_str(), Json::whole(now));
            j += 1;
        }
        proof {
            assert(stamps.take(j as int) =~= stamps);
        }
        Json::Object(out)
    }
}

impl RouteStep {
    /// What the step makes of a record.
    pub fn apply(&self, record: &Json, now: u64) -> (r: Option<Vec<(QueueName, Json)>>)
        ensures
            match r {
                Some(routed) => routes_of(*self, record@, now) == Some(routed_view(routed@)),
                None => routes_of(*self, record@, now) is None,
            },
    {
        broadcast use group_json_views;

        let fields = match record {
            Json::Object(fields) => fields,
            _ => {
                return None;
            },
        };
        let routes = self.routes.items();
        let ghost all = self.routes@;
        let ghost members = fields_view(fields@);
        let mut out: Vec<(QueueName, Json)> = Vec::new();
        let mut i: usize = 0;
        proof {
            assert(all.take(0) =~= Seq::<Route>::empty());
            assert(routed_view(out@) =~= Seq::<(Seq<char>, JsonView)>::empty());
        }
        while i < routes.len()
            invariant
                i <= routes@.len(),
                routes@ == all,
                members == fields_view(fields@),
                routed_view(out@) == routed_by(all.take(i as int), members, now),
            decreases routes@.len() - i,
        {
            let ghost before = routed_view(out@);
            proof {
                assert(all.take(i + 1).drop_last() =~= all.take(i as int));
                assert(all.take(i + 1).last() == routes@[i as int]);
            }
            if routes[i].is_taken(fields) {
                out.push((routes[i].queue.clone(), routes[i].project(fields, now)));
                proof {
                    assert(routed_view(out@) =~= before.push(
                        (routes@[i as int].queue@, projected(routes@[i as int], members, now)),
                    ));
                }
            }
            i += 1;
        }
        proof {
            assert(all.take(i as int) =~= all);
            assert(routed_view(out@).len() == out@.len());
        }
        if out.len() > 0 {
            return Some(out);
        }
        let fallback = match &self.fallback {
            Some(fallback) => fallback,
            None => {
                return None;
            },
        };
        let mut j: usize = 0;
        proof {
            assert(all.skip(0) =~= all);
        }
        while j < routes.len()
            invariant
                j <= routes@.len(),
                routes@ == all,
                all == self.routes@,
                members == fields_view(fields@),
                record@ == JsonView::Object(members),
                routed_by(all, members, now).len() == 0,
                self.fallback == Some(*fallback),
                route_to(all, fallback@) == route_to(all.skip(j as int), fallback@),
            decreases routes@.len() - j,
        {
            proof {
                assert(all.skip(j as int)[0] == routes@[j as int]);
                assert(all.skip(j as int).skip(1) =~= all.skip(j + 1));
            }
            if same_text(routes[j].queue.as_str(), fallback.as_str()) {
                let mut one: Vec<(QueueName, Json)> = Vec::new();
                one.push((routes[j].queue.clone(), routes[j].project(fields, now)));
                proof {
                    assert(routed_view(one@) =~= seq![
                        (routes@[j as int].queue@, projected(routes@[j as int], members, now)),
                    ]);
                }
                return Some(one);
            }
            j += 1;
        }
        None
    }
}

// ---------------------------------------------------------------------------
// All the steps.
// ---------------------------------------------------------------------------

/// When a step runs.
pub open spec fn step_when(step: PrepareStep) -> Option<PredicateView> {
    match step {
        PrepareStep::Stamp(step) => when_view(step.when),
        PrepareStep::Rename(step) => when_view(step.when),
        PrepareStep::Check(step) => when_view(step.when),
        PrepareStep::Version(step) => when_view(step.when),
        PrepareStep::Grant(step) => when_view(step.when),
        PrepareStep::Route(step) => when_view(step.when),
    }
}

/// What an offer is prepared against.
pub struct Preparing {
    pub queue: Seq<char>,
    pub registry: Seq<(SchemaIdView, JsonView)>,
    pub allowlist: Allowlist<OpWord>,
    pub now: u64,
}

/// Whether `result` is what steps, from `from` on, make of a record routed so
/// far as `routed`: the records it becomes, or the first refusal.
pub open spec fn prepares(
    with: Preparing,
    steps: Seq<PrepareStep>,
    from: int,
    record: JsonView,
    routed: Option<Seq<(Seq<char>, JsonView)>>,
    result: Result<Seq<(Seq<char>, JsonView)>, Seq<char>>,
) -> bool
    decreases steps.len() - from,
{
    if from < 0 || from >= steps.len() {
        result == Ok::<Seq<(Seq<char>, JsonView)>, Seq<char>>(
            match routed {
                Some(routed) => routed,
                None => seq![(with.queue, record)],
            },
        )
    } else if !admits(step_when(steps[from]), record) {
        prepares(with, steps, from + 1, record, routed, result)
    } else {
        match steps[from] {
            PrepareStep::Stamp(step) => prepares(
                with,
                steps,
                from + 1,
                stamped_member(record, step.member@, with.now),
                routed,
                result,
            ),
            PrepareStep::Rename(step) => prepares(
                with,
                steps,
                from + 1,
                renamed_member(record, step.from@, step.to@),
                routed,
                result,
            ),
            PrepareStep::Check(step) => if frame_conforms(
                with.registry,
                step.schema@,
                checked_value(step, record),
            ) {
                prepares(with, steps, from + 1, record, routed, result)
            } else {
                result is Err && result->Err_0 == put(
                    step.refusal@,
                    "why"@,
                    refused_check(with.registry, step.schema@, checked_value(step, record)),
                )
            },
            PrepareStep::Version(step) => match version_fault(step, read_version(step, record)) {
                Some(why) => result == Err::<Seq<(Seq<char>, JsonView)>, Seq<char>>(why),
                None => prepares(
                    with,
                    steps,
                    from + 1,
                    read_version(step, record),
                    routed,
                    result,
                ),
            },
            PrepareStep::Grant(step) => match grant_fault(step, record, with.allowlist) {
                Some(why) => result == Err::<Seq<(Seq<char>, JsonView)>, Seq<char>>(why),
                None => prepares(with, steps, from + 1, record, routed, result),
            },
            PrepareStep::Route(step) => prepares(
                with,
                steps,
                from + 1,
                record,
                routes_of(step, record, with.now),
                result,
            ),
        }
    }
}

/// What a preparation came to.
pub open spec fn outcome_view(outcome: Result<Vec<(QueueName, Json)>, String>) -> Result<
    Seq<(Seq<char>, JsonView)>,
    Seq<char>,
> {
    match outcome {
        Ok(routed) => Ok(routed_view(routed@)),
        Err(why) => Err(why@),
    }
}

/// Records routed so far.
pub open spec fn so_far(routed: Option<Vec<(QueueName, Json)>>) -> Option<
    Seq<(Seq<char>, JsonView)>,
> {
    match routed {
        Some(routed) => Some(routed_view(routed@)),
        None => None,
    }
}

impl PrepareStep {
    /// Whether the step runs on a record.
    fn runs(&self, record: &Json) -> (r: bool)
        ensures
            r == admits(step_when(*self), record@),
    {
        match self {
            PrepareStep::Stamp(step) => admitted(&step.when, record),
            PrepareStep::Rename(step) => admitted(&step.when, record),
            PrepareStep::Check(step) => admitted(&step.when, record),
            PrepareStep::Version(step) => admitted(&step.when, record),
            PrepareStep::Grant(step) => admitted(&step.when, record),
            PrepareStep::Route(step) => admitted(&step.when, record),
        }
    }
}

/// What is wrong with the first check of a queue's steps, from `from` on, of a
/// schema the registry does not hold.
pub open spec fn unheld_check(
    registry: Seq<(SchemaIdView, JsonView)>,
    queue: Seq<char>,
    steps: Seq<PrepareStep>,
    from: int,
) -> Option<Seq<char>>
    decreases steps.len() - from,
{
    if from < 0 || from >= steps.len() {
        None
    } else {
        match steps[from] {
            PrepareStep::Check(step) => if held(registry, step.schema@) is None {
                Some(
                    "prepare."@ + queue + "["@ + decimal(from as nat) + "].check.schema: "@
                        + id_text(step.schema@) + " is not a schema a linked bundle carries"@,
                )
            } else {
                unheld_check(registry, queue, steps, from + 1)
            },
            _ => unheld_check(registry, queue, steps, from + 1),
        }
    }
}

/// What is wrong with the first queue's checks, from `from` on.
pub open spec fn unheld_checks(
    registry: Seq<(SchemaIdView, JsonView)>,
    prepare: Seq<(Seq<char>, Vec<PrepareStep>)>,
    from: int,
) -> Option<Seq<char>>
    decreases prepare.len() - from,
{
    if from < 0 || from >= prepare.len() {
        None
    } else {
        first_of_two(
            unheld_check(registry, prepare[from].0, prepare[from].1@, 0),
            unheld_checks(registry, prepare, from + 1),
        )
    }
}

/// A [`LayoutDocument`] bound to the schemas the bundles that link it carry.
#[derive(Debug)]
pub struct LinkedLayout {
    document: LayoutDocument,
    registry: Registry,
}

impl LinkedLayout {
    /// What the document's keys say.
    pub closed spec fn parts(&self) -> LayoutParts {
        self.document.parts()
    }

    /// The schemas it is bound to.
    pub closed spec fn schemas(&self) -> Seq<(SchemaIdView, JsonView)> {
        self.registry@
    }

    #[verifier::type_invariant]
    closed spec fn well_formed(&self) -> bool {
        unheld_checks(self.registry@, self.document.parts().prepare, 0) is None
    }

    /// `document`, bound to the schemas `registry` holds: refused where a check
    /// step names one it does not, naming its key.
    pub fn new(document: LayoutDocument, registry: Registry) -> (r: Result<Self, String>)
        ensures
            match r {
                Ok(layout) => unheld_checks(registry@, document.parts().prepare, 0) is None
                    && layout.parts() == document.parts() && layout.schemas() == registry@,
                Err(why) => unheld_checks(registry@, document.parts().prepare, 0) == Some(why@),
            },
    {
        let prepare = document.prepare();
        let mut i: usize = 0;
        while i < prepare.len()
            invariant
                i <= prepare@.len(),
                prepare@ == document.parts().prepare,
                unheld_checks(registry@, prepare@, 0) == unheld_checks(
                    registry@,
                    prepare@,
                    i as int,
                ),
            decreases prepare@.len() - i,
        {
            let queue = prepare.name_at(i);
            let steps = prepare.value_at(i);
            let mut j: usize = 0;
            while j < steps.len()
                invariant
                    i < prepare@.len(),
                    j <= steps@.len(),
                    prepare@ == document.parts().prepare,
                    prepare@[i as int].0 == queue@,
                    prepare@[i as int].1 == *steps,
                    unheld_checks(registry@, prepare@, 0) == unheld_checks(
                        registry@,
                        prepare@,
                        i as int,
                    ),
                    unheld_check(registry@, queue@, steps@, 0) == unheld_check(
                        registry@,
                        queue@,
                        steps@,
                        j as int,
                    ),
                decreases steps@.len() - j,
            {
                if let PrepareStep::Check(step) = &steps[j] {
                    if registry.schema(&step.schema).is_none() {
                        let here = decimal_of(j as u64);
                        let id = step.schema.to_text();
                        let key = cat5("prepare.", queue, "[", here.as_str(), "].check.schema: ");
                        return Err(
                            cat3(
                                key.as_str(),
                                id.as_str(),
                                " is not a schema a linked bundle carries",
                            ),
                        );
                    }
                }
                j += 1;
            }
            i += 1;
        }
        Ok(LinkedLayout { document, registry })
    }

    /// The document.
    pub fn document(&self) -> (r: &LayoutDocument)
        ensures
            r.parts() == self.parts(),
    {
        &self.document
    }

    /// The schemas.
    pub fn schema_registry(&self) -> (r: &Registry)
        ensures
            r@ == self.schemas(),
    {
        &self.registry
    }

    /// The records an offer to `queue` becomes at `now`, in the order they are
    /// pushed: the document's steps for the queue, in order.
    pub fn prepare_at(
        &self,
        queue: &QueueName,
        record: &Json,
        allowlist: &Allowlist<OpWord>,
        now: u64,
    ) -> (r: Result<Vec<(QueueName, Json)>, String>)
        ensures
            prepares(
                Preparing {
                    queue: queue@,
                    registry: self.schemas(),
                    allowlist: *allowlist,
                    now,
                },
                steps_for(self.parts(), queue@),
                0,
                record@,
                None,
                outcome_view(r),
            ),
    {
        let ghost with = Preparing {
            queue: queue@,
            registry: self.schemas(),
            allowlist: *allowlist,
            now,
        };
        let ghost all = steps_for(self.parts(), queue@);
        let none: Vec<PrepareStep> = Vec::new();
        let steps = match self.document.prepare().get(queue.as_str()) {
            Some(steps) => steps,
            None => &none,
        };
        proof {
            assert(steps@ =~= all);
        }
        let mut current = record.copied();
        let mut routed: Option<Vec<(QueueName, Json)>> = None;
        let mut i: usize = 0;
        while i < steps.len()
            invariant
                i <= steps@.len(),
                steps@ == all,
                all == steps_for(self.parts(), queue@),
                with == (Preparing {
                    queue: queue@,
                    registry: self.schemas(),
                    allowlist: *allowlist,
                    now,
                }),
                forall|result: Result<Seq<(Seq<char>, JsonView)>, Seq<char>>|
                    #![trigger prepares(with, all, 0, record@, None, result)]
                    prepares(with, all, i as int, current@, so_far(routed), result) ==> prepares(
                        with,
                        all,
                        0,
                        record@,
                        None,
                        result,
                    ),
            decreases steps@.len() - i,
        {
            if steps[i].runs(&current) {
                match &steps[i] {
                    PrepareStep::Stamp(step) => {
                        current = step.apply(&current, now);
                    },
                    PrepareStep::Rename(step) => {
                        current = step.apply(&current);
                    },
                    PrepareStep::Check(step) => {
                        if let Err(why) = step.apply(&current, &self.registry) {
                            let outcome: Result<Vec<(QueueName, Json)>, String> = Err(why);
                            proof {
                                assert(prepares(
                                    with,
                                    all,
                                    i as int,
                                    current@,
                                    so_far(routed),
                                    outcome_view(outcome),
                                ));
                                assert(prepares(
                                    with,
                                    all,
                                    0,
                                    record@,
                                    None,
                                    outcome_view(outcome),
                                ));
                            }
                            return outcome;
                        }
                    },
                    PrepareStep::Version(step) => match step.apply(&current) {
                        Ok(read) => {
                            current = read;
                        },
                        Err(why) => {
                            let outcome: Result<Vec<(QueueName, Json)>, String> = Err(why);
                            proof {
                                assert(prepares(
                                    with,
                                    all,
                                    i as int,
                                    current@,
                                    so_far(routed),
                                    outcome_view(outcome),
                                ));
                                assert(prepares(
                                    with,
                                    all,
                                    0,
                                    record@,
                                    None,
                                    outcome_view(outcome),
                                ));
                            }
                            return outcome;
                        },
                    },
                    PrepareStep::Grant(step) => {
                        if let Err(why) = step.apply(&current, allowlist) {
                            let outcome: Result<Vec<(QueueName, Json)>, String> = Err(why);
                            proof {
                                assert(prepares(
                                    with,
                                    all,
                                    i as int,
                                    current@,
                                    so_far(routed),
                                    outcome_view(outcome),
                                ));
                                assert(prepares(
                                    with,
                                    all,
                                    0,
                                    record@,
                                    None,
                                    outcome_view(outcome),
                                ));
                            }
                            return outcome;
                        }
                    },
                    PrepareStep::Route(step) => {
                        routed = step.apply(&current, now);
                    },
                }
            }
            i += 1;
        }
        let ghost ended = so_far(routed);
        let outcome: Result<Vec<(QueueName, Json)>, String> = match routed {
            Some(routed) => Ok(routed),
            None => {
                let mut one: Vec<(QueueName, Json)> = Vec::new();
                let ghost kept = current@;
                one.push((queue.clone(), current));
                proof {
                    assert(routed_view(one@) =~= seq![(queue@, kept)]);
                }
                Ok(one)
            },
        };
        proof {
            assert(prepares(with, all, i as int, current@, ended, outcome_view(outcome)));
        }
        outcome
    }

    /// The records an offer to `queue` becomes now.
    pub fn prepare_now(&self, queue: &QueueName, record: &Json, allowlist: &Allowlist<OpWord>) -> (r:
        Result<Vec<(QueueName, Json)>, String>)
        ensures
            exists|elapsed: Option<u128>| #[trigger]
                is_clock_millis(elapsed) && prepares(
                    preparing_at(
                        queue@,
                        self.schemas(),
                        *allowlist,
                        stamped_millis(elapsed),
                    ),
                    steps_for(self.parts(), queue@),
                    0,
                    record@,
                    None,
                    outcome_view(r),
                ),
    {
        let elapsed = clock_millis();
        let now = stamp_millis(elapsed);
        let r = self.prepare_at(queue, record, allowlist, now);
        proof {
            assert(is_clock_millis(elapsed));
            let with = preparing_at(queue@, self.schemas(), *allowlist, now);
            assert(prepares(
                with,
                steps_for(self.parts(), queue@),
                0,
                record@,
                None,
                outcome_view(r),
            ));
        }
        r
    }
}

/// What an offer is prepared against at a time.
pub open spec fn preparing_at(
    queue: Seq<char>,
    registry: Seq<(SchemaIdView, JsonView)>,
    allowlist: Allowlist<OpWord>,
    now: u64,
) -> Preparing {
    Preparing { queue, registry, allowlist, now }
}

/// A queue's steps: none where the document names none.
pub open spec fn steps_for(parts: LayoutParts, queue: Seq<char>) -> Seq<PrepareStep> {
    match lookup(parts.prepare, queue) {
        Some(steps) => steps@,
        None => Seq::empty(),
    }
}

/// A queue with no steps keeps what is offered.
pub proof fn unprepared_queue_keeps_the_offer(
    with: Preparing,
    parts: LayoutParts,
    record: JsonView,
    result: Result<Seq<(Seq<char>, JsonView)>, Seq<char>>,
)
    requires
        lookup(parts.prepare, with.queue) is None,
        prepares(with, steps_for(parts, with.queue), 0, record, None, result),
    ensures
        result == Ok::<Seq<(Seq<char>, JsonView)>, Seq<char>>(seq![(with.queue, record)]),
{
}

} // verus!
