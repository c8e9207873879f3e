//! Tests of one record: a field found by its path, and what is asked of it.

use crate::json::{
    Json, JsonView, copied_fields, field, get_field, group_json_views, member, same, set_field,
    with_field,
};
use crate::text::{
    blank, cat2, cat3, cat4, cat5, copied_texts, is_blank, join, joined, quoted, quoted_of,
    split, split_on, texts,
};
use vstd::prelude::*;

verus! {

// ---------------------------------------------------------------------------
// Paths.
// ---------------------------------------------------------------------------

/// The value at a path: each step the key of an object that holds it.
pub open spec fn at_path(value: JsonView, steps: Seq<Seq<char>>) -> Option<JsonView>
    decreases steps.len(),
{
    if steps.len() == 0 {
        Some(value)
    } else {
        match member(value, steps[0]) {
            Some(inner) => at_path(inner, steps.skip(1)),
            None => None,
        }
    }
}

/// `value` with what is at a path replaced by `new`; as it is where nothing is
/// there.
pub open spec fn with_path(value: JsonView, steps: Seq<Seq<char>>, new: JsonView) -> JsonView
    decreases steps.len(),
{
    if steps.len() == 0 {
        new
    } else {
        match value {
            JsonView::Object(fields) => match field(fields, steps[0]) {
                Some(inner) => JsonView::Object(
                    with_field(fields, steps[0], with_path(inner, steps.skip(1), new)),
                ),
                None => value,
            },
            _ => value,
        }
    }
}

/// A dotted path to a field of a record: `source`, `reply.completion`.
#[derive(Debug, PartialEq, Eq, Hash)]
pub struct FieldPath {
    steps: Vec<String>,
}

/// Why text is not a [`FieldPath`].
#[derive(Debug, PartialEq, Eq)]
pub struct FieldPathError {
    /// What was offered.
    pub text: String,
    /// What is wrong with it.
    pub why: String,
}

impl FieldPathError {
    /// The refusal in words.
    pub fn message(&self) -> (r: String)
        ensures
            r@ == quoted(self.text@) + " is not a field path: "@ + self.why@
                + "; a field path is object keys joined by `.`, e.g. reply.completion"@,
    {
        let text = quoted_of(self.text.as_str());
        cat4(
            text.as_str(),
            " is not a field path: ",
            self.why.as_str(),
            "; a field path is object keys joined by `.`, e.g. reply.completion",
        )
    }
}

impl View for FieldPath {
    type V = Seq<Seq<char>>;

    closed spec fn view(&self) -> Seq<Seq<char>> {
        texts(self.steps@)
    }
}

/// Whether every key of a path is more than white space.
pub open spec fn is_path(steps: Seq<Seq<char>>) -> bool {
    forall|i: int| 0 <= i < steps.len() ==> !is_blank(#[trigger] steps[i])
}

/// The keys of `text`, cut at each `.`, joined by `.` again are `text`.
pub proof fn lemma_join_of_split(text: Seq<char>, sep: char)
    ensures
        joined(split_on(text, sep), seq![sep]) == text,
        split_on(text, sep).len() > 0,
    decreases text.len(),
{
    let parts = split_on(text, sep);
    if text.len() == 0 {
        assert(parts =~= seq![Seq::<char>::empty()]);
        assert(joined(parts, seq![sep]) =~= text);
    } else {
        let before = split_on(text.drop_last(), sep);
        lemma_join_of_split(text.drop_last(), sep);
        assert(text =~= text.drop_last().push(text.last()));
        if text.last() == sep {
            assert(parts.drop_last() =~= before);
            assert(joined(parts, seq![sep]) =~= text);
        } else {
            let grown = before.last().push(text.last());
            assert(parts =~= before.drop_last().push(grown));
            assert(parts.drop_last() =~= before.drop_last());
            if before.len() == 1 {
                assert(joined(parts, seq![sep]) =~= text);
            } else {
                assert(joined(before, seq![sep]) == joined(before.drop_last(), seq![sep])
                    + seq![sep] + before.last());
                assert(joined(parts, seq![sep]) =~= joined(before, seq![sep]).push(text.last()));
            }
        }
    }
}

impl FieldPath {
    /// `text` as a path.
    pub fn from_str(text: &str) -> (r: Result<Self, FieldPathError>)
        ensures
            match r {
                Ok(path) => is_path(split_on(text@, '.')) && path@ == split_on(text@, '.'),
                Err(e) => !is_path(split_on(text@, '.')) && e.text@ == text@ && e.why@ == if text@.len()
                    == 0 {
                    "it is empty"@
                } else {
                    "one of its keys is empty"@
                },
            },
    {
        let steps = split(text, '.');
        let mut i: usize = 0;
        while i < steps.len()
            invariant
                i <= steps@.len(),
                texts(steps@) == split_on(text@, '.'),
                forall|k: int| 0 <= k < i ==> !is_blank(#[trigger] texts(steps@)[k]),
            decreases steps@.len() - i,
        {
            if blank(steps[i].as_str()) {
                proof {
                    assert(is_blank(texts(steps@)[i as int]));
                }
                let why = if text.is_empty() {
                    "it is empty"
                } else {
                    "one of its keys is empty"
                };
                return Err(FieldPathError { text: text.to_owned(), why: why.to_owned() });
            }
            i += 1;
        }
        Ok(FieldPath { steps })
    }

    /// The path as text.
    pub fn to_text(&self) -> (r: String)
        ensures
            r@ == joined(self@, "."@),
    {
        join(&self.steps, ".")
    }

    /// The same path.
    pub fn copied(&self) -> (r: Self)
        ensures
            r@ == self@,
    {
        FieldPath { steps: copied_texts(&self.steps) }
    }

    /// The value at this path in `record`.
    pub fn get<'a>(&self, record: &'a Json) -> (r: Option<&'a Json>)
        ensures
            match r {
                Some(value) => at_path(record@, self@) == Some(value@),
                None => at_path(record@, self@) is None,
            },
    {
        let mut value = record;
        let mut i: usize = 0;
        let ghost steps = self@;
        proof {
            assert(steps.skip(0) =~= steps);
        }
        while i < self.steps.len()
            invariant
                i <= self.steps@.len(),
                steps == texts(self.steps@),
                at_path(record@, steps) == at_path(value@, steps.skip(i as int)),
            decreases self.steps@.len() - i,
        {
            proof {
                assert(steps.skip(i as int).skip(1) =~= steps.skip(i + 1));
            }
            match value.get(self.steps[i].as_str()) {
                None => {
                    return None;
                },
                Some(inner) => {
                    value = inner;
                },
            }
            i += 1;
        }
        Some(value)
    }

    /// `record` with what is at this path replaced by `new`.
    pub fn replaced(&self, record: &Json, new: &Json) -> (r: Json)
        ensures
            r@ == with_path(record@, self@, new@),
    {
        proof {
            assert(self@.skip(0) =~= self@);
        }
        self.replaced_from(0, record, new)
    }

    fn replaced_from(&self, from: usize, record: &Json, new: &Json) -> (r: Json)
        requires
            from <= self@.len(),
        ensures
            r@ == with_path(record@, self@.skip(from as int), new@),
        decreases self@.len() - from,
    {
        broadcast use group_json_views;

        let ghost steps = self@.skip(from as int);
        if from == self.steps.len() {
            return new.copied();
        }
        proof {
            assert(steps.skip(1) =~= self@.skip(from + 1));
            assert(steps[0] == self.steps@[from as int]@);
        }
        match record {
            Json::Object(fields) => match get_field(fields, self.steps[from].as_str()) {
                Some(inner) => {
                    let value = self.replaced_from(from + 1, inner, new);
                    let mut out = copied_fields(fields);
                    set_field(&mut out, self.steps[from].as_str(), value);
                    Json::Object(out)
                },
                None => record.copied(),
            },
            _ => record.copied(),
        }
    }
}

/// A path read from text is written as that text.
pub proof fn path_text_round_trip(text: Seq<char>)
    ensures
        joined(split_on(text, '.'), "."@) == text,
{
    lemma_join_of_split(text, '.');
    reveal_strlit(".");
    assert("."@ =~= seq!['.']);
}

// ---------------------------------------------------------------------------
// Predicates.
// ---------------------------------------------------------------------------

/// What a predicate asks.
pub enum PredicateView {
    Equals { field: Seq<Seq<char>>, value: JsonView },
    Present { field: Seq<Seq<char>>, present: bool },
    NonEmpty { field: Seq<Seq<char>>, non_empty: bool },
    All(Seq<PredicateView>),
    Any(Seq<PredicateView>),
    Not(Box<PredicateView>),
}

/// Whether a value holds something: it is not `null`, `""`, `[]` or `{}`.
pub open spec fn holds_something(value: JsonView) -> bool {
    match value {
        JsonView::Null => false,
        JsonView::Str(text) => text.len() > 0,
        JsonView::Array(items) => items.len() > 0,
        JsonView::Object(fields) => fields.len() > 0,
        _ => true,
    }
}

/// Whether `record` satisfies `predicate`.
pub open spec fn satisfies(predicate: PredicateView, record: JsonView) -> bool
    decreases predicate,
{
    match predicate {
        PredicateView::Equals { field, value } => match at_path(record, field) {
            Some(found) => same(found, value),
            None => false,
        },
        PredicateView::Present { field, present } => present == match at_path(record, field) {
            Some(found) => !(found is Null),
            None => false,
        },
        PredicateView::NonEmpty { field, non_empty } => non_empty == match at_path(record, field) {
            Some(found) => holds_something(found),
            None => false,
        },
        PredicateView::All(each) => forall|i: int|
            0 <= i < each.len() ==> satisfies(#[trigger] each[i], record),
        PredicateView::Any(each) => exists|i: int|
            0 <= i < each.len() && satisfies(#[trigger] each[i], record),
        PredicateView::Not(inner) => !satisfies(*inner, record),
    }
}

/// Whether `record` satisfies `predicate`, where there is one.
pub open spec fn admits(predicate: Option<PredicateView>, record: JsonView) -> bool {
    match predicate {
        Some(predicate) => satisfies(predicate, record),
        None => true,
    }
}

/// A test of one record.
///
/// Written as one object of exactly one form: `{"field": P, "equals": V}`,
/// `{"field": P, "present": true|false}` (there and not `null`),
/// `{"field": P, "non_empty": true|false}` (there, and not `null`, `""`, `[]` or
/// `{}`), `{"all": [...]}`, `{"any": [...]}` or `{"not": {...}}`.
#[derive(Debug)]
pub enum Predicate {
    /// The field is there and equals the value.
    Equals {
        /// The field.
        field: FieldPath,
        /// The value it must equal.
        value: Json,
    },
    /// The field is there and not `null`, or, with `present: false`, it is not.
    Present {
        /// The field.
        field: FieldPath,
        /// Whether it must be present.
        present: bool,
    },
    /// The field holds something, or, with `non_empty: false`, it does not.
    NonEmpty {
        /// The field.
        field: FieldPath,
        /// Whether it must be non-empty.
        non_empty: bool,
    },
    /// Every one of these holds.
    All(Vec<Predicate>),
    /// At least one of these holds.
    Any(Vec<Predicate>),
    /// This does not hold.
    Not(Box<Predicate>),
}

impl View for Predicate {
    type V = PredicateView;

    open spec fn view(&self) -> PredicateView {
        predicate_view(*self)
    }
}

/// What a predicate asks.
pub open spec fn predicate_view(p: Predicate) -> PredicateView
    decreases p,
{
    match p {
        Predicate::Equals { field, value } => PredicateView::Equals {
            field: field@,
            value: value@,
        },
        Predicate::Present { field, present } => PredicateView::Present { field: field@, present },
        Predicate::NonEmpty { field, non_empty } => PredicateView::NonEmpty {
            field: field@,
            non_empty,
        },
        Predicate::All(each) => PredicateView::All(
            Seq::new(
                each@.len(),
                |i: int|
                    if 0 <= i < each@.len() {
                        predicate_view(each@[i])
                    } else {
                        arbitrary()
                    },
            ),
        ),
        Predicate::Any(each) => PredicateView::Any(
            Seq::new(
                each@.len(),
                |i: int|
                    if 0 <= i < each@.len() {
                        predicate_view(each@[i])
                    } else {
                        arbitrary()
                    },
            ),
        ),
        Predicate::Not(inner) => PredicateView::Not(Box::new(predicate_view(*inner))),
    }
}

/// What each of several predicates asks.
pub open spec fn predicates_view(each: Seq<Predicate>) -> Seq<PredicateView> {
    Seq::new(each.len(), |i: int| each[i]@)
}

/// What an optional predicate asks.
pub open spec fn when_view(when: Option<Predicate>) -> Option<PredicateView> {
    match when {
        Some(predicate) => Some(predicate@),
        None => None,
    }
}

pub broadcast proof fn lemma_all_view(each: Vec<Predicate>)
    ensures
        #[trigger] predicate_view(Predicate::All(each)) == PredicateView::All(
            predicates_view(each@),
        ),
{
    assert(predicate_view(Predicate::All(each))->All_0 =~= predicates_view(each@));
}

pub broadcast proof fn lemma_any_view(each: Vec<Predicate>)
    ensures
        #[trigger] predicate_view(Predicate::Any(each)) == PredicateView::Any(
            predicates_view(each@),
        ),
{
    assert(predicate_view(Predicate::Any(each))->Any_0 =~= predicates_view(each@));
}

pub broadcast group group_predicate_views {
    lemma_all_view,
    lemma_any_view,
}

impl Predicate {
    /// `field == value`.
    pub fn equals(field: FieldPath, value: Json) -> (r: Self)
        ensures
            r@ == (PredicateView::Equals { field: field@, value: value@ }),
    {
        Predicate::Equals { field, value }
    }

    /// Whether `record` satisfies this.
    pub fn matches(&self, record: &Json) -> (r: bool)
        ensures
            r == satisfies(self@, record@),
        decreases self,
    {
        broadcast use {group_predicate_views, group_json_views};

        match self {
            Predicate::Equals { field, value } => match field.get(record) {
                Some(found) => found.equals(value),
                None => false,
            },
            Predicate::Present { field, present } => match field.get(record) {
                Some(found) => *present == !found.is_null(),
                None => !*present,
            },
            Predicate::NonEmpty { field, non_empty } => {
                let holds = match field.get(record) {
                    Some(found) => match found {
                        Json::Null => false,
                        Json::Str(text) => !text.as_str().is_empty(),
                        Json::Array(items) => items.len() > 0,
                        Json::Object(fields) => fields.len() > 0,
                        _ => true,
                    },
                    None => false,
                };
                holds == *non_empty
            },
            Predicate::All(each) => {
                let mut i: usize = 0;
                while i < each.len()
                    invariant
                        *self == Predicate::All(*each),
                        i <= each@.len(),
                        self@ == PredicateView::All(predicates_view(each@)),
                        forall|k: int|
                            0 <= k < i ==> satisfies(
                                #[trigger] predicates_view(each@)[k],
                                record@,
                            ),
                    decreases each@.len() - i,
                {
                    proof {
                        assert(decreases_to!(self->All_0 => self->All_0[i as int]));
                    }
                    if !each[i].matches(record) {
                        proof {
                            let views = self@->All_0;
                            assert(!satisfies(views[i as int], record@));
                            assert(!satisfies(PredicateView::All(views), record@));
                        }
                        return false;
                    }
                    i += 1;
                }
                true
            },
            Predicate::Any(each) => {
                let mut i: usize = 0;
                while i < each.len()
                    invariant
                        *self == Predicate::Any(*each),
                        i <= each@.len(),
                        self@ == PredicateView::Any(predicates_view(each@)),
                        forall|k: int|
                            0 <= k < i ==> !satisfies(
                                #[trigger] predicates_view(each@)[k],
                                record@,
                            ),
                    decreases each@.len() - i,
                {
                    proof {
                        assert(decreases_to!(self->Any_0 => self->Any_0[i as int]));
                    }
                    if each[i].matches(record) {
                        proof {
                            let views = self@->Any_0;
                            assert(satisfies(views[i as int], record@));
                            assert(satisfies(PredicateView::Any(views), record@));
                        }
                        return true;
                    }
                    i += 1;
                }
                false
            },
            Predicate::Not(inner) => !inner.matches(record),
        }
    }

    /// The same predicate.
    pub fn copied(&self) -> (r: Self)
        ensures
            r@ == self@,
        decreases self,
    {
        broadcast use group_predicate_views;

        match self {
            Predicate::Equals { field, value } => Predicate::Equals {
                field: field.copied(),
                value: value.copied(),
            },
            Predicate::Present { field, present } => Predicate::Present {
                field: field.copied(),
                present: *present,
            },
            Predicate::NonEmpty { field, non_empty } => Predicate::NonEmpty {
                field: field.copied(),
                non_empty: *non_empty,
            },
            Predicate::All(each) => {
                let mut out: Vec<Predicate> = Vec::new();
                let mut i: usize = 0;
                while i < each.len()
                    invariant
                        *self == Predicate::All(*each),
                        i <= each@.len(),
                        predicates_view(out@) =~= predicates_view(each@).take(i as int),
                    decreases each@.len() - i,
                {
                    proof {
                        assert(decreases_to!(self->All_0 => self->All_0[i as int]));
                    }
                    let ghost before = predicates_view(out@);
                    let one = each[i].copied();
                    out.push(one);
                    proof {
                        assert(predicates_view(out@) =~= before.push(
                            predicates_view(each@)[i as int],
                        ));
                    }
                    i += 1;
                }
                proof {
                    assert(predicates_view(out@) =~= predicates_view(each@));
                }
                Predicate::All(out)
            },
            Predicate::Any(each) => {
                let mut out: Vec<Predicate> = Vec::new();
                let mut i: usize = 0;
                while i < each.len()
                    invariant
                        *self == Predicate::Any(*each),
                        i <= each@.len(),
                        predicates_view(out@) =~= predicates_view(each@).take(i as int),
                    decreases each@.len() - i,
                {
                    proof {
                        assert(decreases_to!(self->Any_0 => self->Any_0[i as int]));
                    }
                    let ghost before = predicates_view(out@);
                    let one = each[i].copied();
                    out.push(one);
                    proof {
                        assert(predicates_view(out@) =~= before.push(
                            predicates_view(each@)[i as int],
                        ));
                    }
                    i += 1;
                }
                proof {
                    assert(predicates_view(out@) =~= predicates_view(each@));
                }
                Predicate::Any(out)
            },
            Predicate::Not(inner) => Predicate::Not(Box::new(inner.copied())),
        }
    }
}

/// Whether `record` satisfies `when`, where there is one.
pub fn admitted(when: &Option<Predicate>, record: &Json) -> (r: bool)
    ensures
        r == admits(when_view(*when), record@),
{
    match when {
        Some(predicate) => predicate.matches(record),
        None => true,
    }
}

/// The same optional predicate.
pub fn copied_when(when: &Option<Predicate>) -> (r: Option<Predicate>)
    ensures
        when_view(r) == when_view(*when),
{
    match when {
        Some(predicate) => Some(predicate.copied()),
        None => None,
    }
}

// ---------------------------------------------------------------------------
// The written form.
// ---------------------------------------------------------------------------

/// The keys a predicate is written with, before exactly one form is held to.
#[derive(Debug)]
pub struct PredicateWire {
    /// The field `equals`, `present` and `non_empty` test.
    pub field: Option<FieldPath>,
    /// The field is there and equals this.
    pub equals: Option<Json>,
    /// The field is there and not null (true), or not (false).
    pub present: Option<bool>,
    /// The field holds something (true), or not (false).
    pub non_empty: Option<bool>,
    /// Every one of these holds.
    pub all: Option<Vec<PredicateWire>>,
    /// At least one of these holds.
    pub any: Option<Vec<PredicateWire>>,
    /// This does not hold.
    pub not: Option<Box<PredicateWire>>,
}

/// The forms a written predicate names, in the order they are looked for.
pub open spec fn forms(wire: PredicateWire) -> Seq<Seq<char>> {
    let none = Seq::<Seq<char>>::empty();
    (if wire.equals is Some { seq!["equals"@] } else { none })
        + (if wire.present is Some { seq!["present"@] } else { none })
        + (if wire.non_empty is Some { seq!["non_empty"@] } else { none })
        + (if wire.all is Some { seq!["all"@] } else { none })
        + (if wire.any is Some { seq!["any"@] } else { none })
        + (if wire.not is Some { seq!["not"@] } else { none })
}

/// What is wrong with the keys of a written predicate themselves, whatever is
/// within them.
pub open spec fn wire_fault(wire: PredicateWire) -> Option<Seq<char>> {
    let named = forms(wire);
    if named.len() == 0 {
        Some(
            "a predicate names one of equals, present, non_empty, all, any and not, and this names none"@,
        )
    } else if named.len() > 1 {
        Some(
            "a predicate names exactly one of equals, present, non_empty, all, any and not, and this names "@
                + joined(named, " and "@),
        )
    } else if wire.equals is Some || wire.present is Some || wire.non_empty is Some {
        if wire.field is None {
            Some("`"@ + named[0] + "` tests a field, and this names no `field`"@)
        } else {
            None
        }
    } else if wire.field is Some {
        Some(
            "`"@ + named[0] + "` takes no `field`, and this names `"@ + joined(
                wire.field->0@,
                "."@,
            ) + "`"@,
        )
    } else {
        None
    }
}

/// What a written predicate is read as, or what is wrong with it: its own keys
/// first, then each predicate within it in order.
pub open spec fn wire_reads(wire: PredicateWire) -> Result<PredicateView, Seq<char>>
    decreases wire, 0nat,
{
    if wire_fault(wire) is Some {
        Err(wire_fault(wire)->0)
    } else if wire.equals is Some {
        Ok(PredicateView::Equals { field: wire.field->0@, value: wire.equals->0@ })
    } else if wire.present is Some {
        Ok(PredicateView::Present { field: wire.field->0@, present: wire.present->0 })
    } else if wire.non_empty is Some {
        Ok(PredicateView::NonEmpty { field: wire.field->0@, non_empty: wire.non_empty->0 })
    } else if wire.all is Some {
        match wires_read(wire.all->0@) {
            Ok(each) => Ok(PredicateView::All(each)),
            Err(why) => Err(why),
        }
    } else if wire.any is Some {
        match wires_read(wire.any->0@) {
            Ok(each) => Ok(PredicateView::Any(each)),
            Err(why) => Err(why),
        }
    } else if wire.not is Some {
        match wire_reads(*(wire.not->0)) {
            Ok(inner) => Ok(PredicateView::Not(Box::new(inner))),
            Err(why) => Err(why),
        }
    } else {
        Err(Seq::empty())
    }
}

/// What written predicates are read as, or what is wrong with the first that is
/// not one.
pub open spec fn wires_read(wires: Seq<PredicateWire>) -> Result<Seq<PredicateView>, Seq<char>>
    decreases wires, wires.len(),
{
    if wires.len() == 0 {
        Ok(Seq::empty())
    } else {
        match wires_read(wires.drop_last()) {
            Err(why) => Err(why),
            Ok(before) => match wire_reads(wires.last()) {
                Err(why) => Err(why),
                Ok(last) => Ok(before.push(last)),
            },
        }
    }
}

/// The forms a written predicate names.
fn forms_of(wire: &PredicateWire) -> (r: Vec<String>)
    ensures
        texts(r@) == forms(*wire),
{
    let mut out: Vec<String> = Vec::new();
    if wire.equals.is_some() {
        out.push("equals".to_owned());
    }
    if wire.present.is_some() {
        out.push("present".to_owned());
    }
    if wire.non_empty.is_some() {
        out.push("non_empty".to_owned());
    }
    if wire.all.is_some() {
        out.push("all".to_owned());
    }
    if wire.any.is_some() {
        out.push("any".to_owned());
    }
    if wire.not.is_some() {
        out.push("not".to_owned());
    }
    proof {
        assert(texts(out@) =~= forms(*wire));
    }
    out
}

/// What is wrong with the keys of a written predicate.
fn wire_fault_of(wire: &PredicateWire) -> (r: Option<String>)
    ensures
        match r {
            Some(why) => wire_fault(*wire) == Some(why@),
            None => wire_fault(*wire) is None,
        },
{
    let named = forms_of(wire);
    proof {
        assert(named@.len() == forms(*wire).len());
    }
    if named.len() == 0 {
        return Some(
            "a predicate names one of equals, present, non_empty, all, any and not, and this names none".to_owned(),
        );
    }
    if named.len() > 1 {
        let listed = join(&named, " and ");
        return Some(
            cat2(
                "a predicate names exactly one of equals, present, non_empty, all, any and not, and this names ",
                listed.as_str(),
            ),
        );
    }
    proof {
        assert(texts(named@)[0] == named@[0]@);
    }
    if wire.equals.is_some() || wire.present.is_some() || wire.non_empty.is_some() {
        if wire.field.is_none() {
            return Some(
                cat3("`", named[0].as_str(), "` tests a field, and this names no `field`"),
            );
        }
        return None;
    }
    match &wire.field {
        Some(field) => {
            let path = field.to_text();
            Some(
                cat5(
                    "`",
                    named[0].as_str(),
                    "` takes no `field`, and this names `",
                    path.as_str(),
                    "`",
                ),
            )
        },
        None => None,
    }
}

impl Predicate {
    /// The predicate `wire` is written as: exactly one form, with a field where
    /// the form tests one.
    pub fn try_from_wire(wire: &PredicateWire) -> (r: Result<Self, String>)
        ensures
            match r {
                Ok(predicate) => wire_reads(*wire) is Ok && wire_reads(*wire)->Ok_0 == predicate@,
                Err(why) => wire_reads(*wire) is Err && wire_reads(*wire)->Err_0 == why@,
            },
        decreases wire, 0nat,
    {
        broadcast use group_predicate_views;

        if let Some(why) = wire_fault_of(wire) {
            return Err(why);
        }
        proof {
            assert(forms(*wire).len() == 1);
        }
        if let Some(value) = &wire.equals {
            if let Some(field) = &wire.field {
                return Ok(Predicate::Equals { field: field.copied(), value: value.copied() });
            }
        }
        if let Some(present) = &wire.present {
            if let Some(field) = &wire.field {
                return Ok(Predicate::Present { field: field.copied(), present: *present });
            }
        }
        if let Some(non_empty) = &wire.non_empty {
            if let Some(field) = &wire.field {
                return Ok(Predicate::NonEmpty { field: field.copied(), non_empty: *non_empty });
            }
        }
        if let Some(wires) = &wire.all {
            proof {
                assert(decreases_to!(wire.all->0 => wire.all->0@));
            }
            return match Predicate::try_from_wires(wires) {
                Ok(each) => Ok(Predicate::All(each)),
                Err(why) => Err(why),
            };
        }
        if let Some(wires) = &wire.any {
            proof {
                assert(decreases_to!(wire.any->0 => wire.any->0@));
            }
            return match Predicate::try_from_wires(wires) {
                Ok(each) => Ok(Predicate::Any(each)),
                Err(why) => Err(why),
            };
        }
        if let Some(inner) = &wire.not {
            return match Predicate::try_from_wire(inner) {
                Ok(predicate) => Ok(Predicate::Not(Box::new(predicate))),
                Err(why) => Err(why),
            };
        }
        Err(String::new())
    }

    /// The predicates `wires` are written as, or what is wrong with the first
    /// that is not one.
    fn try_from_wires(wires: &Vec<PredicateWire>) -> (r: Result<Vec<Predicate>, String>)
        ensures
            match r {
                Ok(each) => wires_read(wires@) is Ok && wires_read(wires@)->Ok_0
                    == predicates_view(each@),
                Err(why) => wires_read(wires@) is Err && wires_read(wires@)->Err_0 == why@,
            },
        decreases wires@, wires@.len(),
    {
        let mut out: Vec<Predicate> = Vec::new();
        let mut i: usize = 0;
        proof {
            assert(wires@.take(0) =~= Seq::<PredicateWire>::empty());
            assert(predicates_view(out@) =~= Seq::<PredicateView>::empty());
        }
        while i < wires.len()
            invariant
                i <= wires@.len(),
                wires_read(wires@.take(i as int)) is Ok,
                wires_read(wires@.take(i as int))->Ok_0 == predicates_view(out@),
            decreases wires@.len() - i,
        {
            let ghost before = predicates_view(out@);
            proof {
                assert(wires@.take(i + 1).drop_last() =~= wires@.take(i as int));
                assert(decreases_to!(wires@ => wires@[i as int]));
            }
            match Predicate::try_from_wire(&wires[i]) {
                Err(why) => {
                    proof {
                        lemma_wires_read_prefix(wires@, i + 1);
                    }
                    return Err(why);
                },
                Ok(predicate) => {
                    out.push(predicate);
                    proof {
                        assert(predicates_view(out@) =~= before.push(predicate@));
                    }
                },
            }
            i += 1;
        }
        proof {
            assert(wires@.take(i as int) =~= wires@);
        }
        Ok(out)
    }
}

/// What is wrong with the start of a list is what is wrong with the list.
proof fn lemma_wires_read_prefix(wires: Seq<PredicateWire>, n: int)
    requires
        0 <= n <= wires.len(),
        wires_read(wires.take(n)) is Err,
    ensures
        wires_read(wires) is Err,
        wires_read(wires)->Err_0 == wires_read(wires.take(n))->Err_0,
    decreases wires.len(),
{
    if n == wires.len() {
        assert(wires.take(n) =~= wires);
    } else {
        assert(wires.drop_last().take(n) =~= wires.take(n));
        lemma_wires_read_prefix(wires.drop_last(), n);
    }
}

impl Predicate {
    /// How this is written: what is written reads as this again.
    pub fn to_wire(&self) -> (r: PredicateWire)
        ensures
            wire_reads(r) is Ok,
            wire_reads(r)->Ok_0 == self@,
        decreases self,
    {
        broadcast use group_predicate_views;

        match self {
            Predicate::Equals { field, value } => PredicateWire {
                field: Some(field.copied()),
                equals: Some(value.copied()),
                present: None,
                non_empty: None,
                all: None,
                any: None,
                not: None,
            },
            Predicate::Present { field, present } => PredicateWire {
                field: Some(field.copied()),
                equals: None,
                present: Some(*present),
                non_empty: None,
                all: None,
                any: None,
                not: None,
            },
            Predicate::NonEmpty { field, non_empty } => PredicateWire {
                field: Some(field.copied()),
                equals: None,
                present: None,
                non_empty: Some(*non_empty),
                all: None,
                any: None,
                not: None,
            },
            Predicate::All(each) => {
                let mut out: Vec<PredicateWire> = Vec::new();
                let mut i: usize = 0;
                proof {
                    assert(predicates_view(each@).take(0) =~= Seq::<PredicateView>::empty());
                }
                while i < each.len()
                    invariant
                        *self == Predicate::All(*each),
                        i == out@.len(),
                        i <= each@.len(),
                        wires_read(out@) is Ok,
                        wires_read(out@)->Ok_0 == predicates_view(each@).take(i as int),
                    decreases each@.len() - i,
                {
                    proof {
                        assert(decreases_to!(self->All_0 => self->All_0[i as int]));
                    }
                    let ghost before = out@;
                    let one = each[i].to_wire();
                    out.push(one);
                    proof {
                        assert(out@.drop_last() =~= before);
                        assert(out@.last() == one);
                        assert(predicates_view(each@).take(i + 1) =~= predicates_view(each@).take(
                            i as int,
                        ).push(each@[i as int]@));
                    }
                    i += 1;
                }
                proof {
                    assert(predicates_view(each@).take(i as int) =~= predicates_view(each@));
                }
                PredicateWire {
                    field: None,
                    equals: None,
                    present: None,
                    non_empty: None,
                    all: Some(out),
                    any: None,
                    not: None,
                }
            },
            Predicate::Any(each) => {
                let mut out: Vec<PredicateWire> = Vec::new();
                let mut i: usize = 0;
                proof {
                    assert(predicates_view(each@).take(0) =~= Seq::<PredicateView>::empty());
                }
                while i < each.len()
                    invariant
                        *self == Predicate::Any(*each),
                        i == out@.len(),
                        i <= each@.len(),
                        wires_read(out@) is Ok,
                        wires_read(out@)->Ok_0 == predicates_view(each@).take(i as int),
                    decreases each@.len() - i,
                {
                    proof {
                        assert(decreases_to!(self->Any_0 => self->Any_0[i as int]));
                    }
                    let ghost before = out@;
                    let one = each[i].to_wire();
                    out.push(one);
                    proof {
                        assert(out@.drop_last() =~= before);
                        assert(out@.last() == one);
                        assert(predicates_view(each@).take(i + 1) =~= predicates_view(each@).take(
                            i as int,
                        ).push(each@[i as int]@));
                    }
                    i += 1;
                }
                proof {
                    assert(predicates_view(each@).take(i as int) =~= predicates_view(each@));
                }
                PredicateWire {
                    field: None,
                    equals: None,
                    present: None,
                    non_empty: None,
                    all: None,
                    any: Some(out),
                    not: None,
                }
            },
            Predicate::Not(inner) => {
                let wire = inner.to_wire();
                PredicateWire {
                    field: None,
                    equals: None,
                    present: None,
                    non_empty: None,
                    all: None,
                    any: None,
                    not: Some(Box::new(wire)),
                }
            },
        }
    }
}

} // verus!
