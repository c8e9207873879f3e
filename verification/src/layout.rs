//! A layout declared as data: queues, operations, authors, and how an offer to
//! each queue is prepared.

use crate::author::{
    Allowlist, Author, OpWord, Operation, copied_ops, op_words, reason_text, with_word, words_in,
};
use crate::codec::first_of_two;
use crate::filter::text_view;
use crate::names::QueueName;
use crate::policy::{QueueSpec, QueueSpecView, specs_view};
use crate::predicate::{FieldPath, Predicate};
use crate::schema::SchemaId;
use crate::table::{Table, in_order, lemma_lookup_some, lemma_lookup_take, lookup, names_of};
use crate::text::{
    blank, byte_len, cat2, cat3, cat4, cat5, cat7, chars_of, decimal, decimal_of, holds_text,
    is_blank, is_digit, is_lower, join, joined, lemma_before_irreflexive, quoted, quoted_of,
    same_text, text_before, texts,
};
use vstd::prelude::*;
use vstd::utf8::encode_utf8;

verus! {

// ---------------------------------------------------------------------------
// Names and lists.
// ---------------------------------------------------------------------------

/// Whether text is a word: a lowercase letter, then lowercase letters, digits
/// and hyphens, no more than 64 bytes in all.
pub open spec fn is_word(text: Seq<char>) -> bool {
    &&& encode_utf8(text).len() <= 64
    &&& text.len() > 0
    &&& is_lower(text[0])
    &&& forall|i: int|
        0 <= i < text.len() ==> is_lower(#[trigger] text[i]) || is_digit(text[i]) || text[i] == '-'
}

/// Whether text is a word.
pub fn word_is(text: &str) -> (r: bool)
    ensures
        r == is_word(text@),
{
    if byte_len(text) > 64 {
        return false;
    }
    let chars = chars_of(text);
    if chars.len() == 0 || !('a' <= chars[0] && chars[0] <= 'z') {
        return false;
    }
    let mut i: usize = 0;
    while i < chars.len()
        invariant
            i <= chars@.len(),
            chars@ == text@,
            forall|k: int|
                0 <= k < i ==> is_lower(#[trigger] text@[k]) || is_digit(text@[k]) || text@[k]
                    == '-',
        decreases chars@.len() - i,
    {
        let c = chars[i];
        if !(('a' <= c && c <= 'z') || ('0' <= c && c <= '9') || c == '-') {
            proof {
                assert(text@[i as int] == c);
            }
            return false;
        }
        i += 1;
    }
    true
}

/// A layout's name, as a configuration's `profile` gives it.
#[derive(Debug, PartialEq, Eq, PartialOrd, Ord, Hash)]
pub struct LayoutName {
    text: String,
}

impl View for LayoutName {
    type V = Seq<char>;

    closed spec fn view(&self) -> Seq<char> {
        self.text@
    }
}

impl LayoutName {
    #[verifier::type_invariant]
    closed spec fn well_formed(&self) -> bool {
        is_word(self.text@)
    }

    /// `text` as a layout's name.
    pub fn new(text: &str) -> (r: Result<Self, String>)
        ensures
            match r {
                Ok(name) => is_word(text@) && name@ == text@,
                Err(why) => !is_word(text@) && why@ == quoted(text@) + " is not a layout name ("@
                    + "^[a-z][a-z0-9-]{0,63}$"@ + ")"@,
            },
    {
        if word_is(text) {
            Ok(LayoutName { text: text.to_owned() })
        } else {
            let shown = quoted_of(text);
            Err(cat4(shown.as_str(), " is not a layout name (", "^[a-z][a-z0-9-]{0,63}$", ")"))
        }
    }

    /// The name as text.
    pub fn as_str(&self) -> (r: &str)
        ensures
            r@ == self@,
            is_word(r@),
    {
        proof {
            use_type_invariant(self);
        }
        self.text.as_str()
    }
}

/// A top-level member of a record, by name: text with something other than
/// white space in it.
#[derive(Debug, PartialEq, Eq, PartialOrd, Ord, Hash)]
pub struct MemberName {
    text: String,
}

impl View for MemberName {
    type V = Seq<char>;

    closed spec fn view(&self) -> Seq<char> {
        self.text@
    }
}

impl MemberName {
    #[verifier::type_invariant]
    closed spec fn well_formed(&self) -> bool {
        !is_blank(self.text@)
    }

    /// `text` as a member's name.
    pub fn new(text: &str) -> (r: Result<Self, String>)
        ensures
            match r {
                Ok(name) => !is_blank(text@) && name@ == text@,
                Err(why) => is_blank(text@) && why@ == quoted(text@)
                    + " is not a member name: it is blank"@,
            },
    {
        if blank(text) {
            let shown = quoted_of(text);
            Err(cat2(shown.as_str(), " is not a member name: it is blank"))
        } else {
            Ok(MemberName { text: text.to_owned() })
        }
    }

    /// The name as text.
    pub fn as_str(&self) -> (r: &str)
        ensures
            r@ == self@,
            !is_blank(r@),
    {
        proof {
            use_type_invariant(self);
        }
        self.text.as_str()
    }
}

/// The names of members.
pub open spec fn member_names(names: Seq<MemberName>) -> Seq<Seq<char>> {
    Seq::new(names.len(), |i: int| names[i]@)
}

/// A list holding at least one item.
#[derive(Debug)]
pub struct NonEmpty<T> {
    items: Vec<T>,
}

impl<T> View for NonEmpty<T> {
    type V = Seq<T>;

    closed spec fn view(&self) -> Seq<T> {
        self.items@
    }
}

impl<T> NonEmpty<T> {
    #[verifier::type_invariant]
    closed spec fn well_formed(&self) -> bool {
        self.items@.len() > 0
    }

    /// `items`, where there is at least one.
    pub fn new(items: Vec<T>) -> (r: Result<Self, String>)
        ensures
            match r {
                Ok(list) => items@.len() > 0 && list@ == items@,
                Err(why) => items@.len() == 0 && why@ == "is empty; it holds at least one"@,
            },
    {
        if items.len() == 0 {
            Err("is empty; it holds at least one".to_owned())
        } else {
            Ok(NonEmpty { items })
        }
    }

    /// The items.
    pub fn items(&self) -> (r: &Vec<T>)
        ensures
            r@ == self@,
            r@.len() > 0,
    {
        proof {
            use_type_invariant(self);
        }
        &self.items
    }
}

// ---------------------------------------------------------------------------
// The document.
// ---------------------------------------------------------------------------

/// What a layout's author may issue.
#[derive(Debug)]
pub enum Grants {
    /// Every operation of the vocabulary.
    EveryOp,
    /// These operations.
    Only(Vec<OpWord>),
}

/// One author a layout declares.
#[derive(Debug)]
pub struct LayoutAuthor {
    /// What it may issue.
    pub grants: Grants,
    /// Why each operation it is not granted is refused, by word.
    pub refusals: Table<String>,
}

/// How an author is written, before its grant form is held to.
#[derive(Debug)]
pub struct LayoutAuthorWire {
    /// Granted every operation of the vocabulary.
    pub every_op: bool,
    /// The operations it may issue.
    pub capabilities: Vec<OpWord>,
    /// Why each operation it is not granted is refused, by word.
    pub refusals: Table<String>,
}

impl LayoutAuthor {
    /// The author `wire` writes: granted everything, or a list, and not both.
    pub fn try_from_wire(wire: LayoutAuthorWire) -> (r: Result<Self, String>)
        ensures
            match r {
                Ok(author) => author.refusals == wire.refusals && if wire.every_op {
                    wire.capabilities@.len() == 0 && author.grants is EveryOp
                } else {
                    author.grants == Grants::Only(wire.capabilities)
                },
                Err(why) => wire.every_op && wire.capabilities@.len() > 0 && why@
                    == "`every_op` grants every op, so it takes no `capabilities`"@,
            },
    {
        let grants = if wire.every_op {
            if wire.capabilities.len() > 0 {
                return Err(
                    "`every_op` grants every op, so it takes no `capabilities`".to_owned(),
                );
            }
            Grants::EveryOp
        } else {
            Grants::Only(wire.capabilities)
        };
        Ok(LayoutAuthor { grants, refusals: wire.refusals })
    }

    /// How this is written, which reads as this again.
    pub fn into_wire(self) -> (r: LayoutAuthorWire)
        ensures
            r.refusals == self.refusals,
            match self.grants {
                Grants::EveryOp => r.every_op && r.capabilities@.len() == 0,
                Grants::Only(capabilities) => !r.every_op && r.capabilities == capabilities,
            },
    {
        let (every_op, capabilities) = match self.grants {
            Grants::EveryOp => {
                let none: Vec<OpWord> = Vec::new();
                (true, none)
            },
            Grants::Only(capabilities) => (false, capabilities),
        };
        LayoutAuthorWire { every_op, capabilities, refusals: self.refusals }
    }
}

/// One step of preparing an offer.
#[derive(Debug)]
pub enum PrepareStep {
    /// Set a member to the current time, when absent.
    Stamp(StampStep),
    /// Move a member to another name.
    Rename(RenameStep),
    /// Refuse what a registered schema refuses.
    Check(CheckStep),
    /// Read a version in a read-set as one version, and require it.
    Version(VersionStep),
    /// Refuse an undeclared author, and each op word it is not granted.
    Grant(GrantStep),
    /// Split the record onto several queues by the members it carries.
    Route(RouteStep),
}

/// `stamp`: set `member` to the current time in epoch milliseconds, when the
/// record has no such member.
#[derive(Debug)]
pub struct StampStep {
    /// The member stamped.
    pub member: MemberName,
    /// When to stamp; always when absent.
    pub when: Option<Predicate>,
}

/// `rename`: move the member `from` to `to`; dropped where the record has `to`.
#[derive(Debug)]
pub struct RenameStep {
    /// The member moved.
    pub from: MemberName,
    /// The name it moves to.
    pub to: MemberName,
    /// When to rename; always when absent.
    pub when: Option<Predicate>,
}

/// `check`: refuse the record, or the value at `at`, that a schema refuses.
#[derive(Debug)]
pub struct CheckStep {
    /// The schema.
    pub schema: SchemaId,
    /// The path of the value checked; the whole record when absent.
    pub at: Option<FieldPath>,
    /// The refusal: `{why}` is what the schema refused.
    pub refusal: String,
    /// When to check; always when absent.
    pub when: Option<Predicate>,
}

/// `version`: a version at `at` that `reads` names is read as `value`, and where
/// `required_when` holds, any other is refused.
#[derive(Debug)]
pub struct VersionStep {
    /// The path of the version.
    pub at: FieldPath,
    /// The version required, and the one a version in `reads` is read as.
    pub value: u64,
    /// Older versions read as `value`.
    pub reads: Vec<u64>,
    /// Where `value` is required; nowhere when absent.
    pub required_when: Option<Predicate>,
    /// The refusal: `{value}` is the version required, `{found}` the one there.
    pub refusal: String,
    /// When the step runs at all; always when absent.
    pub when: Option<Predicate>,
}

/// Which op words a [`GrantStep`] checks.
#[derive(Debug)]
pub enum GrantOps {
    /// None: the author alone is checked.
    AuthorOnly,
    /// One op word, outright.
    Word(OpWord),
    /// The op word at `op` in each item of the list at `each`.
    Each {
        /// The path of the list.
        each: FieldPath,
        /// The path of the op word within each item.
        op: FieldPath,
    },
}

/// `grant`: the author named at `author`, or `default_author`, must be declared,
/// and each op word the step finds must be one the author is granted.
#[derive(Debug)]
pub struct GrantStep {
    /// The path of the author.
    pub author: FieldPath,
    /// The author where the path holds none.
    pub default_author: Option<Author>,
    /// The op words checked.
    pub ops: GrantOps,
    /// The refusal of an op the author is not granted.
    pub refusal: Option<String>,
    /// The refusal of a word that is no op of the vocabulary.
    pub unknown: Option<String>,
    /// The refusal of an author the allowlist does not declare.
    pub undeclared: Option<String>,
    /// The refusal of a record that is not text where the step looks.
    pub malformed: Option<String>,
    /// When to check; always when absent.
    pub when: Option<Predicate>,
}

/// Which op words a grant step is written to check, before its form is held to.
#[derive(Debug)]
pub struct GrantOpsWire {
    /// The path of a list whose every item names an op word. Named with `op`.
    pub each: Option<FieldPath>,
    /// The path of the op word within each item of `each`.
    pub op: Option<FieldPath>,
    /// One op word checked outright. Exclusive of `each` and `op`.
    pub word: Option<OpWord>,
}

impl GrantOps {
    /// The op words `wire` writes: none, one outright, or those of a list.
    pub fn try_from_wire(wire: GrantOpsWire) -> (r: Result<Self, String>)
        ensures
            match r {
                Ok(GrantOps::AuthorOnly) => wire.word is None && wire.each is None && wire.op is None,
                Ok(GrantOps::Word(word)) => wire.word == Some(word) && wire.each is None
                    && wire.op is None,
                Ok(GrantOps::Each { each, op }) => wire.word is None && wire.each == Some(each)
                    && wire.op == Some(op),
                Err(why) => if wire.word is Some {
                    (wire.each is Some || wire.op is Some) && why@
                        == "`word` names one op outright, so it takes no `each` or `op`"@
                } else if wire.each is Some {
                    wire.op is None && why@
                        == "`each` names a list, and `op` the op word within each item; this names no `op`"@
                } else {
                    wire.op is Some && why@
                        == "`op` is the op word within each item of `each`; this names no `each`"@
                },
            },
    {
        match (wire.word, wire.each, wire.op) {
            (None, None, None) => Ok(GrantOps::AuthorOnly),
            (Some(word), None, None) => Ok(GrantOps::Word(word)),
            (None, Some(each), Some(op)) => Ok(GrantOps::Each { each, op }),
            (Some(_), _, _) => Err(
                "`word` names one op outright, so it takes no `each` or `op`".to_owned(),
            ),
            (None, Some(_), None) => Err(
                "`each` names a list, and `op` the op word within each item; this names no `op`".to_owned(),
            ),
            (None, None, Some(_)) => Err(
                "`op` is the op word within each item of `each`; this names no `each`".to_owned(),
            ),
        }
    }

    /// How this is written, which reads as this again.
    pub fn into_wire(self) -> (r: GrantOpsWire)
        ensures
            match self {
                GrantOps::AuthorOnly => r.word is None && r.each is None && r.op is None,
                GrantOps::Word(word) => r.word == Some(word) && r.each is None && r.op is None,
                GrantOps::Each { each, op } => r.word is None && r.each == Some(each) && r.op
                    == Some(op),
            },
    {
        match self {
            GrantOps::AuthorOnly => GrantOpsWire { each: None, op: None, word: None },
            GrantOps::Word(word) => GrantOpsWire { each: None, op: None, word: Some(word) },
            GrantOps::Each { each, op } => GrantOpsWire {
                each: Some(each),
                op: Some(op),
                word: None,
            },
        }
    }
}

/// One route of a [`RouteStep`]: the queue a projection of the offer goes to.
#[derive(Debug)]
pub struct Route {
    /// The queue the projection is pushed onto.
    pub queue: QueueName,
    /// The members whose presence takes this route.
    pub on: NonEmpty<MemberName>,
    /// The members the projection carries, in this order, each one the record
    /// has.
    pub take: NonEmpty<MemberName>,
    /// The member the projection is carried under; at the top level when absent.
    pub under: Option<MemberName>,
    /// Members of the routed record stamped with the current time.
    pub stamp: Vec<MemberName>,
}

/// `route`: the records the offer becomes, the last step of its queue.
#[derive(Debug)]
pub struct RouteStep {
    /// The routes, in the order their records are pushed.
    pub routes: NonEmpty<Route>,
    /// The queue of the route taken when no route's members are there.
    pub fallback: Option<QueueName>,
    /// When to route; always when absent.
    pub when: Option<Predicate>,
}

/// A layout declared as data.
#[derive(Debug)]
pub struct LayoutDocument {
    name: LayoutName,
    description: Option<String>,
    queues: NonEmpty<QueueSpec>,
    operations: Vec<OpWord>,
    authors: Table<LayoutAuthor>,
    prepare: Table<Vec<PrepareStep>>,
}

/// What a layout's keys say.
pub struct LayoutParts {
    pub name: Seq<char>,
    pub queues: Seq<QueueSpecView>,
    pub operations: Seq<Seq<char>>,
    pub authors: Seq<(Seq<char>, LayoutAuthor)>,
    pub prepare: Seq<(Seq<char>, Vec<PrepareStep>)>,
}

/// The queues' names.
pub open spec fn queue_names(queues: Seq<QueueSpecView>) -> Seq<Seq<char>> {
    Seq::new(queues.len(), |i: int| queues[i].name)
}

/// Where `word` first is among `words`.
pub open spec fn first_word(words: Seq<Seq<char>>, word: Seq<char>) -> Option<int>
    decreases words.len(),
{
    if words.len() == 0 {
        None
    } else if words[0] == word {
        Some(0)
    } else {
        match first_word(words.skip(1), word) {
            Some(at) => Some(at + 1),
            None => None,
        }
    }
}

/// Where `word` first is among `words`.
pub fn first_word_of(words: &Vec<String>, word: &str) -> (r: Option<usize>)
    ensures
        match r {
            Some(at) => at < words@.len() && first_word(texts(words@), word@) == Some(at as int),
            None => first_word(texts(words@), word@) is None,
        },
{
    let ghost all = texts(words@);
    let mut i: usize = 0;
    proof {
        assert(all.skip(0) =~= all);
    }
    while i < words.len()
        invariant
            i <= words@.len(),
            all == texts(words@),
            first_word(all, word@) == match first_word(all.skip(i as int), word@) {
                Some(at) => Some(at + i),
                None => None,
            },
        decreases words@.len() - i,
    {
        proof {
            assert(all.skip(i as int)[0] == words@[i as int]@);
            assert(all.skip(i as int).skip(1) =~= all.skip(i + 1));
        }
        if same_text(words[i].as_str(), word) {
            return Some(i);
        }
        i += 1;
    }
    None
}

/// What is wrong with the first queue, from `from` on, declared already.
pub open spec fn twice_fault(names: Seq<Seq<char>>, from: int) -> Option<Seq<char>>
    decreases names.len() - from,
{
    if from < 0 || from >= names.len() {
        None
    } else {
        match first_word(names.take(from), names[from]) {
            Some(first) => Some(
                "queues["@ + decimal(from as nat) + "].name: `"@ + names[from]
                    + "` is already declared by queues["@ + decimal(first as nat) + "]"@,
            ),
            None => twice_fault(names, from + 1),
        }
    }
}

/// What is wrong with the first queue, from `from` on, answered on a queue not
/// declared.
pub open spec fn answers_fault(queues: Seq<QueueSpecView>, from: int) -> Option<Seq<char>>
    decreases queues.len() - from,
{
    if from < 0 || from >= queues.len() {
        None
    } else if queues[from].answers is Some && !queue_names(queues).contains(
        queues[from].answers->0,
    ) {
        Some(
            "queues["@ + decimal(from as nat) + "].answers: `"@ + queues[from].answers->0
                + "` is not a queue this layout declares"@,
        )
    } else {
        answers_fault(queues, from + 1)
    }
}

/// What is wrong with the first operation, from `from` on: blank, or declared
/// already.
pub open spec fn operations_fault(operations: Seq<Seq<char>>, from: int) -> Option<Seq<char>>
    decreases operations.len() - from,
{
    if from < 0 || from >= operations.len() {
        None
    } else if is_blank(operations[from]) {
        Some("operations["@ + decimal(from as nat) + "]: is empty"@)
    } else if operations.take(from).contains(operations[from]) {
        Some(
            "operations["@ + decimal(from as nat) + "]: `"@ + operations[from]
                + "` is declared twice"@,
        )
    } else {
        operations_fault(operations, from + 1)
    }
}

/// What is wrong with a word at `key` that is no operation.
pub open spec fn op_fault(operations: Seq<Seq<char>>, key: Seq<char>, word: Seq<char>) -> Option<
    Seq<char>,
> {
    if operations.contains(word) {
        None
    } else {
        Some(
            key + ": `"@ + word + "` is not an op; the ops are: "@ + joined(operations, ", "@),
        )
    }
}

/// What is wrong with the first word at `key`, from `from` on, that is no
/// operation.
pub open spec fn ops_fault(
    operations: Seq<Seq<char>>,
    key: Seq<char>,
    words: Seq<Seq<char>>,
    from: int,
) -> Option<Seq<char>>
    decreases words.len() - from,
{
    if from < 0 || from >= words.len() {
        None
    } else {
        first_of_two(
            op_fault(operations, key, words[from]),
            ops_fault(operations, key, words, from + 1),
        )
    }
}

/// Whether an author is granted a word.
pub open spec fn grants_word(grants: Grants, word: Seq<char>) -> bool {
    match grants {
        Grants::EveryOp => true,
        Grants::Only(capabilities) => op_words(capabilities@).contains(word),
    }
}

/// What is wrong with the first refusal of an author's, from `from` on: of no
/// operation, or of one it is granted.
pub open spec fn refusals_fault(
    operations: Seq<Seq<char>>,
    author: Seq<char>,
    grants: Grants,
    words: Seq<Seq<char>>,
    from: int,
) -> Option<Seq<char>>
    decreases words.len() - from,
{
    if from < 0 || from >= words.len() {
        None
    } else {
        let key = "authors."@ + author + ".refusals."@ + words[from];
        if op_fault(operations, key, words[from]) is Some {
            op_fault(operations, key, words[from])
        } else if grants_word(grants, words[from]) {
            Some(key + ": a granted op may not have a refusal"@)
        } else {
            refusals_fault(operations, author, grants, words, from + 1)
        }
    }
}

/// What is wrong with one author.
pub open spec fn author_fault(
    operations: Seq<Seq<char>>,
    name: Seq<char>,
    author: LayoutAuthor,
) -> Option<Seq<char>> {
    first_of_two(
        match author.grants {
            Grants::EveryOp => None,
            Grants::Only(capabilities) => ops_fault(
                operations,
                "authors."@ + name + ".capabilities"@,
                op_words(capabilities@),
                0,
            ),
        },
        refusals_fault(operations, name, author.grants, names_of(author.refusals@), 0),
    )
}

/// What is wrong with the first author, from `from` on.
pub open spec fn authors_fault(
    operations: Seq<Seq<char>>,
    authors: Seq<(Seq<char>, LayoutAuthor)>,
    from: int,
) -> Option<Seq<char>>
    decreases authors.len() - from,
{
    if from < 0 || from >= authors.len() {
        None
    } else {
        first_of_two(
            author_fault(operations, authors[from].0, authors[from].1),
            authors_fault(operations, authors, from + 1),
        )
    }
}

/// The queues routes go to.
pub open spec fn route_queues(routes: Seq<Route>) -> Seq<Seq<char>> {
    Seq::new(routes.len(), |i: int| routes[i].queue@)
}

/// What is wrong with the first route, from `from` on, to a queue not declared.
pub open spec fn routes_fault(declared: Seq<Seq<char>>, queues: Seq<Seq<char>>, from: int) -> Option<
    Seq<char>,
>
    decreases queues.len() - from,
{
    if from < 0 || from >= queues.len() {
        None
    } else if !declared.contains(queues[from]) {
        Some(
            "route.routes["@ + decimal(from as nat) + "].queue: `"@ + queues[from]
                + "` is not a queue this layout declares"@,
        )
    } else {
        routes_fault(declared, queues, from + 1)
    }
}

/// What is wrong with a step by itself.
pub open spec fn step_fault(declared: Seq<Seq<char>>, step: PrepareStep) -> Option<Seq<char>> {
    match step {
        PrepareStep::Route(route) => {
            let queues = route_queues(route.routes@);
            if routes_fault(declared, queues, 0) is Some {
                routes_fault(declared, queues, 0)
            } else if route.fallback is Some && !queues.contains(route.fallback->0@) {
                Some(
                    "route.fallback: `"@ + route.fallback->0@ + "` is the queue of no route"@,
                )
            } else {
                None
            }
        },
        _ => None,
    }
}

/// What is wrong with the first of a queue's steps, from `from` on: by itself, or
/// a route that is not the last.
pub open spec fn steps_fault(
    declared: Seq<Seq<char>>,
    queue: Seq<char>,
    steps: Seq<PrepareStep>,
    from: int,
) -> Option<Seq<char>>
    decreases steps.len() - from,
{
    if from < 0 || from >= steps.len() {
        None
    } else {
        let at = "prepare."@ + queue + "["@ + decimal(from as nat) + "]."@;
        match step_fault(declared, steps[from]) {
            Some(why) => Some(at + why),
            None => if steps[from] is Route && from + 1 != steps.len() {
                Some(at + "route: a route is the last step of its queue"@)
            } else {
                steps_fault(declared, queue, steps, from + 1)
            },
        }
    }
}

/// What is wrong with the first queue's preparation, from `from` on.
pub open spec fn prepare_fault(
    declared: Seq<Seq<char>>,
    prepare: Seq<(Seq<char>, Vec<PrepareStep>)>,
    from: int,
) -> Option<Seq<char>>
    decreases prepare.len() - from,
{
    if from < 0 || from >= prepare.len() {
        None
    } else {
        let queue = prepare[from].0;
        if !declared.contains(queue) {
            Some("prepare."@ + queue + ": `"@ + queue + "` is not a queue this layout declares"@)
        } else {
            first_of_two(
                steps_fault(declared, queue, prepare[from].1@, 0),
                prepare_fault(declared, prepare, from + 1),
            )
        }
    }
}

/// What is wrong with what a layout's keys say of one another, at the first key
/// that fails.
pub open spec fn layout_fault(parts: LayoutParts) -> Option<Seq<char>> {
    let names = queue_names(parts.queues);
    first_of_two(
        twice_fault(names, 0),
        first_of_two(
            answers_fault(parts.queues, 0),
            first_of_two(
                operations_fault(parts.operations, 0),
                first_of_two(
                    authors_fault(parts.operations, parts.authors, 0),
                    prepare_fault(names, parts.prepare, 0),
                ),
            ),
        ),
    )
}

/// The queues' names.
pub fn names_of_queues(queues: &Vec<QueueSpec>) -> (r: Vec<String>)
    ensures
        texts(r@) == queue_names(specs_view(queues@)),
{
    let mut out: Vec<String> = Vec::new();
    let mut i: usize = 0;
    while i < queues.len()
        invariant
            i <= queues@.len(),
            texts(out@) =~= queue_names(specs_view(queues@)).take(i as int),
        decreases queues@.len() - i,
    {
        let ghost before = texts(out@);
        out.push(queues[i].name.as_str().to_owned());
        proof {
            assert(texts(out@) =~= before.push(queues@[i as int].name@));
        }
        i += 1;
    }
    proof {
        assert(texts(out@) =~= queue_names(specs_view(queues@)));
    }
    out
}

fn check_twice(names: &Vec<String>) -> (r: Result<(), String>)
    ensures
        match r {
            Ok(()) => twice_fault(texts(names@), 0) is None,
            Err(why) => twice_fault(texts(names@), 0) == Some(why@),
        },
{
    let ghost all = texts(names@);
    let mut seen: Vec<String> = Vec::new();
    let mut i: usize = 0;
    proof {
        assert(texts(seen@) =~= all.take(0));
    }
    while i < names.len()
        invariant
            i <= names@.len(),
            all == texts(names@),
            texts(seen@) == all.take(i as int),
            twice_fault(all, 0) == twice_fault(all, i as int),
        decreases names@.len() - i,
    {
        proof {
            assert(all[i as int] == names@[i as int]@);
        }
        if let Some(first) = first_word_of(&seen, names[i].as_str()) {
            let here = decimal_of(i as u64);
            let there = decimal_of(first as u64);
            return Err(
                cat7(
                    "queues[",
                    here.as_str(),
                    "].name: `",
                    names[i].as_str(),
                    "` is already declared by queues[",
                    there.as_str(),
                    "]",
                ),
            );
        }
        seen.push(names[i].clone());
        proof {
            assert(texts(seen@) =~= all.take(i + 1));
        }
        i += 1;
    }
    Ok(())
}

fn check_answers(queues: &Vec<QueueSpec>, names: &Vec<String>) -> (r: Result<(), String>)
    requires
        texts(names@) == queue_names(specs_view(queues@)),
    ensures
        match r {
            Ok(()) => answers_fault(specs_view(queues@), 0) is None,
            Err(why) => answers_fault(specs_view(queues@), 0) == Some(why@),
        },
{
    let ghost all = specs_view(queues@);
    let mut i: usize = 0;
    while i < queues.len()
        invariant
            i <= queues@.len(),
            all == specs_view(queues@),
            texts(names@) == queue_names(all),
            answers_fault(all, 0) == answers_fault(all, i as int),
        decreases queues@.len() - i,
    {
        proof {
            assert(all[i as int] == queues@[i as int]@);
        }
        if let Some(answers) = &queues[i].answers {
            if !holds_text(names, answers.as_str()) {
                let here = decimal_of(i as u64);
                return Err(
                    cat5(
                        "queues[",
                        here.as_str(),
                        "].answers: `",
                        answers.as_str(),
                        "` is not a queue this layout declares",
                    ),
                );
            }
        }
        i += 1;
    }
    Ok(())
}

fn check_operations(operations: &Vec<String>) -> (r: Result<(), String>)
    ensures
        match r {
            Ok(()) => operations_fault(texts(operations@), 0) is None,
            Err(why) => operations_fault(texts(operations@), 0) == Some(why@),
        },
{
    let ghost all = texts(operations@);
    let mut seen: Vec<String> = Vec::new();
    let mut i: usize = 0;
    proof {
        assert(texts(seen@) =~= all.take(0));
    }
    while i < operations.len()
        invariant
            i <= operations@.len(),
            all == texts(operations@),
            texts(seen@) == all.take(i as int),
            operations_fault(all, 0) == operations_fault(all, i as int),
        decreases operations@.len() - i,
    {
        let word = operations[i].as_str();
        proof {
            assert(all[i as int] == word@);
        }
        let here = decimal_of(i as u64);
        if blank(word) {
            return Err(cat3("operations[", here.as_str(), "]: is empty"));
        }
        if holds_text(&seen, word) {
            return Err(
                cat5("operations[", here.as_str(), "]: `", word, "` is declared twice"),
            );
        }
        let ghost before = texts(seen@);
        seen.push(word.to_owned());
        proof {
            assert(texts(seen@) =~= before.push(word@));
            assert(texts(seen@) =~= all.take(i + 1));
        }
        i += 1;
    }
    Ok(())
}

fn check_op(operations: &Vec<String>, key: &str, word: &str) -> (r: Result<(), String>)
    ensures
        match r {
            Ok(()) => op_fault(texts(operations@), key@, word@) is None,
            Err(why) => op_fault(texts(operations@), key@, word@) == Some(why@),
        },
{
    if holds_text(operations, word) {
        return Ok(());
    }
    let listed = join(operations, ", ");
    Err(cat5(key, ": `", word, "` is not an op; the ops are: ", listed.as_str()))
}

fn check_author(operations: &Vec<String>, name: &str, author: &LayoutAuthor) -> (r: Result<
    (),
    String,
>)
    ensures
        match r {
            Ok(()) => author_fault(texts(operations@), name@, *author) is None,
            Err(why) => author_fault(texts(operations@), name@, *author) == Some(why@),
        },
{
    let ghost ops = texts(operations@);
    let mut granted: Option<Vec<String>> = None;
    if let Grants::Only(capabilities) = &author.grants {
        let words = words_in(capabilities);
        let key = cat3("authors.", name, ".capabilities");
        let ghost all = texts(words@);
        let mut i: usize = 0;
        while i < words.len()
            invariant
                i <= words@.len(),
                all == texts(words@),
                all == op_words(capabilities@),
                author.grants == Grants::Only(*capabilities),
                ops == texts(operations@),
                key@ == "authors."@ + name@ + ".capabilities"@,
                ops_fault(ops, key@, all, 0) == ops_fault(ops, key@, all, i as int),
            decreases words@.len() - i,
        {
            proof {
                assert(all[i as int] == words@[i as int]@);
            }
            if let Err(why) = check_op(operations, key.as_str(), words[i].as_str()) {
                return Err(why);
            }
            i += 1;
        }
        granted = Some(words);
    }
    let refused = author.refusals.names();
    let ghost all = texts(refused@);
    let mut i: usize = 0;
    while i < refused.len()
        invariant
            i <= refused@.len(),
            all == texts(refused@),
            all == names_of(author.refusals@),
            ops == texts(operations@),
            match granted {
                Some(words) => author.grants is Only && texts(words@) == op_words(
                    author.grants->Only_0@,
                ),
                None => author.grants is EveryOp,
            },
            author.grants is Only ==> ops_fault(
                ops,
                "authors."@ + name@ + ".capabilities"@,
                op_words(author.grants->Only_0@),
                0,
            ) is None,
            refusals_fault(ops, name@, author.grants, all, 0) == refusals_fault(
                ops,
                name@,
                author.grants,
                all,
                i as int,
            ),
        decreases refused@.len() - i,
    {
        let word = refused[i].as_str();
        proof {
            assert(all[i as int] == word@);
        }
        let key = cat4("authors.", name, ".refusals.", word);
        if let Err(why) = check_op(operations, key.as_str(), word) {
            return Err(why);
        }
        let is_granted = match &granted {
            None => true,
            Some(words) => holds_text(words, word),
        };
        if is_granted {
            return Err(cat2(key.as_str(), ": a granted op may not have a refusal"));
        }
        i += 1;
    }
    Ok(())
}

impl PrepareStep {
    /// Refuses a step that is wrong by itself.
    fn check(&self, declared: &Vec<String>) -> (r: Result<(), String>)
        ensures
            match r {
                Ok(()) => step_fault(texts(declared@), *self) is None,
                Err(why) => step_fault(texts(declared@), *self) == Some(why@),
            },
    {
        let route = match self {
            PrepareStep::Route(route) => route,
            _ => {
                return Ok(());
            },
        };
        let routes = route.routes.items();
        let ghost all = route_queues(route.routes@);
        let mut i: usize = 0;
        while i < routes.len()
            invariant
                i <= routes@.len(),
                *self == PrepareStep::Route(*route),
                routes@ == route.routes@,
                all == route_queues(routes@),
                routes_fault(texts(declared@), all, 0) == routes_fault(
                    texts(declared@),
                    all,
                    i as int,
                ),
            decreases routes@.len() - i,
        {
            let queue = routes[i].queue.as_str();
            proof {
                assert(all[i as int] == queue@);
            }
            if !holds_text(declared, queue) {
                let here = decimal_of(i as u64);
                return Err(
                    cat5(
                        "route.routes[",
                        here.as_str(),
                        "].queue: `",
                        queue,
                        "` is not a queue this layout declares",
                    ),
                );
            }
            i += 1;
        }
        if let Some(fallback) = &route.fallback {
            let mut j: usize = 0;
            while j < routes.len()
                invariant
                    j <= routes@.len(),
                    *self == PrepareStep::Route(*route),
                    route.fallback == Some(*fallback),
                    routes@ == route.routes@,
                    all == route_queues(routes@),
                    routes_fault(texts(declared@), all, 0) is None,
                    forall|k: int| 0 <= k < j ==> #[trigger] all[k] != fallback@,
                decreases routes@.len() - j,
            {
                proof {
                    assert(all[j as int] == routes@[j as int].queue@);
                }
                if same_text(routes[j].queue.as_str(), fallback.as_str()) {
                    return Ok(());
                }
                j += 1;
            }
            return Err(
                cat3("route.fallback: `", fallback.as_str(), "` is the queue of no route"),
            );
        }
        Ok(())
    }
}

fn check_steps(declared: &Vec<String>, queue: &str, steps: &Vec<PrepareStep>) -> (r: Result<
    (),
    String,
>)
    ensures
        match r {
            Ok(()) => steps_fault(texts(declared@), queue@, steps@, 0) is None,
            Err(why) => steps_fault(texts(declared@), queue@, steps@, 0) == Some(why@),
        },
{
    let mut i: usize = 0;
    while i < steps.len()
        invariant
            i <= steps@.len(),
            steps_fault(texts(declared@), queue@, steps@, 0) == steps_fault(
                texts(declared@),
                queue@,
                steps@,
                i as int,
            ),
        decreases steps@.len() - i,
    {
        let here = decimal_of(i as u64);
        let at = cat5("prepare.", queue, "[", here.as_str(), "].");
        if let Err(why) = steps[i].check(declared) {
            return Err(cat2(at.as_str(), why.as_str()));
        }
        let is_route = match &steps[i] {
            PrepareStep::Route(_) => true,
            _ => false,
        };
        if is_route && i + 1 != steps.len() {
            return Err(cat2(at.as_str(), "route: a route is the last step of its queue"));
        }
        i += 1;
    }
    Ok(())
}

impl LayoutDocument {
    /// What the document's keys say.
    pub closed spec fn parts(&self) -> LayoutParts {
        LayoutParts {
            name: self.name@,
            queues: specs_view(self.queues@),
            operations: op_words(self.operations@),
            authors: self.authors@,
            prepare: self.prepare@,
        }
    }

    /// What it is for, where it says so.
    pub closed spec fn described(&self) -> Option<Seq<char>> {
        text_view(self.description)
    }

    #[verifier::type_invariant]
    closed spec fn well_formed(&self) -> bool {
        layout_fault(self.parts()) is None
    }

    /// A layout of `queues` under `name`, refused where its keys contradict one
    /// another, naming the key.
    pub fn new(
        name: LayoutName,
        description: Option<String>,
        queues: NonEmpty<QueueSpec>,
        operations: Vec<OpWord>,
        authors: Table<LayoutAuthor>,
        prepare: Table<Vec<PrepareStep>>,
    ) -> (r: Result<Self, String>)
        ensures
            ({
                let parts = LayoutParts {
                    name: name@,
                    queues: specs_view(queues@),
                    operations: op_words(operations@),
                    authors: authors@,
                    prepare: prepare@,
                };
                match r {
                    Ok(document) => layout_fault(parts) is None && document.parts() == parts
                        && document.described() == text_view(description),
                    Err(why) => layout_fault(parts) == Some(why@),
                }
            }),
    {
        let names = names_of_queues(queues.items());
        let words = words_in(&operations);
        if let Err(why) = check_twice(&names) {
            return Err(why);
        }
        if let Err(why) = check_answers(queues.items(), &names) {
            return Err(why);
        }
        if let Err(why) = check_operations(&words) {
            return Err(why);
        }
        if let Err(why) = LayoutDocument::check_authors(&words, &authors) {
            return Err(why);
        }
        if let Err(why) = LayoutDocument::check_prepare(&names, &prepare) {
            return Err(why);
        }
        Ok(LayoutDocument { name, description, queues, operations, authors, prepare })
    }

    fn check_authors(operations: &Vec<String>, authors: &Table<LayoutAuthor>) -> (r: Result<
        (),
        String,
    >)
        ensures
            match r {
                Ok(()) => authors_fault(texts(operations@), authors@, 0) is None,
                Err(why) => authors_fault(texts(operations@), authors@, 0) == Some(why@),
            },
    {
        let mut i: usize = 0;
        while i < authors.len()
            invariant
                i <= authors@.len(),
                authors_fault(texts(operations@), authors@, 0) == authors_fault(
                    texts(operations@),
                    authors@,
                    i as int,
                ),
            decreases authors@.len() - i,
        {
            if let Err(why) = check_author(operations, authors.name_at(i), authors.value_at(i)) {
                return Err(why);
            }
            i += 1;
        }
        Ok(())
    }

    fn check_prepare(declared: &Vec<String>, prepare: &Table<Vec<PrepareStep>>) -> (r: Result<
        (),
        String,
    >)
        ensures
            match r {
                Ok(()) => prepare_fault(texts(declared@), prepare@, 0) is None,
                Err(why) => prepare_fault(texts(declared@), prepare@, 0) == Some(why@),
            },
    {
        let mut i: usize = 0;
        while i < prepare.len()
            invariant
                i <= prepare@.len(),
                prepare_fault(texts(declared@), prepare@, 0) == prepare_fault(
                    texts(declared@),
                    prepare@,
                    i as int,
                ),
            decreases prepare@.len() - i,
        {
            let queue = prepare.name_at(i);
            if !holds_text(declared, queue) {
                return Err(
                    cat5(
                        "prepare.",
                        queue,
                        ": `",
                        queue,
                        "` is not a queue this layout declares",
                    ),
                );
            }
            if let Err(why) = check_steps(declared, queue, prepare.value_at(i)) {
                return Err(why);
            }
            i += 1;
        }
        Ok(())
    }

    /// The name a configuration's `profile` gives.
    pub fn name(&self) -> (r: &LayoutName)
        ensures
            r@ == self.parts().name,
    {
        &self.name
    }

    /// What the layout is, for a person.
    pub fn description(&self) -> (r: Option<&String>)
        ensures
            match r {
                Some(text) => self.described() == Some(text@),
                None => self.described() is None,
            },
    {
        self.description.as_ref()
    }

    /// The queues it declares.
    pub fn queues(&self) -> (r: &Vec<QueueSpec>)
        ensures
            specs_view(r@) == self.parts().queues,
            r@.len() > 0,
    {
        self.queues.items()
    }

    /// Its operation vocabulary.
    pub fn operations(&self) -> (r: &Vec<OpWord>)
        ensures
            op_words(r@) == self.parts().operations,
    {
        &self.operations
    }

    /// Its authors, and what each may issue.
    pub fn authors(&self) -> (r: &Table<LayoutAuthor>)
        ensures
            r@ == self.parts().authors,
    {
        &self.authors
    }

    /// How an offer to each queue is prepared.
    pub fn prepare(&self) -> (r: &Table<Vec<PrepareStep>>)
        ensures
            r@ == self.parts().prepare,
    {
        &self.prepare
    }

    /// Its authors and their grants over its vocabulary.
    pub fn allowlist(&self) -> (r: Allowlist<OpWord>)
        ensures
            r.ops() == self.parts().operations,
            forall|a: Seq<char>| #[trigger]
                r.granted_to(a) == declared_grants(self.parts(), a),
            forall|a: Seq<char>, op: Seq<char>| #[trigger]
                r.reason_for(a, op) == declared_reason(self.parts(), a, op),
    {
        let ghost parts = self.parts();
        let mut out: Allowlist<OpWord> = Allowlist::new(copied_ops(&self.operations));
        self.authors.ordered();
        let mut i: usize = 0;
        proof {
            assert(parts.authors.take(0) =~= Seq::<(Seq<char>, LayoutAuthor)>::empty());
        }
        while i < self.authors.len()
            invariant
                i <= self.authors@.len(),
                parts == self.parts(),
                in_order(parts.authors),
                out.ops() == parts.operations,
                forall|a: Seq<char>| #[trigger]
                    out.granted_to(a) == grants_among(
                        parts.operations,
                        parts.authors.take(i as int),
                        a,
                    ),
                forall|a: Seq<char>, op: Seq<char>| #[trigger]
                    out.reason_for(a, op) == reason_among(parts.authors.take(i as int), a, op),
            decreases self.authors@.len() - i,
        {
            let name = self.authors.name_at(i);
            let declared = self.authors.value_at(i);
            let author = Author::new(name);
            let ghost before = out;
            let ghost shorter = parts.authors.take(i as int);
            proof {
                assert forall|a: Seq<char>| #[trigger]
                    lookup(parts.authors.take(i + 1), a) == if a == name@ {
                        Some(*declared)
                    } else {
                        lookup(shorter, a)
                    } by {
                    lemma_lookup_take(parts.authors, i as int, a);
                }
                lemma_lookup_some(shorter, name@);
                if names_of(shorter).contains(name@) {
                    let k = choose|k: int|
                        0 <= k < names_of(shorter).len() && names_of(shorter)[k] == name@;
                    assert(text_before(parts.authors[k].0, parts.authors[i as int].0));
                    lemma_before_irreflexive(name@);
                }
                assert(before.granted_to(name@) is None);
            }
            LayoutDocument::declare_author(&mut out, &author, declared, &self.operations);
            proof {
                assert forall|a: Seq<char>| #[trigger]
                    out.granted_to(a) == grants_among(
                        parts.operations,
                        parts.authors.take(i + 1),
                        a,
                    ) by {
                    if a != name@ {
                        assert(before.granted_to(a) == grants_among(
                            parts.operations,
                            shorter,
                            a,
                        ));
                    }
                }
                assert forall|a: Seq<char>, op: Seq<char>| #[trigger]
                    out.reason_for(a, op) == reason_among(parts.authors.take(i + 1), a, op) by {
                    assert(before.reason_for(a, op) == reason_among(shorter, a, op));
                }
            }
            i += 1;
        }
        proof {
            assert(parts.authors.take(i as int) =~= parts.authors);
        }
        out
    }

    fn declare_author(
        out: &mut Allowlist<OpWord>,
        author: &Author,
        declared: &LayoutAuthor,
        operations: &Vec<OpWord>,
    )
        requires
            old(out).granted_to(author@) is None,
            forall|op: Seq<char>| #[trigger] old(out).reason_for(author@, op) is None,
        ensures
            final(out).differs_only_at(old(out), author@),
            final(out).granted_to(author@) == Some(
                granted_words(op_words(operations@), declared.grants),
            ),
            forall|op: Seq<char>| #[trigger]
                final(out).reason_for(author@, op) == reason_text(lookup(declared.refusals@, op)),
    {
        let ghost start = *out;
        out.declare(author);
        let granted = match &declared.grants {
            Grants::EveryOp => copied_ops(operations),
            Grants::Only(capabilities) => copied_ops(capabilities),
        };
        let ghost words = op_words(granted@);
        let mut i: usize = 0;
        proof {
            assert(once_each(words.take(0)) =~= Seq::<Seq<char>>::empty());
        }
        while i < granted.len()
            invariant
                i <= granted@.len(),
                words == op_words(granted@),
                out.differs_only_at(&start, author@),
                out.granted_to(author@) == Some(once_each(words.take(i as int))),
                forall|op: Seq<char>| #[trigger] out.reason_for(author@, op) is None,
            decreases granted@.len() - i,
        {
            let ghost before = *out;
            proof {
                assert(words.take(i + 1).drop_last() =~= words.take(i as int));
                assert(words.take(i + 1).last() == granted@[i as int].word());
            }
            out.grant(author, granted[i].copied());
            proof {
                lemma_still_only_at(*out, before, start, author@);
            }
            i += 1;
        }
        proof {
            assert(words.take(i as int) =~= words);
        }
        declared.refusals.ordered();
        let ghost refusals = declared.refusals@;
        let ghost granted_now = out.granted_to(author@);
        let mut j: usize = 0;
        proof {
            assert(refusals.take(0) =~= Seq::<(Seq<char>, String)>::empty());
        }
        while j < declared.refusals.len()
            invariant
                j <= refusals.len(),
                refusals == declared.refusals@,
                in_order(refusals),
                out.differs_only_at(&start, author@),
                out.granted_to(author@) == granted_now,
                granted_now is Some,
                forall|op: Seq<char>| #[trigger]
                    out.reason_for(author@, op) == reason_text(
                        lookup(refusals.take(j as int), op),
                    ),
            decreases refusals.len() - j,
        {
            let ghost before = *out;
            let op = declared.refusals.name_at(j);
            let reason = declared.refusals.value_at(j);
            out.refuse(author, &OpWord { word: op.to_owned() }, reason.as_str());
            proof {
                lemma_still_only_at(*out, before, start, author@);
                assert forall|w: Seq<char>| #[trigger] out.reason_for(author@, w) == reason_text(
                    lookup(refusals.take(j + 1), w),
                ) by {
                    lemma_lookup_take(refusals, j as int, w);
                    assert(before.reason_for(author@, w) == reason_text(
                        lookup(refusals.take(j as int), w),
                    ));
                }
            }
            j += 1;
        }
        proof {
            assert(refusals.take(j as int) =~= refusals);
        }
    }
}

proof fn lemma_still_only_at(
    after: Allowlist<OpWord>,
    middle: Allowlist<OpWord>,
    start: Allowlist<OpWord>,
    author: Seq<char>,
)
    requires
        after.differs_only_at(&middle, author),
        middle.differs_only_at(&start, author),
    ensures
        after.differs_only_at(&start, author),
{
    assert forall|a: Seq<char>| a != author implies #[trigger] after.granted_to(a)
        == start.granted_to(a) by {
        assert(middle.granted_to(a) == start.granted_to(a));
    }
    assert forall|a: Seq<char>, op: Seq<char>| a != author implies #[trigger] after.reason_for(
        a,
        op,
    ) == start.reason_for(a, op) by {
        assert(middle.reason_for(a, op) == start.reason_for(a, op));
    }
}

/// Words, each once, where it first stands.
pub open spec fn once_each(words: Seq<Seq<char>>) -> Seq<Seq<char>>
    decreases words.len(),
{
    if words.len() == 0 {
        words
    } else {
        with_word(once_each(words.drop_last()), words.last())
    }
}

/// The words an author is granted.
pub open spec fn granted_words(operations: Seq<Seq<char>>, grants: Grants) -> Seq<Seq<char>> {
    match grants {
        Grants::EveryOp => once_each(operations),
        Grants::Only(capabilities) => once_each(op_words(capabilities@)),
    }
}

/// What authors grant one of them.
pub open spec fn grants_among(
    operations: Seq<Seq<char>>,
    authors: Seq<(Seq<char>, LayoutAuthor)>,
    author: Seq<char>,
) -> Option<Seq<Seq<char>>> {
    match lookup(authors, author) {
        Some(declared) => Some(granted_words(operations, declared.grants)),
        None => None,
    }
}

/// Why authors refuse one of them an operation.
pub open spec fn reason_among(
    authors: Seq<(Seq<char>, LayoutAuthor)>,
    author: Seq<char>,
    op: Seq<char>,
) -> Option<Seq<char>> {
    match lookup(authors, author) {
        Some(declared) => reason_text(lookup(declared.refusals@, op)),
        None => None,
    }
}

/// The words a layout grants an author.
pub open spec fn declared_grants(parts: LayoutParts, author: Seq<char>) -> Option<
    Seq<Seq<char>>,
> {
    grants_among(parts.operations, parts.authors, author)
}

/// The reason a layout refuses an author an operation with.
pub open spec fn declared_reason(parts: LayoutParts, author: Seq<char>, op: Seq<char>) -> Option<
    Seq<char>,
> {
    reason_among(parts.authors, author, op)
}

} // verus!
