//! Who may issue which operation: refused by omission, and only ever narrowed.

use crate::table::{
    Table, in_order, inserted, lemma_lookup_inserted, lemma_lookup_removed, lemma_lookup_some,
    lemma_lookup_take, lookup, names_of, removed,
};
use crate::text::{
    cat3, cat4, cat5, cat6, join, joined, lemma_before_irreflexive, lemma_before_total,
    same_text, text_before, texts,
};
use vstd::prelude::*;

verus! {

/// One author's name.
#[derive(Debug, PartialEq, Eq, PartialOrd, Ord, Hash)]
pub struct Author {
    /// The word it goes by.
    pub word: String,
}

impl View for Author {
    type V = Seq<char>;

    open spec fn view(&self) -> Seq<char> {
        self.word@
    }
}

impl Author {
    /// The author `word` names.
    pub fn new(word: &str) -> (r: Self)
        ensures
            r@ == word@,
    {
        Author { word: word.to_owned() }
    }

    /// The word it goes by.
    pub fn as_str(&self) -> (r: &str)
        ensures
            r@ == self@,
    {
        self.word.as_str()
    }
}

impl Clone for Author {
    fn clone(&self) -> (r: Self)
        ensures
            r@ == self@,
    {
        Author { word: self.word.clone() }
    }
}

/// Something an author may issue: one of a vocabulary, named by its word.
pub trait Operation: Sized {
    /// The word it goes by.
    spec fn word(&self) -> Seq<char>;

    /// Whether `other` is the same operation.
    spec fn same(&self, other: &Self) -> bool;

    /// The word it goes by.
    fn name(&self) -> (r: &str)
        ensures
            r@ == self.word(),
    ;

    /// The same operation.
    fn copied(&self) -> (r: Self)
        ensures
            r == *self,
    ;

    /// Whether `other` is the same operation.
    fn equals(&self, other: &Self) -> (r: bool)
        ensures
            r == self.same(other),
    ;

    /// Being the same is an equality.
    proof fn same_is_an_equality(a: &Self, b: &Self, c: &Self)
        ensures
            a.same(a),
            a.same(b) ==> b.same(a),
            a.same(b) && b.same(c) ==> a.same(c),
    ;
}

/// An operation that is its word.
#[derive(Debug, PartialEq, Eq, PartialOrd, Ord, Hash)]
pub struct OpWord {
    /// The word.
    pub word: String,
}

impl Operation for OpWord {
    open spec fn word(&self) -> Seq<char> {
        self.word@
    }

    open spec fn same(&self, other: &Self) -> bool {
        self.word@ == other.word@
    }

    fn name(&self) -> (r: &str) {
        self.word.as_str()
    }

    fn copied(&self) -> (r: Self) {
        OpWord { word: self.word.clone() }
    }

    fn equals(&self, other: &Self) -> (r: bool) {
        same_text(self.word.as_str(), other.word.as_str())
    }

    proof fn same_is_an_equality(a: &Self, b: &Self, c: &Self) {
    }
}

/// Whether operations are the same exactly where they go by one word.
pub open spec fn same_by_word<Op: Operation>() -> bool {
    forall|a: Op, b: Op| #[trigger] a.same(&b) <==> a.word() == b.word()
}

/// Whether an operation is among `ops`.
pub open spec fn has_op<Op: Operation>(ops: Seq<Op>, op: Op) -> bool {
    exists|i: int| 0 <= i < ops.len() && (#[trigger] ops[i]).same(&op)
}

/// The words operations go by.
pub open spec fn op_words<Op: Operation>(ops: Seq<Op>) -> Seq<Seq<char>> {
    Seq::new(ops.len(), |i: int| ops[i].word())
}

/// An operation its author may not issue.
#[derive(Debug, PartialEq, Eq)]
pub struct Refusal {
    /// The author.
    pub author: Author,
    /// The operation's word.
    pub op: String,
    /// Why not.
    pub reason: String,
}

impl Refusal {
    /// The refusal in words.
    pub fn message(&self) -> (r: String)
        ensures
            r@ == "'"@ + self.op@ + "' is not an op "@ + self.author@ + " may issue: "@
                + self.reason@,
    {
        cat6(
            "'",
            self.op.as_str(),
            "' is not an op ",
            self.author.as_str(),
            " may issue: ",
            self.reason.as_str(),
        )
    }
}

/// A grant that may not be made.
#[derive(Debug, PartialEq, Eq)]
pub struct NarrowingRefused {
    /// The key it was made at.
    pub key: String,
    /// Why not.
    pub why: String,
}

impl NarrowingRefused {
    /// The refusal in words.
    pub fn message(&self) -> (r: String)
        ensures
            r@ == self.key@ + ": "@ + self.why@,
    {
        cat3(self.key.as_str(), ": ", self.why.as_str())
    }
}

/// The reason an operation nothing grants is refused with.
pub const NOT_GRANTED: &'static str = "nothing grants it to this author";

/// Who may issue which operation of a vocabulary.
#[derive(Debug)]
pub struct Allowlist<Op: Operation> {
    vocabulary: Vec<Op>,
    grants: Table<Vec<Op>>,
    reasons: Table<Table<String>>,
}

/// A list of words with one more, unless it is there.
pub open spec fn with_word(words: Seq<Seq<char>>, word: Seq<char>) -> Seq<Seq<char>> {
    if words.contains(word) {
        words
    } else {
        words.push(word)
    }
}

/// Where the first operation of `word` is among `ops`, from `from` on.
pub open spec fn first_op<Op: Operation>(ops: Seq<Op>, word: Seq<char>, from: int) -> Option<int>
    decreases ops.len() - from,
{
    if from < 0 || from >= ops.len() {
        None
    } else if ops[from].word() == word {
        Some(from)
    } else {
        first_op(ops, word, from + 1)
    }
}

/// Operations with one more, unless it is there.
pub open spec fn with_op<Op: Operation>(ops: Seq<Op>, op: Op) -> Seq<Op> {
    if has_op(ops, op) {
        ops
    } else {
        ops.push(op)
    }
}

/// The operations of an optional list, none where there is none.
pub open spec fn or_no_ops<Op: Operation>(ops: Option<Seq<Op>>) -> Seq<Op> {
    match ops {
        Some(ops) => ops,
        None => Seq::empty(),
    }
}

/// Whether `ops` are, in order, the operations of `vocabulary` that go by `words`.
pub open spec fn are_named<Op: Operation>(
    vocabulary: Seq<Op>,
    words: Seq<Seq<char>>,
    ops: Seq<Op>,
) -> bool {
    &&& ops.len() == words.len()
    &&& forall|i: int|
        0 <= i < ops.len() ==> first_op(vocabulary, words[i], 0) is Some && (#[trigger] ops[i])
            == vocabulary[first_op(vocabulary, words[i], 0)->0]
}

/// The words of an optional list, none where there is none.
pub open spec fn or_none(words: Option<Seq<Seq<char>>>) -> Seq<Seq<char>> {
    match words {
        Some(words) => words,
        None => Seq::empty(),
    }
}

/// What is wrong with the first of `capabilities` a narrowing may not keep:
/// that it is no operation, or is not granted. Nothing where each may be kept.
pub open spec fn narrowing_fault(
    vocabulary: Seq<Seq<char>>,
    granted: Seq<Seq<char>>,
    author: Seq<char>,
    capabilities: Seq<Seq<char>>,
) -> Option<Seq<char>>
    decreases capabilities.len(),
{
    if capabilities.len() == 0 {
        None
    } else if !vocabulary.contains(capabilities[0]) {
        Some("`"@ + capabilities[0] + "` is not an op; the ops are: "@ + joined(vocabulary, ", "@))
    } else if !granted.contains(capabilities[0]) {
        Some(
            "`"@ + capabilities[0] + "` is not granted to "@ + author
                + " by the profile, and a configuration may narrow an author's grants but never widen them"@,
        )
    } else {
        narrowing_fault(vocabulary, granted, author, capabilities.skip(1))
    }
}

/// What is wrong with the first of `capabilities` a narrowing of `granted` may not
/// keep: that no operation of the vocabulary goes by it, or that the one that does is
/// not granted. Nothing where each may be kept.
pub open spec fn narrowing_refused<Op: Operation>(
    vocabulary: Seq<Op>,
    granted: Seq<Op>,
    author: Seq<char>,
    capabilities: Seq<Seq<char>>,
) -> Option<Seq<char>>
    decreases capabilities.len(),
{
    if capabilities.len() == 0 {
        None
    } else {
        match first_op(vocabulary, capabilities[0], 0) {
            None => Some(
                "`"@ + capabilities[0] + "` is not an op; the ops are: "@ + joined(
                    op_words(vocabulary),
                    ", "@,
                ),
            ),
            Some(at) => if !has_op(granted, vocabulary[at]) {
                Some(
                    "`"@ + capabilities[0] + "` is not granted to "@ + author
                        + " by the profile, and a configuration may narrow an author's grants but never widen them"@,
                )
            } else {
                narrowing_refused(vocabulary, granted, author, capabilities.skip(1))
            },
        }
    }
}

/// Whether a word is that of an operation of `granted` that is not among `kept`.
pub open spec fn is_dropped<Op: Operation>(
    granted: Seq<Op>,
    kept: Seq<Op>,
    word: Seq<char>,
) -> bool {
    exists|i: int|
        0 <= i < granted.len() && (#[trigger] granted[i]).word() == word && !has_op(
            kept,
            granted[i],
        )
}

proof fn lemma_has_by_word<Op: Operation>(ops: Seq<Op>, op: Op)
    requires
        same_by_word::<Op>(),
    ensures
        has_op(ops, op) <==> op_words(ops).contains(op.word()),
{
    if has_op(ops, op) {
        let i = choose|i: int| 0 <= i < ops.len() && (#[trigger] ops[i]).same(&op);
        assert(op_words(ops)[i] == op.word());
    }
    if op_words(ops).contains(op.word()) {
        let i = choose|i: int| 0 <= i < op_words(ops).len() && op_words(ops)[i] == op.word();
        assert(ops[i].same(&op));
    }
}

proof fn lemma_first_op<Op: Operation>(ops: Seq<Op>, word: Seq<char>, from: int)
    requires
        0 <= from <= ops.len(),
    ensures
        match first_op(ops, word, from) {
            Some(at) => from <= at < ops.len() && ops[at].word() == word,
            None => forall|i: int| from <= i < ops.len() ==> (#[trigger] ops[i]).word() != word,
        },
    decreases ops.len() - from,
{
    if from < ops.len() && ops[from].word() != word {
        lemma_first_op(ops, word, from + 1);
    }
}

/// Where operations are the same by their words, a narrowing is refused by the words.
pub proof fn narrowing_goes_by_words<Op: Operation>(
    vocabulary: Seq<Op>,
    granted: Seq<Op>,
    author: Seq<char>,
    capabilities: Seq<Seq<char>>,
)
    requires
        same_by_word::<Op>(),
    ensures
        narrowing_refused(vocabulary, granted, author, capabilities) == narrowing_fault(
            op_words(vocabulary),
            op_words(granted),
            author,
            capabilities,
        ),
    decreases capabilities.len(),
{
    if capabilities.len() > 0 {
        let word = capabilities[0];
        lemma_first_op(vocabulary, word, 0);
        match first_op(vocabulary, word, 0) {
            Some(at) => {
                assert(op_words(vocabulary)[at] == word);
                lemma_has_by_word(granted, vocabulary[at]);
                narrowing_goes_by_words(vocabulary, granted, author, capabilities.skip(1));
            },
            None => {
                if op_words(vocabulary).contains(word) {
                    let i = choose|i: int|
                        0 <= i < op_words(vocabulary).len() && op_words(vocabulary)[i] == word;
                    assert(vocabulary[i].word() == word);
                }
            },
        }
    }
}

/// Whether an operation is among `ops`.
fn holds_op<Op: Operation>(ops: &Vec<Op>, op: &Op) -> (r: bool)
    ensures
        r == has_op(ops@, *op),
{
    let mut i: usize = 0;
    while i < ops.len()
        invariant
            i <= ops@.len(),
            forall|k: int| 0 <= k < i ==> !(#[trigger] ops@[k]).same(op),
        decreases ops@.len() - i,
    {
        if ops[i].equals(op) {
            return true;
        }
        i += 1;
    }
    false
}

/// Where an operation of `word` is among `ops`.
fn find_op<Op: Operation>(ops: &Vec<Op>, word: &str) -> (r: Option<usize>)
    ensures
        match r {
            Some(at) => at < ops@.len() && ops@[at as int].word() == word@ && first_op(
                ops@,
                word@,
                0,
            ) == Some(at as int),
            None => !op_words(ops@).contains(word@) && first_op(ops@, word@, 0) is None,
        },
        r is Some <==> op_words(ops@).contains(word@),
{
    let mut i: usize = 0;
    while i < ops.len()
        invariant
            i <= ops@.len(),
            forall|k: int| 0 <= k < i ==> (#[trigger] op_words(ops@)[k]) != word@,
            first_op(ops@, word@, 0) == first_op(ops@, word@, i as int),
        decreases ops@.len() - i,
    {
        if same_text(ops[i].name(), word) {
            proof {
                assert(op_words(ops@)[i as int] == word@);
            }
            return Some(i);
        }
        i += 1;
    }
    None
}

/// The words operations go by.
pub fn words_in<Op: Operation>(ops: &Vec<Op>) -> (r: Vec<String>)
    ensures
        texts(r@) == op_words(ops@),
{
    let mut out: Vec<String> = Vec::new();
    let mut i: usize = 0;
    while i < ops.len()
        invariant
            i <= ops@.len(),
            texts(out@) =~= op_words(ops@).take(i as int),
        decreases ops@.len() - i,
    {
        let ghost before = texts(out@);
        out.push(ops[i].name().to_owned());
        proof {
            assert(texts(out@) =~= before.push(op_words(ops@)[i as int]));
        }
        i += 1;
    }
    proof {
        assert(texts(out@) =~= op_words(ops@));
    }
    out
}

/// A copy of operations.
pub fn copied_ops<Op: Operation>(ops: &Vec<Op>) -> (r: Vec<Op>)
    ensures
        r@ == ops@,
{
    let mut out: Vec<Op> = Vec::new();
    let mut i: usize = 0;
    while i < ops.len()
        invariant
            i <= ops@.len(),
            out@ =~= ops@.take(i as int),
        decreases ops@.len() - i,
    {
        out.push(ops[i].copied());
        i += 1;
    }
    proof {
        assert(out@ =~= ops@);
    }
    out
}

impl<Op: Operation> Allowlist<Op> {
    /// The operations of the vocabulary.
    pub closed spec fn operations(&self) -> Seq<Op> {
        self.vocabulary@
    }

    /// The operations an author is granted; nothing for one not declared.
    pub closed spec fn granted_ops(&self, author: Seq<char>) -> Option<Seq<Op>> {
        match lookup(self.grants@, author) {
            Some(ops) => Some(ops@),
            None => None,
        }
    }

    /// The words of the vocabulary.
    pub open spec fn ops(&self) -> Seq<Seq<char>> {
        op_words(self.operations())
    }

    /// The words an author is granted; nothing for one not declared.
    pub open spec fn granted_to(&self, author: Seq<char>) -> Option<Seq<Seq<char>>> {
        match self.granted_ops(author) {
            Some(ops) => Some(op_words(ops)),
            None => None,
        }
    }

    /// The reason recorded for refusing an author an operation.
    pub closed spec fn reason_for(&self, author: Seq<char>, op: Seq<char>) -> Option<Seq<char>> {
        match lookup(self.reasons@, author) {
            Some(of_author) => match lookup(of_author@, op) {
                Some(reason) => Some(reason@),
                None => None,
            },
            None => None,
        }
    }

    /// The declared authors, in the order of their names.
    pub closed spec fn author_names(&self) -> Seq<Seq<char>> {
        names_of(self.grants@)
    }

    /// Whether `self` is `other` but for what one author is granted and refused.
    pub open spec fn differs_only_at(&self, other: &Self, author: Seq<char>) -> bool {
        &&& self.operations() == other.operations()
        &&& self.ops() == other.ops()
        &&& forall|a: Seq<char>|
            a != author ==> #[trigger] self.granted_ops(a) == other.granted_ops(a)
        &&& forall|a: Seq<char>|
            a != author ==> #[trigger] self.granted_to(a) == other.granted_to(a)
        &&& forall|a: Seq<char>, op: Seq<char>|
            a != author ==> #[trigger] self.reason_for(a, op) == other.reason_for(a, op)
    }

    /// No author is granted anything of `vocabulary`.
    pub fn new(vocabulary: Vec<Op>) -> (r: Self)
        ensures
            r.operations() == vocabulary@,
            r.ops() == op_words(vocabulary@),
            forall|a: Seq<char>| #[trigger] r.granted_ops(a) is None,
            forall|a: Seq<char>| #[trigger] r.granted_to(a) is None,
            forall|a: Seq<char>, op: Seq<char>| #[trigger] r.reason_for(a, op) is None,
            r.author_names() == Seq::<Seq<char>>::empty(),
    {
        let r = Allowlist { vocabulary, grants: Table::new(), reasons: Table::new() };
        proof {
            assert(r.author_names() =~= Seq::<Seq<char>>::empty());
        }
        r
    }

    /// Puts what an author is granted in its place.
    fn put_grants(&mut self, author: &str, ops: Vec<Op>)
        ensures
            final(self).vocabulary == old(self).vocabulary,
            final(self).reasons == old(self).reasons,
            forall|a: Seq<char>, w: Seq<char>| #[trigger]
                final(self).reason_for(a, w) == old(self).reason_for(a, w),
            final(self).ops() == old(self).ops(),
            final(self).granted_ops(author@) == Some(ops@),
            final(self).granted_to(author@) == Some(op_words(ops@)),
            forall|a: Seq<char>|
                a != author@ ==> #[trigger] final(self).granted_ops(a) == old(self).granted_ops(a),
            forall|a: Seq<char>|
                a != author@ ==> #[trigger] final(self).granted_to(a) == old(self).granted_to(a),
    {
        self.grants.ordered();
        proof {
            assert forall|a: Seq<char>| #[trigger]
                lookup(inserted(self.grants@, author@, ops), a) == if a == author@ {
                    Some(ops)
                } else {
                    lookup(self.grants@, a)
                } by {
                lemma_lookup_inserted(self.grants@, author@, ops, a);
            }
        }
        self.grants.insert(author, ops);
    }

    /// Takes out what an author is granted, nothing where it is not declared.
    fn take_grants(&mut self, author: &str) -> (r: Vec<Op>)
        ensures
            final(self).vocabulary == old(self).vocabulary,
            final(self).reasons == old(self).reasons,
            forall|a: Seq<char>, w: Seq<char>| #[trigger]
                final(self).reason_for(a, w) == old(self).reason_for(a, w),
            final(self).ops() == old(self).ops(),
            r@ == or_no_ops(old(self).granted_ops(author@)),
            op_words(r@) == or_none(old(self).granted_to(author@)),
            forall|a: Seq<char>|
                a != author@ ==> #[trigger] final(self).granted_ops(a) == old(self).granted_ops(a),
            forall|a: Seq<char>|
                a != author@ ==> #[trigger] final(self).granted_to(a) == old(self).granted_to(a),
    {
        self.grants.ordered();
        proof {
            assert forall|a: Seq<char>| #[trigger]
                lookup(removed(self.grants@, author@), a) == if a == author@ {
                    None
                } else {
                    lookup(self.grants@, a)
                } by {
                lemma_lookup_removed(self.grants@, author@, a);
            }
        }
        match self.grants.remove(author) {
            Some(ops) => ops,
            None => {
                let none: Vec<Op> = Vec::new();
                proof {
                    assert(none@ =~= Seq::<Op>::empty());
                    assert(op_words(none@) =~= Seq::<Seq<char>>::empty());
                }
                none
            },
        }
    }

    /// Declares an author, granted nothing where it was not declared already.
    pub fn declare(&mut self, author: &Author)
        ensures
            final(self).differs_only_at(old(self), author@),
            final(self).granted_ops(author@) == Some(or_no_ops(old(self).granted_ops(author@))),
            final(self).granted_to(author@) == Some(or_none(old(self).granted_to(author@))),
            forall|op: Seq<char>| #[trigger]
                final(self).reason_for(author@, op) == old(self).reason_for(author@, op),
    {
        let ops = self.take_grants(author.as_str());
        self.put_grants(author.as_str(), ops);
    }

    /// Grants an author an operation, declaring it.
    pub fn grant(&mut self, author: &Author, op: Op)
        ensures
            final(self).differs_only_at(old(self), author@),
            final(self).granted_ops(author@) == Some(
                with_op(or_no_ops(old(self).granted_ops(author@)), op),
            ),
            same_by_word::<Op>() ==> final(self).granted_to(author@) == Some(
                with_word(or_none(old(self).granted_to(author@)), op.word()),
            ),
            forall|w: Seq<char>| #[trigger]
                final(self).reason_for(author@, w) == old(self).reason_for(author@, w),
    {
        let mut ops = self.take_grants(author.as_str());
        proof {
            if same_by_word::<Op>() {
                lemma_has_by_word(ops@, op);
            }
        }
        if !holds_op(&ops, &op) {
            let ghost before = op_words(ops@);
            ops.push(op);
            proof {
                assert(op_words(ops@) =~= before.push(op.word()));
            }
        }
        self.put_grants(author.as_str(), ops);
    }

    /// Records why an author is refused an operation, declaring it.
    pub fn refuse(&mut self, author: &Author, op: &Op, reason: &str)
        ensures
            final(self).differs_only_at(old(self), author@),
            final(self).granted_ops(author@) == Some(or_no_ops(old(self).granted_ops(author@))),
            final(self).granted_to(author@) == Some(or_none(old(self).granted_to(author@))),
            forall|w: Seq<char>| #[trigger]
                final(self).reason_for(author@, w) == if w == op.word() {
                    Some(reason@)
                } else {
                    old(self).reason_for(author@, w)
                },
    {
        self.declare(author);
        self.put_reason(author.as_str(), op.name(), reason);
    }

    fn put_reason(&mut self, author: &str, op: &str, reason: &str)
        ensures
            final(self).vocabulary == old(self).vocabulary,
            final(self).grants == old(self).grants,
            final(self).ops() == old(self).ops(),
            forall|a: Seq<char>| #[trigger] final(self).granted_ops(a) == old(self).granted_ops(a),
            forall|a: Seq<char>| #[trigger] final(self).granted_to(a) == old(self).granted_to(a),
            forall|a: Seq<char>, w: Seq<char>| #[trigger]
                final(self).reason_for(a, w) == if a == author@ && w == op@ {
                    Some(reason@)
                } else {
                    old(self).reason_for(a, w)
                },
    {
        self.reasons.ordered();
        let ghost before = self.reasons@;
        proof {
            assert forall|a: Seq<char>| #[trigger]
                lookup(removed(before, author@), a) == if a == author@ {
                    None
                } else {
                    lookup(before, a)
                } by {
                lemma_lookup_removed(before, author@, a);
            }
        }
        let mut of_author: Table<String> = match self.reasons.remove(author) {
            Some(of_author) => of_author,
            None => Table::new(),
        };
        of_author.ordered();
        let ghost held = of_author@;
        let given = reason.to_owned();
        proof {
            assert forall|w: Seq<char>| #[trigger]
                lookup(inserted(held, op@, given), w) == if w == op@ {
                    Some(given)
                } else {
                    lookup(held, w)
                } by {
                lemma_lookup_inserted(held, op@, given, w);
            }
        }
        of_author.insert(op, given);
        self.reasons.ordered();
        let ghost rest = self.reasons@;
        proof {
            assert forall|a: Seq<char>| #[trigger]
                lookup(inserted(rest, author@, of_author), a) == if a == author@ {
                    Some(of_author)
                } else {
                    lookup(rest, a)
                } by {
                lemma_lookup_inserted(rest, author@, of_author, a);
            }
        }
        self.reasons.insert(author, of_author);
    }

    /// Whether an author may issue an operation: refused, with the reason
    /// recorded, unless it is granted.
    pub fn allows(&self, author: &Author, op: &Op) -> (r: Result<(), Refusal>)
        ensures
            match r {
                Ok(()) => has_op(or_no_ops(self.granted_ops(author@)), *op),
                Err(refusal) => {
                    &&& !has_op(or_no_ops(self.granted_ops(author@)), *op)
                    &&& refusal.author@ == author@
                    &&& refusal.op@ == op.word()
                    &&& refusal.reason@ == match self.reason_for(author@, op.word()) {
                        Some(reason) => reason,
                        None => NOT_GRANTED@,
                    }
                },
            },
            same_by_word::<Op>() ==> (r is Ok <==> or_none(self.granted_to(author@)).contains(
                op.word(),
            )),
    {
        proof {
            if same_by_word::<Op>() {
                lemma_has_by_word(or_no_ops(self.granted_ops(author@)), *op);
            }
        }
        if let Some(ops) = self.grants.get(author.as_str()) {
            if holds_op(ops, op) {
                return Ok(());
            }
        }
        let reason = match self.reasons.get(author.as_str()) {
            Some(of_author) => match of_author.get(op.name()) {
                Some(reason) => reason.clone(),
                None => NOT_GRANTED.to_owned(),
            },
            None => NOT_GRANTED.to_owned(),
        };
        Err(Refusal { author: author.clone(), op: op.name().to_owned(), reason })
    }

    /// What an author is granted, in the order it was.
    pub fn granted(&self, author: &Author) -> (r: Vec<Op>)
        ensures
            r@ == or_no_ops(self.granted_ops(author@)),
            op_words(r@) == or_none(self.granted_to(author@)),
    {
        match self.grants.get(author.as_str()) {
            Some(ops) => copied_ops(ops),
            None => {
                let none: Vec<Op> = Vec::new();
                proof {
                    assert(none@ =~= Seq::<Op>::empty());
                    assert(op_words(none@) =~= Seq::<Seq<char>>::empty());
                }
                none
            },
        }
    }

    /// Every declared author's name, in order.
    pub fn authors(&self) -> (r: Vec<String>)
        ensures
            texts(r@) == self.author_names(),
            forall|i: int, j: int|
                0 <= i < j < r@.len() ==> text_before(
                    #[trigger] texts(r@)[i],
                    #[trigger] texts(r@)[j],
                ),
            forall|a: Seq<char>| #[trigger]
                self.granted_to(a) is Some <==> texts(r@).contains(a),
    {
        self.grants.ordered();
        proof {
            assert forall|i: int, j: int| 0 <= i < j < self.grants@.len() implies text_before(
                #[trigger] self.author_names()[i],
                #[trigger] self.author_names()[j],
            ) by {
                assert(self.author_names()[i] == self.grants@[i].0);
                assert(self.author_names()[j] == self.grants@[j].0);
            }
            assert forall|a: Seq<char>| #[trigger]
                self.granted_to(a) is Some <==> self.author_names().contains(a) by {
                lemma_lookup_some(self.grants@, a);
            }
        }
        self.grants.names()
    }

    /// Whether an author is declared.
    pub fn declares(&self, author: &Author) -> (r: bool)
        ensures
            r == (self.granted_to(author@) is Some),
    {
        self.grants.get(author.as_str()).is_some()
    }

    /// The vocabulary.
    pub fn vocabulary(&self) -> (r: &Vec<Op>)
        ensures
            r@ == self.operations(),
    {
        &self.vocabulary
    }

    /// The first operation of the vocabulary that goes by `word`.
    pub fn op(&self, word: &str) -> (r: Option<&Op>)
        ensures
            match r {
                Some(op) => {
                    &&& self.ops().contains(word@)
                    &&& op.word() == word@
                    &&& first_op(self.operations(), word@, 0) is Some
                    &&& *op == self.operations()[first_op(self.operations(), word@, 0)->0]
                },
                None => !self.ops().contains(word@) && first_op(self.operations(), word@, 0) is None,
            },
    {
        match find_op(&self.vocabulary, word) {
            Some(at) => Some(&self.vocabulary[at]),
            None => None,
        }
    }

    /// The vocabulary's words, joined.
    pub fn op_list(&self) -> (r: String)
        ensures
            r@ == joined(self.ops(), ", "@),
    {
        let words = words_in(&self.vocabulary);
        join(&words, ", ")
    }

    /// Narrows what an author is granted to `capabilities`, each operation
    /// dropped refused for `reason`. An author not declared, a word that is no
    /// operation and one not granted are refused, and nothing changes.
    pub fn narrow(
        &mut self,
        key: &str,
        author: &Author,
        capabilities: &Vec<String>,
        reason: &str,
    ) -> (r: Result<(), NarrowingRefused>)
        ensures
            match r {
                Ok(()) => {
                    let granted = old(self).granted_ops(author@)->0;
                    let kept = final(self).granted_ops(author@)->0;
                    &&& old(self).granted_ops(author@) is Some
                    &&& narrowing_refused(
                        old(self).operations(),
                        granted,
                        author@,
                        texts(capabilities@),
                    ) is None
                    &&& final(self).differs_only_at(old(self), author@)
                    &&& final(self).granted_ops(author@) is Some
                    &&& are_named(old(self).operations(), texts(capabilities@), kept)
                    &&& final(self).granted_to(author@) == Some(texts(capabilities@))
                    &&& forall|w: Seq<char>| #[trigger]
                        final(self).reason_for(author@, w) == if is_dropped(granted, kept, w) {
                            Some(reason@)
                        } else {
                            old(self).reason_for(author@, w)
                        }
                    &&& same_by_word::<Op>() ==> forall|w: Seq<char>| #[trigger]
                        final(self).reason_for(author@, w) == if old(self).granted_to(
                            author@,
                        )->0.contains(w) && !texts(capabilities@).contains(w) {
                            Some(reason@)
                        } else {
                            old(self).reason_for(author@, w)
                        }
                },
                Err(refused) => {
                    &&& *final(self) == *old(self)
                    &&& refused.key@ == key@
                    &&& match old(self).granted_ops(author@) {
                        None => refused.why@ == "`"@ + author@
                            + "` is not an author this profile declares, and a configuration may not add one; the authors are: "@
                            + joined(old(self).author_names(), ", "@),
                        Some(granted) => narrowing_refused(
                            old(self).operations(),
                            granted,
                            author@,
                            texts(capabilities@),
                        ) == Some(refused.why@),
                    }
                },
            },
            same_by_word::<Op>() && old(self).granted_ops(author@) is Some ==> narrowing_fault(
                old(self).ops(),
                old(self).granted_to(author@)->0,
                author@,
                texts(capabilities@),
            ) == match r {
                Ok(()) => None,
                Err(refused) => Some(refused.why@),
            },
    {
        let granted = match self.grants.get(author.as_str()) {
            Some(granted) => copied_ops(granted),
            None => {
                let authors = self.authors();
                let listed = join(&authors, ", ");
                return Err(
                    NarrowingRefused {
                        key: key.to_owned(),
                        why: cat4(
                            "`",
                            author.as_str(),
                            "` is not an author this profile declares, and a configuration may not add one; the authors are: ",
                            listed.as_str(),
                        ),
                    },
                );
            },
        };
        let ghost words = texts(capabilities@);
        let ghost held = granted@;
        let ghost vocabulary = self.operations();
        proof {
            if same_by_word::<Op>() {
                narrowing_goes_by_words(vocabulary, held, author@, words);
            }
        }
        let mut kept: Vec<Op> = Vec::new();
        let mut i: usize = 0;
        proof {
            assert(words.skip(0) =~= words);
        }
        while i < capabilities.len()
            invariant
                i <= capabilities@.len(),
                *self == *old(self),
                words == texts(capabilities@),
                held == granted@,
                vocabulary == self.operations(),
                self.granted_ops(author@) == Some(held),
                same_by_word::<Op>() ==> narrowing_refused(vocabulary, held, author@, words)
                    == narrowing_fault(self.ops(), op_words(held), author@, words),
                op_words(kept@) =~= words.take(i as int),
                are_named(vocabulary, words.take(i as int), kept@),
                narrowing_refused(vocabulary, held, author@, words) == narrowing_refused(
                    vocabulary,
                    held,
                    author@,
                    words.skip(i as int),
                ),
            decreases capabilities@.len() - i,
        {
            let word = capabilities[i].as_str();
            proof {
                assert(words.skip(i as int).skip(1) =~= words.skip(i + 1));
                assert(words.skip(i as int)[0] == word@);
                lemma_first_op(vocabulary, word@, 0);
            }
            let op = match self.op(word) {
                Some(op) => op,
                None => {
                    let listed = self.op_list();
                    return Err(
                        NarrowingRefused {
                            key: key.to_owned(),
                            why: cat4(
                                "`",
                                word,
                                "` is not an op; the ops are: ",
                                listed.as_str(),
                            ),
                        },
                    );
                },
            };
            if !holds_op(&granted, op) {
                return Err(
                    NarrowingRefused {
                        key: key.to_owned(),
                        why: cat5(
                            "`",
                            word,
                            "` is not granted to ",
                            author.as_str(),
                            " by the profile, and a configuration may narrow an author's grants but never widen them",
                        ),
                    },
                );
            }
            let ghost before = op_words(kept@);
            let ghost had = kept@;
            let copy = op.copied();
            kept.push(copy);
            proof {
                assert(op_words(kept@) =~= before.push(word@));
                let longer = words.take(i + 1);
                assert forall|k: int| 0 <= k < kept@.len() implies first_op(
                    vocabulary,
                    longer[k],
                    0,
                ) is Some && (#[trigger] kept@[k]) == vocabulary[first_op(
                    vocabulary,
                    longer[k],
                    0,
                )->0] by {
                    if k < i {
                        assert(longer[k] == words.take(i as int)[k]);
                        assert(kept@[k] == had[k]);
                    } else {
                        assert(longer[k] == word@);
                    }
                }
            }
            i += 1;
        }
        proof {
            assert(words.take(i as int) =~= words);
        }
        let mut j: usize = 0;
        while j < granted.len()
            invariant
                j <= granted@.len(),
                held == granted@,
                self.vocabulary == old(self).vocabulary,
                self.grants == old(self).grants,
                forall|a: Seq<char>, w: Seq<char>| #[trigger]
                    self.reason_for(a, w) == if a == author@ && is_dropped(
                        held.take(j as int),
                        kept@,
                        w,
                    ) {
                        Some(reason@)
                    } else {
                        old(self).reason_for(a, w)
                    },
            decreases granted@.len() - j,
        {
            let ghost longer = held.take(j + 1);
            let ghost shorter = held.take(j as int);
            proof {
                assert forall|w: Seq<char>| #[trigger] is_dropped(longer, kept@, w) <==> (
                is_dropped(shorter, kept@, w) || (held[j as int].word() == w && !has_op(
                    kept@,
                    held[j as int],
                ))) by {
                    lemma_dropped_push(held, j as int, kept@, w);
                }
            }
            if !holds_op(&kept, &granted[j]) {
                self.put_reason(author.as_str(), granted[j].name(), reason);
            }
            j += 1;
        }
        proof {
            assert(held.take(j as int) =~= held);
            if same_by_word::<Op>() {
                assert forall|w: Seq<char>| #[trigger] is_dropped(held, kept@, w) <==> (op_words(
                    held,
                ).contains(w) && !words.contains(w)) by {
                    lemma_dropped_by_word(held, kept@, w);
                }
            }
        }
        self.put_grants(author.as_str(), kept);
        Ok(())
    }

    /// The same grants and reasons, over the operations' words.
    pub fn words(&self) -> (r: Allowlist<OpWord>)
        ensures
            r.ops() == self.ops(),
            r.author_names() == self.author_names(),
            forall|a: Seq<char>| #[trigger] r.granted_to(a) == self.granted_to(a),
            forall|a: Seq<char>, op: Seq<char>| #[trigger]
                r.reason_for(a, op) == self.reason_for(a, op),
    {
        let mut grants: Table<Vec<OpWord>> = Table::new();
        self.grants.ordered();
        let mut i: usize = 0;
        proof {
            assert(self.grants@.take(0) =~= Seq::<(Seq<char>, Vec<Op>)>::empty());
        }
        while i < self.grants.len()
            invariant
                i <= self.grants@.len(),
                in_order(self.grants@),
                names_of(grants@) =~= names_of(self.grants@).take(i as int),
                forall|a: Seq<char>| #[trigger]
                    granted_in(grants@, a) == granted_in(self.grants@.take(i as int), a),
            decreases self.grants@.len() - i,
        {
            let name = self.grants.name_at(i);
            let ops = as_words(self.grants.value_at(i));
            grants.ordered();
            let ghost before = grants@;
            grants.insert(name, ops);
            proof {
                lemma_insert_last(before, name@, ops, self.grants@, i as int);
                assert forall|a: Seq<char>| #[trigger]
                    granted_in(grants@, a) == granted_in(self.grants@.take(i + 1), a) by {
                    lemma_lookup_inserted(before, name@, ops, a);
                    lemma_lookup_take(self.grants@, i as int, a);
                    assert(granted_in(before, a) == granted_in(self.grants@.take(i as int), a));
                }
            }
            i += 1;
        }
        proof {
            assert(self.grants@.take(i as int) =~= self.grants@);
            assert(names_of(grants@) =~= names_of(self.grants@));
        }
        let mut r = Allowlist {
            vocabulary: as_words(&self.vocabulary),
            grants,
            reasons: Table::new(),
        };
        proof {
            assert forall|a: Seq<char>| #[trigger] r.granted_to(a) == self.granted_to(a) by {
                assert(granted_in(r.grants@, a) == granted_in(self.grants@, a));
            }
        }
        r.copy_reasons(&self.reasons);
        r
    }
}

proof fn lemma_dropped_push<Op: Operation>(
    held: Seq<Op>,
    j: int,
    kept: Seq<Op>,
    word: Seq<char>,
)
    requires
        0 <= j < held.len(),
    ensures
        is_dropped(held.take(j + 1), kept, word) <==> (is_dropped(held.take(j), kept, word) || (
        held[j].word() == word && !has_op(kept, held[j]))),
{
    let longer = held.take(j + 1);
    let shorter = held.take(j);
    if is_dropped(longer, kept, word) {
        let i = choose|i: int|
            0 <= i < longer.len() && (#[trigger] longer[i]).word() == word && !has_op(
                kept,
                longer[i],
            );
        if i < j {
            assert(shorter[i] == longer[i]);
        }
    }
    if is_dropped(shorter, kept, word) {
        let i = choose|i: int|
            0 <= i < shorter.len() && (#[trigger] shorter[i]).word() == word && !has_op(
                kept,
                shorter[i],
            );
        assert(longer[i] == shorter[i]);
    }
    if held[j].word() == word && !has_op(kept, held[j]) {
        assert(longer[j] == held[j]);
    }
}

proof fn lemma_dropped_by_word<Op: Operation>(held: Seq<Op>, kept: Seq<Op>, word: Seq<char>)
    requires
        same_by_word::<Op>(),
    ensures
        is_dropped(held, kept, word) <==> (op_words(held).contains(word) && !op_words(
            kept,
        ).contains(word)),
{
    if is_dropped(held, kept, word) {
        let i = choose|i: int|
            0 <= i < held.len() && (#[trigger] held[i]).word() == word && !has_op(kept, held[i]);
        lemma_has_by_word(kept, held[i]);
        assert(op_words(held)[i] == word);
    }
    if op_words(held).contains(word) && !op_words(kept).contains(word) {
        let i = choose|i: int| 0 <= i < op_words(held).len() && op_words(held)[i] == word;
        lemma_has_by_word(kept, held[i]);
        assert(held[i].word() == word);
    }
}

/// What is granted to an author in a table of grants.
pub open spec fn granted_in<Op: Operation>(
    grants: Seq<(Seq<char>, Vec<Op>)>,
    author: Seq<char>,
) -> Option<Seq<Seq<char>>> {
    match lookup(grants, author) {
        Some(ops) => Some(op_words(ops@)),
        None => None,
    }
}

/// The reason a table of reasons gives.
pub open spec fn reason_in(
    reasons: Seq<(Seq<char>, Table<String>)>,
    author: Seq<char>,
    op: Seq<char>,
) -> Option<Seq<char>> {
    match lookup(reasons, author) {
        Some(of_author) => match lookup(of_author@, op) {
            Some(reason) => Some(reason@),
            None => None,
        },
        None => None,
    }
}

/// A name after every other goes last.
proof fn lemma_insert_last<V, W>(
    entries: Seq<(Seq<char>, V)>,
    key: Seq<char>,
    value: V,
    source: Seq<(Seq<char>, W)>,
    i: int,
)
    requires
        in_order(source),
        0 <= i < source.len(),
        names_of(entries) == names_of(source).take(i),
        key == source[i].0,
    ensures
        names_of(inserted(entries, key, value)) == names_of(source).take(i + 1),
{
    assert forall|k: int| 0 <= k < entries.len() implies text_before(
        (#[trigger] entries[k]).0,
        key,
    ) by {
        assert(entries.len() == names_of(entries).len());
        assert(names_of(entries)[k] == names_of(source).take(i)[k]);
        assert(source[k].0 == entries[k].0);
        assert(text_before(source[k].0, source[i].0));
    }
    lemma_inserted_last(entries, key, value);
    let all = names_of(entries.push((key, value)));
    let wanted = names_of(source).take(i + 1);
    assert(entries.len() == names_of(entries).len());
    assert forall|k: int| 0 <= k < all.len() implies all[k] == wanted[k] by {
        if k < i {
            assert(names_of(entries)[k] == names_of(source).take(i)[k]);
        }
    }
    assert(all =~= wanted);
}

proof fn lemma_inserted_last<V>(entries: Seq<(Seq<char>, V)>, key: Seq<char>, value: V)
    requires
        forall|k: int|
            0 <= k < entries.len() ==> text_before((#[trigger] entries[k]).0, key),
    ensures
        inserted(entries, key, value) == entries.push((key, value)),
    decreases entries.len(),
{
    if entries.len() == 0 {
        assert(seq![(key, value)] =~= entries.push((key, value)));
    } else {
        let tail = entries.skip(1);
        assert forall|k: int| 0 <= k < tail.len() implies text_before((#[trigger] tail[k]).0, key) by {
            assert(tail[k] == entries[k + 1]);
        }
        lemma_inserted_last(tail, key, value);
        lemma_before_total(entries[0].0, key);
        lemma_before_irreflexive(key);
        assert(text_before(entries[0].0, key));
        assert(seq![entries[0]] + tail.push((key, value)) =~= entries.push((key, value)));
    }
}

/// Operations as their words.
fn as_words<Op: Operation>(ops: &Vec<Op>) -> (r: Vec<OpWord>)
    ensures
        op_words(r@) == op_words(ops@),
{
    let mut out: Vec<OpWord> = Vec::new();
    let mut i: usize = 0;
    while i < ops.len()
        invariant
            i <= ops@.len(),
            op_words(out@) =~= op_words(ops@).take(i as int),
        decreases ops@.len() - i,
    {
        let ghost before = op_words(out@);
        out.push(OpWord { word: ops[i].name().to_owned() });
        proof {
            assert(op_words(out@) =~= before.push(op_words(ops@)[i as int]));
        }
        i += 1;
    }
    proof {
        assert(op_words(out@) =~= op_words(ops@));
    }
    out
}

impl Allowlist<OpWord> {
    /// Records every reason of `reasons`.
    fn copy_reasons(&mut self, reasons: &Table<Table<String>>)
        requires
            forall|a: Seq<char>, op: Seq<char>| #[trigger] old(self).reason_for(a, op) is None,
        ensures
            final(self).vocabulary == old(self).vocabulary,
            final(self).grants == old(self).grants,
            final(self).ops() == old(self).ops(),
            final(self).author_names() == old(self).author_names(),
            forall|a: Seq<char>| #[trigger] final(self).granted_to(a) == old(self).granted_to(a),
            forall|a: Seq<char>, op: Seq<char>| #[trigger]
                final(self).reason_for(a, op) == reason_in(reasons@, a, op),
    {
        reasons.ordered();
        let mut i: usize = 0;
        proof {
            assert(reasons@.take(0) =~= Seq::<(Seq<char>, Table<String>)>::empty());
        }
        while i < reasons.len()
            invariant
                i <= reasons@.len(),
                in_order(reasons@),
                self.vocabulary == old(self).vocabulary,
                self.grants == old(self).grants,
                forall|a: Seq<char>, op: Seq<char>| #[trigger]
                    self.reason_for(a, op) == reason_in(reasons@.take(i as int), a, op),
            decreases reasons@.len() - i,
        {
            let name = reasons.name_at(i);
            let of_author = reasons.value_at(i);
            of_author.ordered();
            let ghost rest = reasons@.take(i as int);
            let mut j: usize = 0;
            proof {
                assert(of_author@.take(0) =~= Seq::<(Seq<char>, String)>::empty());
                assert forall|a: Seq<char>| #[trigger] lookup(reasons@.take(i + 1), a) == if a
                    == name@ {
                    Some(*of_author)
                } else {
                    lookup(rest, a)
                } by {
                    lemma_lookup_take(reasons@, i as int, a);
                }
                assert(lookup(rest, name@) is None) by {
                    lemma_lookup_some(rest, name@);
                    if names_of(rest).contains(name@) {
                        let k = choose|k: int|
                            0 <= k < names_of(rest).len() && names_of(rest)[k] == name@;
                        assert(text_before(reasons@[k].0, reasons@[i as int].0));
                        lemma_before_irreflexive(name@);
                    }
                }
            }
            while j < of_author.len()
                invariant
                    j <= of_author@.len(),
                    in_order(of_author@),
                    rest == reasons@.take(i as int),
                    lookup(rest, name@) is None,
                    self.vocabulary == old(self).vocabulary,
                    self.grants == old(self).grants,
                    forall|a: Seq<char>, op: Seq<char>| #[trigger]
                        self.reason_for(a, op) == if a == name@ {
                            reason_text(lookup(of_author@.take(j as int), op))
                        } else {
                            reason_in(rest, a, op)
                        },
                decreases of_author@.len() - j,
            {
                let op = of_author.name_at(j);
                let reason = of_author.value_at(j);
                self.put_reason(name, op, reason.as_str());
                proof {
                    assert forall|w: Seq<char>| #[trigger] lookup(of_author@.take(j + 1), w)
                        == if w == op@ {
                        Some(*reason)
                    } else {
                        lookup(of_author@.take(j as int), w)
                    } by {
                        lemma_lookup_take(of_author@, j as int, w);
                    }
                }
                j += 1;
            }
            proof {
                assert(of_author@.take(j as int) =~= of_author@);
            }
            i += 1;
        }
        proof {
            assert(reasons@.take(i as int) =~= reasons@);
        }
    }
}

/// An optional reason's text.
pub open spec fn reason_text(reason: Option<String>) -> Option<Seq<char>> {
    match reason {
        Some(reason) => Some(reason@),
        None => None,
    }
}

// ---------------------------------------------------------------------------
// What holds of grants.
// ---------------------------------------------------------------------------

/// A narrowing only narrows: an operation among those it leaves granted, which are of the
/// vocabulary and go by `capabilities`, was granted.
pub proof fn narrowing_keeps_within_the_grants<Op: Operation>(
    vocabulary: Seq<Op>,
    granted: Seq<Op>,
    author: Seq<char>,
    capabilities: Seq<Seq<char>>,
    kept: Seq<Op>,
    op: Op,
)
    requires
        narrowing_refused(vocabulary, granted, author, capabilities) is None,
        are_named(vocabulary, capabilities, kept),
        has_op(kept, op),
    ensures
        has_op(granted, op),
{
    let i = choose|i: int| 0 <= i < kept.len() && (#[trigger] kept[i]).same(&op);
    lemma_each_is_granted(vocabulary, granted, author, capabilities, i);
    let named = vocabulary[first_op(vocabulary, capabilities[i], 0)->0];
    assert(kept[i] == named);
    let k = choose|k: int| 0 <= k < granted.len() && (#[trigger] granted[k]).same(&named);
    Op::same_is_an_equality(&granted[k], &named, &op);
    assert(granted[k].same(&op));
}

proof fn lemma_each_is_granted<Op: Operation>(
    vocabulary: Seq<Op>,
    granted: Seq<Op>,
    author: Seq<char>,
    capabilities: Seq<Seq<char>>,
    i: int,
)
    requires
        narrowing_refused(vocabulary, granted, author, capabilities) is None,
        0 <= i < capabilities.len(),
    ensures
        first_op(vocabulary, capabilities[i], 0) is Some,
        has_op(granted, vocabulary[first_op(vocabulary, capabilities[i], 0)->0]),
    decreases capabilities.len(),
{
    if i > 0 {
        lemma_each_is_granted(vocabulary, granted, author, capabilities.skip(1), i - 1);
        assert(capabilities.skip(1)[i - 1] == capabilities[i]);
    }
}

/// A narrowing only narrows: what it leaves granted was granted.
pub proof fn narrowing_never_widens(
    vocabulary: Seq<Seq<char>>,
    granted: Seq<Seq<char>>,
    author: Seq<char>,
    capabilities: Seq<Seq<char>>,
    word: Seq<char>,
)
    requires
        narrowing_fault(vocabulary, granted, author, capabilities) is None,
        capabilities.contains(word),
    ensures
        granted.contains(word),
        vocabulary.contains(word),
    decreases capabilities.len(),
{
    let k = choose|k: int| 0 <= k < capabilities.len() && capabilities[k] == word;
    if k > 0 {
        let rest = capabilities.skip(1);
        assert(rest[k - 1] == word);
        narrowing_never_widens(vocabulary, granted, author, rest, word);
    }
}

} // verus!
