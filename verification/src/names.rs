//! The names queues, consumers and documents go by.

use crate::text::{
    cat3, cat5, chars_of, contains, decimal, decimal_of, ends, ends_with, holds_part, is_digit,
    is_letter, quoted, quoted_of, same_text,
};
use vstd::prelude::*;

verus! {

/// Why text is not a name.
#[derive(Debug, PartialEq, Eq)]
pub struct NameError {
    /// What it was to name.
    pub what: String,
    /// What was offered.
    pub text: String,
    /// What is wrong with it.
    pub why: String,
}

impl NameError {
    /// The refusal in words.
    pub fn message(&self) -> (r: String)
        ensures
            r@ == quoted(self.text@) + " is not a "@ + self.what@ + " name: "@ + self.why@,
    {
        let text = quoted_of(self.text.as_str());
        cat5(text.as_str(), " is not a ", self.what.as_str(), " name: ", self.why.as_str())
    }
}

/// How `char`'s `Debug` writes a character: quoted, with escapes.
pub uninterp spec fn quoted_char(c: char) -> Seq<char>;

/// `format!("{c:?}")`: `char`'s `Debug`, named [`quoted_char`].
#[verifier::external_body]
fn quoted_char_of(c: char) -> (r: String)
    ensures
        r@ == quoted_char(c),
{
    format!("{c:?}")
}

/// Whether `c` is an ASCII letter or digit.
pub open spec fn is_alphanumeric(c: char) -> bool {
    is_letter(c) || is_digit(c)
}

/// Whether a name may hold `c`: a letter, a digit, `-`, `_` or, where `dots`,
/// `.`.
pub open spec fn is_name_char(c: char, dots: bool) -> bool {
    is_alphanumeric(c) || c == '-' || c == '_' || (dots && c == '.')
}

/// Whether `text` is a name: characters a name may hold, the first a letter or
/// digit.
pub open spec fn is_name(text: Seq<char>, dots: bool) -> bool {
    &&& text.len() > 0
    &&& forall|i: int| 0 <= i < text.len() ==> is_name_char(#[trigger] text[i], dots)
    &&& is_alphanumeric(text[0])
}

/// The characters a name may hold, in words.
pub open spec fn allowed_words(dots: bool) -> Seq<char> {
    if dots {
        "ASCII letters, digits, `-`, `_` and `.`"@
    } else {
        "ASCII letters, digits, `-` and `_`"@
    }
}

/// Why `text` is not a name, in words: that it is empty, the first character a
/// name may not hold, or how it starts.
pub open spec fn name_fault(text: Seq<char>, dots: bool, why: Seq<char>) -> bool {
    if text.len() == 0 {
        why == "it is empty"@
    } else if forall|i: int| 0 <= i < text.len() ==> is_name_char(#[trigger] text[i], dots) {
        why == "it does not start with a letter or digit"@
    } else {
        exists|i: int|
            #![trigger text[i]]
            {
                &&& 0 <= i < text.len()
                &&& !is_name_char(text[i], dots)
                &&& forall|k: int| 0 <= k < i ==> is_name_char(#[trigger] text[k], dots)
                &&& why == quoted_char(text[i]) + " is not one of "@ + allowed_words(dots)
            }
    }
}

/// Whether `c` is an ASCII letter or digit.
pub fn alphanumeric(c: char) -> (r: bool)
    ensures
        r == is_alphanumeric(c),
{
    ('a' <= c && c <= 'z') || ('A' <= c && c <= 'Z') || ('0' <= c && c <= '9')
}

/// Refuses text that is not a name.
fn check_name(what: &str, text: &str, dots: bool) -> (r: Result<(), NameError>)
    ensures
        match r {
            Ok(()) => is_name(text@, dots),
            Err(e) => !is_name(text@, dots) && e.what@ == what@ && e.text@ == text@ && name_fault(
                text@,
                dots,
                e.why@,
            ),
        },
{
    let chars = chars_of(text);
    if chars.len() == 0 {
        return Err(
            NameError {
                what: what.to_owned(),
                text: text.to_owned(),
                why: "it is empty".to_owned(),
            },
        );
    }
    let mut i: usize = 0;
    while i < chars.len()
        invariant
            i <= chars@.len(),
            chars@ == text@,
            forall|k: int| 0 <= k < i ==> is_name_char(#[trigger] text@[k], dots),
        decreases chars@.len() - i,
    {
        let c = chars[i];
        if !(alphanumeric(c) || c == '-' || c == '_' || (dots && c == '.')) {
            let allowed = if dots {
                "ASCII letters, digits, `-`, `_` and `.`"
            } else {
                "ASCII letters, digits, `-` and `_`"
            };
            let shown = quoted_char_of(c);
            proof {
                assert(!is_name_char(text@[i as int], dots));
            }
            return Err(
                NameError {
                    what: what.to_owned(),
                    text: text.to_owned(),
                    why: cat3(shown.as_str(), " is not one of ", allowed),
                },
            );
        }
        i += 1;
    }
    if !alphanumeric(chars[0]) {
        return Err(
            NameError {
                what: what.to_owned(),
                text: text.to_owned(),
                why: "it does not start with a letter or digit".to_owned(),
            },
        );
    }
    Ok(())
}

/// A queue's name: letters, digits, `-` and `_`, starting with a letter or
/// digit.
#[derive(Debug, PartialEq, Eq, PartialOrd, Ord, Hash)]
pub struct QueueName {
    text: String,
}

impl View for QueueName {
    type V = Seq<char>;

    closed spec fn view(&self) -> Seq<char> {
        self.text@
    }
}

impl QueueName {
    #[verifier::type_invariant]
    closed spec fn well_formed(&self) -> bool {
        is_name(self.text@, false)
    }

    /// `text` as a queue's name.
    pub fn from_str(text: &str) -> (r: Result<Self, NameError>)
        ensures
            match r {
                Ok(name) => is_name(text@, false) && name@ == text@,
                Err(e) => !is_name(text@, false) && e.what@ == "queue"@ && e.text@ == text@
                    && name_fault(text@, false, e.why@),
            },
    {
        match check_name("queue", text, false) {
            Ok(()) => Ok(QueueName { text: text.to_owned() }),
            Err(e) => Err(e),
        }
    }

    /// The name as text.
    pub fn as_str(&self) -> (r: &str)
        ensures
            r@ == self@,
            is_name(r@, false),
    {
        proof {
            use_type_invariant(self);
        }
        self.text.as_str()
    }
}

impl Clone for QueueName {
    fn clone(&self) -> (r: Self)
        ensures
            r@ == self@,
    {
        proof {
            use_type_invariant(self);
        }
        QueueName { text: self.text.clone() }
    }
}

/// A consumer's name: letters, digits, `-` and `_`, starting with a letter or
/// digit.
#[derive(Debug, PartialEq, Eq, PartialOrd, Ord, Hash)]
pub struct ConsumerName {
    text: String,
}

impl View for ConsumerName {
    type V = Seq<char>;

    closed spec fn view(&self) -> Seq<char> {
        self.text@
    }
}

impl ConsumerName {
    #[verifier::type_invariant]
    closed spec fn well_formed(&self) -> bool {
        is_name(self.text@, false)
    }

    /// `text` as a consumer's name.
    pub fn from_str(text: &str) -> (r: Result<Self, NameError>)
        ensures
            match r {
                Ok(name) => is_name(text@, false) && name@ == text@,
                Err(e) => !is_name(text@, false) && e.what@ == "consumer"@ && e.text@ == text@
                    && name_fault(text@, false, e.why@),
            },
    {
        match check_name("consumer", text, false) {
            Ok(()) => Ok(ConsumerName { text: text.to_owned() }),
            Err(e) => Err(e),
        }
    }

    /// The name as text.
    pub fn as_str(&self) -> (r: &str)
        ensures
            r@ == self@,
            is_name(r@, false),
    {
        proof {
            use_type_invariant(self);
        }
        self.text.as_str()
    }
}

impl Clone for ConsumerName {
    fn clone(&self) -> (r: Self)
        ensures
            r@ == self@,
    {
        proof {
            use_type_invariant(self);
        }
        ConsumerName { text: self.text.clone() }
    }
}

/// The name of the consumer a queue has when nothing names one.
pub const DEFAULT_CONSUMER: &'static str = "default";

impl ConsumerName {
    /// The consumer a queue has when nothing names one.
    pub fn default_consumer() -> (r: Self)
        ensures
            r@ == DEFAULT_CONSUMER@,
    {
        proof {
            reveal_strlit("default");
        }
        ConsumerName { text: DEFAULT_CONSUMER.to_owned() }
    }

    /// Whether this is the default consumer.
    pub fn is_default(&self) -> (r: bool)
        ensures
            r == (self@ == DEFAULT_CONSUMER@),
    {
        same_text(self.text.as_str(), DEFAULT_CONSUMER)
    }
}

/// Why a document may not be named `text`, when its name is one a queue's own
/// files are kept under.
pub open spec fn reserved_fault(text: Seq<char>) -> Option<Seq<char>> {
    if ends(text, ".jsonl"@) {
        Some("it ends in `"@ + ".jsonl"@ + "`, which a queue's own files are kept under"@)
    } else if ends(text, ".torn"@) {
        Some("it ends in `"@ + ".torn"@ + "`, which a queue's own files are kept under"@)
    } else if ends(text, ".staging"@) {
        Some("it ends in `"@ + ".staging"@ + "`, which a queue's own files are kept under"@)
    } else if ends(text, ".lock"@) {
        Some("it ends in `"@ + ".lock"@ + "`, which a queue's own files are kept under"@)
    } else if holds_part(text, "-cursor."@) {
        Some("it holds `-cursor.`, which a consumer's cursor file is named with"@)
    } else {
        None
    }
}

/// Whether `text` is a document's name: a name that may hold dots, and none a
/// queue's own files are kept under.
pub open spec fn is_document_name(text: Seq<char>) -> bool {
    is_name(text, true) && reserved_fault(text) is None
}

/// A document's name: letters, digits, `-`, `_` and `.`, starting with a letter
/// or digit, and not one a queue's own files are kept under.
#[derive(Debug, PartialEq, Eq, PartialOrd, Ord, Hash)]
pub struct DocumentName {
    text: String,
}

impl View for DocumentName {
    type V = Seq<char>;

    closed spec fn view(&self) -> Seq<char> {
        self.text@
    }
}

/// Why `text` is reserved.
fn reserved_fault_of(text: &str) -> (r: Option<String>)
    ensures
        match r {
            Some(why) => reserved_fault(text@) == Some(why@),
            None => reserved_fault(text@) is None,
        },
{
    let after = "`, which a queue's own files are kept under";
    if ends_with(text, ".jsonl") {
        Some(cat3("it ends in `", ".jsonl", after))
    } else if ends_with(text, ".torn") {
        Some(cat3("it ends in `", ".torn", after))
    } else if ends_with(text, ".staging") {
        Some(cat3("it ends in `", ".staging", after))
    } else if ends_with(text, ".lock") {
        Some(cat3("it ends in `", ".lock", after))
    } else if contains(text, "-cursor.") {
        Some("it holds `-cursor.`, which a consumer's cursor file is named with".to_owned())
    } else {
        None
    }
}

impl DocumentName {
    #[verifier::type_invariant]
    closed spec fn well_formed(&self) -> bool {
        is_document_name(self.text@)
    }

    /// `text` as a document's name.
    pub fn from_str(text: &str) -> (r: Result<Self, NameError>)
        ensures
            match r {
                Ok(name) => is_document_name(text@) && name@ == text@,
                Err(e) => !is_document_name(text@) && e.what@ == "document"@ && e.text@ == text@
                    && if is_name(text@, true) {
                    reserved_fault(text@) == Some(e.why@)
                } else {
                    name_fault(text@, true, e.why@)
                },
            },
    {
        match check_name("document", text, true) {
            Ok(()) => match reserved_fault_of(text) {
                None => Ok(DocumentName { text: text.to_owned() }),
                Some(why) => Err(
                    NameError { what: "document".to_owned(), text: text.to_owned(), why },
                ),
            },
            Err(e) => Err(e),
        }
    }

    /// The name as text.
    pub fn as_str(&self) -> (r: &str)
        ensures
            r@ == self@,
            is_document_name(r@),
    {
        proof {
            use_type_invariant(self);
        }
        self.text.as_str()
    }
}

impl Clone for DocumentName {
    fn clone(&self) -> (r: Self)
        ensures
            r@ == self@,
    {
        proof {
            use_type_invariant(self);
        }
        DocumentName { text: self.text.clone() }
    }
}

/// A place in a queue: what only its transport reads more into than that it is
/// before or after another.
#[derive(Debug, Clone, Copy, PartialEq, Eq, Hash, Structural)]
pub struct Position {
    token: u64,
}

impl View for Position {
    type V = u64;

    closed spec fn view(&self) -> u64 {
        self.token
    }
}

impl Position {
    /// The position a transport wrote as `token`.
    pub fn from_token(token: u64) -> (r: Self)
        ensures
            r@ == token,
    {
        Position { token }
    }

    /// The number a transport writes this as.
    pub fn token(self) -> (r: u64)
        ensures
            r == self@,
    {
        self.token
    }

    /// The position as text.
    pub fn to_text(self) -> (r: String)
        ensures
            r@ == decimal(self@ as nat),
    {
        decimal_of(self.token)
    }
}

/// A queue's change token: two that are equal say nothing changed between them.
#[derive(Debug, PartialEq, Eq, Hash)]
pub struct Fingerprint {
    parts: Vec<u64>,
}

impl View for Fingerprint {
    type V = Seq<u64>;

    closed spec fn view(&self) -> Seq<u64> {
        self.parts@
    }
}

impl Fingerprint {
    /// The token made of `parts`.
    pub fn from_parts(parts: Vec<u64>) -> (r: Self)
        ensures
            r@ == parts@,
    {
        Fingerprint { parts }
    }

    /// What the token is made of.
    pub fn parts(&self) -> (r: &Vec<u64>)
        ensures
            r@ == self@,
    {
        &self.parts
    }

    /// Whether this is the token `other` is.
    pub fn equals(&self, other: &Fingerprint) -> (r: bool)
        ensures
            r == (self@ == other@),
    {
        if self.parts.len() != other.parts.len() {
            return false;
        }
        let mut i: usize = 0;
        while i < self.parts.len()
            invariant
                i <= self.parts@.len() == other.parts@.len(),
                forall|k: int| 0 <= k < i ==> self.parts@[k] == other.parts@[k],
            decreases self.parts@.len() - i,
        {
            if self.parts[i] != other.parts[i] {
                return false;
            }
            i += 1;
        }
        proof {
            assert(self.parts@ =~= other.parts@);
        }
        true
    }
}

/// What a wait for a queue to change found.
#[derive(Debug, PartialEq, Eq)]
pub enum Changed {
    /// It moved, to this.
    Moved(Fingerprint),
    /// It did not; it is still this.
    Unchanged(Fingerprint),
}

} // verus!
