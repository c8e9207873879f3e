//! Which question a reply answers, and what a question is about.

use crate::digest::{sha256, sha256_of};
use crate::names::{alphanumeric, is_alphanumeric};
use crate::text::{
    blank, byte_len, cat2, cat4, chars_of, hex, hex_of, is_blank, quoted, quoted_of, same_text,
};
use vstd::prelude::*;
use vstd::utf8::encode_utf8;

verus! {

/// The field a question and a reply carry their correlation in.
pub const CORRELATION: &'static str = "correlation";

/// The field a question carries what it is about in.
pub const ABOUT: &'static str = "about";

/// The longest correlation accepted, in bytes.
pub const CORRELATION_LIMIT: usize = 128;

/// The longest address accepted, in bytes.
pub const ADDRESS_LIMIT: usize = 512;

/// `getrandom::fill` of 16 bytes: 16 bytes, of which nothing else is said, or
/// nothing where the system gives none.
#[verifier::external_body]
fn random_bytes() -> (r: Option<Vec<u8>>)
    ensures
        r is Some ==> r->0@.len() == 16,
{
    let mut bytes = [0u8; 16];
    match getrandom::fill(&mut bytes) {
        Ok(()) => Some(bytes.to_vec()),
        Err(_) => None,
    }
}

/// Whether the system gave `drawn` when it was asked for random bytes.
pub closed spec fn is_drawn(drawn: Option<Vec<u8>>) -> bool {
    call_ensures(random_bytes, (), drawn)
}

/// The bytes a correlation is made of: those drawn, or, where none were, the first of
/// the digest of `fallback`.
pub open spec fn minted_bytes(drawn: Option<Vec<u8>>, fallback: Seq<u8>) -> Seq<u8> {
    match drawn {
        Some(bytes) => bytes@,
        None => sha256(fallback).take(16),
    }
}

/// `char::is_control`: whether a character is in Unicode's `Cc`.
pub assume_specification[ char::is_control ](c: char) -> (r: bool)
    ensures
        r == is_control_char(c),
;

/// The control characters, Unicode's `Cc`.
pub open spec fn is_control_char(c: char) -> bool {
    (c as u32) < 0x20 || 0x7f <= c as u32 <= 0x9f
}

/// Whether a correlation may hold `c`.
pub open spec fn is_correlation_char(c: char) -> bool {
    is_alphanumeric(c) || c == '.' || c == '_' || c == ':' || c == '-'
}

/// What is wrong with text as a correlation.
pub open spec fn correlation_fault(text: Seq<char>) -> Option<Seq<char>> {
    if text.len() == 0 {
        Some("it is empty"@)
    } else if encode_utf8(text).len() > CORRELATION_LIMIT {
        Some("it is longer than a correlation can be"@)
    } else if !is_alphanumeric(text[0]) {
        Some("it does not start with a letter or a digit"@)
    } else if exists|i: int| 0 <= i < text.len() && !is_correlation_char(#[trigger] text[i]) {
        Some("it carries a character a correlation does not"@)
    } else {
        None
    }
}

/// Which question a reply answers: compared for equality and never parsed for
/// meaning.
#[derive(Debug, PartialEq, Eq, Hash, PartialOrd, Ord)]
pub struct Correlation {
    token: String,
}

/// Why text is not a [`Correlation`].
#[derive(Debug, PartialEq, Eq)]
pub struct CorrelationError {
    /// What was offered.
    pub text: String,
    /// What is wrong with it.
    pub why: String,
}

impl CorrelationError {
    /// The refusal in words.
    pub fn message(&self) -> (r: String)
        ensures
            r@ == quoted(self.text@) + " is not a correlation: "@ + self.why@
                + "; a correlation is the token `ask` printed: 1 to 128 ASCII letters, digits, `.`, `_`, `:` and `-`, starting with a letter or a digit"@,
    {
        let text = quoted_of(self.text.as_str());
        cat4(
            text.as_str(),
            " is not a correlation: ",
            self.why.as_str(),
            "; a correlation is the token `ask` printed: 1 to 128 ASCII letters, digits, `.`, `_`, `:` and `-`, starting with a letter or a digit",
        )
    }
}

impl View for Correlation {
    type V = Seq<char>;

    closed spec fn view(&self) -> Seq<char> {
        self.token@
    }
}

/// The correlation 16 bytes are written as.
pub open spec fn minted_text(bytes: Seq<u8>) -> Seq<char> {
    "c-"@ + hex(bytes)
}

proof fn lemma_ascii_bytes(text: Seq<char>)
    requires
        forall|i: int| 0 <= i < text.len() ==> (#[trigger] text[i] as u32) < 128,
    ensures
        encode_utf8(text).len() == text.len(),
    decreases text.len(),
{
    if text.len() > 0 {
        let rest = text.drop_first();
        assert forall|i: int| 0 <= i < rest.len() implies (#[trigger] rest[i] as u32) < 128 by {
            assert(rest[i] == text[i + 1]);
        }
        lemma_ascii_bytes(rest);
        assert((text[0] as u32) < 128);
    }
}

proof fn lemma_minted(bytes: Seq<u8>)
    requires
        bytes.len() == 16,
    ensures
        correlation_fault(minted_text(bytes)) is None,
        minted_text(bytes).len() == 34,
{
    reveal_strlit("c-");
    let text = minted_text(bytes);
    let digits = hex(bytes);
    assert forall|i: int| 0 <= i < text.len() implies is_correlation_char(#[trigger] text[i]) && (
    text[i] as u32) < 128 by {
        if i >= 2 {
            assert(text[i] == digits[i - 2]);
        }
    }
    lemma_ascii_bytes(text);
}

impl Correlation {
    #[verifier::type_invariant]
    closed spec fn well_formed(&self) -> bool {
        correlation_fault(self.token@) is None
    }

    /// The correlation 16 bytes are written as: `c-` and 32 hex digits.
    pub fn of_bytes(bytes: &Vec<u8>) -> (r: Self)
        requires
            bytes@.len() == 16,
        ensures
            r@ == minted_text(bytes@),
    {
        let digits = hex_of(bytes, 16);
        proof {
            assert(bytes@.take(16) =~= bytes@);
            lemma_minted(bytes@);
        }
        Correlation { token: cat2("c-", digits.as_str()) }
    }

    /// A correlation nothing else has: 16 bytes of the system's randomness, or,
    /// where it gives none, of the digest of `fallback`.
    pub fn mint(fallback: &Vec<u8>) -> (r: Self)
        ensures
            exists|drawn: Option<Vec<u8>>| #[trigger]
                is_drawn(drawn) && r@ == minted_text(minted_bytes(drawn, fallback@)),
            r@.len() == 34,
    {
        let drawn = random_bytes();
        proof {
            assert(is_drawn(drawn));
        }
        Correlation::of_drawn(&drawn, fallback)
    }

    /// The correlation made of 16 bytes that were drawn, or, where none were, of the
    /// digest of `fallback`.
    pub fn of_drawn(drawn: &Option<Vec<u8>>, fallback: &Vec<u8>) -> (r: Self)
        requires
            drawn is Some ==> drawn->0@.len() == 16,
        ensures
            r@ == minted_text(minted_bytes(*drawn, fallback@)),
            r@.len() == 34,
    {
        match drawn {
            Some(bytes) => {
                proof {
                    lemma_minted(bytes@);
                }
                Correlation::of_bytes(bytes)
            },
            None => Correlation::of_fallback(fallback),
        }
    }

    /// The correlation made of the digest of `fallback`.
    pub fn of_fallback(fallback: &Vec<u8>) -> (r: Self)
        ensures
            r@ == minted_text(sha256(fallback@).take(16)),
            r@.len() == 34,
            sha256(fallback@).len() == 32,
    {
        let mut digest = sha256_of(fallback);
        digest.truncate(16);
        proof {
            assert(digest@ =~= sha256(fallback@).take(16));
            lemma_minted(digest@);
        }
        Correlation::of_bytes(&digest)
    }

    /// The token.
    pub fn as_str(&self) -> (r: &str)
        ensures
            r@ == self@,
            correlation_fault(r@) is None,
    {
        proof {
            use_type_invariant(self);
        }
        self.token.as_str()
    }

    /// `text` as a correlation.
    pub fn from_str(text: &str) -> (r: Result<Self, CorrelationError>)
        ensures
            match r {
                Ok(correlation) => correlation_fault(text@) is None && correlation@ == text@,
                Err(e) => e.text@ == text@ && correlation_fault(text@) == Some(e.why@),
            },
    {
        let chars = chars_of(text);
        let why = if chars.len() == 0 {
            "it is empty"
        } else if byte_len(text) > CORRELATION_LIMIT {
            "it is longer than a correlation can be"
        } else if !alphanumeric(chars[0]) {
            "it does not start with a letter or a digit"
        } else {
            let mut i: usize = 0;
            while i < chars.len()
                invariant
                    i <= chars@.len(),
                    chars@ == text@,
                    forall|k: int| 0 <= k < i ==> is_correlation_char(#[trigger] text@[k]),
                    text@.len() > 0,
                    encode_utf8(text@).len() <= CORRELATION_LIMIT,
                    is_alphanumeric(text@[0]),
                decreases chars@.len() - i,
            {
                let c = chars[i];
                if !(alphanumeric(c) || c == '.' || c == '_' || c == ':' || c == '-') {
                    proof {
                        assert(!is_correlation_char(text@[i as int]));
                    }
                    return Err(
                        CorrelationError {
                            text: text.to_owned(),
                            why: "it carries a character a correlation does not".to_owned(),
                        },
                    );
                }
                i += 1;
            }
            return Ok(Correlation { token: text.to_owned() });
        };
        Err(CorrelationError { text: text.to_owned(), why: why.to_owned() })
    }

    /// Whether this is the correlation `other` is.
    pub fn equals(&self, other: &Correlation) -> (r: bool)
        ensures
            r == (self@ == other@),
    {
        same_text(self.token.as_str(), other.token.as_str())
    }
}

impl Clone for Correlation {
    fn clone(&self) -> (r: Self)
        ensures
            r@ == self@,
    {
        proof {
            use_type_invariant(self);
        }
        Correlation { token: self.token.clone() }
    }
}

/// What is wrong with text as an address.
pub open spec fn address_fault(text: Seq<char>) -> Option<Seq<char>> {
    if is_blank(text) {
        Some("it is blank"@)
    } else if encode_utf8(text).len() > ADDRESS_LIMIT {
        Some("it is longer than an address can be"@)
    } else if exists|i: int| 0 <= i < text.len() && is_control_char(#[trigger] text[i]) {
        Some("it carries a control character"@)
    } else {
        None
    }
}

/// What a question is about, as the consumer names it: compared for equality
/// and never parsed.
#[derive(Debug, PartialEq, Eq, Hash, PartialOrd, Ord)]
pub struct Address {
    name: String,
}

/// Why text is not an [`Address`].
#[derive(Debug, PartialEq, Eq)]
pub struct AddressError {
    /// What was offered.
    pub text: String,
    /// What is wrong with it.
    pub why: String,
}

impl AddressError {
    /// The refusal in words.
    pub fn message(&self) -> (r: String)
        ensures
            r@ == quoted(self.text@) + " is not an address: "@ + self.why@
                + "; an address names what a question is about, in one line of up to 512 bytes"@,
    {
        let text = quoted_of(self.text.as_str());
        cat4(
            text.as_str(),
            " is not an address: ",
            self.why.as_str(),
            "; an address names what a question is about, in one line of up to 512 bytes",
        )
    }
}

impl View for Address {
    type V = Seq<char>;

    closed spec fn view(&self) -> Seq<char> {
        self.name@
    }
}

impl Address {
    #[verifier::type_invariant]
    closed spec fn well_formed(&self) -> bool {
        address_fault(self.name@) is None
    }

    /// The name.
    pub fn as_str(&self) -> (r: &str)
        ensures
            r@ == self@,
            address_fault(r@) is None,
    {
        proof {
            use_type_invariant(self);
        }
        self.name.as_str()
    }

    /// `text` as an address.
    pub fn from_str(text: &str) -> (r: Result<Self, AddressError>)
        ensures
            match r {
                Ok(address) => address_fault(text@) is None && address@ == text@,
                Err(e) => e.text@ == text@ && address_fault(text@) == Some(e.why@),
            },
    {
        if blank(text) {
            return Err(AddressError { text: text.to_owned(), why: "it is blank".to_owned() });
        }
        if byte_len(text) > ADDRESS_LIMIT {
            return Err(
                AddressError {
                    text: text.to_owned(),
                    why: "it is longer than an address can be".to_owned(),
                },
            );
        }
        let chars = chars_of(text);
        let mut i: usize = 0;
        while i < chars.len()
            invariant
                i <= chars@.len(),
                chars@ == text@,
                forall|k: int| 0 <= k < i ==> !is_control_char(#[trigger] text@[k]),
                !is_blank(text@),
                encode_utf8(text@).len() <= ADDRESS_LIMIT,
            decreases chars@.len() - i,
        {
            if chars[i].is_control() {
                proof {
                    assert(is_control_char(text@[i as int]));
                }
                return Err(
                    AddressError {
                        text: text.to_owned(),
                        why: "it carries a control character".to_owned(),
                    },
                );
            }
            i += 1;
        }
        Ok(Address { name: text.to_owned() })
    }
}

/// What refused a question or a reply.
#[derive(Debug, Clone, Copy, PartialEq, Eq, Structural)]
pub enum RefusalKind {
    /// A validator refused it, or could not judge it.
    Validator,
    /// The layout or its allowlist refused it.
    Capability,
    /// It does not satisfy the schema it is read as.
    Schema,
    /// Its queue could not be read or written.
    Queue,
}

/// Why the bus refused a question or the reply to one.
#[derive(Debug, PartialEq, Eq)]
pub struct Refusal {
    /// What refused.
    pub kind: RefusalKind,
    /// Why, in words naming what was refused.
    pub reason: String,
}

/// What waiting for an answer answered.
#[derive(Debug)]
pub enum Answer<R> {
    /// A reply record echoing this ask's correlation.
    Reply(R),
    /// The wait elapsed; the question stands.
    Timeout,
    /// The listener was abandoned and nobody re-attended.
    Abandoned,
    /// The bus refused the question or the reply.
    Refused(Refusal),
}

impl<R> Answer<R> {
    /// The word for this answer.
    pub fn word(&self) -> (r: &'static str)
        ensures
            r@ == match *self {
                Answer::Reply(_) => "reply"@,
                Answer::Timeout => "timeout"@,
                Answer::Abandoned => "abandoned"@,
                Answer::Refused(_) => "refused"@,
            },
    {
        match self {
            Answer::Reply(_) => "reply",
            Answer::Timeout => "timeout",
            Answer::Abandoned => "abandoned",
            Answer::Refused(_) => "refused",
        }
    }
}

} // verus!
