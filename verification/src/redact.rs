//! Redaction of credential-shaped values, before anything leaves a producer.

use crate::json::{Json, JsonView, fields_view, group_json_views};
use crate::text::{
    byte_len, cat2, chars_of, contains, holds_part, holds_text, is_lower, is_white_space,
    occurs_at, reads_at, starts, starts_with, string_of, texts,
};
use vstd::prelude::*;
use vstd::utf8::encode_utf8;

verus! {

/// What a redacted value is replaced with.
pub const REDACTED: &'static str = "[redacted]";

/// How many bytes a value under a credential-shaped name has at least to be a secret.
pub const MIN_SECRET_LEN: usize = 8;

/// How many bytes a prefixed token has at least past its prefix.
pub const MIN_PREFIXED_TAIL: usize = 8;

/// The words a variable's name makes it credential-shaped by.
pub open spec fn credential_words() -> Seq<Seq<char>> {
    seq![
        "TOKEN"@,
        "SECRET"@,
        "PASSWORD"@,
        "PASSWD"@,
        "CREDENTIAL"@,
        "APIKEY"@,
        "API_KEY"@,
        "PRIVATE_KEY"@,
    ]
}

/// The prefixes a value is a credential by.
pub open spec fn credential_prefixes() -> Seq<Seq<char>> {
    seq!["ghp_"@, "gho_"@, "ghs_"@, "ghu_"@, "ghr_"@, "github_pat_"@, "AKIA"@]
}

fn listed_words() -> (r: Vec<String>)
    ensures
        texts(r@) == credential_words(),
{
    let mut out: Vec<String> = Vec::new();
    out.push("TOKEN".to_owned());
    out.push("SECRET".to_owned());
    out.push("PASSWORD".to_owned());
    out.push("PASSWD".to_owned());
    out.push("CREDENTIAL".to_owned());
    out.push("APIKEY".to_owned());
    out.push("API_KEY".to_owned());
    out.push("PRIVATE_KEY".to_owned());
    proof {
        assert(texts(out@) =~= credential_words());
    }
    out
}

fn listed_prefixes() -> (r: Vec<String>)
    ensures
        texts(r@) == credential_prefixes(),
{
    let mut out: Vec<String> = Vec::new();
    out.push("ghp_".to_owned());
    out.push("gho_".to_owned());
    out.push("ghs_".to_owned());
    out.push("ghu_".to_owned());
    out.push("ghr_".to_owned());
    out.push("github_pat_".to_owned());
    out.push("AKIA".to_owned());
    proof {
        assert(texts(out@) =~= credential_prefixes());
    }
    out
}

/// An ASCII letter in upper case.
pub open spec fn upper_char(c: char) -> char {
    if is_lower(c) {
        (c as u32 - 32) as u8 as char
    } else {
        c
    }
}

/// `text` with its ASCII letters in upper case.
pub open spec fn upper(text: Seq<char>) -> Seq<char> {
    Seq::new(text.len(), |i: int| upper_char(text[i]))
}

/// Whether a variable's name makes it credential-shaped.
pub open spec fn is_credential_name(name: Seq<char>) -> bool {
    exists|i: int|
        0 <= i < credential_words().len() && holds_part(upper(name), #[trigger] credential_words()[i])
}

fn upper_of(text: &str) -> (r: String)
    ensures
        r@ == upper(text@),
{
    let chars = chars_of(text);
    let mut out = String::new();
    let mut i: usize = 0;
    while i < chars.len()
        invariant
            i <= chars@.len(),
            chars@ == text@,
            out@ =~= upper(text@).take(i as int),
        decreases chars@.len() - i,
    {
        let c = chars[i];
        let big = if 'a' <= c && c <= 'z' {
            (c as u32 - 32) as u8 as char
        } else {
            c
        };
        out.push(big);
        i += 1;
    }
    proof {
        assert(out@ =~= upper(text@));
    }
    out
}

/// Whether a variable's name makes it credential-shaped.
pub fn credential_name(name: &str) -> (r: bool)
    ensures
        r == is_credential_name(name@),
{
    let big = upper_of(name);
    let listed = listed_words();
    let mut i: usize = 0;
    while i < listed.len()
        invariant
            i <= listed@.len(),
            texts(listed@) == credential_words(),
            big@ == upper(name@),
            forall|k: int| 0 <= k < i ==> !holds_part(big@, #[trigger] credential_words()[k]),
        decreases listed@.len() - i,
    {
        proof {
            assert(texts(listed@)[i as int] == listed@[i as int]@);
        }
        if contains(big.as_str(), listed[i].as_str()) {
            return true;
        }
        i += 1;
    }
    false
}

/// Whether `c` is punctuation that may follow a token.
pub open spec fn is_closing(c: char) -> bool {
    c == '"' || c == '\'' || c == ',' || c == ';' || c == ')'
}

/// A word without the punctuation it ends with.
pub open spec fn bare_word(word: Seq<char>) -> Seq<char>
    decreases word.len(),
{
    if word.len() > 0 && is_closing(word.last()) {
        bare_word(word.drop_last())
    } else {
        word
    }
}

/// Whether a bare word is a token by its prefix, with enough past it.
pub open spec fn is_token(bare: Seq<char>) -> bool {
    exists|i: int|
        0 <= i < credential_prefixes().len() && starts(bare, #[trigger] credential_prefixes()[i])
            && encode_utf8(bare).len() >= encode_utf8(credential_prefixes()[i]).len()
            + MIN_PREFIXED_TAIL
}

/// A word, the token it is replaced.
pub open spec fn redacted_word(word: Seq<char>) -> Seq<char> {
    let bare = bare_word(word);
    if is_token(bare) {
        REDACTED@ + word.skip(bare.len() as int)
    } else {
        word
    }
}

/// Text with each token in it replaced: its words one by one, the white space
/// between them kept. `word` is the one being read.
pub open spec fn redacted_words(text: Seq<char>, word: Seq<char>) -> Seq<char>
    decreases text.len(),
{
    if text.len() == 0 {
        redacted_word(word)
    } else if is_white_space(text[0]) {
        redacted_word(word) + seq![text[0]] + redacted_words(text.skip(1), Seq::empty())
    } else {
        redacted_words(text.skip(1), word.push(text[0]))
    }
}

/// How long the longest of the first `n` secrets is that stands in `text` at `at`:
/// nothing where none does.
pub open spec fn longest_at(text: Seq<char>, secrets: Seq<Seq<char>>, at: int, n: int) -> nat
    decreases n,
{
    if n <= 0 || n > secrets.len() {
        0
    } else {
        let before = longest_at(text, secrets, at, n - 1);
        if occurs_at(text, secrets[n - 1], at) && secrets[n - 1].len() > before {
            secrets[n - 1].len()
        } else {
            before
        }
    }
}

/// The text from `from` on with every secret in it replaced, all of it: a run of
/// secrets that overlap is replaced as one. `until` is where the run read so far ends.
pub open spec fn veiled(text: Seq<char>, secrets: Seq<Seq<char>>, from: int, until: int) -> Seq<char>
    decreases text.len() - from,
{
    if from < 0 || from >= text.len() {
        Seq::empty()
    } else {
        let end = from + longest_at(text, secrets, from, secrets.len() as int);
        let next = if end > until {
            end
        } else {
            until
        };
        if from < until {
            veiled(text, secrets, from + 1, next)
        } else if end > from {
            REDACTED@ + veiled(text, secrets, from + 1, next)
        } else {
            seq![text[from]] + veiled(text, secrets, from + 1, next)
        }
    }
}

/// Text with every credential-shaped value replaced.
pub open spec fn redacted(text: Seq<char>, secrets: Seq<Seq<char>>) -> Seq<char> {
    redacted_words(veiled(text, secrets, 0, 0), Seq::empty())
}

/// A value with every text in it, however deeply nested, redacted.
pub open spec fn redacted_value(value: JsonView, secrets: Seq<Seq<char>>) -> JsonView
    decreases value,
{
    match value {
        JsonView::Str(text) => JsonView::Str(redacted(text, secrets)),
        JsonView::Array(items) => JsonView::Array(
            Seq::new(
                items.len(),
                |i: int|
                    if 0 <= i < items.len() {
                        redacted_value(items[i], secrets)
                    } else {
                        JsonView::Null
                    },
            ),
        ),
        JsonView::Object(fields) => JsonView::Object(
            Seq::new(
                fields.len(),
                |i: int|
                    if 0 <= i < fields.len() {
                        (fields[i].0, redacted_value(fields[i].1, secrets))
                    } else {
                        (Seq::empty(), JsonView::Null)
                    },
            ),
        ),
        other => other,
    }
}

/// Fields with every text in them redacted.
pub open spec fn redacted_fields(fields: Seq<(Seq<char>, JsonView)>, secrets: Seq<Seq<char>>) -> Seq<
    (Seq<char>, JsonView),
> {
    Seq::new(fields.len(), |i: int| (fields[i].0, redacted_value(fields[i].1, secrets)))
}

/// Replaces credential-shaped values.
#[derive(Debug)]
pub struct Redactor {
    secrets: Vec<String>,
}

impl View for Redactor {
    type V = Seq<Seq<char>>;

    closed spec fn view(&self) -> Seq<Seq<char>> {
        texts(self.secrets@)
    }
}

/// Secrets with one more, where it is no empty text and not there already.
pub open spec fn with_secret_of(secrets: Seq<Seq<char>>, secret: Seq<char>) -> Seq<Seq<char>> {
    if secret.len() > 0 && !secrets.contains(secret) {
        secrets.push(secret)
    } else {
        secrets
    }
}

/// The secrets an environment holds: the value of each credential-shaped name, where
/// it is long enough to be one.
pub open spec fn secrets_in(vars: Seq<(String, String)>, n: int) -> Seq<Seq<char>>
    decreases n,
{
    if n <= 0 || n > vars.len() {
        Seq::empty()
    } else {
        let before = secrets_in(vars, n - 1);
        if is_credential_name(vars[n - 1].0@) && encode_utf8(vars[n - 1].1@).len()
            >= MIN_SECRET_LEN {
            with_secret_of(before, vars[n - 1].1@)
        } else {
            before
        }
    }
}

fn cut_punctuation(word: &Vec<char>) -> (r: usize)
    ensures
        r <= word@.len(),
        word@.take(r as int) == bare_word(word@),
{
    let mut end: usize = word.len();
    proof {
        assert(word@.take(end as int) =~= word@);
    }
    while end > 0 && (word[end - 1] == '"' || word[end - 1] == '\'' || word[end - 1] == ','
        || word[end - 1] == ';' || word[end - 1] == ')')
        invariant
            end <= word@.len(),
            bare_word(word@) == bare_word(word@.take(end as int)),
        decreases end,
    {
        proof {
            assert(word@.take(end as int).drop_last() =~= word@.take(end - 1));
        }
        end = end - 1;
    }
    end
}

fn token(bare: &str) -> (r: bool)
    ensures
        r == is_token(bare@),
{
    let listed = listed_prefixes();
    let size = byte_len(bare);
    let mut i: usize = 0;
    while i < listed.len()
        invariant
            i <= listed@.len(),
            texts(listed@) == credential_prefixes(),
            size == encode_utf8(bare@).len(),
            forall|k: int|
                0 <= k < i ==> !(starts(bare@, #[trigger] credential_prefixes()[k])
                    && encode_utf8(bare@).len() >= encode_utf8(credential_prefixes()[k]).len()
                    + MIN_PREFIXED_TAIL),
        decreases listed@.len() - i,
    {
        proof {
            assert(texts(listed@)[i as int] == listed@[i as int]@);
        }
        let prefix = byte_len(listed[i].as_str());
        if starts_with(bare, listed[i].as_str()) && size >= prefix && size - prefix
            >= MIN_PREFIXED_TAIL {
            return true;
        }
        i += 1;
    }
    false
}

fn redact_word(word: &str) -> (r: String)
    ensures
        r@ == redacted_word(word@),
{
    let chars = chars_of(word);
    let end = cut_punctuation(&chars);
    let len: usize = chars.len();
    let bare = string_of(&chars, 0, end);
    proof {
        assert(bare@ =~= word@.take(end as int));
    }
    if token(bare.as_str()) {
        let rest = string_of(&chars, end, len);
        proof {
            assert(rest@ =~= word@.skip(end as int));
        }
        cat2(REDACTED, rest.as_str())
    } else {
        word.to_owned()
    }
}

fn redact_words(text: &str) -> (r: String)
    ensures
        r@ == redacted_words(text@, Seq::empty()),
{
    let chars = chars_of(text);
    let mut out = String::new();
    let mut word = String::new();
    let mut i: usize = 0;
    proof {
        assert(text@.skip(0) =~= text@);
        assert(Seq::<char>::empty() + redacted_words(text@, Seq::empty()) =~= redacted_words(
            text@,
            Seq::empty(),
        ));
    }
    while i < chars.len()
        invariant
            i <= chars@.len(),
            chars@ == text@,
            redacted_words(text@, Seq::empty()) == out@ + redacted_words(
                text@.skip(i as int),
                word@,
            ),
        decreases chars@.len() - i,
    {
        let c = chars[i];
        let ghost done = out@;
        let ghost rest = text@.skip(i as int);
        proof {
            assert(rest[0] == c);
            assert(rest.skip(1) =~= text@.skip(i + 1));
        }
        if c.is_whitespace() {
            let clean = redact_word(word.as_str());
            out.append(clean.as_str());
            out.push(c);
            word = String::new();
            proof {
                let tail = redacted_words(rest.skip(1), Seq::empty());
                assert(out@ =~= done + (clean@ + seq![c]));
                assert(done + (clean@ + seq![c] + tail) =~= out@ + tail);
                assert(word@ =~= Seq::<char>::empty());
            }
        } else {
            word.push(c);
        }
        i += 1;
    }
    let clean = redact_word(word.as_str());
    proof {
        assert(text@.skip(i as int) =~= Seq::<char>::empty());
    }
    cat2(out.as_str(), clean.as_str())
}

impl Redactor {
    /// A redactor that replaces only tokens.
    pub fn new() -> (r: Self)
        ensures
            r@ == Seq::<Seq<char>>::empty(),
    {
        let r = Redactor { secrets: Vec::new() };
        proof {
            assert(r@ =~= Seq::<Seq<char>>::empty());
        }
        r
    }

    /// A redactor holding the value of every credential-shaped name of an
    /// environment.
    pub fn from_env(vars: &Vec<(String, String)>) -> (r: Self)
        ensures
            r@ == secrets_in(vars@, vars@.len() as int),
    {
        let mut redactor = Redactor::new();
        let mut i: usize = 0;
        while i < vars.len()
            invariant
                i <= vars@.len(),
                redactor@ == secrets_in(vars@, i as int),
            decreases vars@.len() - i,
        {
            if credential_name(vars[i].0.as_str()) && byte_len(vars[i].1.as_str())
                >= MIN_SECRET_LEN {
                redactor.add_secret(vars[i].1.clone());
            }
            i += 1;
        }
        redactor
    }

    /// The same redactor, also replacing `secret` wherever it appears.
    pub fn with_secret(self, secret: &str) -> (r: Self)
        ensures
            r@ == with_secret_of(self@, secret@),
    {
        let mut redactor = self;
        redactor.add_secret(secret.to_owned());
        redactor
    }

    fn add_secret(&mut self, secret: String)
        ensures
            final(self)@ == with_secret_of(old(self)@, secret@),
    {
        if byte_len(secret.as_str()) > 0 && !holds_text(&self.secrets, secret.as_str()) {
            let ghost before = self@;
            let ghost one = secret@;
            self.secrets.push(secret);
            proof {
                assert(self@ =~= before.push(one));
            }
        }
    }

    /// `text` with every credential-shaped value replaced.
    pub fn redact(&self, text: &str) -> (r: String)
        ensures
            r@ == redacted(text@, self@),
    {
        let clean = self.veil(text);
        redact_words(clean.as_str())
    }

    /// How long the longest secret is that stands in `text` at `at`.
    fn longest_here(&self, text: &Vec<char>, at: usize) -> (r: usize)
        requires
            at <= text@.len(),
        ensures
            r == longest_at(text@, self@, at as int, self@.len() as int),
            at + r <= text@.len(),
    {
        let mut longest: usize = 0;
        let mut i: usize = 0;
        while i < self.secrets.len()
            invariant
                i <= self.secrets@.len(),
                at <= text@.len(),
                longest == longest_at(text@, self@, at as int, i as int),
                at + longest <= text@.len(),
            decreases self.secrets@.len() - i,
        {
            let secret = chars_of(self.secrets[i].as_str());
            if reads_at(text, &secret, at) && secret.len() > longest {
                longest = secret.len();
            }
            i += 1;
        }
        longest
    }

    /// `text` with every secret in it replaced.
    fn veil(&self, text: &str) -> (r: String)
        ensures
            r@ == veiled(text@, self@, 0, 0),
    {
        let chars = chars_of(text);
        let mut out = String::new();
        let mut until: usize = 0;
        let mut i: usize = 0;
        while i < chars.len()
            invariant
                i <= chars@.len(),
                until <= chars@.len(),
                chars@ == text@,
                out@ + veiled(text@, self@, i as int, until as int) =~= veiled(text@, self@, 0, 0),
            decreases chars@.len() - i,
        {
            let ghost done = out@;
            let end: usize = i + self.longest_here(&chars, i);
            let next: usize = if end > until {
                end
            } else {
                until
            };
            let ghost rest = veiled(text@, self@, i + 1, next as int);
            if i >= until {
                if end > i {
                    out.append(REDACTED);
                    proof {
                        assert(out@ + rest =~= done + (REDACTED@ + rest));
                    }
                } else {
                    out.push(chars[i]);
                    proof {
                        assert(out@ + rest =~= done + (seq![text@[i as int]] + rest));
                    }
                }
            }
            until = next;
            i += 1;
        }
        proof {
            assert(out@ + Seq::<char>::empty() =~= out@);
        }
        out
    }

    /// `value` with every text in it, however deeply nested, redacted.
    pub fn redact_value(&self, value: &Json) -> (r: Json)
        ensures
            r@ == redacted_value(value@, self@),
        decreases value,
    {
        broadcast use group_json_views;

        match value {
            Json::Str(text) => Json::Str(self.redact(text.as_str())),
            Json::Array(items) => {
                let mut out: Vec<Json> = Vec::new();
                let mut i: usize = 0;
                while i < items.len()
                    invariant
                        i <= items@.len(),
                        i == out@.len(),
                        *value == Json::Array(*items),
                        forall|k: int|
                            0 <= k < i ==> (#[trigger] out@[k])@ == redacted_value(
                                items@[k]@,
                                self@,
                            ),
                    decreases items@.len() - i,
                {
                    proof {
                        assert(decreases_to!(value->Array_0 => value->Array_0[i as int]));
                    }
                    out.push(self.redact_value(&items[i]));
                    i += 1;
                }
                let r = Json::Array(out);
                proof {
                    assert(r@->Array_0 =~= redacted_value(value@, self@)->Array_0);
                }
                r
            },
            Json::Object(fields) => {
                let mut out: Vec<(String, Json)> = Vec::new();
                let mut i: usize = 0;
                while i < fields.len()
                    invariant
                        i <= fields@.len(),
                        i == out@.len(),
                        *value == Json::Object(*fields),
                        forall|k: int|
                            0 <= k < i ==> (#[trigger] out@[k]).0@ == fields@[k].0@
                                && out@[k].1@ == redacted_value(fields@[k].1@, self@),
                    decreases fields@.len() - i,
                {
                    proof {
                        assert(decreases_to!(value->Object_0 => value->Object_0[i as int]));
                        assert(decreases_to!(value->Object_0 => value->Object_0[i as int].1));
                    }
                    let clean = self.redact_value(&fields[i].1);
                    out.push((fields[i].0.clone(), clean));
                    i += 1;
                }
                let r = Json::Object(out);
                proof {
                    assert(r@->Object_0 =~= redacted_value(value@, self@)->Object_0);
                }
                r
            },
            other => other.copied(),
        }
    }

    /// Fields with every text in them redacted.
    pub fn redact_fields(&self, fields: &Vec<(String, Json)>) -> (r: Vec<(String, Json)>)
        ensures
            fields_view(r@) == redacted_fields(fields_view(fields@), self@),
    {
        let ghost all = fields_view(fields@);
        let mut out: Vec<(String, Json)> = Vec::new();
        let mut i: usize = 0;
        while i < fields.len()
            invariant
                i <= fields@.len(),
                all == fields_view(fields@),
                fields_view(out@) =~= redacted_fields(all, self@).take(i as int),
            decreases fields@.len() - i,
        {
            let ghost before = fields_view(out@);
            let clean = self.redact_value(&fields[i].1);
            let ghost kept = (fields@[i as int].0@, clean@);
            out.push((fields[i].0.clone(), clean));
            proof {
                assert(fields_view(out@) =~= before.push(kept));
                assert(redacted_fields(all, self@)[i as int] == kept);
            }
            i += 1;
        }
        proof {
            assert(fields_view(out@) =~= redacted_fields(all, self@));
        }
        out
    }
}

/// Text that holds no secret and no token is left as it is.
pub proof fn plain_text_is_left_alone(text: Seq<char>, secrets: Seq<Seq<char>>)
    requires
        forall|i: int|
            0 <= i < secrets.len() && secrets[i].len() > 0 ==> !holds_part(
                text,
                #[trigger] secrets[i],
            ),
        forall|i: int, j: int|
            0 <= i <= j <= text.len() ==> redacted_word(#[trigger] text.subrange(i, j))
                == text.subrange(i, j),
    ensures
        redacted(text, secrets) == text,
{
    lemma_no_secrets(text, secrets, 0);
    lemma_no_tokens(text, 0, 0);
    assert(text.subrange(0, 0) =~= Seq::<char>::empty());
    assert(text.skip(0) =~= text);
}

proof fn lemma_none_at(text: Seq<char>, secrets: Seq<Seq<char>>, at: int, n: int)
    requires
        forall|i: int|
            0 <= i < secrets.len() && secrets[i].len() > 0 ==> !holds_part(
                text,
                #[trigger] secrets[i],
            ),
    ensures
        longest_at(text, secrets, at, n) == 0,
    decreases n,
{
    if 0 < n <= secrets.len() {
        lemma_none_at(text, secrets, at, n - 1);
        if occurs_at(text, secrets[n - 1], at) {
            assert(holds_part(text, secrets[n - 1]));
        }
    }
}

proof fn lemma_no_secrets(text: Seq<char>, secrets: Seq<Seq<char>>, from: int)
    requires
        0 <= from <= text.len(),
        forall|i: int|
            0 <= i < secrets.len() && secrets[i].len() > 0 ==> !holds_part(
                text,
                #[trigger] secrets[i],
            ),
    ensures
        veiled(text, secrets, from, from) == text.skip(from),
        from > 0 ==> veiled(text, secrets, from, from - 1) == text.skip(from),
    decreases text.len() - from,
{
    if from < text.len() {
        lemma_none_at(text, secrets, from, secrets.len() as int);
        lemma_no_secrets(text, secrets, from + 1);
        assert(seq![text[from]] + text.skip(from + 1) =~= text.skip(from));
    } else {
        assert(text.skip(from) =~= Seq::<char>::empty());
    }
}

/// Whether a text, laid over the mark from `d` on, agrees with it wherever the two
/// meet.
pub open spec fn agrees_with_mark(text: Seq<char>, d: int) -> bool {
    forall|i: int|
        0 <= i < text.len() && 0 <= i + d < REDACTED@.len() ==> #[trigger] text[i] == REDACTED@[i
            + d]
}

/// Whether a text can be read where a mark was put: they meet somewhere and agree
/// there.
pub open spec fn meets_mark(text: Seq<char>) -> bool {
    exists|d: int| -text.len() < d < REDACTED@.len() && #[trigger] agrees_with_mark(text, d)
}

/// Every held secret is replaced wherever it appears: none is left in what a redactor
/// answers. A secret that can be read where a mark was put is the mark's own text.
pub proof fn held_secrets_are_replaced(text: Seq<char>, secrets: Seq<Seq<char>>, i: int)
    requires
        0 <= i < secrets.len(),
        secrets[i].len() > 0,
        !meets_mark(secrets[i]),
    ensures
        !holds_part(redacted(text, secrets), secrets[i]),
{
    let secret = secrets[i];
    let clean = veiled(text, secrets, 0, 0);
    if holds_part(redacted(text, secrets), secret) {
        let at = choose|at: int| occurs_at(redacted(text, secrets), secret, at);
        lemma_words_add_none(clean, Seq::empty(), secret, at);
        assert(Seq::<char>::empty() + clean =~= clean);
        let there = choose|there: int| occurs_at(clean, secret, there);
        lemma_not_veiled(text, secrets, 0, 0, i, there);
    }
}

proof fn lemma_held_at(text: Seq<char>, secrets: Seq<Seq<char>>, at: int, i: int, n: int)
    requires
        0 <= i < n <= secrets.len(),
        occurs_at(text, secrets[i], at),
    ensures
        longest_at(text, secrets, at, n) >= secrets[i].len(),
    decreases n,
{
    if i < n - 1 {
        lemma_held_at(text, secrets, at, i, n - 1);
    }
}

/// A secret read from `from - k` on is read in the text itself: it runs into no mark.
proof fn lemma_reads_on(
    text: Seq<char>,
    secrets: Seq<Seq<char>>,
    from: int,
    until: int,
    secret: Seq<char>,
    k: int,
)
    requires
        0 <= k <= from <= text.len(),
        k <= secret.len(),
        until <= from,
        !meets_mark(secret),
        text.subrange(from - k, from) == secret.take(k),
        starts(veiled(text, secrets, from, until), secret.skip(k)),
    ensures
        occurs_at(text, secret, from - k),
    decreases text.len() - from,
{
    let rest = secret.skip(k);
    let all = veiled(text, secrets, from, until);
    assert(all.subrange(0, rest.len() as int) == rest);
    reveal_strlit("[redacted]");
    if k == secret.len() {
        assert(secret.take(k) =~= secret);
    } else {
        assert(from < text.len());
        let end = from + longest_at(text, secrets, from, secrets.len() as int);
        if end > from {
            assert forall|i: int|
                0 <= i < secret.len() && 0 <= i - k < REDACTED@.len() implies #[trigger] secret[i]
                == REDACTED@[i - k] by {
                assert(rest[i - k] == all.subrange(0, rest.len() as int)[i - k]);
            }
            assert(agrees_with_mark(secret, -k));
        } else {
            let next = if end > until {
                end
            } else {
                until
            };
            let after = veiled(text, secrets, from + 1, next);
            assert(all == seq![text[from]] + after);
            assert(rest[0] == all.subrange(0, rest.len() as int)[0]);
            assert(text.subrange(from + 1 - (k + 1), from + 1) =~= secret.take(k + 1)) by {
                assert(text.subrange(from - k, from + 1) =~= text.subrange(from - k, from).push(
                    text[from],
                ));
                assert(secret.take(k + 1) =~= secret.take(k).push(secret[k]));
            }
            assert(after.subrange(0, rest.len() - 1) =~= secret.skip(k + 1)) by {
                assert forall|i: int| 0 <= i < rest.len() - 1 implies after[i] == secret.skip(
                    k + 1,
                )[i] by {
                    assert(all.subrange(0, rest.len() as int)[i + 1] == rest[i + 1]);
                    assert(all[i + 1] == after[i]);
                }
            }
            lemma_reads_on(text, secrets, from + 1, next, secret, k + 1);
        }
    }
}

/// No held secret is read in a veiled text.
proof fn lemma_not_veiled(
    text: Seq<char>,
    secrets: Seq<Seq<char>>,
    from: int,
    until: int,
    i: int,
    at: int,
)
    requires
        0 <= from <= text.len(),
        0 <= i < secrets.len(),
        secrets[i].len() > 0,
        !meets_mark(secrets[i]),
    ensures
        !occurs_at(veiled(text, secrets, from, until), secrets[i], at),
    decreases text.len() - from,
{
    let secret = secrets[i];
    let all = veiled(text, secrets, from, until);
    if occurs_at(all, secret, at) {
        assert(all.subrange(at, at + secret.len()) == secret);
        assert(from < text.len());
        let end = from + longest_at(text, secrets, from, secrets.len() as int);
        let next = if end > until {
            end
        } else {
            until
        };
        let after = veiled(text, secrets, from + 1, next);
        if from < until {
            lemma_not_veiled(text, secrets, from + 1, next, i, at);
        } else if end > from {
            let size = REDACTED@.len() as int;
            if at < size {
                assert forall|j: int|
                    0 <= j < secret.len() && 0 <= j + at < size implies #[trigger] secret[j]
                    == REDACTED@[j + at] by {
                    assert(all.subrange(at, at + secret.len())[j] == all[at + j]);
                }
                assert(agrees_with_mark(secret, at));
            } else {
                assert(after.subrange(at - size, at - size + secret.len()) =~= secret) by {
                    assert forall|j: int| 0 <= j < secret.len() implies after[at - size + j]
                        == secret[j] by {
                        assert(all.subrange(at, at + secret.len())[j] == all[at + j]);
                    }
                }
                lemma_not_veiled(text, secrets, from + 1, next, i, at - size);
            }
        } else if at == 0 {
            assert(text.subrange(from, from) =~= secret.take(0));
            assert(secret.skip(0) =~= secret);
            lemma_reads_on(text, secrets, from, until, secret, 0);
            lemma_held_at(text, secrets, from, i, secrets.len() as int);
        } else {
            assert(after.subrange(at - 1, at - 1 + secret.len()) =~= secret) by {
                assert forall|j: int| 0 <= j < secret.len() implies after[at - 1 + j]
                    == secret[j] by {
                    assert(all.subrange(at, at + secret.len())[j] == all[at + j]);
                }
            }
            lemma_not_veiled(text, secrets, from + 1, next, i, at - 1);
        }
    }
}

/// What is left of a secret, read at the start of text with its tokens replaced, is
/// read at the start of the text.
proof fn lemma_words_start(text: Seq<char>, word: Seq<char>, secret: Seq<char>, k: int)
    requires
        0 <= k < secret.len(),
        !meets_mark(secret),
        starts(redacted_words(text, word), secret.skip(k)),
    ensures
        starts(word + text, secret.skip(k)),
    decreases text.len(),
{
    let rest = secret.skip(k);
    let all = redacted_words(text, word);
    let bare = bare_word(word);
    reveal_strlit("[redacted]");
    assert(all.subrange(0, rest.len() as int) == rest);
    if text.len() > 0 && !is_white_space(text[0]) {
        lemma_words_start(text.skip(1), word.push(text[0]), secret, k);
        assert(word.push(text[0]) + text.skip(1) =~= word + text);
    } else if is_token(bare) {
        assert forall|i: int|
            0 <= i < secret.len() && 0 <= i - k < REDACTED@.len() implies #[trigger] secret[i]
            == REDACTED@[i - k] by {
            assert(all.subrange(0, rest.len() as int)[i - k] == rest[i - k]);
        }
        assert(agrees_with_mark(secret, -k));
    } else if text.len() == 0 {
        assert(word + text =~= word);
    } else {
        let after = redacted_words(text.skip(1), Seq::empty());
        let m = word.len() + 1;
        assert(all == word + seq![text[0]] + after);
        if rest.len() > m {
            assert(after.subrange(0, rest.len() - m) =~= secret.skip(k + m)) by {
                assert forall|i: int| 0 <= i < rest.len() - m implies after[i] == secret.skip(
                    k + m,
                )[i] by {
                    assert(all.subrange(0, rest.len() as int)[i + m] == all[i + m]);
                }
            }
            lemma_words_start(text.skip(1), Seq::empty(), secret, k + m);
            let tail = text.skip(1);
            assert(Seq::<char>::empty() + tail =~= tail);
            assert(tail.subrange(0, rest.len() - m) == secret.skip(k + m));
        }
        assert((word + text).subrange(0, rest.len() as int) =~= rest) by {
            assert forall|i: int| 0 <= i < rest.len() implies (word + text)[i] == rest[i] by {
                assert(all.subrange(0, rest.len() as int)[i] == all[i]);
                if i >= m {
                    assert(text.skip(1).subrange(0, rest.len() - m)[i - m] == secret.skip(k + m)[i
                        - m]);
                    assert(text.skip(1)[i - m] == text[i - m + 1]);
                }
            }
        }
    }
}

proof fn lemma_bare_word(word: Seq<char>)
    ensures
        bare_word(word).len() <= word.len(),
        bare_word(word) == word.take(bare_word(word).len() as int),
    decreases word.len(),
{
    if word.len() > 0 && is_closing(word.last()) {
        lemma_bare_word(word.drop_last());
        let n = bare_word(word).len() as int;
        assert(word.drop_last().take(n) =~= word.take(n));
    } else {
        assert(word.take(word.len() as int) =~= word);
    }
}

/// A secret read in text with its tokens replaced is read in the text.
proof fn lemma_words_add_none(text: Seq<char>, word: Seq<char>, secret: Seq<char>, at: int)
    requires
        secret.len() > 0,
        !meets_mark(secret),
        occurs_at(redacted_words(text, word), secret, at),
    ensures
        holds_part(word + text, secret),
    decreases text.len(),
{
    let all = redacted_words(text, word);
    let bare = bare_word(word);
    let whole = word + text;
    lemma_bare_word(word);
    assert(all.subrange(at, at + secret.len()) == secret);
    assert forall|j: int| 0 <= j < secret.len() implies #[trigger] secret[j] == all[at + j] by {
        assert(all.subrange(at, at + secret.len())[j] == all[at + j]);
    }
    if text.len() > 0 && !is_white_space(text[0]) {
        lemma_words_add_none(text.skip(1), word.push(text[0]), secret, at);
        assert(word.push(text[0]) + text.skip(1) =~= whole);
    } else {
        // What stands before the kept end of the word, and how much of the word it was.
        let mark = if is_token(bare) {
            REDACTED@.len() as int
        } else {
            0
        };
        let cut = if is_token(bare) {
            bare.len() as int
        } else {
            0
        };
        let kept = word.skip(cut);
        let head = redacted_word(word);
        assert(head.len() == mark + kept.len());
        assert forall|j: int| mark <= j < head.len() implies head[j] == kept[j - mark] by {}
        if at < mark {
            assert forall|j: int|
                0 <= j < secret.len() && 0 <= j + at < REDACTED@.len() implies #[trigger] secret[j]
                == REDACTED@[j + at] by {
                assert(head[at + j] == REDACTED@[at + j]);
                assert(all[at + j] == head[at + j]);
            }
            assert(agrees_with_mark(secret, at));
        } else if text.len() == 0 {
            let there = at - mark + cut;
            assert(whole.subrange(there, there + secret.len()) =~= secret);
            assert(occurs_at(whole, secret, there));
        } else {
            let after = redacted_words(text.skip(1), Seq::empty());
            let tail = text.skip(1);
            assert(Seq::<char>::empty() + tail =~= tail);
            assert(all == head + seq![text[0]] + after);
            if at > head.len() {
                let past = at - head.len() - 1;
                assert(after.subrange(past, past + secret.len()) =~= secret);
                lemma_words_add_none(tail, Seq::empty(), secret, past);
                let there = choose|there: int| occurs_at(tail, secret, there);
                let moved = there + word.len() + 1;
                assert(tail.subrange(there, there + secret.len()) == secret);
                assert(whole.subrange(moved, moved + secret.len()) =~= secret) by {
                    assert forall|j: int| 0 <= j < secret.len() implies whole[moved + j]
                        == secret[j] by {
                        assert(tail.subrange(there, there + secret.len())[j] == tail[there + j]);
                    }
                }
                assert(occurs_at(whole, secret, moved));
            } else {
                let there = at - mark + cut;
                let m = head.len() + 1 - at;
                if secret.len() > m {
                    assert(after.subrange(0, secret.len() - m) =~= secret.skip(m)) by {
                        assert forall|i: int| 0 <= i < secret.len() - m implies after[i]
                            == secret.skip(m)[i] by {
                            assert(secret[i + m] == all[at + i + m]);
                        }
                    }
                    lemma_words_start(tail, Seq::empty(), secret, m);
                    assert(tail.subrange(0, secret.len() - m) == secret.skip(m));
                }
                assert(whole.subrange(there, there + secret.len()) =~= secret) by {
                    assert forall|j: int| 0 <= j < secret.len() implies whole[there + j]
                        == secret[j] by {
                        if j >= m {
                            assert(tail.subrange(0, secret.len() - m)[j - m] == secret.skip(m)[j
                                - m]);
                        } else {
                            assert(secret[j] == all[at + j]);
                        }
                    }
                }
                assert(occurs_at(whole, secret, there));
            }
        }
    }
}

proof fn lemma_no_tokens(text: Seq<char>, from: int, at: int)
    requires
        0 <= from <= at <= text.len(),
        forall|i: int, j: int|
            0 <= i <= j <= text.len() ==> redacted_word(#[trigger] text.subrange(i, j))
                == text.subrange(i, j),
    ensures
        redacted_words(text.skip(at), text.subrange(from, at)) == text.skip(from),
    decreases text.len() - at,
{
    let rest = text.skip(at);
    let word = text.subrange(from, at);
    if rest.len() == 0 {
        assert(word =~= text.skip(from));
    } else {
        assert(rest[0] == text[at]);
        assert(rest.skip(1) =~= text.skip(at + 1));
        if is_white_space(rest[0]) {
            lemma_no_tokens(text, at + 1, at + 1);
            assert(text.subrange(at + 1, at + 1) =~= Seq::<char>::empty());
            assert(word + seq![rest[0]] + text.skip(at + 1) =~= text.skip(from));
        } else {
            lemma_no_tokens(text, from, at + 1);
            assert(word.push(rest[0]) =~= text.subrange(from, at + 1));
        }
    }
}

} // verus!
