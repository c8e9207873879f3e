//! Judging a message before anything is appended.

use crate::bytes::{lossy, lossy_text, text_bytes};
use crate::correlation::Correlation;
use crate::digest::{sha256, sha256_of};
use crate::filter::text_view;
use crate::json::{Json, JsonView, fields_view, get_field, group_json_views, member};
use crate::local::{path_in, path_of};
use crate::names::QueueName;
use crate::predicate::{FieldPath, Predicate, PredicateView, is_path, satisfies};
use crate::text::{
    blank, cat2, cat3, cat4, cat6, copied_texts, decimal, decimal_of, hex, hex_of, is_blank,
    join, joined, quoted, same_text, split_on, texts, trim, trimmed,
};
use vstd::prelude::*;
use vstd::utf8::encode_utf8;

verus! {

/// The variable naming the queue a message judged by a command is offered to.
pub const VALIDATE_QUEUE_ENV: &'static str = "ONEMESSAGEBUS_VALIDATE_QUEUE";

/// The variable naming the question a message judged by a command asks or
/// answers.
pub const VALIDATE_CORRELATION_ENV: &'static str = "ONEMESSAGEBUS_VALIDATE_CORRELATION";

/// The version a recorded pass is written at.
pub const PASS_RECORD_VERSION: u32 = 1;

/// What a validator answers.
#[derive(Debug, PartialEq, Eq)]
pub enum Verdict {
    /// It may be appended.
    Pass,
    /// It may not, for this reason.
    Refuse {
        /// The reason.
        reason: String,
    },
    /// Nobody could say, for this reason.
    Unjudged {
        /// The reason.
        reason: String,
    },
}

/// What a verdict is.
pub enum VerdictView {
    Pass,
    Refuse(Seq<char>),
    Unjudged(Seq<char>),
}

impl View for Verdict {
    type V = VerdictView;

    open spec fn view(&self) -> VerdictView {
        match self {
            Verdict::Pass => VerdictView::Pass,
            Verdict::Refuse { reason } => VerdictView::Refuse(reason@),
            Verdict::Unjudged { reason } => VerdictView::Unjudged(reason@),
        }
    }
}

impl Verdict {
    /// Whether it may be appended.
    pub fn passes(&self) -> (r: bool)
        ensures
            r == (self@ is Pass),
    {
        match self {
            Verdict::Pass => true,
            _ => false,
        }
    }

    /// Why it may not.
    pub fn reason(&self) -> (r: Option<&str>)
        ensures
            match r {
                Some(reason) => self@ == VerdictView::Refuse(reason@) || self@
                    == VerdictView::Unjudged(reason@),
                None => self@ is Pass,
            },
    {
        match self {
            Verdict::Pass => None,
            Verdict::Refuse { reason } => Some(reason.as_str()),
            Verdict::Unjudged { reason } => Some(reason.as_str()),
        }
    }

    /// The same verdict.
    pub fn copied(&self) -> (r: Self)
        ensures
            r@ == self@,
    {
        match self {
            Verdict::Pass => Verdict::Pass,
            Verdict::Refuse { reason } => Verdict::Refuse { reason: reason.clone() },
            Verdict::Unjudged { reason } => Verdict::Unjudged { reason: reason.clone() },
        }
    }
}

/// What several verdicts are.
pub open spec fn verdicts_view(verdicts: Seq<Verdict>) -> Seq<VerdictView> {
    Seq::new(verdicts.len(), |i: int| verdicts[i]@)
}

/// The first refusal.
pub open spec fn first_refusal(verdicts: Seq<VerdictView>) -> Option<Seq<char>>
    decreases verdicts.len(),
{
    if verdicts.len() == 0 {
        None
    } else {
        match first_refusal(verdicts.drop_last()) {
            Some(reason) => Some(reason),
            None => match verdicts.last() {
                VerdictView::Refuse(reason) => Some(reason),
                _ => None,
            },
        }
    }
}

/// The first that could not be judged.
pub open spec fn first_unjudged(verdicts: Seq<VerdictView>) -> Option<Seq<char>>
    decreases verdicts.len(),
{
    if verdicts.len() == 0 {
        None
    } else {
        match first_unjudged(verdicts.drop_last()) {
            Some(reason) => Some(reason),
            None => match verdicts.last() {
                VerdictView::Unjudged(reason) => Some(reason),
                _ => None,
            },
        }
    }
}

/// What several verdicts come to: the first refusal, or the first that could not
/// be judged, or a pass.
pub open spec fn combined_view(verdicts: Seq<VerdictView>) -> VerdictView {
    match first_refusal(verdicts) {
        Some(reason) => VerdictView::Refuse(reason),
        None => match first_unjudged(verdicts) {
            Some(reason) => VerdictView::Unjudged(reason),
            None => VerdictView::Pass,
        },
    }
}

/// What several verdicts come to.
pub fn combined(verdicts: &Vec<Verdict>) -> (r: Verdict)
    ensures
        r@ == combined_view(verdicts_view(verdicts@)),
{
    let ghost all = verdicts_view(verdicts@);
    let mut refused: Option<String> = None;
    let mut unjudged: Option<String> = None;
    let mut i: usize = 0;
    proof {
        assert(all.take(0) =~= Seq::<VerdictView>::empty());
    }
    while i < verdicts.len()
        invariant
            i <= verdicts@.len(),
            all == verdicts_view(verdicts@),
            text_view(refused) == first_refusal(all.take(i as int)),
            text_view(unjudged) == first_unjudged(all.take(i as int)),
        decreases verdicts@.len() - i,
    {
        proof {
            assert(all.take(i + 1).drop_last() =~= all.take(i as int));
            assert(all.take(i + 1).last() == verdicts@[i as int]@);
        }
        match &verdicts[i] {
            Verdict::Pass => {},
            Verdict::Refuse { reason } => {
                if refused.is_none() {
                    refused = Some(reason.clone());
                }
            },
            Verdict::Unjudged { reason } => {
                if unjudged.is_none() {
                    unjudged = Some(reason.clone());
                }
            },
        }
        i += 1;
    }
    proof {
        assert(all.take(i as int) =~= all);
    }
    match (refused, unjudged) {
        (Some(reason), _) => Verdict::Refuse { reason },
        (None, Some(reason)) => Verdict::Unjudged { reason },
        (None, None) => Verdict::Pass,
    }
}

/// Verdicts all of which pass come to a pass, and no others do.
pub proof fn only_passes_pass(verdicts: Seq<VerdictView>)
    ensures
        combined_view(verdicts) is Pass <==> forall|i: int|
            0 <= i < verdicts.len() ==> #[trigger] verdicts[i] is Pass,
    decreases verdicts.len(),
{
    if verdicts.len() > 0 {
        let rest = verdicts.drop_last();
        only_passes_pass(rest);
        if combined_view(verdicts) is Pass {
            assert(combined_view(rest) is Pass);
            assert forall|i: int| 0 <= i < verdicts.len() implies #[trigger] verdicts[i] is Pass by {
                if i < rest.len() {
                    assert(rest[i] is Pass);
                }
            }
        }
        if forall|i: int| 0 <= i < verdicts.len() ==> #[trigger] verdicts[i] is Pass {
            assert forall|i: int| 0 <= i < rest.len() implies #[trigger] rest[i] is Pass by {
                assert(verdicts[i] is Pass);
            }
            assert(verdicts[verdicts.len() - 1] is Pass);
        }
    }
}

/// Where a message is offered, and which question it asks or answers.
#[derive(Debug)]
pub struct ValidationContext {
    /// The queue it is offered to.
    pub queue: QueueName,
    /// The question it asks or answers.
    pub correlation: Option<Correlation>,
}

impl ValidationContext {
    /// A message offered to `queue`.
    pub fn new(queue: QueueName) -> (r: Self)
        ensures
            r.queue == queue,
            r.correlation is None,
    {
        ValidationContext { queue, correlation: None }
    }

    /// The same, naming the question it asks or answers.
    pub fn with_correlation(self, correlation: Correlation) -> (r: Self)
        ensures
            r.queue == self.queue,
            r.correlation == Some(correlation),
    {
        ValidationContext { queue: self.queue, correlation: Some(correlation) }
    }
}

/// What judges a message.
pub trait Validator<M> {
    /// Judges `message`, offered as `context` says.
    fn validate(&self, message: &M, context: &ValidationContext) -> (r: Verdict);
}

/// Validators, in the order they judge.
pub struct Validators<V> {
    each: Vec<V>,
}

impl<V> View for Validators<V> {
    type V = Seq<V>;

    closed spec fn view(&self) -> Seq<V> {
        self.each@
    }
}

impl<V> Validators<V> {
    /// No validators.
    pub fn new() -> (r: Self)
        ensures
            r@ == Seq::<V>::empty(),
    {
        Validators { each: Vec::new() }
    }

    /// The same, with `validator` last.
    pub fn with(self, validator: V) -> (r: Self)
        ensures
            r@ == self@.push(validator),
    {
        let mut each = self.each;
        each.push(validator);
        Validators { each }
    }

    /// Puts `validator` last.
    pub fn push(&mut self, validator: V)
        ensures
            final(self)@ == old(self)@.push(validator),
    {
        self.each.push(validator);
    }

    /// How many there are.
    pub fn len(&self) -> (r: usize)
        ensures
            r == self@.len(),
    {
        self.each.len()
    }

    /// Whether there is none.
    pub fn is_empty(&self) -> (r: bool)
        ensures
            r == (self@.len() == 0),
    {
        self.each.len() == 0
    }

    /// What every validator says of a message comes to: each judges, whatever an
    /// earlier one answered.
    pub fn judge<M>(&self, message: &M, context: &ValidationContext) -> (r: Verdict) where
        V: Validator<M>,

        ensures
            exists|said: Seq<Verdict>|
                {
                    &&& said.len() == self@.len()
                    &&& forall|i: int|
                        0 <= i < said.len() ==> call_ensures(
                            V::validate,
                            (&self@[i], message, context),
                            #[trigger] said[i],
                        )
                    &&& r@ == combined_view(#[trigger] verdicts_view(said))
                },
    {
        let mut verdicts: Vec<Verdict> = Vec::new();
        let mut i: usize = 0;
        while i < self.each.len()
            invariant
                i <= self.each@.len(),
                verdicts@.len() == i,
                forall|k: int|
                    0 <= k < i ==> call_ensures(
                        V::validate,
                        (&self.each@[k], message, context),
                        #[trigger] verdicts@[k],
                    ),
            decreases self.each@.len() - i,
        {
            verdicts.push(self.each[i].validate(message, context));
            i += 1;
        }
        proof {
            assert(verdicts_view(verdicts@).len() == self@.len());
        }
        combined(&verdicts)
    }
}

// ---------------------------------------------------------------------------
// When a message is judged.
// ---------------------------------------------------------------------------

/// When a configured validator judges a message at all.
#[derive(Debug)]
pub enum When {
    /// The message carries something at this field.
    Carries(FieldPath),
    /// The message satisfies this predicate.
    Matches(Predicate),
}

/// What a `when` asks.
pub open spec fn when_asks(when: When) -> PredicateView {
    match when {
        When::Carries(field) => PredicateView::NonEmpty { field: field@, non_empty: true },
        When::Matches(predicate) => predicate@,
    }
}

/// The keys of members other than `carries`.
pub open spec fn other_keys(fields: Seq<(Seq<char>, JsonView)>) -> Seq<Seq<char>>
    decreases fields.len(),
{
    if fields.len() == 0 {
        Seq::empty()
    } else if fields.last().0 == "carries"@ {
        other_keys(fields.drop_last())
    } else {
        other_keys(fields.drop_last()).push(fields.last().0)
    }
}

fn other_keys_of(fields: &Vec<(String, Json)>) -> (r: Vec<String>)
    ensures
        texts(r@) == other_keys(fields_view(fields@)),
{
    let ghost all = fields_view(fields@);
    let mut out: Vec<String> = Vec::new();
    let mut i: usize = 0;
    proof {
        assert(all.take(0) =~= Seq::<(Seq<char>, JsonView)>::empty());
        assert(texts(out@) =~= Seq::<Seq<char>>::empty());
    }
    while i < fields.len()
        invariant
            i <= fields@.len(),
            all == fields_view(fields@),
            texts(out@) == other_keys(all.take(i as int)),
        decreases fields@.len() - i,
    {
        let ghost before = texts(out@);
        proof {
            assert(all.take(i + 1).drop_last() =~= all.take(i as int));
            assert(all.take(i + 1).last().0 == fields@[i as int].0@);
        }
        if !same_text(fields[i].0.as_str(), "carries") {
            out.push(fields[i].0.clone());
            proof {
                assert(texts(out@) =~= before.push(fields@[i as int].0@));
            }
        }
        i += 1;
    }
    proof {
        assert(all.take(i as int) =~= all);
    }
    out
}

impl When {
    /// The same.
    pub fn copied(&self) -> (r: Self)
        ensures
            when_asks(r) == when_asks(*self),
    {
        match self {
            When::Carries(field) => When::Carries(field.copied()),
            When::Matches(predicate) => When::Matches(predicate.copied()),
        }
    }

    /// Whether a message is judged.
    pub fn admits(&self, message: &Json) -> (r: bool)
        ensures
            r == satisfies(when_asks(*self), message@),
    {
        match self {
            When::Carries(field) => {
                let predicate = Predicate::NonEmpty { field: field.copied(), non_empty: true };
                predicate.matches(message)
            },
            When::Matches(predicate) => predicate.matches(message),
        }
    }

    /// The field a `when` of the form `{"carries": P}` names. Nothing for one of
    /// another form, which is a predicate; refused where `carries` does not stand
    /// alone, or names no path.
    pub fn carried_field(value: &Json) -> (r: Result<Option<FieldPath>, String>)
        ensures
            match member(value@, "carries"@) {
                None => r == Ok::<Option<FieldPath>, String>(None),
                Some(named) => if value@->Object_0.len() != 1 {
                    r is Err && r->Err_0@
                        == "`carries` stands alone in a `when`, and this also names "@ + joined(
                        other_keys(value@->Object_0),
                        " and "@,
                    )
                } else {
                    match named {
                        JsonView::Str(text) => match r {
                            Ok(Some(path)) => is_path(split_on(text, '.')) && path@ == split_on(
                                text,
                                '.',
                            ),
                            Ok(None) => false,
                            Err(why) => !is_path(split_on(text, '.')) && why@ == quoted(text)
                                + " is not a field path: "@ + (if text.len() == 0 {
                                "it is empty"@
                            } else {
                                "one of its keys is empty"@
                            })
                                + "; a field path is object keys joined by `.`, e.g. reply.completion"@,
                        },
                        _ => r is Err && r->Err_0@ == "`carries` names a field path"@,
                    }
                },
            },
    {
        broadcast use group_json_views;

        let fields = match value {
            Json::Object(fields) => fields,
            _ => {
                return Ok(None);
            },
        };
        let named = match get_field(fields, "carries") {
            Some(named) => named,
            None => {
                return Ok(None);
            },
        };
        proof {
            assert(fields_view(fields@).len() == fields@.len());
        }
        if fields.len() != 1 {
            let others = other_keys_of(fields);
            let listed = join(&others, " and ");
            return Err(
                cat2(
                    "`carries` stands alone in a `when`, and this also names ",
                    listed.as_str(),
                ),
            );
        }
        match named {
            Json::Str(text) => match FieldPath::from_str(text.as_str()) {
                Ok(path) => Ok(Some(path)),
                Err(refused) => Err(refused.message()),
            },
            _ => Err("`carries` names a field path".to_owned()),
        }
    }
}

// ---------------------------------------------------------------------------
// Commands.
// ---------------------------------------------------------------------------

/// Why a validator could not be built.
#[derive(Debug, Clone, Copy, PartialEq, Eq, Structural)]
pub enum ValidatorError {
    /// A command validator naming no command.
    NoCommand,
    /// A pass cache naming no command to read the bar's fingerprint with.
    NoBar,
}

/// A refusal in words.
pub open spec fn validator_error_words(error: ValidatorError) -> Seq<char> {
    match error {
        ValidatorError::NoCommand =>
            "a command validator names no command; give its argv, the program first"@,
        ValidatorError::NoBar =>
            "a pass cache names no bar fingerprint command; give the argv whose output fingerprints the bar, so a moved bar invalidates what was passed under the old one"@,
    }
}

impl ValidatorError {
    /// The refusal in words.
    pub fn message(&self) -> (r: String)
        ensures
            r@ == validator_error_words(*self),
    {
        match self {
            ValidatorError::NoCommand => "a command validator names no command; give its argv, the program first".to_owned(),
            ValidatorError::NoBar => "a pass cache names no bar fingerprint command; give the argv whose output fingerprints the bar, so a moved bar invalidates what was passed under the old one".to_owned(),
        }
    }
}

/// Whether an argv names a program.
pub open spec fn names_program(argv: Seq<Seq<char>>) -> bool {
    argv.len() > 0 && argv[0].len() > 0
}

fn program_named(argv: &Vec<String>) -> (r: bool)
    ensures
        r == names_program(texts(argv@)),
{
    argv.len() > 0 && !argv[0].as_str().is_empty()
}

/// The external validator: a command judging the message on its stdin.
#[derive(Debug)]
pub struct CommandValidator {
    command: Vec<String>,
    cache: Option<PassCache>,
}

/// Where a command validator records its passes.
#[derive(Debug)]
pub struct PassCache {
    dir: String,
    bar_fingerprint: Vec<String>,
}

/// What a command wrote on stderr, as a clause to end a sentence with.
pub open spec fn said_words(stderr: Seq<char>) -> Seq<char> {
    if is_blank(stderr) {
        Seq::empty()
    } else {
        "; it said: "@ + trimmed(stderr)
    }
}

fn said(stderr: &str) -> (r: String)
    ensures
        r@ == said_words(stderr@),
{
    if blank(stderr) {
        let nothing = String::new();
        proof {
            assert(nothing@ =~= Seq::<char>::empty());
        }
        nothing
    } else {
        let words = trim(stderr);
        cat2("; it said: ", words.as_str())
    }
}

/// An integer in decimal.
pub open spec fn signed_decimal(n: int) -> Seq<char> {
    if n < 0 {
        "-"@ + decimal((-n) as nat)
    } else {
        decimal(n as nat)
    }
}

/// An integer in decimal.
pub fn signed_decimal_of(n: i32) -> (r: String)
    ensures
        r@ == signed_decimal(n as int),
{
    let wide: i64 = n as i64;
    if wide < 0 {
        let digits = decimal_of((0 - wide) as u64);
        cat2("-", digits.as_str())
    } else {
        decimal_of(wide as u64)
    }
}

/// The verdict a command's exit is: 0 a pass, 1 a refusal with its stderr as the
/// reason, and anything else unjudged.
pub open spec fn exit_verdict(
    command: Seq<char>,
    code: Option<i32>,
    stderr: Seq<char>,
) -> VerdictView {
    match code {
        Some(code) => if code == 0 {
            VerdictView::Pass
        } else if code == 1 {
            VerdictView::Refuse(
                if is_blank(stderr) {
                    "the validator `"@ + command
                        + "` refused the message and wrote no reason on stderr"@
                } else {
                    stderr
                },
            )
        } else {
            VerdictView::Unjudged(
                "the validator `"@ + command + "` exited "@ + signed_decimal(code as int)
                    + ", which is neither a pass (0) nor a refusal (1)"@ + said_words(stderr),
            )
        },
        None => VerdictView::Unjudged(
            "the validator `"@ + command + "` was ended by a signal before it answered"@
                + said_words(stderr),
        ),
    }
}

/// How running a command fell short of an exit.
#[derive(Debug, Clone, Copy, PartialEq, Eq, Structural)]
pub enum Shortfall {
    /// It could not be run.
    NotRun,
    /// It could not be handed its message.
    NotHanded,
    /// It did not finish.
    NotFinished,
}

/// How running a command fell short, in words.
pub open spec fn shortfall_words(shortfall: Shortfall) -> Seq<char> {
    match shortfall {
        Shortfall::NotRun => "` could not be run: "@,
        Shortfall::NotHanded => "` could not receive its message: "@,
        Shortfall::NotFinished => "` did not finish: "@,
    }
}

impl CommandValidator {
    /// The command, the program first.
    pub closed spec fn argv(&self) -> Seq<Seq<char>> {
        texts(self.command@)
    }

    /// The cache its passes are recorded in.
    pub closed spec fn caches(&self) -> Option<PassCache> {
        self.cache
    }

    #[verifier::type_invariant]
    closed spec fn well_formed(&self) -> bool {
        names_program(texts(self.command@))
    }

    /// The validator running `command`, the program first: refused where it names
    /// none.
    pub fn new(command: Vec<String>) -> (r: Result<Self, ValidatorError>)
        ensures
            match r {
                Ok(validator) => names_program(texts(command@)) && validator.argv() == texts(
                    command@,
                ) && validator.caches() is None,
                Err(e) => !names_program(texts(command@)) && e == ValidatorError::NoCommand,
            },
    {
        if program_named(&command) {
            Ok(CommandValidator { command, cache: None })
        } else {
            Err(ValidatorError::NoCommand)
        }
    }

    /// The same validator, recording its passes in `cache`.
    pub fn with_cache(self, cache: PassCache) -> (r: Self)
        ensures
            r.argv() == self.argv(),
            r.caches() == Some(cache),
    {
        proof {
            use_type_invariant(&self);
        }
        CommandValidator { command: self.command, cache: Some(cache) }
    }

    /// The command, the program first.
    pub fn command(&self) -> (r: &Vec<String>)
        ensures
            texts(r@) == self.argv(),
            names_program(texts(r@)),
    {
        proof {
            use_type_invariant(self);
        }
        &self.command
    }

    /// The cache its passes are recorded in.
    pub fn cache(&self) -> (r: Option<&PassCache>)
        ensures
            match r {
                Some(cache) => self.caches() == Some(*cache),
                None => self.caches() is None,
            },
    {
        self.cache.as_ref()
    }

    /// The command as one text.
    fn rendered(&self) -> (r: String)
        ensures
            r@ == joined(self.argv(), " "@),
    {
        join(&self.command, " ")
    }

    /// The verdict the command's exit is: `code` nothing where a signal ended it.
    pub fn verdict_of(&self, code: Option<i32>, stderr: &str) -> (r: Verdict)
        ensures
            r@ == exit_verdict(joined(self.argv(), " "@), code, stderr@),
    {
        let command = self.rendered();
        match code {
            Some(code) => {
                if code == 0 {
                    return Verdict::Pass;
                }
                if code == 1 {
                    let reason = if blank(stderr) {
                        cat3(
                            "the validator `",
                            command.as_str(),
                            "` refused the message and wrote no reason on stderr",
                        )
                    } else {
                        stderr.to_owned()
                    };
                    return Verdict::Refuse { reason };
                }
                let number = signed_decimal_of(code);
                let said = said(stderr);
                Verdict::Unjudged {
                    reason: cat6(
                        "the validator `",
                        command.as_str(),
                        "` exited ",
                        number.as_str(),
                        ", which is neither a pass (0) nor a refusal (1)",
                        said.as_str(),
                    ),
                }
            },
            None => {
                let said = said(stderr);
                Verdict::Unjudged {
                    reason: cat4(
                        "the validator `",
                        command.as_str(),
                        "` was ended by a signal before it answered",
                        said.as_str(),
                    ),
                }
            },
        }
    }

    /// The verdict where the command fell short of an exit: unjudged.
    pub fn fell_short(&self, shortfall: Shortfall, failure: &str) -> (r: Verdict)
        ensures
            r@ == VerdictView::Unjudged(
                "the validator `"@ + joined(self.argv(), " "@) + shortfall_words(shortfall)
                    + failure@,
            ),
    {
        let command = self.rendered();
        let how = match shortfall {
            Shortfall::NotRun => "` could not be run: ",
            Shortfall::NotHanded => "` could not receive its message: ",
            Shortfall::NotFinished => "` did not finish: ",
        };
        Verdict::Unjudged { reason: cat4("the validator `", command.as_str(), how, failure) }
    }

    /// The verdict the command's exit is, told by what it wrote on stderr.
    pub fn answered(&self, code: Option<i32>, stderr: &Vec<u8>) -> (r: Verdict)
        ensures
            r@ == exit_verdict(joined(self.argv(), " "@), code, lossy(stderr@)),
    {
        let said = lossy_text(stderr);
        self.verdict_of(code, said.as_str())
    }

    /// What a pass of `content` is recorded under, where passes are recorded and the
    /// bar's fingerprint was read.
    pub fn pass_key(&self, content: &Vec<u8>, fingerprint: &Option<String>) -> (r: Option<PassKey>)
        ensures
            match r {
                Some(key) => {
                    &&& self.caches() is Some
                    &&& fingerprint is Some
                    &&& key.content@ == hex(sha256(content@))
                    &&& key.bar@ == hex(sha256(bar_bytes(self.argv(), fingerprint->0@)))
                    &&& key.fingerprint@ == fingerprint->0@
                    &&& texts(key.command@) == self.argv()
                },
                None => self.caches() is None || fingerprint is None,
            },
    {
        if self.cache.is_none() {
            return None;
        }
        match fingerprint {
            Some(fingerprint) => Some(PassCache::key(&self.command, content, fingerprint.as_str())),
            None => None,
        }
    }

    /// What is said of a message without asking the command: a pass, where `record`
    /// is of the pass its key names.
    pub fn remembered(key: &Option<PassKey>, record: &Option<PassRecord>) -> (r: Option<Verdict>)
        ensures
            match r {
                Some(verdict) => verdict@ == VerdictView::Pass && key is Some && record is Some
                    && records_pass(record->0, key->0),
                None => !(key is Some && record is Some && records_pass(record->0, key->0)),
            },
    {
        match key {
            Some(key) => if PassCache::holds_pass(record, key) {
                Some(Verdict::Pass)
            } else {
                None
            },
            None => None,
        }
    }

    /// What a pass is recorded as, under its key; nothing of another verdict.
    pub fn to_record(key: &Option<PassKey>, verdict: &Verdict) -> (r: Option<PassRecord>)
        ensures
            match r {
                Some(record) => verdict@ == VerdictView::Pass && key is Some && records_pass(
                    record,
                    key->0,
                ),
                None => !(verdict@ == VerdictView::Pass && key is Some),
            },
    {
        match key {
            Some(key) => if verdict.passes() {
                Some(PassCache::record(key))
            } else {
                None
            },
            None => None,
        }
    }
}

/// One pass's key: the content's digest and the bar's.
#[derive(Debug)]
pub struct PassKey {
    /// The content's digest.
    pub content: String,
    /// The bar's digest.
    pub bar: String,
    /// The bar's fingerprint.
    pub fingerprint: String,
    /// The command.
    pub command: Vec<String>,
}

/// What one pass is recorded as.
#[derive(Debug)]
pub struct PassRecord {
    /// Always [`PASS_RECORD_VERSION`].
    pub schema_version: u32,
    /// The content's digest.
    pub content: String,
    /// The bar's digest.
    pub bar: String,
    /// The bar's fingerprint.
    pub fingerprint: String,
    /// The command.
    pub command: Vec<String>,
}

/// The bytes of words, each followed by a zero.
pub open spec fn words_bytes(words: Seq<Seq<char>>) -> Seq<u8>
    decreases words.len(),
{
    if words.len() == 0 {
        Seq::empty()
    } else {
        words_bytes(words.drop_last()) + encode_utf8(words.last()) + seq![0u8]
    }
}

/// The bytes a bar's digest is over: the command's words, then its fingerprint.
pub open spec fn bar_bytes(command: Seq<Seq<char>>, fingerprint: Seq<char>) -> Seq<u8> {
    words_bytes(command) + seq![0xffu8] + encode_utf8(fingerprint)
}

fn append_bytes(out: &mut Vec<u8>, more: &Vec<u8>)
    ensures
        final(out)@ == old(out)@ + more@,
{
    let ghost before = out@;
    let mut i: usize = 0;
    while i < more.len()
        invariant
            i <= more@.len(),
            out@ =~= before + more@.take(i as int),
        decreases more@.len() - i,
    {
        out.push(more[i]);
        i += 1;
    }
    proof {
        assert(more@.take(i as int) =~= more@);
    }
}

fn bar_bytes_of(command: &Vec<String>, fingerprint: &str) -> (r: Vec<u8>)
    ensures
        r@ == bar_bytes(texts(command@), fingerprint@),
{
    let ghost words = texts(command@);
    let mut out: Vec<u8> = Vec::new();
    let mut i: usize = 0;
    proof {
        assert(words.take(0) =~= Seq::<Seq<char>>::empty());
    }
    while i < command.len()
        invariant
            i <= command@.len(),
            words == texts(command@),
            out@ == words_bytes(words.take(i as int)),
        decreases command@.len() - i,
    {
        let ghost before = out@;
        let bytes = text_bytes(command[i].as_str());
        append_bytes(&mut out, &bytes);
        out.push(0);
        proof {
            assert(words.take(i + 1).drop_last() =~= words.take(i as int));
            assert(words.take(i + 1).last() == command@[i as int]@);
            assert(out@ =~= before + bytes@ + seq![0u8]);
        }
        i += 1;
    }
    proof {
        assert(words.take(i as int) =~= words);
    }
    let ghost before = out@;
    out.push(0xff);
    let bytes = text_bytes(fingerprint);
    append_bytes(&mut out, &bytes);
    proof {
        assert(out@ =~= before + seq![0xffu8] + bytes@);
    }
    out
}

fn same_texts(a: &Vec<String>, b: &Vec<String>) -> (r: bool)
    ensures
        r == (texts(a@) == texts(b@)),
{
    if a.len() != b.len() {
        proof {
            assert(texts(a@).len() != texts(b@).len());
        }
        return false;
    }
    let mut i: usize = 0;
    while i < a.len()
        invariant
            i <= a@.len() == b@.len(),
            forall|k: int| 0 <= k < i ==> (#[trigger] texts(a@)[k]) == texts(b@)[k],
        decreases a@.len() - i,
    {
        if !same_text(a[i].as_str(), b[i].as_str()) {
            proof {
                assert(texts(a@)[i as int] != texts(b@)[i as int]);
            }
            return false;
        }
        i += 1;
    }
    proof {
        assert(texts(a@) =~= texts(b@));
    }
    true
}

/// Whether a record is of the pass a key names.
pub open spec fn records_pass(record: PassRecord, key: PassKey) -> bool {
    &&& record.schema_version == PASS_RECORD_VERSION
    &&& record.content@ == key.content@
    &&& record.bar@ == key.bar@
    &&& record.fingerprint@ == key.fingerprint@
    &&& texts(record.command@) == texts(key.command@)
}

impl PassCache {
    /// The command whose output fingerprints the bar.
    pub closed spec fn bar_argv(&self) -> Seq<Seq<char>> {
        texts(self.bar_fingerprint@)
    }

    /// The directory records are kept in.
    pub closed spec fn directory(&self) -> Seq<char> {
        self.dir@
    }

    #[verifier::type_invariant]
    closed spec fn well_formed(&self) -> bool {
        names_program(texts(self.bar_fingerprint@))
    }

    /// A cache in `dir`, keyed on the fingerprint `bar_fingerprint` prints:
    /// refused where it names no program.
    pub fn new(dir: &str, bar_fingerprint: Vec<String>) -> (r: Result<Self, ValidatorError>)
        ensures
            match r {
                Ok(cache) => names_program(texts(bar_fingerprint@)) && cache.directory() == dir@
                    && cache.bar_argv() == texts(bar_fingerprint@),
                Err(e) => !names_program(texts(bar_fingerprint@)) && e == ValidatorError::NoBar,
            },
    {
        if program_named(&bar_fingerprint) {
            Ok(PassCache { dir: dir.to_owned(), bar_fingerprint })
        } else {
            Err(ValidatorError::NoBar)
        }
    }

    /// The directory records are kept in.
    pub fn dir(&self) -> (r: &str)
        ensures
            r@ == self.directory(),
    {
        self.dir.as_str()
    }

    /// The command whose output fingerprints the bar.
    pub fn bar_fingerprint(&self) -> (r: &Vec<String>)
        ensures
            texts(r@) == self.bar_argv(),
            names_program(texts(r@)),
    {
        proof {
            use_type_invariant(self);
        }
        &self.bar_fingerprint
    }

    /// The fingerprint a bar's command printed: its output without the white
    /// space around it, where it succeeded and printed something.
    pub fn fingerprint(succeeded: bool, printed: &Vec<u8>) -> (r: Option<String>)
        ensures
            match r {
                Some(fingerprint) => succeeded && fingerprint@ == trimmed(lossy(printed@))
                    && fingerprint@.len() > 0,
                None => !succeeded || trimmed(lossy(printed@)).len() == 0,
            },
    {
        if !succeeded {
            return None;
        }
        let text = lossy_text(printed);
        let fingerprint = trim(text.as_str());
        if fingerprint.as_str().is_empty() {
            None
        } else {
            Some(fingerprint)
        }
    }

    /// The key of a pass of `content` by `command` under a bar.
    pub fn key(command: &Vec<String>, content: &Vec<u8>, fingerprint: &str) -> (r: PassKey)
        ensures
            r.content@ == hex(sha256(content@)),
            r.bar@ == hex(sha256(bar_bytes(texts(command@), fingerprint@))),
            r.fingerprint@ == fingerprint@,
            texts(r.command@) == texts(command@),
    {
        let bar = sha256_of(&bar_bytes_of(command, fingerprint));
        let digest = sha256_of(content);
        proof {
            assert(bar@.take(32) =~= bar@);
            assert(digest@.take(32) =~= digest@);
        }
        PassKey {
            content: hex_of(&digest, 32),
            bar: hex_of(&bar, 32),
            fingerprint: fingerprint.to_owned(),
            command: copied_texts(command),
        }
    }

    /// The file a pass is recorded in.
    pub fn path(&self, key: &PassKey) -> (r: String)
        ensures
            r@ == path_in(self.directory(), key.content@ + "."@ + key.bar@ + ".pass.json"@),
    {
        let name = cat4(key.content.as_str(), ".", key.bar.as_str(), ".pass.json");
        path_of(self.dir.as_str(), name.as_str())
    }

    /// Whether a record read back is of the pass `key` names; nothing read is no
    /// pass.
    pub fn holds_pass(record: &Option<PassRecord>, key: &PassKey) -> (r: bool)
        ensures
            r == (record is Some && records_pass(record->0, *key)),
    {
        match record {
            None => false,
            Some(record) => record.schema_version == PASS_RECORD_VERSION && same_text(
                record.content.as_str(),
                key.content.as_str(),
            ) && same_text(record.bar.as_str(), key.bar.as_str()) && same_text(
                record.fingerprint.as_str(),
                key.fingerprint.as_str(),
            ) && same_texts(&record.command, &key.command),
        }
    }

    /// What a pass is recorded as, which is found under its key again.
    pub fn record(key: &PassKey) -> (r: PassRecord)
        ensures
            records_pass(r, *key),
    {
        PassRecord {
            schema_version: PASS_RECORD_VERSION,
            content: key.content.clone(),
            bar: key.bar.clone(),
            fingerprint: key.fingerprint.clone(),
            command: copied_texts(&key.command),
        }
    }
}

} // verus!
