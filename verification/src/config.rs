//! What a configuration file says, read and checked on its own.
//!
//! A configuration names a transport, optionally a layout, queues added to it
//! or overriding its own, authors, validators, codecs and linked schema bundles.
//! It opens nothing: binding it to layouts is another step.

use crate::author::{Author, NarrowingRefused};
use crate::codec::{
    CodecConfig, CodecName, codec_fault, first_of_two, is_codec_char, validate_codec,
};
use crate::json::{
    Json, JsonView, field, fields_view, get_field, group_json_views, items_view, json_from_value,
    lemma_array_view, lemma_object_view, member, value_json,
};
use crate::kinds::{LOCAL, TransportConfig};
use crate::link::{LinkView, SchemaLink, rebased_link};
use crate::names::{ConsumerName, DocumentName, QueueName};
use crate::policy::{
    Delivery, Policy, PolicyView, QueueOrder, QueueSpec, QueueSpecView, Retention, Supersede,
    consumers_view, copied_consumers,
};
use crate::predicate::Predicate;
use crate::schema::{Read, SchemaId};
use crate::table::Table;
use crate::text::{
    cat2, cat3, cat4, cat5, cat6, chars_of, copied_texts, decimal, decimal_of, is_lower,
    same_text, texts,
};
use crate::transport::{Transport, TransportError, error_words};
use crate::validate::{
    CommandValidator, PassCache, ValidatorError, When, names_program, validator_error_words,
};
use vstd::prelude::*;

verus! {

/// The configuration version read and written.
pub const CONFIG_VERSION: u32 = 1;

/// What `serde_norway::from_str` reads `text` as, or the words it refuses it in.
pub uninterp spec fn parsed_yaml(text: Seq<char>) -> Result<JsonView, Seq<char>>;

/// `serde_norway::from_str`, into a `serde_json::Value`: what it reads, or the
/// words of its error, named [`parsed_yaml`].
#[verifier::external_body]
fn yaml_value(text: &str) -> (r: Result<serde_json::Value, String>)
    ensures
        match r {
            Ok(value) => parsed_yaml(text@) is Ok && parsed_yaml(text@)->Ok_0 == value_json(value),
            Err(why) => parsed_yaml(text@) is Err && parsed_yaml(text@)->Err_0 == why@,
        },
{
    serde_norway::from_str(text).map_err(|failure| failure.to_string())
}

// ---------------------------------------------------------------------------
// The keys.
// ---------------------------------------------------------------------------

/// The kinds of validator a configuration declares.
#[derive(Debug, Clone, Copy, PartialEq, Eq, Structural)]
pub enum ValidatorKind {
    /// An external command.
    Command,
}

/// Where a command validator records its passes.
#[derive(Debug)]
pub struct CacheConfig {
    /// The directory records are kept in.
    pub dir: String,
    /// The argv whose output fingerprints the bar.
    pub bar_fingerprint: Vec<String>,
}

/// One validator of a configuration.
#[derive(Debug)]
pub struct ValidatorConfig {
    /// The queue whose offered messages it judges.
    pub on: QueueName,
    /// Which of them it judges; every one when absent.
    pub when: Option<When>,
    /// Which kind of validator it is.
    pub kind: ValidatorKind,
    /// The command's argv, the program first.
    pub command: Vec<String>,
    /// Where its passes are recorded; nowhere when absent.
    pub cache: Option<CacheConfig>,
}

/// The policy keys a configuration sets on a queue.
#[derive(Debug)]
pub struct PolicyConfig {
    /// How a record is handed out.
    pub delivery: Option<Delivery>,
    /// In what order records are handed out.
    pub ordering: Option<QueueOrder>,
    /// What an incoming record supersedes.
    pub supersede_on: Option<Supersede>,
    /// Whether a claimed record stays pending until it is answered.
    pub hold_pending: Option<bool>,
    /// Whether a blocking record is handed out first.
    pub blocking_first: Option<bool>,
    /// What the queue keeps.
    pub retention: Option<Retention>,
    /// The document the queue's state is written to.
    pub projection: Option<DocumentName>,
}

/// One queue of a configuration: an addition, or an override of a layout's.
/// Every key left out keeps the layout's value, or the plain default.
#[derive(Debug)]
pub struct QueueConfig {
    /// The queue.
    pub name: QueueName,
    /// The policy's keys to set.
    pub policy: PolicyConfig,
    /// The schema records are validated against.
    pub schema: Option<SchemaId>,
    /// The queue a reply to a pending record is appended to.
    pub answers: Option<QueueName>,
    /// Which records a claim hands out.
    pub claims: Option<Predicate>,
    /// The consumers whose cursors `status` reports.
    pub consumers: Option<Vec<ConsumerName>>,
    /// Whether a push numbers each record.
    pub numbered: Option<bool>,
}

/// One author of a configuration.
#[derive(Debug)]
pub struct AuthorConfig {
    /// The operations the author may issue.
    pub capabilities: Vec<String>,
    /// Reasons ungranted operations are refused, by operation word.
    pub refusals: Table<String>,
}

/// One author, by name.
#[derive(Debug)]
pub struct ConfiguredAuthor {
    /// The author.
    pub author: Author,
    /// What the configuration says of it.
    pub config: AuthorConfig,
}

/// One codec, by name.
#[derive(Debug)]
pub struct NamedCodec {
    /// The codec.
    pub name: CodecName,
    /// What the configuration says of it.
    pub config: CodecConfig,
}

/// What a configuration file says.
#[derive(Debug)]
pub struct Config {
    /// The version the file declares.
    pub version: u32,
    /// The transport the queues are kept on.
    pub transport: TransportConfig,
    /// A layout, by name.
    pub profile: Option<String>,
    /// Queues added to the layout's, or overriding one of them, by name.
    pub queues: Table<QueueConfig>,
    /// Authors, by name.
    pub authors: Table<ConfiguredAuthor>,
    /// Validators, in the order each queue is judged by them.
    pub validators: Vec<ValidatorConfig>,
    /// What a host configures for each codec, by name.
    pub codecs: Table<NamedCodec>,
    /// Linked schema bundles.
    pub schemas: Vec<SchemaLink>,
}

/// Why a configuration could not be read or bound, naming the key.
#[derive(Debug)]
pub enum ConfigError {
    /// The file could not be read.
    Read {
        /// The file.
        path: String,
        /// What the host said.
        source: String,
    },
    /// The file is not a configuration.
    Parse {
        /// The file.
        path: String,
        /// What is wrong, at which key.
        why: String,
    },
    /// A version that is not read.
    Version {
        /// The version the file declares.
        found: u32,
    },
    /// A profile no linked layout declares.
    Profile {
        /// The name the file gives.
        name: String,
        /// The layouts there are.
        known: String,
    },
    /// A grant the configuration may not make.
    Narrowing(NarrowingRefused),
    /// A key naming what is not there.
    Queue {
        /// The key.
        key: String,
        /// What is wrong with it.
        why: String,
    },
    /// The transport's kind refused its configuration, or could not be opened.
    Transport(TransportError),
}

/// A refusal in words.
pub open spec fn config_error_words(error: ConfigError) -> Seq<char> {
    match error {
        ConfigError::Read { path, source } => "cannot read the configuration "@ + path@ + ": "@
            + source@,
        ConfigError::Parse { path, why } => path@ + ": "@ + why@,
        ConfigError::Version { found } => "version: "@ + decimal(found as nat)
            + " is not a configuration version this build reads; it reads "@ + decimal(
            CONFIG_VERSION as nat,
        ),
        ConfigError::Profile { name, known } => "profile: `"@ + name@
            + "` is not a layout this build links; the layouts are: "@ + known@,
        ConfigError::Narrowing(refused) => refused.key@ + ": "@ + refused.why@,
        ConfigError::Queue { key, why } => key@ + ": "@ + why@,
        ConfigError::Transport(failure) => "transport: "@ + error_words(failure),
    }
}

impl ConfigError {
    /// The refusal in words.
    pub fn message(&self) -> (r: String)
        ensures
            r@ == config_error_words(*self),
    {
        match self {
            ConfigError::Read { path, source } => cat4(
                "cannot read the configuration ",
                path.as_str(),
                ": ",
                source.as_str(),
            ),
            ConfigError::Parse { path, why } => cat3(path.as_str(), ": ", why.as_str()),
            ConfigError::Version { found } => {
                let found = decimal_of(*found as u64);
                let read = decimal_of(CONFIG_VERSION as u64);
                cat4(
                    "version: ",
                    found.as_str(),
                    " is not a configuration version this build reads; it reads ",
                    read.as_str(),
                )
            },
            ConfigError::Profile { name, known } => cat4(
                "profile: `",
                name.as_str(),
                "` is not a layout this build links; the layouts are: ",
                known.as_str(),
            ),
            ConfigError::Narrowing(refused) => refused.message(),
            ConfigError::Queue { key, why } => cat3(key.as_str(), ": ", why.as_str()),
            ConfigError::Transport(failure) => {
                let said = failure.message();
                cat2("transport: ", said.as_str())
            },
        }
    }

    /// The same refusal, of the file at `path` where it is that the file is no
    /// configuration.
    pub fn at_path(self, path: &str) -> (r: Self)
        ensures
            match self {
                ConfigError::Parse { path: _, why } => r is Parse && r->Parse_path@ == path@
                    && r->Parse_why == why,
                _ => r == self,
            },
    {
        match self {
            ConfigError::Parse { path: _, why } => ConfigError::Parse {
                path: path.to_owned(),
                why,
            },
            other => other,
        }
    }
}

/// Whether an error is that a text is no configuration, for `why`.
pub open spec fn not_a_configuration(error: ConfigError, why: Seq<char>) -> bool {
    match error {
        ConfigError::Parse { path, why: said } => path@ == ""@ && said@ == why,
        _ => false,
    }
}

fn parse_refused(why: String) -> (r: ConfigError)
    ensures
        not_a_configuration(r, why@),
{
    ConfigError::Parse { path: "".to_owned(), why }
}

// ---------------------------------------------------------------------------
// The policy's keys.
// ---------------------------------------------------------------------------

/// A policy with the keys a configuration sets.
pub open spec fn policy_applied(keys: PolicyConfig, policy: PolicyView) -> PolicyView {
    PolicyView {
        delivery: match keys.delivery {
            Some(delivery) => delivery,
            None => policy.delivery,
        },
        ordering: match keys.ordering {
            Some(ordering) => ordering,
            None => policy.ordering,
        },
        supersede_on: match keys.supersede_on {
            Some(supersede) => Some(supersede@),
            None => policy.supersede_on,
        },
        hold_pending: match keys.hold_pending {
            Some(hold) => hold,
            None => policy.hold_pending,
        },
        blocking_first: match keys.blocking_first {
            Some(first) => first,
            None => policy.blocking_first,
        },
        retention: match keys.retention {
            Some(retention) => retention,
            None => policy.retention,
        },
        projection: match keys.projection {
            Some(name) => Some(name@),
            None => policy.projection,
        },
    }
}

impl PolicyConfig {
    /// No key set.
    pub fn none() -> (r: Self)
        ensures
            forall|policy: PolicyView| #[trigger] policy_applied(r, policy) == policy,
    {
        PolicyConfig {
            delivery: None,
            ordering: None,
            supersede_on: None,
            hold_pending: None,
            blocking_first: None,
            retention: None,
            projection: None,
        }
    }

    /// Whether no key is set.
    pub fn is_empty(&self) -> (r: bool)
        ensures
            r == (self.delivery is None && self.ordering is None && self.supersede_on is None
                && self.hold_pending is None && self.blocking_first is None
                && self.retention is None && self.projection is None),
    {
        self.delivery.is_none() && self.ordering.is_none() && self.supersede_on.is_none()
            && self.hold_pending.is_none() && self.blocking_first.is_none()
            && self.retention.is_none() && self.projection.is_none()
    }

    /// Sets the keys on `policy`.
    pub fn apply(&self, policy: &mut Policy)
        ensures
            final(policy)@ == policy_applied(*self, old(policy)@),
    {
        if let Some(delivery) = self.delivery {
            policy.delivery = delivery;
        }
        if let Some(ordering) = self.ordering {
            policy.ordering = ordering;
        }
        if let Some(supersede) = &self.supersede_on {
            policy.supersede_on = Some(supersede.copied());
        }
        if let Some(hold) = self.hold_pending {
            policy.hold_pending = hold;
        }
        if let Some(first) = self.blocking_first {
            policy.blocking_first = first;
        }
        if let Some(retention) = self.retention {
            policy.retention = retention;
        }
        if let Some(projection) = &self.projection {
            policy.projection = Some(projection.clone());
        }
    }
}

/// A declared queue with the keys a configuration sets.
pub open spec fn queue_applied(queue: QueueConfig, spec_of: QueueSpecView) -> QueueSpecView {
    QueueSpecView {
        name: spec_of.name,
        policy: policy_applied(queue.policy, spec_of.policy),
        schema: match queue.schema {
            Some(id) => Some(id@),
            None => spec_of.schema,
        },
        answers: match queue.answers {
            Some(name) => Some(name@),
            None => spec_of.answers,
        },
        claims: match queue.claims {
            Some(claims) => Some(claims@),
            None => spec_of.claims,
        },
        consumers: match queue.consumers {
            Some(consumers) => consumers_view(consumers@),
            None => spec_of.consumers,
        },
        numbered: match queue.numbered {
            Some(numbered) => numbered,
            None => spec_of.numbered,
        },
    }
}

impl QueueConfig {
    /// Sets the keys on a declared queue.
    pub fn apply(&self, queue: &mut QueueSpec)
        ensures
            final(queue)@ == queue_applied(*self, old(queue)@),
    {
        self.policy.apply(&mut queue.policy);
        if let Some(schema) = &self.schema {
            queue.schema = Some(schema.copied());
        }
        if let Some(answers) = &self.answers {
            queue.answers = Some(answers.clone());
        }
        if let Some(claims) = &self.claims {
            queue.claims = Some(claims.copied());
        }
        if let Some(consumers) = &self.consumers {
            queue.consumers = copied_consumers(consumers);
        }
        if let Some(numbered) = self.numbered {
            queue.numbered = numbered;
        }
    }
}

// ---------------------------------------------------------------------------
// Validators.
// ---------------------------------------------------------------------------

/// What a validator at `validators[index]` is refused with.
pub open spec fn validator_fault(declared: ValidatorConfig, index: nat) -> Option<Seq<char>> {
    let at = "validators["@ + decimal(index);
    if !names_program(texts(declared.command@)) {
        Some(at + "].command: "@ + validator_error_words(ValidatorError::NoCommand))
    } else {
        match declared.cache {
            Some(cache) => if names_program(texts(cache.bar_fingerprint@)) {
                None
            } else {
                Some(
                    at + "].cache.bar_fingerprint: "@ + validator_error_words(
                        ValidatorError::NoBar,
                    ),
                )
            },
            None => None,
        }
    }
}

/// Whether a validator is the one a configuration declares.
pub open spec fn built_from(validator: CommandValidator, declared: ValidatorConfig) -> bool {
    &&& validator.argv() == texts(declared.command@)
    &&& match declared.cache {
        Some(cache) => match validator.caches() {
            Some(kept) => kept.directory() == cache.dir@ && kept.bar_argv() == texts(
                cache.bar_fingerprint@,
            ),
            None => false,
        },
        None => validator.caches() is None,
    }
}

impl ValidatorConfig {
    /// The validator this declares, or the refusal naming its key.
    pub fn build(&self, index: usize) -> (r: Result<CommandValidator, String>)
        ensures
            match r {
                Ok(validator) => validator_fault(*self, index as nat) is None && built_from(
                    validator,
                    *self,
                ),
                Err(why) => validator_fault(*self, index as nat) == Some(why@),
            },
    {
        let here = decimal_of(index as u64);
        let validator = match CommandValidator::new(copied_texts(&self.command)) {
            Ok(validator) => validator,
            Err(failure) => {
                let said = failure.message();
                return Err(
                    cat4("validators[", here.as_str(), "].command: ", said.as_str()),
                );
            },
        };
        match &self.cache {
            Some(cache) => match PassCache::new(
                cache.dir.as_str(),
                copied_texts(&cache.bar_fingerprint),
            ) {
                Ok(kept) => Ok(validator.with_cache(kept)),
                Err(failure) => {
                    let said = failure.message();
                    Err(
                        cat4(
                            "validators[",
                            here.as_str(),
                            "].cache.bar_fingerprint: ",
                            said.as_str(),
                        ),
                    )
                },
            },
            None => Ok(validator),
        }
    }
}

// ---------------------------------------------------------------------------
// The keys of codecs, before they are read into their types.
// ---------------------------------------------------------------------------

/// Whether a codec's configuration has a key.
pub open spec fn is_codec_key(key: Seq<char>) -> bool {
    key == "queue"@ || key == "reply_window_seconds"@ || key == "session_env"@ || key
        == "asker_env"@ || key == "about_env"@ || key == "select"@ || key == "frames"@
}

/// Whether a binding that does `action` has a key.
pub open spec fn is_binding_key(action: Option<JsonView>, key: Seq<char>) -> bool {
    ||| key == "when"@
    ||| key == "do"@
    ||| match action {
        Some(JsonView::Str(word)) => if word == "answer"@ {
            key == "response"@
        } else if word == "refuse"@ {
            key == "message"@
        } else if word == "raise"@ {
            key == "record"@ || key == "response"@ || key == "fail"@
        } else if word == "ask"@ {
            key == "record"@ || key == "blocking"@ || key == "response"@ || key == "unanswered"@
        } else {
            false
        },
        _ => false,
    }
}

/// The first key from `from` on that a codec does not have.
pub open spec fn unknown_codec_key(fields: Seq<(Seq<char>, JsonView)>, from: int) -> Option<
    Seq<char>,
>
    decreases fields.len() - from,
{
    if from < 0 || from >= fields.len() {
        None
    } else if !is_codec_key(fields[from].0) {
        Some(fields[from].0)
    } else {
        unknown_codec_key(fields, from + 1)
    }
}

/// The first key from `from` on that a binding does not have.
pub open spec fn unknown_binding_key(
    action: Option<JsonView>,
    fields: Seq<(Seq<char>, JsonView)>,
    from: int,
) -> Option<Seq<char>>
    decreases fields.len() - from,
{
    if from < 0 || from >= fields.len() {
        None
    } else if !is_binding_key(action, fields[from].0) {
        Some(fields[from].0)
    } else {
        unknown_binding_key(action, fields, from + 1)
    }
}

/// What is said of the first binding from `from` on, of the frame at `at`, that
/// has a key it does not take.
pub open spec fn binding_keys_fault(at: Seq<char>, bindings: Seq<JsonView>, from: int) -> Option<
    Seq<char>,
>
    decreases bindings.len() - from,
{
    if from < 0 || from >= bindings.len() {
        None
    } else {
        match bindings[from] {
            JsonView::Object(fields) => match unknown_binding_key(
                field(fields, "do"@),
                fields,
                0,
            ) {
                Some(key) => Some(
                    at + ".bindings["@ + decimal(from as nat) + "]: unknown field `"@ + key
                        + "`"@,
                ),
                None => binding_keys_fault(at, bindings, from + 1),
            },
            _ => binding_keys_fault(at, bindings, from + 1),
        }
    }
}

/// What is said of the first frame from `from` on of the codec `name` that has a
/// binding with a key it does not take.
pub open spec fn frame_keys_fault(
    name: Seq<char>,
    frames: Seq<(Seq<char>, JsonView)>,
    from: int,
) -> Option<Seq<char>>
    decreases frames.len() - from,
{
    if from < 0 || from >= frames.len() {
        None
    } else {
        first_of_two(
            match member(frames[from].1, "bindings"@) {
                Some(JsonView::Array(bindings)) => binding_keys_fault(
                    "codecs."@ + name + ".frames."@ + frames[from].0,
                    bindings,
                    0,
                ),
                _ => None,
            },
            frame_keys_fault(name, frames, from + 1),
        )
    }
}

/// What is said of a codec that has a key it does not take, itself or in a
/// binding.
pub open spec fn one_codec_keys_fault(name: Seq<char>, codec: JsonView) -> Option<Seq<char>> {
    match codec {
        JsonView::Object(fields) => match unknown_codec_key(fields, 0) {
            Some(key) => Some("codecs."@ + name + ": unknown field `"@ + key + "`"@),
            None => match field(fields, "frames"@) {
                Some(JsonView::Object(frames)) => frame_keys_fault(name, frames, 0),
                _ => None,
            },
        },
        _ => None,
    }
}

/// What is said of the first codec from `from` on that has a key it does not
/// take.
pub open spec fn codec_keys_fault(codecs: Seq<(Seq<char>, JsonView)>, from: int) -> Option<
    Seq<char>,
>
    decreases codecs.len() - from,
{
    if from < 0 || from >= codecs.len() {
        None
    } else {
        first_of_two(
            one_codec_keys_fault(codecs[from].0, codecs[from].1),
            codec_keys_fault(codecs, from + 1),
        )
    }
}

/// What a configuration's codecs are refused with, by their keys alone.
pub open spec fn raw_codecs_fault(raw: JsonView) -> Option<Seq<char>> {
    match member(raw, "codecs"@) {
        Some(JsonView::Object(codecs)) => codec_keys_fault(codecs, 0),
        _ => None,
    }
}

fn codec_key(key: &str) -> (r: bool)
    ensures
        r == is_codec_key(key@),
{
    same_text(key, "queue") || same_text(key, "reply_window_seconds") || same_text(
        key,
        "session_env",
    ) || same_text(key, "asker_env") || same_text(key, "about_env") || same_text(key, "select")
        || same_text(key, "frames")
}

fn binding_key(action: Option<&str>, key: &str, Ghost(said): Ghost<Option<JsonView>>) -> (r: bool)
    requires
        match action {
            Some(word) => said == Some(JsonView::Str(word@)),
            None => !(said is Some && said->0 is Str),
        },
    ensures
        r == is_binding_key(said, key@),
{
    if same_text(key, "when") || same_text(key, "do") {
        return true;
    }
    match action {
        Some(word) => {
            if same_text(word, "answer") {
                same_text(key, "response")
            } else if same_text(word, "refuse") {
                same_text(key, "message")
            } else if same_text(word, "raise") {
                same_text(key, "record") || same_text(key, "response") || same_text(key, "fail")
            } else if same_text(word, "ask") {
                same_text(key, "record") || same_text(key, "blocking") || same_text(
                    key,
                    "response",
                ) || same_text(key, "unanswered")
            } else {
                false
            }
        },
        None => false,
    }
}

fn check_binding_keys(at: &str, bindings: &Vec<Json>) -> (r: Result<(), String>)
    ensures
        match r {
            Ok(()) => binding_keys_fault(at@, items_view(bindings@), 0) is None,
            Err(why) => binding_keys_fault(at@, items_view(bindings@), 0) == Some(why@),
        },
{
    broadcast use group_json_views;

    let ghost all = items_view(bindings@);
    let mut i: usize = 0;
    while i < bindings.len()
        invariant
            i <= bindings@.len(),
            all == items_view(bindings@),
            binding_keys_fault(at@, all, 0) == binding_keys_fault(at@, all, i as int),
        decreases bindings@.len() - i,
    {
        proof {
            assert(all[i as int] == bindings@[i as int]@);
        }
        if let Json::Object(fields) = &bindings[i] {
            let ghost named = fields_view(fields@);
            proof {
                assert(bindings@[i as int] == Json::Object(*fields));
                lemma_object_view(*fields);
            }
            let ghost said = field(named, "do"@);
            let action: Option<&str> = match get_field(fields, "do") {
                Some(word) => word.as_str(),
                None => None,
            };
            let mut j: usize = 0;
            while j < fields.len()
                invariant
                    i < bindings@.len(),
                    j <= fields@.len(),
                    all == items_view(bindings@),
                    named == fields_view(fields@),
                    all[i as int] == JsonView::Object(named),
                    said == field(named, "do"@),
                    match action {
                        Some(word) => said == Some(JsonView::Str(word@)),
                        None => !(said is Some && said->0 is Str),
                    },
                    binding_keys_fault(at@, all, 0) == binding_keys_fault(at@, all, i as int),
                    unknown_binding_key(said, named, 0) == unknown_binding_key(
                        said,
                        named,
                        j as int,
                    ),
                decreases fields@.len() - j,
            {
                let key = fields[j].0.as_str();
                if !binding_key(action, key, Ghost(said)) {
                    let index = decimal_of(i as u64);
                    return Err(
                        cat6(at, ".bindings[", index.as_str(), "]: unknown field `", key, "`"),
                    );
                }
                j += 1;
            }
        }
        i += 1;
    }
    Ok(())
}

fn check_frame_keys(name: &str, frames: &Vec<(String, Json)>) -> (r: Result<(), String>)
    ensures
        match r {
            Ok(()) => frame_keys_fault(name@, fields_view(frames@), 0) is None,
            Err(why) => frame_keys_fault(name@, fields_view(frames@), 0) == Some(why@),
        },
{
    broadcast use group_json_views;

    let ghost all = fields_view(frames@);
    let mut i: usize = 0;
    while i < frames.len()
        invariant
            i <= frames@.len(),
            all == fields_view(frames@),
            frame_keys_fault(name@, all, 0) == frame_keys_fault(name@, all, i as int),
        decreases frames@.len() - i,
    {
        let at = cat4("codecs.", name, ".frames.", frames[i].0.as_str());
        let kept = frames[i].1.get("bindings");
        proof {
            assert(all[i as int] == (frames@[i as int].0@, frames@[i as int].1@));
        }
        if let Some(Json::Array(bindings)) = kept {
            proof {
                assert(*kept->0 == Json::Array(*bindings));
                lemma_array_view(*bindings);
            }
            if let Err(why) = check_binding_keys(at.as_str(), bindings) {
                return Err(why);
            }
        }
        i += 1;
    }
    Ok(())
}

fn check_codec_keys(name: &str, codec: &Json) -> (r: Result<(), String>)
    ensures
        match r {
            Ok(()) => one_codec_keys_fault(name@, codec@) is None,
            Err(why) => one_codec_keys_fault(name@, codec@) == Some(why@),
        },
{
    broadcast use group_json_views;

    match codec {
        Json::Object(fields) => {
            let ghost all = fields_view(fields@);
            let mut i: usize = 0;
            while i < fields.len()
                invariant
                    i <= fields@.len(),
                    all == fields_view(fields@),
                    codec@ == JsonView::Object(all),
                    unknown_codec_key(all, 0) == unknown_codec_key(all, i as int),
                decreases fields@.len() - i,
            {
                let key = fields[i].0.as_str();
                if !codec_key(key) {
                    return Err(cat5("codecs.", name, ": unknown field `", key, "`"));
                }
                i += 1;
            }
            match get_field(fields, "frames") {
                Some(Json::Object(frames)) => check_frame_keys(name, frames),
                _ => Ok(()),
            }
        },
        _ => Ok(()),
    }
}

/// Refuses a codec's or a binding's unknown key, naming where it is.
pub fn validate_codec_keys(raw: &Json) -> (r: Result<(), String>)
    ensures
        match r {
            Ok(()) => raw_codecs_fault(raw@) is None,
            Err(why) => raw_codecs_fault(raw@) == Some(why@),
        },
{
    broadcast use group_json_views;

    match raw.get("codecs") {
        Some(Json::Object(codecs)) => {
            let ghost all = fields_view(codecs@);
            let mut i: usize = 0;
            while i < codecs.len()
                invariant
                    i <= codecs@.len(),
                    all == fields_view(codecs@),
                    raw_codecs_fault(raw@) == codec_keys_fault(all, 0),
                    codec_keys_fault(all, 0) == codec_keys_fault(all, i as int),
                decreases codecs@.len() - i,
            {
                if let Err(why) = check_codec_keys(codecs[i].0.as_str(), &codecs[i].1) {
                    return Err(why);
                }
                i += 1;
            }
            Ok(())
        },
        _ => Ok(()),
    }
}

// ---------------------------------------------------------------------------
// The names of authors.
// ---------------------------------------------------------------------------

/// Whether an author may go by a name: a lowercase letter, then at most 63
/// lowercase letters, digits and `-`.
pub open spec fn is_author_name(name: Seq<char>) -> bool {
    &&& 0 < name.len() <= 64
    &&& is_lower(name[0])
    &&& forall|i: int| 0 <= i < name.len() ==> is_codec_char(#[trigger] name[i])
}

/// What is said of the first author from `from` on that may not go by its name.
pub open spec fn author_names_fault(authors: Seq<(Seq<char>, JsonView)>, from: int) -> Option<
    Seq<char>,
>
    decreases authors.len() - from,
{
    if from < 0 || from >= authors.len() {
        None
    } else if !is_author_name(authors[from].0) {
        Some(
            "authors."@ + authors[from].0
                + ": an author name must match ^[a-z][a-z0-9-]{0,63}$"@,
        )
    } else {
        author_names_fault(authors, from + 1)
    }
}

/// What a configuration's authors are refused with, by their names alone.
pub open spec fn raw_authors_fault(raw: JsonView) -> Option<Seq<char>> {
    match member(raw, "authors"@) {
        Some(JsonView::Object(authors)) => author_names_fault(authors, 0),
        _ => None,
    }
}

fn author_name(name: &str) -> (r: bool)
    ensures
        r == is_author_name(name@),
{
    let chars = chars_of(name);
    if chars.len() == 0 || chars.len() > 64 || !('a' <= chars[0] && chars[0] <= 'z') {
        return false;
    }
    let mut i: usize = 0;
    while i < chars.len()
        invariant
            i <= chars@.len(),
            chars@ == name@,
            forall|k: int| 0 <= k < i ==> is_codec_char(#[trigger] name@[k]),
        decreases chars@.len() - i,
    {
        let c = chars[i];
        if !(('a' <= c && c <= 'z') || ('0' <= c && c <= '9') || c == '-') {
            proof {
                assert(!is_codec_char(name@[i as int]));
            }
            return false;
        }
        i += 1;
    }
    true
}

/// Refuses an author's name that is not one, naming it.
pub fn validate_author_names(raw: &Json) -> (r: Result<(), String>)
    ensures
        match r {
            Ok(()) => raw_authors_fault(raw@) is None,
            Err(why) => raw_authors_fault(raw@) == Some(why@),
        },
{
    broadcast use group_json_views;

    match raw.get("authors") {
        Some(Json::Object(authors)) => {
            let ghost all = fields_view(authors@);
            let mut i: usize = 0;
            while i < authors.len()
                invariant
                    i <= authors@.len(),
                    all == fields_view(authors@),
                    raw_authors_fault(raw@) == author_names_fault(all, 0),
                    author_names_fault(all, 0) == author_names_fault(all, i as int),
                decreases authors@.len() - i,
            {
                let name = authors[i].0.as_str();
                if !author_name(name) {
                    return Err(
                        cat3(
                            "authors.",
                            name,
                            ": an author name must match ^[a-z][a-z0-9-]{0,63}$",
                        ),
                    );
                }
                i += 1;
            }
            Ok(())
        },
        _ => Ok(()),
    }
}

// ---------------------------------------------------------------------------
// A configuration.
// ---------------------------------------------------------------------------

/// What is said of the first validator from `from` on that is refused.
pub open spec fn validators_fault(validators: Seq<ValidatorConfig>, from: int) -> Option<Seq<char>>
    decreases validators.len() - from,
{
    if from < 0 || from >= validators.len() {
        None
    } else {
        first_of_two(
            validator_fault(validators[from], from as nat),
            validators_fault(validators, from + 1),
        )
    }
}

/// What is said of the first codec from `from` on that is refused.
pub open spec fn codecs_fault(codecs: Seq<(Seq<char>, NamedCodec)>, from: int) -> Option<Seq<char>>
    decreases codecs.len() - from,
{
    if from < 0 || from >= codecs.len() {
        None
    } else {
        first_of_two(
            codec_fault(codecs[from].1.name@, codecs[from].1.config),
            codecs_fault(codecs, from + 1),
        )
    }
}

/// What a configuration's text is refused with, by what its keys are alone.
pub open spec fn keys_fault(text: Seq<char>) -> Option<Seq<char>> {
    if parsed_yaml(text) is Err {
        Some(parsed_yaml(text)->Err_0)
    } else {
        raw_keys_fault(parsed_yaml(text)->Ok_0)
    }
}

/// What a configuration's keys are refused with: its codecs' first, then its
/// authors'.
pub open spec fn raw_keys_fault(raw: JsonView) -> Option<Seq<char>> {
    first_of_two(raw_codecs_fault(raw), raw_authors_fault(raw))
}

/// Refuses the keys of a configuration that its types do not have.
pub fn check_raw_keys(raw: &Json) -> (r: Result<(), ConfigError>)
    ensures
        match r {
            Ok(()) => raw_keys_fault(raw@) is None,
            Err(e) => raw_keys_fault(raw@) is Some && not_a_configuration(
                e,
                raw_keys_fault(raw@)->0,
            ),
        },
{
    if let Err(why) = validate_codec_keys(raw) {
        return Err(parse_refused(why));
    }
    if let Err(why) = validate_author_names(raw) {
        return Err(parse_refused(why));
    }
    Ok(())
}

/// Refuses text that is no YAML, or holds keys a configuration does not have.
pub fn check_keys(text: &str) -> (r: Result<(), ConfigError>)
    ensures
        match r {
            Ok(()) => keys_fault(text@) is None,
            Err(e) => keys_fault(text@) is Some && not_a_configuration(e, keys_fault(text@)->0),
        },
{
    match yaml_value(text) {
        Ok(value) => {
            let raw = json_from_value(value);
            check_raw_keys(&raw)
        },
        Err(why) => Err(parse_refused(why)),
    }
}

impl Config {
    /// A configuration naming only a local transport over `dir` and a layout.
    pub fn local(dir: &str, profile: Option<&str>) -> (r: Self)
        ensures
            r.version == CONFIG_VERSION,
            r.transport.kind@ == LOCAL@,
            r.transport.dir is Some,
            r.transport.dir->0@ == dir@,
            r.transport.options@.len() == 0,
            match profile {
                Some(name) => r.profile is Some && r.profile->0@ == name@,
                None => r.profile is None,
            },
            r.queues@.len() == 0,
            r.authors@.len() == 0,
            r.validators@.len() == 0,
            r.codecs@.len() == 0,
            r.schemas@.len() == 0,
    {
        Config {
            version: CONFIG_VERSION,
            transport: TransportConfig::local(dir),
            profile: match profile {
                Some(name) => Some(name.to_owned()),
                None => None,
            },
            queues: Table::new(),
            authors: Table::new(),
            validators: Vec::new(),
            codecs: Table::new(),
            schemas: Vec::new(),
        }
    }

    /// The same configuration with its transport keeping its queues in `dir`.
    pub fn with_transport_dir(self, dir: &str) -> (r: Self)
        ensures
            r.transport.dir is Some,
            r.transport.dir->0@ == dir@,
            r.transport.kind == self.transport.kind,
            r.transport.options == self.transport.options,
            r.version == self.version,
            r.profile == self.profile,
            r.queues == self.queues,
            r.authors == self.authors,
            r.validators == self.validators,
            r.codecs == self.codecs,
            r.schemas == self.schemas,
    {
        let mut config = self;
        config.transport.dir = Some(dir.to_owned());
        config
    }

    /// The configuration, checked: its version, then its validators, then its
    /// codecs.
    pub fn checked(self) -> (r: Result<Self, ConfigError>)
        ensures
            match r {
                Ok(config) => config == self && self.version == CONFIG_VERSION
                    && validators_fault(self.validators@, 0) is None && codecs_fault(
                    self.codecs@,
                    0,
                ) is None,
                Err(e) => if self.version != CONFIG_VERSION {
                    e == (ConfigError::Version { found: self.version })
                } else {
                    match first_of_two(
                        validators_fault(self.validators@, 0),
                        codecs_fault(self.codecs@, 0),
                    ) {
                        Some(why) => not_a_configuration(e, why),
                        None => false,
                    }
                },
            },
    {
        if self.version != CONFIG_VERSION {
            return Err(ConfigError::Version { found: self.version });
        }
        let mut i: usize = 0;
        while i < self.validators.len()
            invariant
                i <= self.validators@.len(),
                self.version == CONFIG_VERSION,
                validators_fault(self.validators@, 0) == validators_fault(
                    self.validators@,
                    i as int,
                ),
            decreases self.validators@.len() - i,
        {
            if let Err(why) = self.validators[i].build(i) {
                return Err(parse_refused(why));
            }
            i += 1;
        }
        let mut i: usize = 0;
        while i < self.codecs.len()
            invariant
                i <= self.codecs@.len(),
                self.version == CONFIG_VERSION,
                validators_fault(self.validators@, 0) is None,
                codecs_fault(self.codecs@, 0) == codecs_fault(self.codecs@, i as int),
            decreases self.codecs@.len() - i,
        {
            let codec = self.codecs.value_at(i);
            if let Err(why) = validate_codec(&codec.name, &codec.config) {
                return Err(parse_refused(why));
            }
            i += 1;
        }
        Ok(self)
    }
}

/// Whether `r` is what a configuration's text comes to, given what it reads as:
/// its keys are checked first, and what it reads as is checked last.
pub open spec fn parses(text: Seq<char>, read: Result<Config, String>, r: Result<Config, ConfigError>) -> bool {
    if keys_fault(text) is Some {
        r is Err && not_a_configuration(r->Err_0, keys_fault(text)->0)
    } else {
        match read {
            Err(why) => r is Err && not_a_configuration(r->Err_0, why@),
            Ok(config) => checks_as(config, r),
        }
    }
}

/// Whether `r` is what checking a configuration comes to.
pub open spec fn checks_as(config: Config, r: Result<Config, ConfigError>) -> bool {
    if config.version != CONFIG_VERSION {
        r == Err::<Config, ConfigError>(ConfigError::Version { found: config.version })
    } else {
        match first_of_two(
            validators_fault(config.validators@, 0),
            codecs_fault(config.codecs@, 0),
        ) {
            Some(why) => r is Err && not_a_configuration(r->Err_0, why),
            None => r == Ok::<Config, ConfigError>(config),
        }
    }
}

/// Links, each relative bare path resolved against a directory.
pub open spec fn rebased_links(links: Seq<SchemaLink>, dir: Seq<char>) -> Seq<LinkView> {
    Seq::new(links.len(), |i: int| rebased_link(links[i]@, dir))
}

/// What links are.
pub open spec fn links_view(links: Seq<SchemaLink>) -> Seq<LinkView> {
    Seq::new(links.len(), |i: int| links[i]@)
}

impl Config {
    /// Checks a configuration's text, given what it reads as.
    pub fn parse(text: &str, read: Result<Config, String>) -> (r: Result<Self, ConfigError>)
        ensures
            parses(text@, read, r),
    {
        if let Err(e) = check_keys(text) {
            return Err(e);
        }
        match read {
            Ok(config) => config.checked(),
            Err(why) => Err(parse_refused(why)),
        }
    }

    /// Checks the configuration at `path`, within `dir`, given its text and what that
    /// reads as: each relative bare path it links is one beside the file.
    pub fn load(
        path: &str,
        dir: &str,
        text: Result<String, String>,
        read: Result<Config, String>,
    ) -> (r: Result<Self, ConfigError>)
        ensures
            match text {
                Err(failure) => match r {
                    Err(ConfigError::Read { path: at, source }) => at@ == path@ && source == failure,
                    _ => false,
                },
                Ok(text) => exists|parsed: Result<Config, ConfigError>| #[trigger]
                    parses(text@, read, parsed) && match parsed {
                        Ok(config) => match r {
                            Ok(loaded) => {
                                &&& links_view(loaded.schemas@) == rebased_links(
                                    config.schemas@,
                                    dir@,
                                )
                                &&& loaded == (Config { schemas: loaded.schemas, ..config })
                            },
                            Err(_) => false,
                        },
                        Err(ConfigError::Parse { path: _, why }) => match r {
                            Err(ConfigError::Parse { path: at, why: said }) => at@ == path@ && said
                                == why,
                            _ => false,
                        },
                        Err(e) => r == Err::<Config, ConfigError>(e),
                    },
            },
    {
        let text = match text {
            Ok(text) => text,
            Err(source) => return Err(ConfigError::Read { path: path.to_owned(), source }),
        };
        let parsed = Config::parse(text.as_str(), read);
        let ghost outcome = parsed;
        proof {
            assert(parses(text@, read, outcome));
        }
        let mut config = match parsed {
            Ok(config) => config,
            Err(e) => return Err(e.at_path(path)),
        };
        let ghost all = config.schemas@;
        let mut rest: Vec<SchemaLink> = Vec::new();
        core::mem::swap(&mut rest, &mut config.schemas);
        let count: usize = rest.len();
        let mut moved: Vec<SchemaLink> = Vec::new();
        let mut i: usize = 0;
        proof {
            assert(all.skip(0) =~= all);
        }
        while rest.len() > 0
            invariant
                i + rest@.len() == count == all.len(),
                rest@ =~= all.skip(i as int),
                links_view(moved@) =~= rebased_links(all, dir@).take(i as int),
            decreases rest@.len(),
        {
            proof {
                assert(rest@[0] == all[i as int]);
            }
            let ghost before = links_view(moved@);
            let link = rest.remove(0).rebased(dir);
            let ghost one = link@;
            moved.push(link);
            proof {
                assert(links_view(moved@) =~= before.push(one));
                assert(rebased_links(all, dir@)[i as int] == one);
            }
            i += 1;
        }
        proof {
            assert(links_view(moved@) =~= rebased_links(all, dir@));
        }
        config.schemas = moved;
        Ok(config)
    }
}

} // verus!
