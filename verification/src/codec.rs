//! Codecs: one frame in, one response out, by bindings a configuration
//! declares.

use crate::ask::Raised;
use crate::bus::Asked;
use crate::correlation::{ABOUT, Address, Answer};
use crate::json::{
    Json, JsonView, copied_fields, field, fields_view, get_field, group_json_views, parsed_json,
    reads_as, same, set_field, settled, with_field,
};
use crate::mapping::{
    mappings_fault, resolve_ask, resolved, ruling, ruling_of, string_fault, strings_fault,
    validate_mappings, visit_string, visit_strings,
};
use crate::names::{QueueName, alphanumeric, is_alphanumeric};
use crate::queue_reads::Asker;
use crate::schema::{
    CheckError, Registry, SchemaId, SchemaIdView, held, id_text, schema_admits, schema_violation,
    unknown_words, violation_text,
};
use crate::table::{Table, lemma_lookup_has, lookup, names_of};
use crate::template::{
    dotted, is_dotted, path, render, render_string, rendered, rendered_text, valid_path,
};
use crate::text::{
    blank, byte_len, cat2, cat3, cat4, cat5, cat6, chars_of, decimal, decimal_of, is_blank,
    is_digit, is_lower, join, joined, quoted, quoted_of, trim, trimmed,
};
use vstd::prelude::*;
use vstd::utf8::encode_utf8;

verus! {

/// How long a question waits for its ruling where nothing says: in seconds.
pub const DEFAULT_REPLY_WINDOW_SECONDS: u64 = 30;

/// The longest codec name accepted, in bytes.
pub const CODEC_NAME_LIMIT: usize = 64;

/// The longest variable name accepted, in bytes.
pub const ENV_NAME_LIMIT: usize = 128;

// ---------------------------------------------------------------------------
// Names.
// ---------------------------------------------------------------------------

/// Why text is not a name.
#[derive(Debug, PartialEq, Eq)]
pub struct NameRefused {
    /// What was offered.
    pub text: String,
    /// What it was to be.
    pub what: String,
    /// What is wrong with it.
    pub why: String,
}

impl NameRefused {
    /// The refusal in words.
    pub fn message(&self) -> (r: String)
        ensures
            r@ == quoted(self.text@) + " is not "@ + self.what@ + ": "@ + self.why@,
    {
        let text = quoted_of(self.text.as_str());
        cat5(text.as_str(), " is not ", self.what.as_str(), ": ", self.why.as_str())
    }
}

/// Whether a codec's name may hold `c`.
pub open spec fn is_codec_char(c: char) -> bool {
    is_lower(c) || is_digit(c) || c == '-'
}

/// Whether a variable's name may hold `c`.
pub open spec fn is_env_char(c: char) -> bool {
    is_alphanumeric(c) || c == '_'
}

/// What is wrong with text as a codec's name.
pub open spec fn codec_name_fault(text: Seq<char>) -> Option<Seq<char>> {
    if text.len() == 0 {
        Some("it is empty"@)
    } else if encode_utf8(text).len() > CODEC_NAME_LIMIT {
        Some("it is longer than a codec name can be"@)
    } else if !is_lower(text[0]) {
        Some("it does not start with a lowercase letter"@)
    } else if exists|i: int| 0 <= i < text.len() && !is_codec_char(#[trigger] text[i]) {
        Some("it carries something other than lowercase letters, digits and `-`"@)
    } else {
        None
    }
}

/// What is wrong with text as a variable's name.
pub open spec fn env_name_fault(text: Seq<char>) -> Option<Seq<char>> {
    if text.len() == 0 {
        Some("it is empty"@)
    } else if encode_utf8(text).len() > ENV_NAME_LIMIT {
        Some("it is longer than a variable name can be"@)
    } else if is_digit(text[0]) {
        Some("it starts with a digit"@)
    } else if exists|i: int| 0 <= i < text.len() && !is_env_char(#[trigger] text[i]) {
        Some("it carries something other than ASCII letters, digits and `_`"@)
    } else {
        None
    }
}

/// A codec's name.
#[derive(Debug, PartialEq, Eq, Hash, PartialOrd, Ord)]
pub struct CodecName {
    text: String,
}

/// The name of an environment variable.
#[derive(Debug, PartialEq, Eq, Hash, PartialOrd, Ord)]
pub struct EnvName {
    text: String,
}

impl View for CodecName {
    type V = Seq<char>;

    closed spec fn view(&self) -> Seq<char> {
        self.text@
    }
}

impl View for EnvName {
    type V = Seq<char>;

    closed spec fn view(&self) -> Seq<char> {
        self.text@
    }
}

impl CodecName {
    #[verifier::type_invariant]
    closed spec fn well_formed(&self) -> bool {
        codec_name_fault(self.text@) is None
    }

    /// The name as text.
    pub fn as_str(&self) -> (r: &str)
        ensures
            r@ == self@,
            codec_name_fault(r@) is None,
    {
        proof {
            use_type_invariant(self);
        }
        self.text.as_str()
    }

    /// `text` as a codec's name.
    pub fn from_str(text: &str) -> (r: Result<Self, NameRefused>)
        ensures
            match r {
                Ok(name) => codec_name_fault(text@) is None && name@ == text@,
                Err(e) => e.text@ == text@ && e.what@ == "a codec name"@ && codec_name_fault(text@)
                    == Some(e.why@),
            },
    {
        let chars = chars_of(text);
        let why = if chars.len() == 0 {
            "it is empty"
        } else if byte_len(text) > CODEC_NAME_LIMIT {
            "it is longer than a codec name can be"
        } else if !('a' <= chars[0] && chars[0] <= 'z') {
            "it does not start with a lowercase letter"
        } else {
            let mut i: usize = 0;
            while i < chars.len()
                invariant
                    i <= chars@.len(),
                    chars@ == text@,
                    forall|k: int| 0 <= k < i ==> is_codec_char(#[trigger] text@[k]),
                    text@.len() > 0,
                    encode_utf8(text@).len() <= CODEC_NAME_LIMIT,
                    is_lower(text@[0]),
                decreases chars@.len() - i,
            {
                let c = chars[i];
                if !(('a' <= c && c <= 'z') || ('0' <= c && c <= '9') || c == '-') {
                    proof {
                        assert(!is_codec_char(text@[i as int]));
                    }
                    return Err(
                        NameRefused {
                            text: text.to_owned(),
                            what: "a codec name".to_owned(),
                            why: "it carries something other than lowercase letters, digits and `-`".to_owned(),
                        },
                    );
                }
                i += 1;
            }
            return Ok(CodecName { text: text.to_owned() });
        };
        Err(
            NameRefused {
                text: text.to_owned(),
                what: "a codec name".to_owned(),
                why: why.to_owned(),
            },
        )
    }
}

impl EnvName {
    #[verifier::type_invariant]
    closed spec fn well_formed(&self) -> bool {
        env_name_fault(self.text@) is None
    }

    /// The name as text.
    pub fn as_str(&self) -> (r: &str)
        ensures
            r@ == self@,
            env_name_fault(r@) is None,
    {
        proof {
            use_type_invariant(self);
        }
        self.text.as_str()
    }

    /// `text` as a variable's name.
    pub fn from_str(text: &str) -> (r: Result<Self, NameRefused>)
        ensures
            match r {
                Ok(name) => env_name_fault(text@) is None && name@ == text@,
                Err(e) => e.text@ == text@ && e.what@ == "an environment variable name"@
                    && env_name_fault(text@) == Some(e.why@),
            },
    {
        let chars = chars_of(text);
        let why = if chars.len() == 0 {
            "it is empty"
        } else if byte_len(text) > ENV_NAME_LIMIT {
            "it is longer than a variable name can be"
        } else if '0' <= chars[0] && chars[0] <= '9' {
            "it starts with a digit"
        } else {
            let mut i: usize = 0;
            while i < chars.len()
                invariant
                    i <= chars@.len(),
                    chars@ == text@,
                    forall|k: int| 0 <= k < i ==> is_env_char(#[trigger] text@[k]),
                    text@.len() > 0,
                    encode_utf8(text@).len() <= ENV_NAME_LIMIT,
                    !is_digit(text@[0]),
                decreases chars@.len() - i,
            {
                let c = chars[i];
                if !(alphanumeric(c) || c == '_') {
                    proof {
                        assert(!is_env_char(text@[i as int]));
                    }
                    return Err(
                        NameRefused {
                            text: text.to_owned(),
                            what: "an environment variable name".to_owned(),
                            why: "it carries something other than ASCII letters, digits and `_`".to_owned(),
                        },
                    );
                }
                i += 1;
            }
            return Ok(EnvName { text: text.to_owned() });
        };
        Err(
            NameRefused {
                text: text.to_owned(),
                what: "an environment variable name".to_owned(),
                why: why.to_owned(),
            },
        )
    }
}

// ---------------------------------------------------------------------------
// What a codec is configured with.
// ---------------------------------------------------------------------------

/// What one codec is configured with.
#[derive(Debug)]
pub struct CodecConfig {
    /// The queue it raises and asks on.
    pub queue: Option<QueueName>,
    /// How long each question waits for its ruling.
    pub reply_window_seconds: Option<u64>,
    /// The variable naming the session's bound.
    pub session_env: Option<EnvName>,
    /// The variable naming the asker.
    pub asker_env: Option<EnvName>,
    /// The variable naming what is asked about.
    pub about_env: Option<EnvName>,
    /// The path of the word that selects an entry of `frames`.
    pub select: String,
    /// The entries, by that word.
    pub frames: Table<FrameConfig>,
}

/// One kind of frame, and how each is answered.
#[derive(Debug)]
pub struct FrameConfig {
    /// The schema a frame of this kind is checked against.
    pub schema: SchemaId,
    /// How it is answered: the first binding that holds.
    pub bindings: Vec<Binding>,
}

/// One way a frame is answered.
#[derive(Debug)]
pub struct Binding {
    /// When it holds; always, where absent.
    pub when: Option<FieldEquals>,
    /// What it does.
    pub action: BindingAction,
}

/// A field of the frame and the scalar it must equal.
#[derive(Debug)]
pub struct FieldEquals {
    /// The path of the field.
    pub field: String,
    /// What it must equal.
    pub equals: Json,
}

/// What a binding does.
#[derive(Debug)]
pub enum BindingAction {
    /// Respond.
    Answer {
        /// The response.
        response: Json,
    },
    /// Refuse the frame.
    Refuse {
        /// Why.
        message: String,
    },
    /// Raise a record, and respond or fail.
    Raise {
        /// The record.
        record: Json,
        /// The response.
        response: Option<Json>,
        /// The failure.
        fail: Option<String>,
    },
    /// Ask a question, and respond by its answer.
    Ask {
        /// The question.
        record: Json,
        /// Whether it blocks.
        blocking: bool,
        /// The response an answer makes.
        response: Json,
        /// The response without one.
        unanswered: Json,
    },
}

/// What is wrong, where it is.
pub open spec fn told_at(at: Seq<char>, fault: Option<Seq<char>>) -> Option<Seq<char>> {
    match fault {
        Some(why) => Some(at + ": "@ + why),
        None => None,
    }
}

/// The first of two things wrong.
pub open spec fn first_of_two(a: Option<Seq<char>>, b: Option<Seq<char>>) -> Option<Seq<char>> {
    if a is Some {
        a
    } else {
        b
    }
}

/// What is wrong with what a binding at `at` does.
pub open spec fn action_fault(at: Seq<char>, action: BindingAction) -> Option<Seq<char>> {
    match action {
        BindingAction::Answer { response } => told_at(at, strings_fault(response@, false)),
        BindingAction::Refuse { message } => told_at(at, string_fault(message@, false)),
        BindingAction::Raise { record, response, fail } => first_of_two(
            told_at(at, strings_fault(record@, false)),
            match (response, fail) {
                (Some(response), None) => told_at(at, strings_fault(response@, false)),
                (None, Some(fail)) => told_at(at, string_fault(fail@, false)),
                _ => Some(at + ": raise takes exactly one of `response` and `fail`"@),
            },
        ),
        BindingAction::Ask { record, blocking, response, unanswered } => first_of_two(
            told_at(at, strings_fault(record@, false)),
            first_of_two(
                told_at(at, strings_fault(response@, true)),
                first_of_two(
                    told_at(at, strings_fault(unanswered@, false)),
                    told_at(at + ".response"@, mappings_fault(response@)),
                ),
            ),
        ),
    }
}

/// What is wrong with a binding at `at`.
pub open spec fn binding_fault(at: Seq<char>, binding: Binding) -> Option<Seq<char>> {
    match binding.when {
        Some(condition) => if !is_dotted(condition.field@) {
            Some(at + ".when.field is not a dot-separated object path"@)
        } else if condition.equals@ is Array || condition.equals@ is Object {
            Some(at + ".when.equals is not a JSON scalar"@)
        } else {
            action_fault(at, binding.action)
        },
        None => action_fault(at, binding.action),
    }
}

/// What is wrong with the first of several bindings, from `from` on, at `at`.
pub open spec fn bindings_fault(at: Seq<char>, bindings: Seq<Binding>, from: int) -> Option<
    Seq<char>,
>
    decreases bindings.len() - from,
{
    if from < 0 || from >= bindings.len() {
        None
    } else {
        first_of_two(
            binding_fault(at + ".bindings["@ + decimal(from as nat) + "]"@, bindings[from]),
            bindings_fault(at, bindings, from + 1),
        )
    }
}

/// What is wrong with the first of several entries, from `from` on.
pub open spec fn frames_fault(
    name: Seq<char>,
    frames: Seq<(Seq<char>, FrameConfig)>,
    from: int,
) -> Option<Seq<char>>
    decreases frames.len() - from,
{
    if from < 0 || from >= frames.len() {
        None
    } else {
        let at = "codecs."@ + name + ".frames."@ + frames[from].0;
        if frames[from].1.bindings@.len() == 0 {
            Some(at + ".bindings is empty"@)
        } else {
            first_of_two(
                bindings_fault(at, frames[from].1.bindings@, 0),
                frames_fault(name, frames, from + 1),
            )
        }
    }
}

/// What is wrong with what a codec is configured with.
pub open spec fn codec_fault(name: Seq<char>, config: CodecConfig) -> Option<Seq<char>> {
    if !is_dotted(config.select@) {
        Some("codecs."@ + name + ".select is not a dot-separated object path"@)
    } else if config.frames@.len() == 0 {
        Some("codecs."@ + name + ".frames is empty"@)
    } else {
        frames_fault(name, config.frames@, 0)
    }
}

fn tell(at: &str, checked: Result<(), String>) -> (r: Result<(), String>)
    ensures
        match checked {
            Ok(()) => r is Ok,
            Err(why) => r is Err && r->Err_0@ == at@ + ": "@ + why@,
        },
{
    match checked {
        Ok(()) => Ok(()),
        Err(why) => Err(cat3(at, ": ", why.as_str())),
    }
}

fn check_action(at: &str, action: &BindingAction) -> (r: Result<(), String>)
    ensures
        match r {
            Ok(()) => action_fault(at@, *action) is None,
            Err(why) => action_fault(at@, *action) == Some(why@),
        },
{
    match action {
        BindingAction::Answer { response } => tell(at, visit_strings(response, false)),
        BindingAction::Refuse { message } => tell(at, visit_string(message.as_str(), false)),
        BindingAction::Raise { record, response, fail } => {
            if let Err(why) = tell(at, visit_strings(record, false)) {
                return Err(why);
            }
            match (response, fail) {
                (Some(response), None) => tell(at, visit_strings(response, false)),
                (None, Some(fail)) => tell(at, visit_string(fail.as_str(), false)),
                _ => Err(cat2(at, ": raise takes exactly one of `response` and `fail`")),
            }
        },
        BindingAction::Ask { record, blocking: _, response, unanswered } => {
            if let Err(why) = tell(at, visit_strings(record, false)) {
                return Err(why);
            }
            if let Err(why) = tell(at, visit_strings(response, true)) {
                return Err(why);
            }
            if let Err(why) = tell(at, visit_strings(unanswered, false)) {
                return Err(why);
            }
            let within = cat2(at, ".response");
            tell(within.as_str(), validate_mappings(response))
        },
    }
}

fn check_binding(at: &str, binding: &Binding) -> (r: Result<(), String>)
    ensures
        match r {
            Ok(()) => binding_fault(at@, *binding) is None,
            Err(why) => binding_fault(at@, *binding) == Some(why@),
        },
{
    if let Some(condition) = &binding.when {
        if !valid_path(condition.field.as_str()) {
            return Err(cat2(at, ".when.field is not a dot-separated object path"));
        }
        let scalar = match &condition.equals {
            Json::Array(_) => false,
            Json::Object(_) => false,
            _ => true,
        };
        if !scalar {
            return Err(cat2(at, ".when.equals is not a JSON scalar"));
        }
    }
    check_action(at, &binding.action)
}

fn check_bindings(at: &str, bindings: &Vec<Binding>) -> (r: Result<(), String>)
    ensures
        match r {
            Ok(()) => bindings_fault(at@, bindings@, 0) is None,
            Err(why) => bindings_fault(at@, bindings@, 0) == Some(why@),
        },
{
    let mut i: usize = 0;
    while i < bindings.len()
        invariant
            i <= bindings@.len(),
            bindings_fault(at@, bindings@, 0) == bindings_fault(at@, bindings@, i as int),
        decreases bindings@.len() - i,
    {
        let index = decimal_of(i as u64);
        let here = cat4(at, ".bindings[", index.as_str(), "]");
        if let Err(why) = check_binding(here.as_str(), &bindings[i]) {
            return Err(why);
        }
        i += 1;
    }
    Ok(())
}

/// Refuses what a codec may not be configured with, naming where.
pub fn validate_codec(name: &CodecName, config: &CodecConfig) -> (r: Result<(), String>)
    ensures
        match r {
            Ok(()) => codec_fault(name@, *config) is None,
            Err(why) => codec_fault(name@, *config) == Some(why@),
        },
{
    if !valid_path(config.select.as_str()) {
        return Err(
            cat3("codecs.", name.as_str(), ".select is not a dot-separated object path"),
        );
    }
    if config.frames.len() == 0 {
        return Err(cat3("codecs.", name.as_str(), ".frames is empty"));
    }
    let mut i: usize = 0;
    while i < config.frames.len()
        invariant
            i <= config.frames@.len(),
            frames_fault(name@, config.frames@, 0) == frames_fault(
                name@,
                config.frames@,
                i as int,
            ),
            is_dotted(config.select@),
            config.frames@.len() > 0,
        decreases config.frames@.len() - i,
    {
        let at = cat4("codecs.", name.as_str(), ".frames.", config.frames.name_at(i));
        let frame = config.frames.value_at(i);
        if frame.bindings.len() == 0 {
            return Err(cat2(at.as_str(), ".bindings is empty"));
        }
        if let Err(why) = check_bindings(at.as_str(), &frame.bindings) {
            return Err(why);
        }
        i += 1;
    }
    Ok(())
}

// ---------------------------------------------------------------------------
// Answering a frame.
// ---------------------------------------------------------------------------

/// Why a codec answered a frame with no response.
#[derive(Debug, PartialEq, Eq)]
pub enum CodecFailure {
    /// The frame is one this codec does not serve, or is malformed.
    Refused(String),
    /// The member failed.
    Failed(String),
}

/// What answering a frame opens with.
#[derive(Debug)]
pub enum Opening {
    /// This response, and nothing else.
    Respond(Json),
    /// This record is raised, then the binding's response or failure follows.
    Raise(Json),
    /// This question is asked, then its answer decides.
    Ask {
        /// The question.
        record: Json,
        /// Whether it blocks.
        blocking: bool,
    },
}

/// A codec a configuration declares, held to what its keys may say.
#[derive(Debug)]
pub struct ConfiguredCodec {
    name: CodecName,
    config: CodecConfig,
}

/// Whether a binding holds for a frame.
pub open spec fn binding_holds(binding: Binding, frame: JsonView) -> bool {
    match binding.when {
        None => true,
        Some(condition) => match dotted(frame, condition.field@) {
            Some(value) => same(value, condition.equals@),
            None => false,
        },
    }
}

/// The word a frame selects its entry by.
pub open spec fn selected_word(config: CodecConfig, frame: JsonView) -> Option<Seq<char>> {
    match dotted(frame, config.select@) {
        Some(JsonView::Str(word)) => Some(word),
        _ => None,
    }
}

/// Whether `failure` is a frame refused for `why`.
pub open spec fn refuses(failure: CodecFailure, why: Seq<char>) -> bool {
    match failure {
        CodecFailure::Refused(given) => given@ == why,
        CodecFailure::Failed(_) => false,
    }
}

/// Whether `failure` is a member failed for `why`.
pub open spec fn fails(failure: CodecFailure, why: Seq<char>) -> bool {
    match failure {
        CodecFailure::Failed(given) => given@ == why,
        CodecFailure::Refused(_) => false,
    }
}

/// Whether a frame's schema admits it.
pub open spec fn frame_conforms(
    registry: Seq<(SchemaIdView, JsonView)>,
    id: SchemaIdView,
    frame: JsonView,
) -> bool {
    held(registry, id) is Some && schema_admits(settled(held(registry, id)->0), settled(frame))
}

/// Why a frame does not conform to a registered schema, in words.
pub open spec fn check_words(
    registry: Seq<(SchemaIdView, JsonView)>,
    id: SchemaIdView,
    frame: JsonView,
) -> Seq<char> {
    match held(registry, id) {
        Some(document) => violation_text(
            id,
            schema_violation(settled(document), settled(frame))->0,
        ),
        None => unknown_words(registry, id),
    }
}

/// Why no binding of a codec answers a frame.
pub open spec fn selection_refused(
    config: CodecConfig,
    registry: Seq<(SchemaIdView, JsonView)>,
    frame: JsonView,
    failure: CodecFailure,
) -> bool {
    let listed = joined(names_of(config.frames@), ", "@);
    match selected_word(config, frame) {
        None => refuses(
            failure,
            "the frame's `"@ + config.select@
                + "` is absent or not a string; declared entries: "@ + listed,
        ),
        Some(word) => match lookup(config.frames@, word) {
            None => refuses(
                failure,
                "the frame's `"@ + config.select@ + "` is `"@ + word
                    + "`, not one of the declared entries: "@ + listed,
            ),
            Some(entry) => if !frame_conforms(registry, entry.schema@, frame) {
                refuses(
                    failure,
                    "the frame does not validate against "@ + id_text(entry.schema@) + ": "@
                        + check_words(registry, entry.schema@, frame),
                )
            } else {
                &&& refuses(failure, "no binding holds for entry `"@ + word + "`"@)
                &&& forall|i: int|
                    0 <= i < entry.bindings@.len() ==> !binding_holds(
                        #[trigger] entry.bindings@[i],
                        frame,
                    )
            },
        },
    }
}

/// Whether `binding` is the one a codec answers a frame by: the first that holds
/// of the entry the frame selects, whose schema admits the frame.
pub open spec fn selects(
    config: CodecConfig,
    registry: Seq<(SchemaIdView, JsonView)>,
    frame: JsonView,
    binding: Binding,
) -> bool {
    match selected_word(config, frame) {
        None => false,
        Some(word) => match lookup(config.frames@, word) {
            None => false,
            Some(entry) => frame_conforms(registry, entry.schema@, frame) && exists|i: int|
                {
                    &&& 0 <= i < entry.bindings@.len()
                    &&& #[trigger] entry.bindings@[i] == binding
                    &&& binding_holds(binding, frame)
                    &&& forall|k: int|
                        0 <= k < i ==> !binding_holds(#[trigger] entry.bindings@[k], frame)
                },
        },
    }
}

/// The first binding that holds of the entry a frame selects is the one selected.
proof fn lemma_selects(
    config: CodecConfig,
    registry: Seq<(SchemaIdView, JsonView)>,
    frame: JsonView,
    word: Seq<char>,
    entry: FrameConfig,
    i: int,
)
    requires
        selected_word(config, frame) == Some(word),
        lookup(config.frames@, word) == Some(entry),
        frame_conforms(registry, entry.schema@, frame),
        0 <= i < entry.bindings@.len(),
        binding_holds(entry.bindings@[i], frame),
        forall|k: int| 0 <= k < i ==> !binding_holds(#[trigger] entry.bindings@[k], frame),
    ensures
        selects(config, registry, frame, entry.bindings@[i]),
{
}

/// Whether a raise responds or fails, and not both.
pub open spec fn raises_one_way(action: BindingAction) -> bool {
    match action {
        BindingAction::Raise { response, fail, .. } => response is Some <==> fail is None,
        _ => true,
    }
}

/// A codec with nothing wrong has no binding that raises both ways, or neither.
proof fn lemma_frames_sound(
    name: Seq<char>,
    frames: Seq<(Seq<char>, FrameConfig)>,
    from: int,
    at: int,
    i: int,
)
    requires
        frames_fault(name, frames, from) is None,
        0 <= from <= at < frames.len(),
        0 <= i < frames[at].1.bindings@.len(),
    ensures
        raises_one_way(frames[at].1.bindings@[i].action),
    decreases at - from,
{
    if from < at {
        lemma_frames_sound(name, frames, from + 1, at, i);
    } else {
        let here = "codecs."@ + name + ".frames."@ + frames[from].0;
        lemma_bindings_sound(here, frames[at].1.bindings@, 0, i);
    }
}

proof fn lemma_bindings_sound(at: Seq<char>, bindings: Seq<Binding>, from: int, i: int)
    requires
        bindings_fault(at, bindings, from) is None,
        0 <= from <= i < bindings.len(),
    ensures
        raises_one_way(bindings[i].action),
    decreases i - from,
{
    if from < i {
        lemma_bindings_sound(at, bindings, from + 1, i);
    }
}

/// The text a rendered template is: nothing where it came to another value.
pub open spec fn as_text(value: JsonView) -> Seq<char> {
    match value {
        JsonView::Str(text) => text,
        _ => Seq::empty(),
    }
}

fn text_of_value(value: &Json) -> (r: String)
    ensures
        r@ == as_text(value@),
{
    match value {
        Json::Str(text) => text.clone(),
        _ => {
            let nothing = String::new();
            proof {
                assert(nothing@ =~= Seq::<char>::empty());
            }
            nothing
        },
    }
}

/// Whether a template with no reply renders as `result` says.
pub open spec fn renders(
    result: Result<Json, CodecFailure>,
    value: JsonView,
    frame: JsonView,
) -> bool {
    let goal = rendered(value, frame, None);
    match result {
        Ok(out) => goal is Ok && goal->Ok_0 == out@,
        Err(failure) => goal is Err && refuses(failure, goal->Err_0),
    }
}

/// Whether a template renders to the text a failure tells.
pub open spec fn renders_failure(
    failure: CodecFailure,
    text: Seq<char>,
    frame: JsonView,
    member_failed: bool,
) -> bool {
    let goal = rendered_text(text, frame, None);
    match goal {
        Err(why) => refuses(failure, why),
        Ok(value) => if member_failed {
            fails(failure, as_text(value))
        } else {
            refuses(failure, as_text(value))
        },
    }
}

fn rendered_value(value: &Json, frame: &Json) -> (r: Result<Json, CodecFailure>)
    ensures
        renders(r, value@, frame@),
{
    match render(value, frame, None) {
        Ok(out) => Ok(out),
        Err(why) => Err(CodecFailure::Refused(why)),
    }
}

fn rendered_failure(text: &str, frame: &Json, member_failed: bool) -> (r: CodecFailure)
    ensures
        renders_failure(r, text@, frame@, member_failed),
{
    match render_string(text, frame, None) {
        Err(why) => CodecFailure::Refused(why),
        Ok(value) => {
            let said = text_of_value(&value);
            if member_failed {
                CodecFailure::Failed(said)
            } else {
                CodecFailure::Refused(said)
            }
        },
    }
}

/// What answering a frame by `action` opens with.
pub open spec fn opens(
    result: Result<Opening, CodecFailure>,
    action: BindingAction,
    frame: JsonView,
) -> bool {
    match action {
        BindingAction::Answer { response } => match result {
            Ok(Opening::Respond(out)) => renders(Ok(out), response@, frame),
            Ok(_) => false,
            Err(failure) => renders(Err(failure), response@, frame),
        },
        BindingAction::Refuse { message } => result is Err && renders_failure(
            result->Err_0,
            message@,
            frame,
            false,
        ),
        BindingAction::Raise { record, .. } => match result {
            Ok(Opening::Raise(out)) => renders(Ok(out), record@, frame),
            Ok(_) => false,
            Err(failure) => renders(Err(failure), record@, frame),
        },
        BindingAction::Ask { record, blocking, .. } => match result {
            Ok(Opening::Ask { record: out, blocking: blocks }) => renders(Ok(out), record@, frame)
                && blocks == blocking,
            Ok(_) => false,
            Err(failure) => renders(Err(failure), record@, frame),
        },
    }
}

/// What the answer to a question makes of a binding's response.
pub open spec fn concludes(
    result: Result<Json, CodecFailure>,
    response: JsonView,
    unanswered: JsonView,
    frame: JsonView,
    answer: Result<Answer<Json>, String>,
) -> bool {
    match answer {
        Err(failure) => result is Err && fails(
            result->Err_0,
            "the queue refused the question: "@ + failure@,
        ),
        Ok(Answer::Reply(reply)) => match resolved(response, frame, ruling_of(reply@)) {
            Err(why) => result is Err && refuses(result->Err_0, why),
            Ok(Some(value)) => result is Ok && result->Ok_0@ == value,
            Ok(None) => renders(result, unanswered, frame),
        },
        Ok(Answer::Timeout) => renders(result, unanswered, frame),
        Ok(Answer::Abandoned) => renders(result, unanswered, frame),
        Ok(Answer::Refused(failure)) => result is Err && fails(
            result->Err_0,
            "the answer was refused: "@ + failure.reason@,
        ),
    }
}

/// The frame a line is: an object of JSON.
pub fn frame_of(text: &str) -> (r: Result<Json, CodecFailure>)
    ensures
        match r {
            Ok(frame) => reads_as(text@, frame@) && frame@ is Object,
            Err(failure) => match parsed_json(text@) {
                Err(why) => refuses(failure, "the frame is not JSON: "@ + why),
                Ok(value) => !(value is Object) && refuses(
                    failure,
                    "the frame is not a JSON object"@,
                ),
            },
        },
{
    match Json::parse(text) {
        Err(why) => Err(CodecFailure::Refused(cat2("the frame is not JSON: ", why.as_str()))),
        Ok(frame) => if frame.is_object() {
            Ok(frame)
        } else {
            Err(CodecFailure::Refused("the frame is not a JSON object".to_owned()))
        },
    }
}

/// What answering a frame by a binding opens with.
pub fn opening(action: &BindingAction, frame: &Json) -> (r: Result<Opening, CodecFailure>)
    ensures
        opens(r, *action, frame@),
{
    match action {
        BindingAction::Answer { response } => match rendered_value(response, frame) {
            Ok(out) => Ok(Opening::Respond(out)),
            Err(failure) => Err(failure),
        },
        BindingAction::Refuse { message } => Err(
            rendered_failure(message.as_str(), frame, false),
        ),
        BindingAction::Raise { record, .. } => match rendered_value(record, frame) {
            Ok(out) => Ok(Opening::Raise(out)),
            Err(failure) => Err(failure),
        },
        BindingAction::Ask { record, blocking, .. } => match rendered_value(record, frame) {
            Ok(out) => Ok(Opening::Ask { record: out, blocking: *blocking }),
            Err(failure) => Err(failure),
        },
    }
}

/// What follows a raised record: the response, or the failure, the binding
/// declares, unless the queue refused the record.
pub fn after_raise(
    response: &Option<Json>,
    fail: &Option<String>,
    frame: &Json,
    raised: Result<(), String>,
) -> (r: Result<Json, CodecFailure>)
    requires
        response is Some <==> fail is None,
    ensures
        raise_ends(r, *response, *fail, frame@, raised),
{
    if let Err(failure) = raised {
        return Err(
            CodecFailure::Failed(
                cat2("the queue refused the raised record: ", failure.as_str()),
            ),
        );
    }
    match response {
        Some(response) => rendered_value(response, frame),
        None => match fail {
            Some(fail) => Err(rendered_failure(fail.as_str(), frame, true)),
            None => Err(CodecFailure::Failed(String::new())),
        },
    }
}

/// What the answer to a question makes of a binding's response: a reply the
/// response it resolves to, and anything else the response without one.
pub fn after_ask(
    response: &Json,
    unanswered: &Json,
    frame: &Json,
    answer: Result<Answer<Json>, String>,
) -> (r: Result<Json, CodecFailure>)
    ensures
        concludes(r, response@, unanswered@, frame@, answer),
{
    match &answer {
        Err(failure) => Err(
            CodecFailure::Failed(cat2("the queue refused the question: ", failure.as_str())),
        ),
        Ok(Answer::Reply(reply)) => match resolve_ask(response, frame, ruling(reply)) {
            Err(why) => Err(CodecFailure::Refused(why)),
            Ok(Some(value)) => Ok(value),
            Ok(None) => rendered_value(unanswered, frame),
        },
        Ok(Answer::Timeout) => rendered_value(unanswered, frame),
        Ok(Answer::Abandoned) => rendered_value(unanswered, frame),
        Ok(Answer::Refused(failure)) => Err(
            CodecFailure::Failed(cat2("the answer was refused: ", failure.reason.as_str())),
        ),
    }
}

impl ConfiguredCodec {
    /// The codec's name.
    pub closed spec fn name_is(&self) -> Seq<char> {
        self.name@
    }

    /// What it is configured with.
    pub closed spec fn configured(&self) -> CodecConfig {
        self.config
    }

    #[verifier::type_invariant]
    closed spec fn well_formed(&self) -> bool {
        codec_fault(self.name@, self.config) is None
    }

    /// The codec `name`, configured so: refused for what a codec may not be.
    pub fn new(name: CodecName, config: CodecConfig) -> (r: Result<Self, String>)
        ensures
            match r {
                Ok(codec) => codec_fault(name@, config) is None && codec.name_is() == name@
                    && codec.configured() == config,
                Err(why) => codec_fault(name@, config) == Some(why@),
            },
    {
        match validate_codec(&name, &config) {
            Ok(()) => Ok(ConfiguredCodec { name, config }),
            Err(why) => Err(why),
        }
    }

    /// The codec's name.
    pub fn name(&self) -> (r: &CodecName)
        ensures
            r@ == self.name_is(),
    {
        &self.name
    }

    /// The binding a frame is answered by.
    pub fn select(&self, frame: &Json, registry: &Registry) -> (r: Result<&Binding, CodecFailure>)
        ensures
            match r {
                Ok(binding) => selects(self.configured(), registry@, frame@, *binding)
                    && raises_one_way(binding.action),
                Err(failure) => selection_refused(
                    self.configured(),
                    registry@,
                    frame@,
                    failure,
                ),
            },
    {
        let word = match path(frame, self.config.select.as_str()) {
            Some(Json::Str(word)) => word.as_str(),
            _ => {
                let names = self.config.frames.names();
                let listed = join(&names, ", ");
                return Err(
                    CodecFailure::Refused(
                        cat4(
                            "the frame's `",
                            self.config.select.as_str(),
                            "` is absent or not a string; declared entries: ",
                            listed.as_str(),
                        ),
                    ),
                );
            },
        };
        let entry = match self.config.frames.get(word) {
            Some(entry) => entry,
            None => {
                let names = self.config.frames.names();
                let listed = join(&names, ", ");
                return Err(
                    CodecFailure::Refused(
                        cat6(
                            "the frame's `",
                            self.config.select.as_str(),
                            "` is `",
                            word,
                            "`, not one of the declared entries: ",
                            listed.as_str(),
                        ),
                    ),
                );
            },
        };
        if let Err(failure) = registry.check(&entry.schema, frame) {
            let said = match &failure {
                CheckError::Registry(refusal) => refusal.message(),
                CheckError::Violation(violation) => violation.to_text(),
            };
            let id = entry.schema.to_text();
            let refused = CodecFailure::Refused(
                cat4(
                    "the frame does not validate against ",
                    id.as_str(),
                    ": ",
                    said.as_str(),
                ),
            );
            return Err(refused);
        }
        let mut i: usize = 0;
        while i < entry.bindings.len()
            invariant
                i <= entry.bindings@.len(),
                selected_word(self.configured(), frame@) == Some(word@),
                lookup(self.configured().frames@, word@) == Some(*entry),
                frame_conforms(registry@, entry.schema@, frame@),
                forall|k: int|
                    0 <= k < i ==> !binding_holds(#[trigger] entry.bindings@[k], frame@),
            decreases entry.bindings@.len() - i,
        {
            let holds = match &entry.bindings[i].when {
                None => true,
                Some(condition) => match path(frame, condition.field.as_str()) {
                    Some(value) => value.equals(&condition.equals),
                    None => false,
                },
            };
            if holds {
                proof {
                    assert(entry.bindings@[i as int] == entry.bindings[i as int]);
                    use_type_invariant(self);
                    let at = lemma_lookup_has(self.config.frames@, word@);
                    assert(self.config.frames@[at].1 == *entry);
                    lemma_frames_sound(self.name@, self.config.frames@, 0, at, i as int);
                    assert(raises_one_way(entry.bindings@[i as int].action));
                    lemma_selects(
                        self.configured(),
                        registry@,
                        frame@,
                        word@,
                        *entry,
                        i as int,
                    );
                }
                return Ok(&entry.bindings[i]);
            }
            i += 1;
        }
        Err(CodecFailure::Refused(cat3("no binding holds for entry `", word, "`")))
    }

    /// What answering a frame's line opens with, and the binding that says what
    /// follows.
    pub fn open(&self, text: &str, registry: &Registry) -> (r: Result<
        (Json, &Binding, Opening),
        CodecFailure,
    >)
        ensures
            match r {
                Ok((frame, binding, opened)) => opens_with(
                    self.configured(),
                    registry@,
                    text@,
                    frame@,
                    *binding,
                    opened,
                ),
                Err(failure) => open_refused(self.configured(), registry@, text@, failure),
            },
    {
        let frame = match frame_of(text) {
            Ok(frame) => frame,
            Err(failure) => {
                return Err(failure);
            },
        };
        let binding = match self.select(&frame, registry) {
            Ok(binding) => binding,
            Err(failure) => {
                return Err(failure);
            },
        };
        match opening(&binding.action, &frame) {
            Ok(opened) => Ok((frame, binding, opened)),
            Err(failure) => {
                proof {
                    assert(opens(Err(failure), binding.action, frame@));
                }
                Err(failure)
            },
        }
    }

    /// What answering a frame's line does next, given what was last done of it: the
    /// response that ends it, or a record to raise or a question to ask first.
    pub fn answer(&self, text: &str, registry: &Registry, done: Done) -> (r: Result<
        Opening,
        CodecFailure,
    >)
        ensures
            (r is Err && open_refused(self.configured(), registry@, text@, r->Err_0)) || exists|
                frame: JsonView,
                binding: Binding,
                opened: Opening,
            |
                #[trigger] opens_with(
                    self.configured(),
                    registry@,
                    text@,
                    frame,
                    binding,
                    opened,
                ) && answers_as(frame, binding.action, opened, done, r),
    {
        let (frame, binding, opened) = match self.open(text, registry) {
            Ok(opened) => opened,
            Err(failure) => return Err(failure),
        };
        let ghost config = self.configured();
        let ghost first = opened;
        let ghost said = done;
        proof {
            assert(opens_with(config, registry@, text@, frame@, *binding, first));
        }
        let out = match (done, &binding.action) {
            (Done::Nothing, _) => Ok(opened),
            (Done::Raised(raised), BindingAction::Raise { response, fail, .. }) => {
                responded(after_raise(response, fail, &frame, raised))
            },
            (Done::Asked(answer), BindingAction::Ask { response, unanswered, .. }) => {
                responded(after_ask(response, unanswered, &frame, answer))
            },
            _ => Err(
                CodecFailure::Failed("the frame's binding does not do what was done".to_owned()),
            ),
        };
        proof {
            assert(answers_as(frame@, binding.action, first, said, out));
        }
        out
    }
}

/// What was last done of a frame.
#[derive(Debug)]
pub enum Done {
    /// Nothing yet.
    Nothing,
    /// Its record was raised, or refused in these words.
    Raised(Result<(), String>),
    /// Its question was asked and waited for, or refused in these words.
    Asked(Result<Answer<Json>, String>),
}

/// A response, as what is done next.
fn responded(response: Result<Json, CodecFailure>) -> (r: Result<Opening, CodecFailure>)
    ensures
        match response {
            Ok(response) => r == Ok::<Opening, CodecFailure>(Opening::Respond(response)),
            Err(failure) => r == Err::<Opening, CodecFailure>(failure),
        },
{
    match response {
        Ok(response) => Ok(Opening::Respond(response)),
        Err(failure) => Err(failure),
    }
}

/// Whether answering a line opens with `opened`: its frame, and the binding selected
/// for it.
pub open spec fn opens_with(
    config: CodecConfig,
    registry: Seq<(SchemaIdView, JsonView)>,
    text: Seq<char>,
    frame: JsonView,
    binding: Binding,
    opened: Opening,
) -> bool {
    &&& reads_as(text, frame)
    &&& selects(config, registry, frame, binding)
    &&& raises_one_way(binding.action)
    &&& opens(Ok(opened), binding.action, frame)
}

/// Whether `failure` is why a line is not answered: it is no frame, no binding is
/// selected for it, or the binding selected refuses it.
pub open spec fn open_refused(
    config: CodecConfig,
    registry: Seq<(SchemaIdView, JsonView)>,
    text: Seq<char>,
    failure: CodecFailure,
) -> bool {
    match parsed_json(text) {
        Err(why) => refuses(failure, "the frame is not JSON: "@ + why),
        Ok(frame) => if !(frame is Object) {
            refuses(failure, "the frame is not a JSON object"@)
        } else {
            ||| selection_refused(config, registry, frame, failure)
            ||| exists|binding: Binding|
                selects(config, registry, frame, binding) && #[trigger] opens(
                    Err(failure),
                    binding.action,
                    frame,
                )
        },
    }
}

/// What a raise ends in.
pub open spec fn raise_ends(
    result: Result<Json, CodecFailure>,
    response: Option<Json>,
    fail: Option<String>,
    frame: JsonView,
    raised: Result<(), String>,
) -> bool {
    match raised {
        Err(failure) => result is Err && fails(
            result->Err_0,
            "the queue refused the raised record: "@ + failure@,
        ),
        Ok(()) => match response {
            Some(response) => renders(result, response@, frame),
            None => result is Err && renders_failure(result->Err_0, fail->0@, frame, true),
        },
    }
}

/// What is done next of a frame whose answering opened with `opened`: that, where
/// nothing was done yet, and otherwise the response what was done comes to.
pub open spec fn answers_as(
    frame: JsonView,
    action: BindingAction,
    opened: Opening,
    done: Done,
    next: Result<Opening, CodecFailure>,
) -> bool {
    let ended = match next {
        Ok(Opening::Respond(response)) => Ok::<Json, CodecFailure>(response),
        Ok(_) => arbitrary(),
        Err(failure) => Err::<Json, CodecFailure>(failure),
    };
    match (done, action) {
        (Done::Nothing, _) => next == Ok::<Opening, CodecFailure>(opened),
        (Done::Raised(raised), BindingAction::Raise { response, fail, .. }) => {
            &&& next is Err || next->Ok_0 is Respond
            &&& raise_ends(ended, response, fail, frame, raised)
        },
        (Done::Asked(answer), BindingAction::Ask { response, unanswered, .. }) => {
            &&& next is Err || next->Ok_0 is Respond
            &&& concludes(ended, response@, unanswered@, frame, answer)
        },
        _ => next is Err && fails(
            next->Err_0,
            "the frame's binding does not do what was done"@,
        ),
    }
}

// ---------------------------------------------------------------------------
// Serving.
// ---------------------------------------------------------------------------

/// How a serving session runs.
#[derive(Debug)]
pub struct ServeOptions {
    /// Who the session listens for.
    pub asker: Option<Asker>,
    /// What the session's questions are about.
    pub about: Option<Address>,
    /// When the session stops of its own accord, in milliseconds.
    pub session_millis: Option<u64>,
    /// How long each question waits for its ruling, in milliseconds.
    pub reply_window_millis: u64,
}

impl Default for ServeOptions {
    fn default() -> (r: Self)
        ensures
            r.asker is None,
            r.about is None,
            r.session_millis is None,
            r.reply_window_millis == DEFAULT_REPLY_WINDOW_SECONDS * 1000,
    {
        ServeOptions {
            asker: None,
            about: None,
            session_millis: None,
            reply_window_millis: DEFAULT_REPLY_WINDOW_SECONDS * 1000,
        }
    }
}

/// How a serving session ended.
#[derive(Debug, Clone, Copy, PartialEq, Eq, Structural)]
pub enum Served {
    /// The frame stream ended: each question still unanswered was marked
    /// abandoned.
    StreamEnded {
        /// How many questions were marked.
        abandoned: usize,
    },
    /// The session reached its bound with the stream still open: every question
    /// stays counted.
    SessionOver {
        /// How many questions stand unanswered.
        standing: usize,
    },
}

/// Why a serving session ended in failure.
#[derive(Debug, PartialEq, Eq)]
pub enum ServeError {
    /// A frame the codec refused, named.
    Refused(String),
    /// A member the codec reported failed.
    Failed(String),
    /// The frame stream failed mid-read.
    Stream(String),
    /// The frame reader could not be started.
    Spawn(String),
    /// A response could not be written.
    Write(String),
    /// The bus refused, or its transport failed.
    Bus(String),
}

impl ServeError {
    /// The failure a codec's is.
    pub fn of(failure: CodecFailure) -> (r: Self)
        ensures
            match failure {
                CodecFailure::Refused(why) => r == ServeError::Refused(why),
                CodecFailure::Failed(why) => r == ServeError::Failed(why),
            },
    {
        match failure {
            CodecFailure::Refused(why) => ServeError::Refused(why),
            CodecFailure::Failed(why) => ServeError::Failed(why),
        }
    }

    /// The failure in words.
    pub fn message(&self) -> (r: String)
        ensures
            r@ == match *self {
                ServeError::Refused(why) => why@,
                ServeError::Failed(why) => why@,
                ServeError::Stream(why) => "the frame stream could not be read: "@ + why@,
                ServeError::Spawn(why) => "the frame reader could not be started: "@ + why@,
                ServeError::Write(why) => "a response could not be written: "@ + why@,
                ServeError::Bus(why) => why@,
            },
    {
        match self {
            ServeError::Refused(why) => why.clone(),
            ServeError::Failed(why) => why.clone(),
            ServeError::Stream(why) => cat2("the frame stream could not be read: ", why.as_str()),
            ServeError::Spawn(why) => cat2("the frame reader could not be started: ", why.as_str()),
            ServeError::Write(why) => cat2("a response could not be written: ", why.as_str()),
            ServeError::Bus(why) => why.clone(),
        }
    }
}

/// What a serving session was handed.
#[derive(Debug)]
pub enum Arrival {
    /// A line of the frame stream.
    Line(String),
    /// The stream ended.
    Ended,
    /// The session's bound was reached.
    BoundReached,
}

/// What a serving session does next.
#[derive(Debug)]
pub enum Turn {
    /// Passes over a blank line.
    Pass,
    /// Answers a frame.
    Frame(String),
    /// Ends: at its bound, or with the stream.
    End {
        /// Whether its bound was reached.
        bound_reached: bool,
    },
}

/// What a serving session does with what it was handed: a blank line is passed
/// over, and a frame is its line without the white space around it.
pub fn turn(arrival: &Arrival) -> (r: Turn)
    ensures
        match *arrival {
            Arrival::Line(line) => if is_blank(line@) {
                r is Pass
            } else {
                match r {
                    Turn::Frame(text) => text@ == trimmed(line@),
                    _ => false,
                }
            },
            Arrival::Ended => r == (Turn::End { bound_reached: false }),
            Arrival::BoundReached => r == (Turn::End { bound_reached: true }),
        },
{
    match arrival {
        Arrival::Line(line) => if blank(line.as_str()) {
            Turn::Pass
        } else {
            Turn::Frame(trim(line.as_str()))
        },
        Arrival::Ended => Turn::End { bound_reached: false },
        Arrival::BoundReached => Turn::End { bound_reached: true },
    }
}

/// How a session ends: at its bound every unanswered question stands, and with
/// its stream every one is abandoned.
pub fn ending(bound_reached: bool, unanswered: usize) -> (r: Served)
    ensures
        r == if bound_reached {
            Served::SessionOver { standing: unanswered }
        } else {
            Served::StreamEnded { abandoned: unanswered }
        },
{
    if bound_reached {
        Served::SessionOver { standing: unanswered }
    } else {
        Served::StreamEnded { abandoned: unanswered }
    }
}

/// A record as a session raises it: with its asker, and what it is about, where
/// it names neither.
pub open spec fn raised_as(
    record: JsonView,
    asker: Option<Seq<char>>,
    about: Option<Seq<char>>,
) -> JsonView {
    match record {
        JsonView::Object(fields) => {
            let first = match asker {
                Some(asker) => with_absent(fields, "asker"@, JsonView::Str(asker)),
                None => fields,
            };
            JsonView::Object(
                match about {
                    Some(about) => with_absent(first, ABOUT@, JsonView::Str(about)),
                    None => first,
                },
            )
        },
        _ => record,
    }
}

/// Members with a value under a key they do not have.
pub open spec fn with_absent(
    fields: Seq<(Seq<char>, JsonView)>,
    key: Seq<char>,
    value: JsonView,
) -> Seq<(Seq<char>, JsonView)> {
    if field(fields, key) is Some {
        fields
    } else {
        with_field(fields, key, value)
    }
}

/// Sets `key` among `fields` where it is not there.
pub fn set_absent(fields: &mut Vec<(String, Json)>, key: &str, value: Json)
    ensures
        fields_view(final(fields)@) == with_absent(fields_view(old(fields)@), key@, value@),
{
    if get_field(fields, key).is_none() {
        set_field(fields, key, value);
    }
}

/// An optional asker's name.
pub open spec fn asker_view(asker: Option<Asker>) -> Option<Seq<char>> {
    match asker {
        Some(asker) => Some(asker@),
        None => None,
    }
}

/// An optional address.
pub open spec fn address_view(address: Option<Address>) -> Option<Seq<char>> {
    match address {
        Some(address) => Some(address@),
        None => None,
    }
}

impl ServeOptions {
    /// A record as this session raises it.
    pub fn raised(&self, record: &Json) -> (r: Json)
        ensures
            r@ == raised_as(record@, asker_view(self.asker), address_view(self.about)),
    {
        broadcast use group_json_views;

        match record {
            Json::Object(fields) => {
                let mut out = copied_fields(fields);
                if let Some(asker) = &self.asker {
                    set_absent(&mut out, "asker", Json::text(asker.as_str()));
                }
                if let Some(about) = &self.about {
                    set_absent(&mut out, ABOUT, Json::text(about.as_str()));
                }
                Json::Object(out)
            },
            _ => record.copied(),
        }
    }
}

} // verus!
