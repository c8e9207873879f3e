//! The declared capability surface every consumer surface is measured against.
//!
//! One entry per verb, and how each option of it is rendered.

use crate::json::Json;
use crate::text::{chars_of, is_upper, lower_char, lower_char_of, texts};
use vstd::prelude::*;

verus! {

/// How one option reaches the command line.
#[derive(Debug, Clone, Copy)]
pub enum FlagKind {
    /// A bare positional argument, appended in binding order.
    Positional,
    /// `--flag VALUE`, once.
    Value(&'static str),
    /// `--flag VALUE`, once per array element.
    Repeated(&'static str),
    /// `--flag`, present only when the option is true.
    Switch(&'static str),
    /// `--flag KEY=VALUE`, once per map entry.
    KeyValue(&'static str),
}

/// The flag a binding renders.
pub open spec fn flag_of(kind: FlagKind) -> Option<Seq<char>> {
    match kind {
        FlagKind::Positional => None,
        FlagKind::Value(flag) => Some(flag@),
        FlagKind::Repeated(flag) => Some(flag@),
        FlagKind::Switch(flag) => Some(flag@),
        FlagKind::KeyValue(flag) => Some(flag@),
    }
}

/// The word a way of rendering goes by.
pub open spec fn kind_word(kind: FlagKind) -> Seq<char> {
    match kind {
        FlagKind::Positional => "positional"@,
        FlagKind::Value(_) => "value"@,
        FlagKind::Repeated(_) => "repeated"@,
        FlagKind::Switch(_) => "switch"@,
        FlagKind::KeyValue(_) => "key-value"@,
    }
}

impl FlagKind {
    /// The flag this binding renders, or nothing for a bare argument.
    pub fn flag(self) -> (r: Option<&'static str>)
        ensures
            match r {
                Some(flag) => flag_of(self) == Some(flag@),
                None => flag_of(self) is None,
            },
    {
        match self {
            FlagKind::Positional => None,
            FlagKind::Value(flag) => Some(flag),
            FlagKind::Repeated(flag) => Some(flag),
            FlagKind::Switch(flag) => Some(flag),
            FlagKind::KeyValue(flag) => Some(flag),
        }
    }

    /// The word generators switch on.
    pub fn wire_name(self) -> (r: &'static str)
        ensures
            r@ == kind_word(self),
    {
        match self {
            FlagKind::Positional => "positional",
            FlagKind::Value(_) => "value",
            FlagKind::Repeated(_) => "repeated",
            FlagKind::Switch(_) => "switch",
            FlagKind::KeyValue(_) => "key-value",
        }
    }
}

/// One option and the flag it renders to.
#[derive(Debug, Clone, Copy)]
pub struct OptionBinding {
    /// The option's name, camelCase.
    pub option: &'static str,
    /// How it renders.
    pub kind: FlagKind,
}

/// What a binding is: the option, the flag and how it renders.
pub open spec fn binding_is(binding: OptionBinding) -> (Seq<char>, Option<Seq<char>>, Seq<char>) {
    (binding.option@, flag_of(binding.kind), kind_word(binding.kind))
}

/// A flag no option renders, and why that is correct.
#[derive(Debug, Clone, Copy)]
pub struct UncoveredFlag {
    /// The flag, as `--spelled`.
    pub flag: &'static str,
    /// Why no option renders it.
    pub reason: &'static str,
}

/// How a verb's output reaches a caller.
#[derive(Debug, Clone, Copy)]
pub enum StdoutShape {
    /// One JSON document of the named schema root.
    Json(&'static str),
    /// One JSON document of the named schema root per line.
    Jsonl(&'static str),
    /// A human confirmation, or nothing.
    Text,
}

/// The schema root a shape names.
pub open spec fn output_of(shape: StdoutShape) -> Option<Seq<char>> {
    match shape {
        StdoutShape::Json(root) => Some(root@),
        StdoutShape::Jsonl(root) => Some(root@),
        StdoutShape::Text => None,
    }
}

/// The word a shape goes by.
pub open spec fn shape_name(shape: StdoutShape) -> Seq<char> {
    match shape {
        StdoutShape::Json(_) => "json"@,
        StdoutShape::Jsonl(_) => "jsonl"@,
        StdoutShape::Text => "text"@,
    }
}

impl StdoutShape {
    /// The schema root this shape validates against, or nothing for text.
    pub fn output(self) -> (r: Option<&'static str>)
        ensures
            match r {
                Some(root) => output_of(self) == Some(root@),
                None => output_of(self) is None,
            },
    {
        match self {
            StdoutShape::Json(root) => Some(root),
            StdoutShape::Jsonl(root) => Some(root),
            StdoutShape::Text => None,
        }
    }

    /// The word generators switch on.
    pub fn wire_name(self) -> (r: &'static str)
        ensures
            r@ == shape_name(self),
    {
        match self {
            StdoutShape::Json(_) => "json",
            StdoutShape::Jsonl(_) => "jsonl",
            StdoutShape::Text => "text",
        }
    }
}

/// One thing that can be done, and how each consumer surface reaches it.
#[derive(Debug)]
pub struct Capability {
    /// The method's name, camelCase.
    pub method: &'static str,
    /// The verb path it invokes.
    pub verb: Vec<String>,
    /// The schema root of its input contract.
    pub options: Option<&'static str>,
    /// How the verb's output is read.
    pub stdout: StdoutShape,
    /// Whether the call may write a payload to the verb's input.
    pub stdin: bool,
    /// The library entry point a consumer calls instead.
    pub library_entry: &'static str,
    /// How each option renders.
    pub bindings: Vec<OptionBinding>,
    /// The flags no option renders, each with its reason.
    pub uncovered: Vec<UncoveredFlag>,
}

/// What a capability is.
pub struct CapabilityView {
    pub method: Seq<char>,
    pub verb: Seq<Seq<char>>,
    pub options: Option<Seq<char>>,
    pub shape: Seq<char>,
    pub output: Option<Seq<char>>,
    pub stdin: bool,
    pub library_entry: Seq<char>,
    pub bindings: Seq<(Seq<char>, Option<Seq<char>>, Seq<char>)>,
    pub uncovered: Seq<(Seq<char>, Seq<char>)>,
}

/// What bindings are.
pub open spec fn bindings_are(bindings: Seq<OptionBinding>) -> Seq<
    (Seq<char>, Option<Seq<char>>, Seq<char>),
> {
    Seq::new(bindings.len(), |i: int| binding_is(bindings[i]))
}

impl View for Capability {
    type V = CapabilityView;

    open spec fn view(&self) -> CapabilityView {
        CapabilityView {
            method: self.method@,
            verb: texts(self.verb@),
            options: match self.options {
                Some(root) => Some(root@),
                None => None,
            },
            shape: shape_name(self.stdout),
            output: output_of(self.stdout),
            stdin: self.stdin,
            library_entry: self.library_entry@,
            bindings: bindings_are(self.bindings@),
            uncovered: Seq::new(
                self.uncovered@.len(),
                |i: int| (self.uncovered@[i].flag@, self.uncovered@[i].reason@),
            ),
        }
    }
}

/// A camelCase name in snake case: each capital a `_` and the letter in lower case.
pub open spec fn snake_case(name: Seq<char>) -> Seq<char>
    decreases name.len(),
{
    if name.len() == 0 {
        Seq::empty()
    } else {
        let before = snake_case(name.drop_last());
        if is_upper(name.last()) {
            before.push('_').push(lower_char(name.last()))
        } else {
            before.push(name.last())
        }
    }
}

impl Capability {
    /// The schema root of its output contract, or nothing for a text verb.
    pub fn output(&self) -> (r: Option<&'static str>)
        ensures
            match r {
                Some(root) => self@.output == Some(root@),
                None => self@.output is None,
            },
    {
        self.stdout.output()
    }

    /// The snake-case spelling of the method.
    pub fn python_method(&self) -> (r: String)
        ensures
            r@ == snake_case(self@.method),
    {
        let chars = chars_of(self.method);
        let mut out = String::new();
        let mut i: usize = 0;
        let ghost name = self.method@;
        proof {
            assert(name.take(0) =~= Seq::<char>::empty());
        }
        while i < chars.len()
            invariant
                i <= chars@.len(),
                chars@ == name,
                out@ == snake_case(name.take(i as int)),
            decreases chars@.len() - i,
        {
            let c = chars[i];
            proof {
                assert(name.take(i + 1).drop_last() =~= name.take(i as int));
                assert(name.take(i + 1).last() == c);
            }
            if 'A' <= c && c <= 'Z' {
                out.push('_');
                out.push(lower_char_of(c));
            } else {
                out.push(c);
            }
            i += 1;
        }
        proof {
            assert(name.take(i as int) =~= name);
        }
        out
    }
}

/// A binding rendered as `--flag VALUE`.
pub open spec fn valued(option: Seq<char>, flag: Seq<char>) -> (
    Seq<char>,
    Option<Seq<char>>,
    Seq<char>,
) {
    (option, Some(flag), "value"@)
}

/// A binding rendered bare.
pub open spec fn bare(option: Seq<char>) -> (Seq<char>, Option<Seq<char>>, Seq<char>) {
    (option, None, "positional"@)
}

/// Every capability, in order.
pub open spec fn declared_capabilities() -> Seq<CapabilityView> {
    seq![
        CapabilityView {
            method: "schemaList"@,
            verb: seq!["schema"@, "list"@],
            options: Some("schema_list_options"@),
            shape: "json"@,
            output: Some("schema_list"@),
            stdin: false,
            library_entry: "onemessagebus::Registry::ids"@,
            bindings: seq![valued("registry"@, "--registry"@), valued("format"@, "--format"@)],
            uncovered: Seq::empty(),
        },
        CapabilityView {
            method: "schemaCheck"@,
            verb: seq!["schema"@, "check"@],
            options: Some("schema_check_options"@),
            shape: "text"@,
            output: None,
            stdin: true,
            library_entry: "onemessagebus::Registry::check"@,
            bindings: seq![
                bare("id"@),
                valued("file"@, "--file"@),
                valued("registry"@, "--registry"@),
            ],
            uncovered: Seq::empty(),
        },
        CapabilityView {
            method: "schemaGen"@,
            verb: seq!["schema"@, "gen"@],
            options: Some("schema_gen_options"@),
            shape: "text"@,
            output: None,
            stdin: false,
            library_entry: "onemessagebus::sdk_schema::generate"@,
            bindings: seq![
                bare("id"@),
                valued("lang"@, "--lang"@),
                valued("registry"@, "--registry"@),
            ],
            uncovered: Seq::empty(),
        },
        CapabilityView {
            method: "schemaRegister"@,
            verb: seq!["schema"@, "register"@],
            options: Some("schema_register_options"@),
            shape: "text"@,
            output: None,
            stdin: false,
            library_entry: "onemessagebus::Registry::register_schema"@,
            bindings: seq![
                bare("id"@),
                valued("file"@, "--file"@),
                valued("registry"@, "--registry"@),
            ],
            uncovered: Seq::empty(),
        },
        CapabilityView {
            method: "eventsMerge"@,
            verb: seq!["events"@, "merge"@],
            options: Some("events_merge_options"@),
            shape: "jsonl"@,
            output: Some("envelope"@),
            stdin: false,
            library_entry: "onemessagebus::Merge::open"@,
            bindings: seq![
                bare("files"@),
                valued("filter"@, "--filter"@),
                valued("profile"@, "--profile"@),
                valued("format"@, "--format"@),
            ],
            uncovered: Seq::empty(),
        },
        CapabilityView {
            method: "eventsEmit"@,
            verb: seq!["events"@, "emit"@],
            options: Some("events_emit_options"@),
            shape: "json"@,
            output: Some("envelope"@),
            stdin: true,
            library_entry: "onemessagebus::Emitter::shared"@,
            bindings: seq![
                bare("path"@),
                valued("kind"@, "--kind"@),
                valued("stream"@, "--stream"@),
                valued("source"@, "--source"@),
                valued("profile"@, "--profile"@),
                ("labels"@, Some("--label"@), "key-value"@),
                valued("file"@, "--file"@),
                valued("format"@, "--format"@),
            ],
            uncovered: Seq::empty(),
        },
    ]
}

fn declare(
    method: &'static str,
    noun: &str,
    verb: &str,
    options: &'static str,
    stdout: StdoutShape,
    stdin: bool,
    library_entry: &'static str,
    bindings: Vec<OptionBinding>,
) -> (r: Capability)
    ensures
        r@ == (CapabilityView {
            method: method@,
            verb: seq![noun@, verb@],
            options: Some(options@),
            shape: shape_name(stdout),
            output: output_of(stdout),
            stdin,
            library_entry: library_entry@,
            bindings: bindings_are(bindings@),
            uncovered: Seq::empty(),
        }),
{
    let mut path: Vec<String> = Vec::new();
    path.push(noun.to_owned());
    path.push(verb.to_owned());
    let r = Capability {
        method,
        verb: path,
        options: Some(options),
        stdout,
        stdin,
        library_entry,
        bindings,
        uncovered: Vec::new(),
    };
    proof {
        assert(r@.verb =~= seq![noun@, verb@]);
        assert(r@.uncovered =~= Seq::<(Seq<char>, Seq<char>)>::empty());
    }
    r
}

fn bind(bindings: &mut Vec<OptionBinding>, option: &'static str, kind: FlagKind)
    ensures
        bindings_are(final(bindings)@) == bindings_are(old(bindings)@).push(
            (option@, flag_of(kind), kind_word(kind)),
        ),
{
    let ghost before = bindings_are(bindings@);
    bindings.push(OptionBinding { option, kind });
    proof {
        assert(bindings_are(bindings@) =~= before.push((option@, flag_of(kind), kind_word(kind))));
    }
}

fn no_bindings() -> (r: Vec<OptionBinding>)
    ensures
        bindings_are(r@) == Seq::<(Seq<char>, Option<Seq<char>>, Seq<char>)>::empty(),
{
    let r: Vec<OptionBinding> = Vec::new();
    proof {
        assert(bindings_are(r@) =~= Seq::<(Seq<char>, Option<Seq<char>>, Seq<char>)>::empty());
    }
    r
}

fn schema_list() -> (r: Capability)
    ensures
        r@ == declared_capabilities()[0],
{
    let mut list = no_bindings();
    bind(&mut list, "registry", FlagKind::Value("--registry"));
    bind(&mut list, "format", FlagKind::Value("--format"));
    proof {
        assert(bindings_are(list@) =~= declared_capabilities()[0].bindings);
    }
    declare(
        "schemaList",
        "schema",
        "list",
        "schema_list_options",
        StdoutShape::Json("schema_list"),
        false,
        "onemessagebus::Registry::ids",
        list,
    )
}

fn schema_check() -> (r: Capability)
    ensures
        r@ == declared_capabilities()[1],
{
    let mut list = no_bindings();
    bind(&mut list, "id", FlagKind::Positional);
    bind(&mut list, "file", FlagKind::Value("--file"));
    bind(&mut list, "registry", FlagKind::Value("--registry"));
    proof {
        assert(bindings_are(list@) =~= declared_capabilities()[1].bindings);
    }
    declare(
        "schemaCheck",
        "schema",
        "check",
        "schema_check_options",
        StdoutShape::Text,
        true,
        "onemessagebus::Registry::check",
        list,
    )
}

fn schema_gen() -> (r: Capability)
    ensures
        r@ == declared_capabilities()[2],
{
    let mut list = no_bindings();
    bind(&mut list, "id", FlagKind::Positional);
    bind(&mut list, "lang", FlagKind::Value("--lang"));
    bind(&mut list, "registry", FlagKind::Value("--registry"));
    proof {
        assert(bindings_are(list@) =~= declared_capabilities()[2].bindings);
    }
    declare(
        "schemaGen",
        "schema",
        "gen",
        "schema_gen_options",
        StdoutShape::Text,
        false,
        "onemessagebus::sdk_schema::generate",
        list,
    )
}

fn schema_register() -> (r: Capability)
    ensures
        r@ == declared_capabilities()[3],
{
    let mut list = no_bindings();
    bind(&mut list, "id", FlagKind::Positional);
    bind(&mut list, "file", FlagKind::Value("--file"));
    bind(&mut list, "registry", FlagKind::Value("--registry"));
    proof {
        assert(bindings_are(list@) =~= declared_capabilities()[3].bindings);
    }
    declare(
        "schemaRegister",
        "schema",
        "register",
        "schema_register_options",
        StdoutShape::Text,
        false,
        "onemessagebus::Registry::register_schema",
        list,
    )
}

fn events_merge() -> (r: Capability)
    ensures
        r@ == declared_capabilities()[4],
{
    let mut list = no_bindings();
    bind(&mut list, "files", FlagKind::Positional);
    bind(&mut list, "filter", FlagKind::Value("--filter"));
    bind(&mut list, "profile", FlagKind::Value("--profile"));
    bind(&mut list, "format", FlagKind::Value("--format"));
    proof {
        assert(bindings_are(list@) =~= declared_capabilities()[4].bindings);
    }
    declare(
        "eventsMerge",
        "events",
        "merge",
        "events_merge_options",
        StdoutShape::Jsonl("envelope"),
        false,
        "onemessagebus::Merge::open",
        list,
    )
}

fn events_emit() -> (r: Capability)
    ensures
        r@ == declared_capabilities()[5],
{
    let mut list = no_bindings();
    bind(&mut list, "path", FlagKind::Positional);
    bind(&mut list, "kind", FlagKind::Value("--kind"));
    bind(&mut list, "stream", FlagKind::Value("--stream"));
    bind(&mut list, "source", FlagKind::Value("--source"));
    bind(&mut list, "profile", FlagKind::Value("--profile"));
    bind(&mut list, "labels", FlagKind::KeyValue("--label"));
    bind(&mut list, "file", FlagKind::Value("--file"));
    bind(&mut list, "format", FlagKind::Value("--format"));
    proof {
        assert(bindings_are(list@) =~= declared_capabilities()[5].bindings);
    }
    declare(
        "eventsEmit",
        "events",
        "emit",
        "events_emit_options",
        StdoutShape::Json("envelope"),
        true,
        "onemessagebus::Emitter::shared",
        list,
    )
}

/// What capabilities are.
pub open spec fn capabilities_view(capabilities: Seq<Capability>) -> Seq<CapabilityView> {
    Seq::new(capabilities.len(), |i: int| capabilities[i]@)
}

/// Every verb there is, and no other.
pub fn capabilities() -> (r: Vec<Capability>)
    ensures
        capabilities_view(r@) == declared_capabilities(),
{
    let mut out: Vec<Capability> = Vec::new();
    out.push(schema_list());
    out.push(schema_check());
    out.push(schema_gen());
    out.push(schema_register());
    out.push(events_merge());
    out.push(events_emit());
    proof {
        assert(capabilities_view(out@) =~= declared_capabilities());
    }
    out
}

} // verus!
