//! The schema registry: which message shapes exist, at which versions, and what
//! is read and written of each family.
//!
//! A [`SchemaId`] is `<namespace>.<name>@<version>`; a *family* is an id without
//! its version. Whether a document conforms to a schema is `jsonschema`'s: the
//! items that call it stand first.

use crate::json::{Json, JsonView, same, settled, value_from_json, value_json};
use crate::names::{alphanumeric, is_alphanumeric};
use crate::text::{
    cat2, cat3, cat4, cat5, chars_of, decimal, decimal_of, decimal_round_trip, first_at,
    first_of, is_before, is_digit, join, joined, last_at, last_of, lemma_before_total,
    lemma_before_transitive, lemma_decimal_value, lemma_first_at, lemma_last_at, parse_unsigned,
    quoted, quoted_of, same_text, string_of, text_before, texts, unsigned_value,
};
use vstd::prelude::*;

verus! {

// ---------------------------------------------------------------------------
// What is taken on trust of `jsonschema`.
// ---------------------------------------------------------------------------

/// Whether `jsonschema::validator_for` compiles a document.
pub uninterp spec fn schema_compiles(schema: JsonView) -> bool;

/// The first error a validator compiled from a schema finds in an instance: the JSON
/// pointer of what it is about, and its words. Nothing where it finds none, or the
/// document is no schema.
pub uninterp spec fn schema_violation(schema: JsonView, instance: JsonView) -> Option<
    (Seq<char>, Seq<char>),
>;

/// Whether a schema finds nothing wrong with an instance.
pub open spec fn schema_admits(schema: JsonView, instance: JsonView) -> bool {
    schema_violation(schema, instance) is None
}

/// `jsonschema::validator_for`: whether a document compiles, named
/// [`schema_compiles`], or the words of its refusal. Nothing is said of the words:
/// of several references that cannot be retrieved, any may be the one they name.
#[verifier::external_body]
fn compile(schema: &serde_json::Value) -> (r: Result<(), String>)
    ensures
        r is Ok <==> schema_compiles(value_json(*schema)),
{
    match jsonschema::validator_for(schema) {
        Ok(_) => Ok(()),
        Err(failure) => Err(failure.to_string()),
    }
}

/// `jsonschema::Validator::iter_errors`, its first: the JSON pointer of what it is
/// about and its words, named [`schema_violation`].
#[verifier::external_body]
fn first_violation(schema: &serde_json::Value, instance: &serde_json::Value) -> (r: Option<
    (String, String),
>)
    ensures
        match r {
            Some((pointer, words)) => schema_violation(value_json(*schema), value_json(*instance))
                == Some((pointer@, words@)),
            None => schema_violation(value_json(*schema), value_json(*instance)) is None,
        },
{
    let validator = match jsonschema::validator_for(schema) {
        Ok(validator) => validator,
        Err(_) => return None,
    };
    let found = validator.iter_errors(instance).next();
    found.map(|violation| (violation.instance_path().to_string(), violation.to_string()))
}

// ---------------------------------------------------------------------------
// Ids.
// ---------------------------------------------------------------------------

/// What an id is.
pub struct SchemaIdView {
    pub namespace: Seq<char>,
    pub name: Seq<char>,
    pub version: nat,
}

/// Whether `c` may stand in a namespace or a name.
pub open spec fn is_part_char(c: char) -> bool {
    is_alphanumeric(c) || c == '-' || c == '_'
}

/// Whether `text` is a namespace or a name: at least one letter, digit, `-` or
/// `_`, and nothing else.
pub open spec fn is_part(text: Seq<char>) -> bool {
    text.len() > 0 && forall|i: int| 0 <= i < text.len() ==> is_part_char(#[trigger] text[i])
}

/// Whether an id is one: its parts are, and its version is a positive integer.
pub open spec fn is_schema_id(id: SchemaIdView) -> bool {
    is_part(id.namespace) && is_part(id.name) && 0 < id.version <= u32::MAX
}

/// An id as text.
pub open spec fn id_text(id: SchemaIdView) -> Seq<char> {
    id.namespace + "."@ + id.name + "@"@ + decimal(id.version)
}

/// An id without its version.
pub open spec fn family_of(id: SchemaIdView) -> Seq<char> {
    id.namespace + "."@ + id.name
}

/// What text is read as, or what is wrong with it: the version after the last
/// `@`, the namespace before the first `.` of the rest.
pub open spec fn parsed_id(text: Seq<char>) -> Result<SchemaIdView, Seq<char>> {
    match last_at(text, '@') {
        None => Err("it names no version"@),
        Some(at) => {
            let family = text.take(at);
            match first_at(family, '.') {
                None => Err("it names no namespace"@),
                Some(dot) => {
                    let namespace = family.take(dot);
                    let name = family.skip(dot + 1);
                    if namespace.len() == 0 {
                        Err("its namespace is empty"@)
                    } else if !is_part(namespace) {
                        Err("its namespace is not letters, digits, `-` and `_`"@)
                    } else if name.len() == 0 {
                        Err("its name is empty"@)
                    } else if !is_part(name) {
                        Err("its name is not letters, digits, `-` and `_`"@)
                    } else {
                        match unsigned_value(text.skip(at + 1), u32::MAX as nat) {
                            Some(version) => if version > 0 {
                                Ok(SchemaIdView { namespace, name, version })
                            } else {
                                Err("its version is not a positive integer"@)
                            },
                            None => Err("its version is not a positive integer"@),
                        }
                    }
                },
            }
        },
    }
}

/// `<namespace>.<name>@<version>`: which schema a message is.
#[derive(Debug, PartialEq, Eq, PartialOrd, Ord, Hash)]
pub struct SchemaId {
    namespace: String,
    name: String,
    version: u32,
}

/// Why text is not a [`SchemaId`].
#[derive(Debug, PartialEq, Eq)]
pub struct SchemaIdError {
    /// What was offered.
    pub text: String,
    /// What is wrong with it.
    pub why: String,
}

impl SchemaIdError {
    /// The refusal in words.
    pub fn message(&self) -> (r: String)
        ensures
            r@ == quoted(self.text@) + " is not a schema id: "@ + self.why@
                + "; a schema id is <namespace>.<name>@<version>, e.g. billing.invoice@1"@,
    {
        let text = quoted_of(self.text.as_str());
        cat4(
            text.as_str(),
            " is not a schema id: ",
            self.why.as_str(),
            "; a schema id is <namespace>.<name>@<version>, e.g. billing.invoice@1",
        )
    }
}

impl View for SchemaId {
    type V = SchemaIdView;

    closed spec fn view(&self) -> SchemaIdView {
        SchemaIdView {
            namespace: self.namespace@,
            name: self.name@,
            version: self.version as nat,
        }
    }
}

/// Whether `text` is a namespace or a name.
fn part(text: &str) -> (r: bool)
    ensures
        r == is_part(text@),
{
    let chars = chars_of(text);
    if chars.len() == 0 {
        return false;
    }
    let mut i: usize = 0;
    while i < chars.len()
        invariant
            i <= chars@.len(),
            chars@ == text@,
            forall|k: int| 0 <= k < i ==> is_part_char(#[trigger] text@[k]),
        decreases chars@.len() - i,
    {
        let c = chars[i];
        if !(alphanumeric(c) || c == '-' || c == '_') {
            proof {
                assert(!is_part_char(text@[i as int]));
            }
            return false;
        }
        i += 1;
    }
    true
}

impl SchemaId {
    #[verifier::type_invariant]
    closed spec fn well_formed(&self) -> bool {
        is_schema_id(self@)
    }

    /// An id from its literal parts.
    pub fn literal(namespace: &str, name: &str, version: u32) -> (r: Self)
        requires
            is_part(namespace@),
            is_part(name@),
            version > 0,
        ensures
            r@ == (SchemaIdView { namespace: namespace@, name: name@, version: version as nat }),
    {
        SchemaId { namespace: namespace.to_owned(), name: name.to_owned(), version }
    }

    /// `text` as an id.
    pub fn from_str(text: &str) -> (r: Result<Self, SchemaIdError>)
        ensures
            match r {
                Ok(id) => parsed_id(text@) is Ok && parsed_id(text@)->Ok_0 == id@,
                Err(e) => parsed_id(text@) is Err && e.text@ == text@ && e.why@ == parsed_id(
                    text@,
                )->Err_0,
            },
    {
        match SchemaId::parts_of(text) {
            Ok(id) => Ok(id),
            Err(why) => Err(SchemaIdError { text: text.to_owned(), why: why.to_owned() }),
        }
    }

    fn parts_of(text: &str) -> (r: Result<Self, &'static str>)
        ensures
            match r {
                Ok(id) => parsed_id(text@) is Ok && parsed_id(text@)->Ok_0 == id@,
                Err(why) => parsed_id(text@) is Err && why@ == parsed_id(text@)->Err_0,
            },
    {
        let chars = chars_of(text);
        let at = match last_of(&chars, '@') {
            None => {
                return Err("it names no version");
            },
            Some(at) => at,
        };
        let len: usize = chars.len();
        let family_text = string_of(&chars, 0, at);
        let family = chars_of(family_text.as_str());
        proof {
            assert(family@ =~= text@.take(at as int));
        }
        let dot = match first_of(&family, '.') {
            None => {
                return Err("it names no namespace");
            },
            Some(dot) => dot,
        };
        let namespace = string_of(&family, 0, dot);
        let name = string_of(&family, dot + 1, family.len());
        proof {
            assert(namespace@ =~= family@.take(dot as int));
            assert(name@ =~= family@.skip(dot + 1));
        }
        if namespace.as_str().is_empty() {
            return Err("its namespace is empty");
        }
        if !part(namespace.as_str()) {
            return Err("its namespace is not letters, digits, `-` and `_`");
        }
        if name.as_str().is_empty() {
            return Err("its name is empty");
        }
        if !part(name.as_str()) {
            return Err("its name is not letters, digits, `-` and `_`");
        }
        let version_text = string_of(&chars, at + 1, len);
        proof {
            assert(version_text@ =~= text@.skip(at + 1));
        }
        match parse_unsigned(version_text.as_str(), u32::MAX as u64) {
            None => Err("its version is not a positive integer"),
            Some(version) => {
                if version == 0 {
                    return Err("its version is not a positive integer");
                }
                Ok(SchemaId { namespace, name, version: version as u32 })
            },
        }
    }

    /// An id from its parts, refused as text would be.
    pub fn new(namespace: &str, name: &str, version: u32) -> (r: Result<Self, SchemaIdError>)
        ensures
            ({
                let text = namespace@ + "."@ + name@ + "@"@ + decimal(version as nat);
                match r {
                    Ok(id) => parsed_id(text) is Ok && parsed_id(text)->Ok_0 == id@,
                    Err(e) => parsed_id(text) is Err && e.text@ == text && e.why@ == parsed_id(
                        text,
                    )->Err_0,
                }
            }),
    {
        let number = decimal_of(version as u64);
        let text = cat5(namespace, ".", name, "@", number.as_str());
        SchemaId::from_str(text.as_str())
    }

    /// The namespace.
    pub fn namespace(&self) -> (r: &str)
        ensures
            r@ == self@.namespace,
    {
        self.namespace.as_str()
    }

    /// The name within the namespace.
    pub fn name(&self) -> (r: &str)
        ensures
            r@ == self@.name,
    {
        self.name.as_str()
    }

    /// The version.
    pub fn version(&self) -> (r: u32)
        ensures
            r as nat == self@.version,
            r > 0,
    {
        proof {
            use_type_invariant(self);
        }
        self.version
    }

    /// The id without its version.
    pub fn family(&self) -> (r: String)
        ensures
            r@ == family_of(self@),
    {
        cat3(self.namespace.as_str(), ".", self.name.as_str())
    }

    /// The id as text, which reads as the id again.
    pub fn to_text(&self) -> (r: String)
        ensures
            r@ == id_text(self@),
            parsed_id(r@) is Ok,
            parsed_id(r@)->Ok_0 == self@,
    {
        proof {
            use_type_invariant(self);
            schema_id_round_trip(self@);
        }
        let version = decimal_of(self.version as u64);
        cat5(self.namespace.as_str(), ".", self.name.as_str(), "@", version.as_str())
    }

    /// The same family at another version.
    pub fn at(&self, version: u32) -> (r: Self)
        requires
            version > 0,
        ensures
            r@ == (SchemaIdView { version: version as nat, ..self@ }),
    {
        proof {
            use_type_invariant(self);
        }
        SchemaId { namespace: self.namespace.clone(), name: self.name.clone(), version }
    }

    /// The same id.
    pub fn copied(&self) -> (r: Self)
        ensures
            r@ == self@,
    {
        proof {
            use_type_invariant(self);
        }
        SchemaId {
            namespace: self.namespace.clone(),
            name: self.name.clone(),
            version: self.version,
        }
    }

    /// Whether this is the id `other` is.
    pub fn equals(&self, other: &SchemaId) -> (r: bool)
        ensures
            r == (self@ == other@),
    {
        same_text(self.namespace.as_str(), other.namespace.as_str()) && same_text(
            self.name.as_str(),
            other.name.as_str(),
        ) && self.version == other.version
    }

    /// Whether this comes before `other`.
    pub fn is_before(&self, other: &SchemaId) -> (r: bool)
        ensures
            r == id_before(self@, other@),
    {
        if !same_text(self.namespace.as_str(), other.namespace.as_str()) {
            return is_before(self.namespace.as_str(), other.namespace.as_str());
        }
        if !same_text(self.name.as_str(), other.name.as_str()) {
            return is_before(self.name.as_str(), other.name.as_str());
        }
        self.version < other.version
    }
}

/// An id written as text reads as the id again.
pub proof fn schema_id_round_trip(id: SchemaIdView)
    requires
        is_schema_id(id),
    ensures
        parsed_id(id_text(id)) is Ok,
        parsed_id(id_text(id))->Ok_0 == id,
{
    reveal_strlit(".");
    reveal_strlit("@");
    let text = id_text(id);
    let digits = decimal(id.version);
    let at = (id.namespace.len() + 1 + id.name.len()) as int;
    let dot = id.namespace.len() as int;
    lemma_decimal_value(id.version);
    assert(text[at] == '@');
    assert forall|k: int| at < k < text.len() implies text[k] != '@' by {
        assert(text[k] == digits[k - at - 1]);
        assert(is_digit(digits[k - at - 1]));
    }
    lemma_last_at(text, '@', Some(at));
    let family = text.take(at);
    assert(family =~= id.namespace + "."@ + id.name);
    assert(family[dot] == '.');
    assert forall|k: int| 0 <= k < dot implies family[k] != '.' by {
        assert(family[k] == id.namespace[k]);
        assert(is_part_char(id.namespace[k]));
    }
    lemma_first_at(family, '.', Some(dot));
    assert(family.take(dot) =~= id.namespace);
    assert(family.skip(dot + 1) =~= id.name);
    assert(text.skip(at + 1) =~= digits);
    decimal_round_trip(id.version, u32::MAX as nat);
}

/// Whether one id comes before another: by namespace, then name, then version.
pub open spec fn id_before(a: SchemaIdView, b: SchemaIdView) -> bool {
    if a.namespace != b.namespace {
        text_before(a.namespace, b.namespace)
    } else if a.name != b.name {
        text_before(a.name, b.name)
    } else {
        a.version < b.version
    }
}

proof fn lemma_id_before_transitive(a: SchemaIdView, b: SchemaIdView, c: SchemaIdView)
    requires
        id_before(a, b),
        id_before(b, c),
    ensures
        id_before(a, c),
{
    lemma_before_total(a.namespace, b.namespace);
    lemma_before_total(b.namespace, c.namespace);
    lemma_before_total(a.namespace, c.namespace);
    lemma_before_total(a.name, b.name);
    lemma_before_total(b.name, c.name);
    lemma_before_total(a.name, c.name);
    if a.namespace != b.namespace && b.namespace != c.namespace {
        lemma_before_transitive(a.namespace, b.namespace, c.namespace);
    }
    if a.name != b.name && b.name != c.name && text_before(a.name, b.name) && text_before(
        b.name,
        c.name,
    ) {
        lemma_before_transitive(a.name, b.name, c.name);
    }
}

proof fn lemma_id_before_total(a: SchemaIdView, b: SchemaIdView)
    ensures
        id_before(a, b) || id_before(b, a) || a == b,
        !(id_before(a, b) && id_before(b, a)),
{
    lemma_before_total(a.namespace, b.namespace);
    lemma_before_total(a.name, b.name);
}

// ---------------------------------------------------------------------------
// The registry.
// ---------------------------------------------------------------------------

/// Why the registry refused.
#[derive(Debug, PartialEq, Eq)]
pub enum RegistryError {
    /// A second, different document was offered under an id already held.
    Conflict {
        /// The id both documents claimed.
        id: SchemaId,
    },
    /// The document is not a JSON Schema.
    NotASchema {
        /// The id it was offered under.
        id: SchemaId,
        /// What was said of it.
        why: String,
    },
    /// The id names nothing registered.
    Unknown {
        /// The id asked for.
        id: SchemaId,
        /// What is registered.
        known: String,
    },
}

/// A refusal in words.
pub open spec fn registry_error_words(error: RegistryError) -> Seq<char> {
    match error {
        RegistryError::Conflict { id } => id_text(id@)
            + " is already registered with a different document; register a new version instead"@,
        RegistryError::NotASchema { id, why } => id_text(id@)
            + ": the document is not a usable JSON Schema: "@ + why@,
        RegistryError::Unknown { id, known } => id_text(id@)
            + " is not a registered schema; registered: "@ + known@,
    }
}

impl RegistryError {
    /// The refusal in words.
    pub fn message(&self) -> (r: String)
        ensures
            r@ == registry_error_words(*self),
    {
        match self {
            RegistryError::Conflict { id } => {
                let id = id.to_text();
                cat2(
                    id.as_str(),
                    " is already registered with a different document; register a new version instead",
                )
            },
            RegistryError::NotASchema { id, why } => {
                let id = id.to_text();
                cat3(id.as_str(), ": the document is not a usable JSON Schema: ", why.as_str())
            },
            RegistryError::Unknown { id, known } => {
                let id = id.to_text();
                cat3(id.as_str(), " is not a registered schema; registered: ", known.as_str())
            },
        }
    }
}

/// A payload that does not conform to its schema.
#[derive(Debug, PartialEq, Eq)]
pub struct SchemaViolation {
    /// The schema the payload was checked against.
    pub id: SchemaId,
    /// The JSON pointer of the first violation, `""` for the document itself.
    pub pointer: String,
    /// What was said of it.
    pub message: String,
}

impl SchemaViolation {
    /// The violation in words.
    pub fn to_text(&self) -> (r: String)
        ensures
            r@ == id_text(self.id@) + ": at "@ + self.pointer@ + ": "@ + self.message@,
    {
        let id = self.id.to_text();
        cat5(id.as_str(), ": at ", self.pointer.as_str(), ": ", self.message.as_str())
    }
}

/// Whether a violation is the first a document, registered under `id`, finds in a
/// payload.
pub open spec fn is_violation(
    violation: SchemaViolation,
    id: SchemaIdView,
    document: JsonView,
    payload: JsonView,
) -> bool {
    &&& violation.id@ == id
    &&& schema_violation(settled(document), settled(payload)) == Some(
        (violation.pointer@, violation.message@),
    )
}

/// A violation in words.
pub open spec fn violation_text(id: SchemaIdView, violation: (Seq<char>, Seq<char>)) -> Seq<char> {
    id_text(id) + ": at "@ + violation.0 + ": "@ + violation.1
}

/// An id nothing is registered under, in words.
pub open spec fn unknown_words(
    registry: Seq<(SchemaIdView, JsonView)>,
    id: SchemaIdView,
) -> Seq<char> {
    id_text(id) + " is not a registered schema; registered: "@ + known_words(registry)
}

/// Why a check did not pass.
#[derive(Debug, PartialEq, Eq)]
pub enum CheckError {
    /// The id names nothing registered.
    Registry(RegistryError),
    /// The payload does not conform.
    Violation(SchemaViolation),
}

/// How a declared version of a family is read.
#[derive(Debug, PartialEq, Eq)]
pub enum Read {
    /// Read as the version written.
    At(u32),
    /// Not a version read.
    Unknown(UnknownVersion),
}

/// A declared version outside a family's read set.
#[derive(Debug, PartialEq, Eq)]
pub struct UnknownVersion {
    /// The family the version was declared for.
    pub family: String,
    /// The version the document declared.
    pub declared: u32,
    /// The versions read, newest first.
    pub read_set: Vec<u32>,
}

/// The versions of a read set, each in decimal.
pub open spec fn version_words(read_set: Seq<u32>) -> Seq<Seq<char>> {
    Seq::new(read_set.len(), |i: int| decimal(read_set[i] as nat))
}

/// A read set in words.
pub open spec fn read_set_words(read_set: Seq<u32>) -> Seq<char> {
    if read_set.len() == 0 {
        "no version of it"@
    } else {
        "["@ + joined(version_words(read_set), ", "@) + "]"@
    }
}

/// A read set in words.
fn read_set_text(read_set: &Vec<u32>) -> (r: String)
    ensures
        r@ == read_set_words(read_set@),
{
    if read_set.len() == 0 {
        return "no version of it".to_owned();
    }
    let mut out: Vec<String> = Vec::new();
    let mut i: usize = 0;
    while i < read_set.len()
        invariant
            i <= read_set@.len(),
            texts(out@) =~= version_words(read_set@).take(i as int),
        decreases read_set@.len() - i,
    {
        let ghost before = texts(out@);
        out.push(decimal_of(read_set[i] as u64));
        proof {
            assert(texts(out@) =~= before.push(version_words(read_set@)[i as int]));
        }
        i += 1;
    }
    proof {
        assert(texts(out@) =~= version_words(read_set@));
    }
    let listed = join(&out, ", ");
    cat3("[", listed.as_str(), "]")
}

impl UnknownVersion {
    /// The refusal in words.
    pub fn message(&self) -> (r: String)
        ensures
            r@ == self.family@ + "@"@ + decimal(self.declared as nat)
                + " is not a version this build reads; it reads "@ + read_set_words(
                self.read_set@,
            ),
    {
        let declared = decimal_of(self.declared as u64);
        let listed = read_set_text(&self.read_set);
        cat5(
            self.family.as_str(),
            "@",
            declared.as_str(),
            " is not a version this build reads; it reads ",
            listed.as_str(),
        )
    }
}

/// The document held under an id.
pub open spec fn held(entries: Seq<(SchemaIdView, JsonView)>, id: SchemaIdView) -> Option<JsonView>
    decreases entries.len(),
{
    if entries.len() == 0 {
        None
    } else if entries[0].0 == id {
        Some(entries[0].1)
    } else {
        held(entries.skip(1), id)
    }
}

/// The entries with one more, before the first whose id comes after it.
pub open spec fn placed(
    entries: Seq<(SchemaIdView, JsonView)>,
    id: SchemaIdView,
    document: JsonView,
) -> Seq<(SchemaIdView, JsonView)>
    decreases entries.len(),
{
    if entries.len() == 0 {
        seq![(id, document)]
    } else if id_before(id, entries[0].0) {
        seq![(id, document)] + entries
    } else {
        seq![entries[0]] + placed(entries.skip(1), id, document)
    }
}

/// Whether entries are in the order of their ids, each id once.
pub open spec fn ids_in_order(entries: Seq<(SchemaIdView, JsonView)>) -> bool {
    forall|i: int, j: int|
        0 <= i < j < entries.len() ==> id_before((#[trigger] entries[i]).0, (#[trigger] entries[j]).0)
}

/// Whether `version` of `family` is registered.
pub open spec fn has_version(
    entries: Seq<(SchemaIdView, JsonView)>,
    family: Seq<char>,
    version: nat,
) -> bool {
    exists|i: int|
        0 <= i < entries.len() && family_of((#[trigger] entries[i]).0) == family
            && entries[i].0.version == version
}

/// Whether `versions` are the ones registered of `family`, newest first.
pub open spec fn is_read_set(
    entries: Seq<(SchemaIdView, JsonView)>,
    family: Seq<char>,
    versions: Seq<u32>,
) -> bool {
    &&& forall|i: int, j: int| 0 <= i < j < versions.len() ==> versions[i] > versions[j]
    &&& forall|v: u32| #[trigger]
        versions.contains(v) <==> has_version(entries, family, v as nat)
}

/// The ids of a registry as text.
pub open spec fn id_words(entries: Seq<(SchemaIdView, JsonView)>) -> Seq<Seq<char>> {
    Seq::new(entries.len(), |i: int| id_text(entries[i].0))
}

/// What is registered, in words.
pub open spec fn known_words(entries: Seq<(SchemaIdView, JsonView)>) -> Seq<char> {
    if entries.len() == 0 {
        "nothing"@
    } else {
        joined(id_words(entries), ", "@)
    }
}

/// One registered document.
#[derive(Debug)]
struct Registered {
    id: SchemaId,
    document: Json,
}

/// The schemas known, by id.
#[derive(Debug)]
pub struct Registry {
    schemas: Vec<Registered>,
}

spec fn registered_view(schemas: Seq<Registered>) -> Seq<(SchemaIdView, JsonView)> {
    Seq::new(schemas.len(), |i: int| (schemas[i].id@, schemas[i].document@))
}

impl View for Registry {
    type V = Seq<(SchemaIdView, JsonView)>;

    closed spec fn view(&self) -> Seq<(SchemaIdView, JsonView)> {
        registered_view(self.schemas@)
    }
}

/// Whether a version is among `versions`.
fn has(versions: &Vec<u32>, version: u32) -> (r: bool)
    ensures
        r == versions@.contains(version),
{
    let mut i: usize = 0;
    while i < versions.len()
        invariant
            i <= versions@.len(),
            forall|k: int| 0 <= k < i ==> versions@[k] != version,
        decreases versions@.len() - i,
    {
        if versions[i] == version {
            proof {
                assert(versions@[i as int] == version);
            }
            return true;
        }
        i += 1;
    }
    false
}

/// Puts `version` among versions newest first.
fn place_version(versions: &mut Vec<u32>, version: u32)
    requires
        forall|i: int, j: int|
            0 <= i < j < old(versions)@.len() ==> old(versions)@[i] > old(versions)@[j],
    ensures
        forall|i: int, j: int|
            0 <= i < j < final(versions)@.len() ==> final(versions)@[i] > final(versions)@[j],
        forall|v: u32| #[trigger]
            final(versions)@.contains(v) <==> (v == version || old(versions)@.contains(v)),
{
    let ghost before = versions@;
    let mut i: usize = 0;
    while i < versions.len() && versions[i] > version
        invariant
            i <= versions@.len(),
            versions@ == before,
            forall|k: int| 0 <= k < i ==> before[k] > version,
        decreases versions@.len() - i,
    {
        i += 1;
    }
    if i < versions.len() && versions[i] == version {
        proof {
            assert(before.contains(version));
        }
        return;
    }
    versions.insert(i, version);
    proof {
        let after = versions@;
        assert(after =~= before.take(i as int).push(version) + before.skip(i as int));
        assert forall|a: int, b: int| 0 <= a < b < after.len() implies after[a] > after[b] by {
            if b == i {
                assert(after[a] == before[a]);
            } else if a == i {
                assert(after[b] == before[b - 1]);
                assert(before[i as int] < version);
                if b - 1 > i {
                    assert(before[i as int] > before[b - 1]);
                }
            } else if a < i && b > i {
                assert(after[a] == before[a] && after[b] == before[b - 1]);
            } else if a < i {
                assert(after[a] == before[a] && after[b] == before[b]);
            } else {
                assert(after[a] == before[a - 1] && after[b] == before[b - 1]);
            }
        }
        assert forall|v: u32| #[trigger] after.contains(v) <==> (v == version
            || before.contains(v)) by {
            if before.contains(v) {
                let k = choose|k: int| 0 <= k < before.len() && before[k] == v;
                if k < i {
                    assert(after[k] == v);
                } else {
                    assert(after[k + 1] == v);
                }
            }
            if v == version {
                assert(after[i as int] == v);
            }
            if after.contains(v) && v != version {
                let k = choose|k: int| 0 <= k < after.len() && after[k] == v;
                if k < i {
                    assert(before[k] == v);
                } else {
                    assert(before[k - 1] == v);
                }
            }
        }
    }
}

proof fn lemma_placed_in_order(
    entries: Seq<(SchemaIdView, JsonView)>,
    id: SchemaIdView,
    document: JsonView,
)
    requires
        ids_in_order(entries),
        held(entries, id) is None,
    ensures
        ids_in_order(placed(entries, id, document)),
        forall|i: int|
            0 <= i < placed(entries, id, document).len() ==> (#[trigger] placed(
                entries,
                id,
                document,
            )[i]).0 == id || exists|k: int|
                0 <= k < entries.len() && placed(entries, id, document)[i].0 == (
                #[trigger] entries[k]).0,
    decreases entries.len(),
{
    let all = placed(entries, id, document);
    if entries.len() == 0 {
    } else if id_before(id, entries[0].0) {
        assert forall|i: int, j: int| 0 <= i < j < all.len() implies id_before(
            (#[trigger] all[i]).0,
            (#[trigger] all[j]).0,
        ) by {
            assert(all[j] == entries[j - 1]);
            if i == 0 {
                if j > 1 {
                    lemma_id_before_transitive(id, entries[0].0, entries[j - 1].0);
                }
            } else {
                assert(all[i] == entries[i - 1]);
            }
        }
        assert forall|i: int| 0 <= i < all.len() implies (#[trigger] all[i]).0 == id || exists|
            k: int,
        | 0 <= k < entries.len() && all[i].0 == (#[trigger] entries[k]).0 by {
            if i > 0 {
                assert(all[i].0 == entries[i - 1].0);
            }
        }
    } else {
        let tail = entries.skip(1);
        assert forall|i: int, j: int| 0 <= i < j < tail.len() implies id_before(
            (#[trigger] tail[i]).0,
            (#[trigger] tail[j]).0,
        ) by {
            assert(tail[i] == entries[i + 1]);
            assert(tail[j] == entries[j + 1]);
        }
        lemma_placed_in_order(tail, id, document);
        let rest = placed(tail, id, document);
        assert(all =~= seq![entries[0]] + rest);
        lemma_id_before_total(id, entries[0].0);
        assert forall|i: int, j: int| 0 <= i < j < all.len() implies id_before(
            (#[trigger] all[i]).0,
            (#[trigger] all[j]).0,
        ) by {
            assert(all[j] == rest[j - 1]);
            if i == 0 {
                if rest[j - 1].0 != id {
                    let k = choose|k: int|
                        0 <= k < tail.len() && rest[j - 1].0 == (#[trigger] tail[k]).0;
                    assert(tail[k] == entries[k + 1]);
                }
            } else {
                assert(all[i] == rest[i - 1]);
            }
        }
        assert forall|i: int| 0 <= i < all.len() implies (#[trigger] all[i]).0 == id || exists|
            k: int,
        | 0 <= k < entries.len() && all[i].0 == (#[trigger] entries[k]).0 by {
            if i == 0 {
                assert(all[i].0 == entries[0].0);
            } else {
                assert(all[i] == rest[i - 1]);
                if rest[i - 1].0 != id {
                    let k = choose|k: int|
                        0 <= k < tail.len() && rest[i - 1].0 == (#[trigger] tail[k]).0;
                    assert(tail[k] == entries[k + 1]);
                }
            }
        }
    }
}

/// A document just placed is the one held under its id; every other id keeps
/// what it had.
pub proof fn lemma_held_placed(
    entries: Seq<(SchemaIdView, JsonView)>,
    id: SchemaIdView,
    document: JsonView,
    sought: SchemaIdView,
)
    requires
        held(entries, id) is None,
    ensures
        held(placed(entries, id, document), sought) == if sought == id {
            Some(document)
        } else {
            held(entries, sought)
        },
    decreases entries.len(),
{
    reveal_with_fuel(held, 2);
    if entries.len() == 0 {
        assert(seq![(id, document)].skip(1) =~= Seq::<(SchemaIdView, JsonView)>::empty());
    } else if id_before(id, entries[0].0) {
        assert((seq![(id, document)] + entries).skip(1) =~= entries);
    } else {
        lemma_held_placed(entries.skip(1), id, document, sought);
        let rest = placed(entries.skip(1), id, document);
        assert((seq![entries[0]] + rest).skip(1) =~= rest);
    }
}

impl Registry {
    #[verifier::type_invariant]
    closed spec fn well_formed(&self) -> bool {
        ids_in_order(registered_view(self.schemas@))
    }

    /// An empty registry.
    pub fn new() -> (r: Self)
        ensures
            r@ == Seq::<(SchemaIdView, JsonView)>::empty(),
    {
        let r = Registry { schemas: Vec::new() };
        proof {
            assert(registered_view(r.schemas@) =~= Seq::<(SchemaIdView, JsonView)>::empty());
        }
        r
    }

    /// Where the document under `id` is kept.
    fn find(&self, id: &SchemaId) -> (r: Option<usize>)
        ensures
            match r {
                Some(at) => at < self.schemas@.len() && held(self@, id@) == Some(
                    self.schemas@[at as int].document@,
                ),
                None => held(self@, id@) is None,
            },
    {
        let ghost all = self@;
        let mut i: usize = 0;
        proof {
            assert(all.skip(0) =~= all);
        }
        while i < self.schemas.len()
            invariant
                i <= self.schemas@.len(),
                all == registered_view(self.schemas@),
                held(all, id@) == held(all.skip(i as int), id@),
            decreases self.schemas@.len() - i,
        {
            if self.schemas[i].id.equals(id) {
                return Some(i);
            }
            proof {
                assert(all.skip(i as int).skip(1) =~= all.skip(i + 1));
            }
            i += 1;
        }
        None
    }

    /// Records a JSON Schema under `id`. Registering an equal document twice is
    /// fine; a different one is refused.
    pub fn register_schema(&mut self, id: SchemaId, schema: Json) -> (r: Result<
        (),
        RegistryError,
    >)
        ensures
            ids_in_order(final(self)@),
            match r {
                Ok(()) => match held(old(self)@, id@) {
                    Some(document) => same(document, schema@) && final(self)@ == old(self)@,
                    None => schema_compiles(settled(schema@)) && final(self)@ == placed(
                        old(self)@,
                        id@,
                        schema@,
                    ),
                },
                Err(RegistryError::Conflict { id: named }) => {
                    &&& named@ == id@
                    &&& held(old(self)@, id@) is Some
                    &&& !same(held(old(self)@, id@)->0, schema@)
                    &&& final(self)@ == old(self)@
                },
                Err(RegistryError::NotASchema { id: named, why }) => {
                    &&& named@ == id@
                    &&& held(old(self)@, id@) is None
                    &&& !schema_compiles(settled(schema@))
                    &&& final(self)@ == old(self)@
                },
                Err(RegistryError::Unknown { .. }) => false,
            },
    {
        proof {
            use_type_invariant(&*self);
        }
        if let Some(at) = self.find(&id) {
            if self.schemas[at].document.equals(&schema) {
                return Ok(());
            }
            return Err(RegistryError::Conflict { id });
        }
        let value = value_from_json(&schema);
        if let Err(why) = compile(&value) {
            return Err(RegistryError::NotASchema { id, why });
        }
        let mut schemas: Vec<Registered> = Vec::new();
        core::mem::swap(&mut schemas, &mut self.schemas);
        let ghost all = registered_view(schemas@);
        proof {
            lemma_placed_in_order(all, id@, schema@);
            assert(all.skip(0) =~= all);
            assert(all.take(0) + placed(all.skip(0), id@, schema@) =~= placed(all, id@, schema@));
        }
        let mut i: usize = 0;
        while i < schemas.len() && !id.is_before(&schemas[i].id)
            invariant
                i <= schemas@.len(),
                all == registered_view(schemas@),
                all.take(i as int) + placed(all.skip(i as int), id@, schema@) =~= placed(
                    all,
                    id@,
                    schema@,
                ),
            decreases schemas@.len() - i,
        {
            proof {
                assert(all.skip(i as int).skip(1) =~= all.skip(i + 1));
                assert(all.take(i + 1) =~= all.take(i as int) + seq![all[i as int]]);
            }
            i += 1;
        }
        let ghost put = (id@, schema@);
        schemas.insert(i, Registered { id, document: schema });
        proof {
            assert(registered_view(schemas@) =~= all.take(i as int) + (seq![put] + all.skip(
                i as int,
            )));
            if i == all.len() {
                assert(all.skip(i as int) =~= Seq::<(SchemaIdView, JsonView)>::empty());
                assert(seq![put] + all.skip(i as int) =~= seq![put]);
            }
        }
        self.schemas = schemas;
        Ok(())
    }

    /// The same registry.
    pub fn copied(&self) -> (r: Self)
        ensures
            r@ == self@,
            ids_in_order(r@),
    {
        proof {
            use_type_invariant(self);
        }
        let mut schemas: Vec<Registered> = Vec::new();
        let mut i: usize = 0;
        while i < self.schemas.len()
            invariant
                i <= self.schemas@.len(),
                registered_view(schemas@) =~= self@.take(i as int),
            decreases self.schemas@.len() - i,
        {
            let ghost before = registered_view(schemas@);
            schemas.push(
                Registered {
                    id: self.schemas[i].id.copied(),
                    document: self.schemas[i].document.copied(),
                },
            );
            proof {
                assert(registered_view(schemas@) =~= before.push(self@[i as int]));
            }
            i += 1;
        }
        proof {
            assert(registered_view(schemas@) =~= self@);
        }
        Registry { schemas }
    }

    /// How many ids are registered.
    pub fn len(&self) -> (r: usize)
        ensures
            r == self@.len(),
    {
        self.schemas.len()
    }

    /// The id at `i`, in order.
    pub fn id_at(&self, i: usize) -> (r: &SchemaId)
        requires
            i < self@.len(),
        ensures
            r@ == self@[i as int].0,
    {
        &self.schemas[i].id
    }

    /// The document at `i`, in the order of ids.
    pub fn document_at(&self, i: usize) -> (r: &Json)
        requires
            i < self@.len(),
        ensures
            r@ == self@[i as int].1,
    {
        &self.schemas[i].document
    }

    /// Every registered id, in order.
    pub fn ids(&self) -> (r: Vec<SchemaId>)
        ensures
            r@.len() == self@.len(),
            forall|i: int| 0 <= i < r@.len() ==> (#[trigger] r@[i])@ == self@[i].0,
            ids_in_order(self@),
    {
        proof {
            use_type_invariant(self);
        }
        let mut out: Vec<SchemaId> = Vec::new();
        let mut i: usize = 0;
        while i < self.schemas.len()
            invariant
                i == out@.len(),
                i <= self.schemas@.len(),
                forall|k: int| 0 <= k < i ==> (#[trigger] out@[k])@ == self@[k].0,
            decreases self.schemas@.len() - i,
        {
            out.push(self.schemas[i].id.copied());
            i += 1;
        }
        out
    }

    /// The document registered under `id`.
    pub fn schema(&self, id: &SchemaId) -> (r: Option<&Json>)
        ensures
            match r {
                Some(document) => held(self@, id@) == Some(document@),
                None => held(self@, id@) is None,
            },
    {
        match self.find(id) {
            Some(at) => Some(&self.schemas[at].document),
            None => None,
        }
    }

    /// Every registered id as text, in order.
    pub fn id_texts(&self) -> (r: Vec<String>)
        ensures
            texts(r@) == id_words(self@),
    {
        let mut out: Vec<String> = Vec::new();
        let mut i: usize = 0;
        while i < self.schemas.len()
            invariant
                i <= self.schemas@.len(),
                texts(out@) =~= id_words(self@).take(i as int),
            decreases self.schemas@.len() - i,
        {
            let ghost before = texts(out@);
            out.push(self.schemas[i].id.to_text());
            proof {
                assert(texts(out@) =~= before.push(id_words(self@)[i as int]));
            }
            i += 1;
        }
        proof {
            assert(texts(out@) =~= id_words(self@));
        }
        out
    }

    /// What is registered, in words.
    fn known(&self) -> (r: String)
        ensures
            r@ == known_words(self@),
    {
        if self.schemas.len() == 0 {
            return "nothing".to_owned();
        }
        let ids = self.id_texts();
        join(&ids, ", ")
    }

    /// Validates `payload` against the document registered under `id`.
    pub fn check(&self, id: &SchemaId, payload: &Json) -> (r: Result<(), CheckError>)
        ensures
            match r {
                Ok(()) => held(self@, id@) is Some && schema_admits(
                    settled(held(self@, id@)->0),
                    settled(payload@),
                ),
                Err(CheckError::Violation(violation)) => held(self@, id@) is Some && is_violation(
                    violation,
                    id@,
                    held(self@, id@)->0,
                    payload@,
                ),
                Err(CheckError::Registry(RegistryError::Unknown { id: named, known })) => held(
                    self@,
                    id@,
                ) is None && named@ == id@ && known@ == known_words(self@),
                Err(_) => false,
            },
    {
        match self.find(id) {
            None => Err(
                CheckError::Registry(
                    RegistryError::Unknown { id: id.copied(), known: self.known() },
                ),
            ),
            Some(at) => {
                let schema = value_from_json(&self.schemas[at].document);
                let instance = value_from_json(payload);
                match first_violation(&schema, &instance) {
                    None => Ok(()),
                    Some((pointer, message)) => Err(
                        CheckError::Violation(
                            SchemaViolation { id: id.copied(), pointer, message },
                        ),
                    ),
                }
            },
        }
    }

    /// The versions of `family` read, newest first.
    pub fn read_set(&self, family: &str) -> (r: Vec<u32>)
        ensures
            is_read_set(self@, family@, r@),
    {
        let ghost all = self@;
        let mut out: Vec<u32> = Vec::new();
        let mut i: usize = 0;
        while i < self.schemas.len()
            invariant
                i <= self.schemas@.len(),
                all == registered_view(self.schemas@),
                forall|a: int, b: int| 0 <= a < b < out@.len() ==> out@[a] > out@[b],
                forall|v: u32| #[trigger]
                    out@.contains(v) <==> has_version(all.take(i as int), family@, v as nat),
            decreases self.schemas@.len() - i,
        {
            let id = &self.schemas[i].id;
            let of = id.family();
            let ghost before = out@;
            if same_text(of.as_str(), family) {
                let version = id.version();
                place_version(&mut out, version);
                proof {
                    assert forall|v: u32| #[trigger] out@.contains(v) <==> has_version(
                        all.take(i + 1),
                        family@,
                        v as nat,
                    ) by {
                        lemma_has_version_step(all, i as int, family@, v as nat);
                        assert(before.contains(v) <==> has_version(
                            all.take(i as int),
                            family@,
                            v as nat,
                        ));
                    }
                }
            } else {
                proof {
                    assert forall|v: u32| #[trigger] out@.contains(v) <==> has_version(
                        all.take(i + 1),
                        family@,
                        v as nat,
                    ) by {
                        lemma_has_version_step(all, i as int, family@, v as nat);
                    }
                }
            }
            i += 1;
        }
        proof {
            assert(all.take(i as int) =~= all);
        }
        out
    }

    /// The version of `family` written: the newest read.
    pub fn writes(&self, family: &str) -> (r: Option<u32>)
        ensures
            match r {
                Some(version) => has_version(self@, family@, version as nat) && forall|v: u32|
                    #[trigger] has_version(self@, family@, v as nat) ==> v <= version,
                None => forall|v: u32| !#[trigger] has_version(self@, family@, v as nat),
            },
    {
        let versions = self.read_set(family);
        if versions.len() == 0 {
            proof {
                assert forall|v: u32| !#[trigger] has_version(self@, family@, v as nat) by {
                    assert(!versions@.contains(v));
                }
            }
            return None;
        }
        proof {
            assert(versions@.contains(versions@[0]));
            assert forall|v: u32| #[trigger] has_version(self@, family@, v as nat) implies v
                <= versions@[0] by {
                assert(versions@.contains(v));
                let k = choose|k: int| 0 <= k < versions@.len() && versions@[k] == v;
                if k > 0 {
                    assert(versions@[0] > versions@[k]);
                }
            }
        }
        Some(versions[0])
    }

    /// How a document of `family` declaring `declared` is read: a version in the
    /// read set as the version written, and no other at all.
    pub fn read_at(&self, family: &str, declared: u32) -> (r: Read)
        ensures
            match r {
                Read::At(writes) => {
                    &&& has_version(self@, family@, declared as nat)
                    &&& has_version(self@, family@, writes as nat)
                    &&& forall|v: u32| #[trigger]
                        has_version(self@, family@, v as nat) ==> v <= writes
                },
                Read::Unknown(unknown) => {
                    &&& !has_version(self@, family@, declared as nat)
                    &&& unknown.family@ == family@
                    &&& unknown.declared == declared
                    &&& is_read_set(self@, family@, unknown.read_set@)
                },
            },
    {
        let read_set = self.read_set(family);
        if has(&read_set, declared) {
            proof {
                assert(read_set@.contains(read_set@[0]));
                assert forall|v: u32| #[trigger] has_version(self@, family@, v as nat) implies v
                    <= read_set@[0] by {
                    assert(read_set@.contains(v));
                    let k = choose|k: int| 0 <= k < read_set@.len() && read_set@[k] == v;
                    if k > 0 {
                        assert(read_set@[0] > read_set@[k]);
                    }
                }
            }
            Read::At(read_set[0])
        } else {
            Read::Unknown(UnknownVersion { family: family.to_owned(), declared, read_set })
        }
    }
}

proof fn lemma_has_version_step(
    entries: Seq<(SchemaIdView, JsonView)>,
    i: int,
    family: Seq<char>,
    version: nat,
)
    requires
        0 <= i < entries.len(),
    ensures
        has_version(entries.take(i + 1), family, version) <==> (has_version(
            entries.take(i),
            family,
            version,
        ) || (family_of(entries[i].0) == family && entries[i].0.version == version)),
{
    let longer = entries.take(i + 1);
    let shorter = entries.take(i);
    if has_version(shorter, family, version) {
        let k = choose|k: int|
            0 <= k < shorter.len() && family_of((#[trigger] shorter[k]).0) == family
                && shorter[k].0.version == version;
        assert(longer[k] == shorter[k]);
    }
    if family_of(entries[i].0) == family && entries[i].0.version == version {
        assert(longer[i] == entries[i]);
    }
    if has_version(longer, family, version) {
        let k = choose|k: int|
            0 <= k < longer.len() && family_of((#[trigger] longer[k]).0) == family
                && longer[k].0.version == version;
        if k < i {
            assert(shorter[k] == longer[k]);
        }
    }
}

/// Forward-carry: every version in a family's read set is read as one and the
/// same version, the newest in it.
pub proof fn versions_carry_forward(
    entries: Seq<(SchemaIdView, JsonView)>,
    family: Seq<char>,
    read_set: Seq<u32>,
    a: u32,
)
    requires
        is_read_set(entries, family, read_set),
        has_version(entries, family, a as nat),
    ensures
        read_set.len() > 0,
        a <= read_set[0],
        has_version(entries, family, read_set[0] as nat),
{
    assert(read_set.contains(a));
    let k = choose|k: int| 0 <= k < read_set.len() && read_set[k] == a;
    if k > 0 {
        assert(read_set[0] > read_set[k]);
    }
    assert(read_set.contains(read_set[0]));
}

} // verus!
