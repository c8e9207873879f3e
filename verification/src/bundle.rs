//! Schema bundles: a declared version and the registry documents it publishes.

use crate::filter::text_view;
use crate::json::{
    Json, JsonView, field, fields_view, get_field, group_json_views, items_view, member,
    parsed_json, reads_as, refused_as, same, settled,
};
use crate::schema::{
    Registry, RegistryError, SchemaId, SchemaIdView, held, id_text, parsed_id, placed,
    schema_compiles,
};
use crate::text::{
    all_digits, cat2, cat3, cat4, cat7, chars_of, decimal, decimal_of, digits_value, is_before,
    is_digit, lemma_before_irreflexive, lemma_before_total, lemma_before_transitive,
    parse_unsigned, quoted, quoted_of, same_text, split, split_on, text_before, texts,
    unsigned_part,
};
use vstd::prelude::*;

verus! {

// ---------------------------------------------------------------------------
// Versions.
// ---------------------------------------------------------------------------

/// Whether `piece` is a component of a version: a non-negative integer.
pub open spec fn is_version_piece(piece: Seq<char>) -> bool {
    all_digits(piece) && digits_value(piece) <= u64::MAX
}

/// Whether `text` is a version: one to three components, between dots.
pub open spec fn is_version(text: Seq<char>) -> bool {
    let pieces = split_on(text, '.');
    pieces.len() <= 3 && forall|i: int|
        0 <= i < pieces.len() ==> is_version_piece(#[trigger] pieces[i])
}

/// The components of a version.
pub open spec fn version_parts(text: Seq<char>) -> Seq<nat> {
    let pieces = split_on(text, '.');
    Seq::new(pieces.len(), |i: int| digits_value(pieces[i]))
}

/// The component at `i`, a missing one read as 0.
pub open spec fn part_at(text: Seq<char>, i: int) -> nat {
    if 0 <= i < version_parts(text).len() {
        version_parts(text)[i]
    } else {
        0
    }
}

/// Whether a pin admits a declared version: every component the pin names is
/// the declared version's, a missing one read as 0.
pub open spec fn pin_admits(pin: Seq<char>, declared: Seq<char>) -> bool {
    forall|i: int|
        0 <= i < version_parts(pin).len() ==> #[trigger] part_at(pin, i) == part_at(declared, i)
}

/// Whether version `a` is older than `b`: component by component with missing
/// ones read as 0, then the shorter spelling, then the text.
pub open spec fn version_before(a: Seq<char>, b: Seq<char>) -> bool {
    if part_at(a, 0) != part_at(b, 0) {
        part_at(a, 0) < part_at(b, 0)
    } else if part_at(a, 1) != part_at(b, 1) {
        part_at(a, 1) < part_at(b, 1)
    } else if part_at(a, 2) != part_at(b, 2) {
        part_at(a, 2) < part_at(b, 2)
    } else if version_parts(a).len() != version_parts(b).len() {
        version_parts(a).len() < version_parts(b).len()
    } else {
        text_before(a, b)
    }
}

/// A version a bundle declares, or a pin asks for: one to three dot-separated
/// non-negative integers.
#[derive(Debug)]
pub struct BundleVersion {
    text: String,
    parts: Vec<u64>,
}

impl View for BundleVersion {
    type V = Seq<char>;

    closed spec fn view(&self) -> Seq<char> {
        self.text@
    }
}

/// Why text is not a version.
#[derive(Debug)]
pub struct VersionError {
    /// What was offered.
    pub text: String,
}

/// What text that is no version is refused with.
pub open spec fn version_error_words(text: Seq<char>) -> Seq<char> {
    quoted(text)
        + " is not a version: one to three dot-separated non-negative integers, e.g. 8, 8.1 or 8.1.2"@
}

impl VersionError {
    /// The refusal in words.
    pub fn message(&self) -> (r: String)
        ensures
            r@ == version_error_words(self.text@),
    {
        let shown = quoted_of(self.text.as_str());
        cat2(
            shown.as_str(),
            " is not a version: one to three dot-separated non-negative integers, e.g. 8, 8.1 or 8.1.2",
        )
    }
}

impl BundleVersion {
    #[verifier::type_invariant]
    closed spec fn well_formed(&self) -> bool {
        &&& is_version(self.text@)
        &&& self.parts@.len() == version_parts(self.text@).len()
        &&& forall|i: int|
            0 <= i < self.parts@.len() ==> #[trigger] self.parts@[i] == version_parts(self.text@)[i]
    }

    /// Reads a version.
    pub fn from_str(text: &str) -> (r: Result<Self, VersionError>)
        ensures
            match r {
                Ok(version) => is_version(text@) && version@ == text@,
                Err(e) => !is_version(text@) && e.text@ == text@,
            },
    {
        let pieces = split(text, '.');
        if pieces.len() > 3 {
            proof {
                assert(texts(pieces@).len() == pieces@.len());
            }
            return Err(VersionError { text: text.to_owned() });
        }
        let mut parts: Vec<u64> = Vec::new();
        let mut i: usize = 0;
        while i < pieces.len()
            invariant
                i <= pieces@.len() <= 3,
                texts(pieces@) == split_on(text@, '.'),
                parts@.len() == i,
                forall|k: int| 0 <= k < i ==> is_version_piece(#[trigger] texts(pieces@)[k]),
                forall|k: int|
                    0 <= k < i ==> #[trigger] parts@[k] == digits_value(texts(pieces@)[k]),
            decreases pieces@.len() - i,
        {
            let piece = pieces[i].as_str();
            let ghost said = texts(pieces@)[i as int];
            let chars = chars_of(piece);
            let signed = chars.len() > 0 && chars[0] == '+';
            match parse_unsigned(piece, u64::MAX) {
                Some(n) if !signed => {
                    proof {
                        assert(unsigned_part(said) == said);
                    }
                    parts.push(n);
                },
                _ => {
                    proof {
                        if signed {
                            assert(!is_digit(said[0]));
                        } else {
                            assert(unsigned_part(said) == said);
                        }
                        assert(!is_version_piece(split_on(text@, '.')[i as int]));
                    }
                    return Err(VersionError { text: text.to_owned() });
                },
            }
            i += 1;
        }
        Ok(BundleVersion { text: text.to_owned(), parts })
    }

    /// The components, as written.
    pub fn parts(&self) -> (r: &Vec<u64>)
        ensures
            r@.len() == version_parts(self@).len(),
            forall|i: int| 0 <= i < r@.len() ==> #[trigger] r@[i] == version_parts(self@)[i],
    {
        proof {
            use_type_invariant(self);
        }
        &self.parts
    }

    /// The version as it was written.
    pub fn as_str(&self) -> (r: &str)
        ensures
            r@ == self@,
            is_version(self@),
    {
        proof {
            use_type_invariant(self);
        }
        self.text.as_str()
    }

    /// The same version.
    pub fn copied(&self) -> (r: Self)
        ensures
            r@ == self@,
    {
        proof {
            use_type_invariant(self);
        }
        let mut parts: Vec<u64> = Vec::new();
        let mut i: usize = 0;
        while i < self.parts.len()
            invariant
                i <= self.parts@.len(),
                parts@ =~= self.parts@.take(i as int),
            decreases self.parts@.len() - i,
        {
            parts.push(self.parts[i]);
            i += 1;
        }
        proof {
            assert(parts@ =~= self.parts@);
        }
        BundleVersion { text: self.text.clone(), parts }
    }

    /// The component at `index`, a missing one read as 0.
    fn at(&self, index: usize) -> (r: u64)
        ensures
            r == part_at(self@, index as int),
    {
        proof {
            use_type_invariant(self);
        }
        if index < self.parts.len() {
            self.parts[index]
        } else {
            0
        }
    }

    /// Whether this version, read as a pin, admits `declared`.
    pub fn admits(&self, declared: &BundleVersion) -> (r: bool)
        ensures
            r == pin_admits(self@, declared@),
    {
        proof {
            use_type_invariant(self);
        }
        let mut i: usize = 0;
        while i < self.parts.len()
            invariant
                i <= self.parts@.len(),
                self.parts@.len() == version_parts(self@).len(),
                forall|k: int|
                    0 <= k < i ==> #[trigger] part_at(self@, k) == part_at(declared@, k),
            decreases self.parts@.len() - i,
        {
            if self.at(i) != declared.at(i) {
                return false;
            }
            i += 1;
        }
        true
    }

    /// Whether this version is older than `other`.
    pub fn is_older(&self, other: &BundleVersion) -> (r: bool)
        ensures
            r == version_before(self@, other@),
    {
        proof {
            use_type_invariant(self);
            use_type_invariant(other);
        }
        if self.at(0) != other.at(0) {
            self.at(0) < other.at(0)
        } else if self.at(1) != other.at(1) {
            self.at(1) < other.at(1)
        } else if self.at(2) != other.at(2) {
            self.at(2) < other.at(2)
        } else if self.parts.len() != other.parts.len() {
            self.parts.len() < other.parts.len()
        } else {
            is_before(self.text.as_str(), other.text.as_str())
        }
    }
}

/// A version admits itself as a pin.
pub proof fn pin_admits_itself(version: Seq<char>)
    ensures
        pin_admits(version, version),
{
}

/// What a pin admits, every pin it admits by fewer components admits too: where
/// `short` admits `long` and names no more components, it admits whatever `long`
/// does.
pub proof fn shorter_pin_admits_more(short: Seq<char>, long: Seq<char>, declared: Seq<char>)
    requires
        pin_admits(short, long),
        version_parts(short).len() <= version_parts(long).len(),
        pin_admits(long, declared),
    ensures
        pin_admits(short, declared),
{
    assert forall|i: int| 0 <= i < version_parts(short).len() implies #[trigger] part_at(short, i)
        == part_at(declared, i) by {
        assert(part_at(long, i) == part_at(declared, i));
    }
}

/// Of two different versions one is older, and not the other.
pub proof fn versions_are_ordered(a: Seq<char>, b: Seq<char>)
    requires
        a != b,
    ensures
        version_before(a, b) != version_before(b, a),
{
    lemma_before_total(a, b);
    if text_before(a, b) && text_before(b, a) {
        lemma_before_transitive(a, b, a);
        lemma_before_irreflexive(a);
    }
}

/// No version is older than itself.
pub proof fn no_version_is_older_than_itself(a: Seq<char>)
    ensures
        !version_before(a, a),
{
    lemma_before_irreflexive(a);
}

/// What is older than an older version is older.
pub proof fn older_is_transitive(a: Seq<char>, b: Seq<char>, c: Seq<char>)
    requires
        version_before(a, b),
        version_before(b, c),
    ensures
        version_before(a, c),
{
    if text_before(a, b) && text_before(b, c) {
        lemma_before_transitive(a, b, c);
    }
}

// ---------------------------------------------------------------------------
// Bundles.
// ---------------------------------------------------------------------------

/// One registry document: an id and the schema under it.
#[derive(Debug)]
pub struct RegistryDocument {
    /// The id.
    pub id: SchemaId,
    /// The schema.
    pub schema: Json,
}

/// What registry documents hold.
pub open spec fn documents_view(documents: Seq<RegistryDocument>) -> Seq<(SchemaIdView, JsonView)> {
    Seq::new(documents.len(), |i: int| (documents[i].id@, documents[i].schema@))
}

/// Why a document is not a bundle.
#[derive(Debug)]
pub struct BundleError {
    /// What is wrong, at which key.
    pub why: String,
}

impl BundleError {
    /// The refusal in words.
    pub fn message(&self) -> (r: String)
        ensures
            r@ == "not a schema bundle: "@ + self.why@,
    {
        cat2("not a schema bundle: ", self.why.as_str())
    }
}

/// The document a schema link serves.
#[derive(Debug)]
pub struct SchemaBundle {
    version: BundleVersion,
    description: Option<String>,
    schemas: Vec<RegistryDocument>,
}

/// Which document before `end` last declares an id.
pub open spec fn declared_at(
    documents: Seq<(SchemaIdView, JsonView)>,
    id: SchemaIdView,
    end: int,
) -> Option<int>
    decreases end,
{
    if end <= 0 || end > documents.len() {
        None
    } else if documents[end - 1].0 == id {
        Some(end - 1)
    } else {
        declared_at(documents, id, end - 1)
    }
}

/// What is wrong with the first document from `from` on that a bundle does not
/// publish: one that is no object, or whose id an earlier one declares.
pub open spec fn documents_fault(documents: Seq<(SchemaIdView, JsonView)>, from: int) -> Option<
    Seq<char>,
>
    decreases documents.len() - from,
{
    if from < 0 || from >= documents.len() {
        None
    } else if !(documents[from].1 is Object) {
        Some("schemas["@ + decimal(from as nat) + "].schema: is not a JSON Schema object"@)
    } else {
        match declared_at(documents, documents[from].0, from) {
            Some(first) => Some(
                "schemas["@ + decimal(from as nat) + "].id: `"@ + id_text(documents[from].0)
                    + "` is already declared by schemas["@ + decimal(first as nat)
                    + "]; each id appears once in a bundle"@,
            ),
            None => documents_fault(documents, from + 1),
        }
    }
}

/// What is wrong with the documents of a bundle.
pub open spec fn bundle_fault(documents: Seq<(SchemaIdView, JsonView)>) -> Option<Seq<char>> {
    if documents.len() == 0 {
        Some("schemas: is empty; a bundle publishes at least one registry document"@)
    } else {
        documents_fault(documents, 0)
    }
}

fn find_declared(documents: &Vec<RegistryDocument>, end: usize) -> (r: Option<usize>)
    requires
        end < documents@.len(),
    ensures
        match r {
            Some(at) => declared_at(
                documents_view(documents@),
                documents@[end as int].id@,
                end as int,
            ) == Some(at as int),
            None => declared_at(
                documents_view(documents@),
                documents@[end as int].id@,
                end as int,
            ) is None,
        },
{
    let ghost all = documents_view(documents@);
    let ghost id = documents@[end as int].id@;
    let mut at: usize = end;
    while at > 0
        invariant
            at <= end < documents@.len(),
            all == documents_view(documents@),
            id == documents@[end as int].id@,
            declared_at(all, id, end as int) == declared_at(all, id, at as int),
        decreases at,
    {
        if documents[at - 1].id.equals(&documents[end].id) {
            return Some(at - 1);
        }
        at = at - 1;
    }
    None
}

/// What a bundle's keys hold, before its entries are read.
#[derive(Debug)]
pub struct BundleParts {
    /// The version it declares.
    pub version: BundleVersion,
    /// What it is, for a person.
    pub description: Option<String>,
    /// Its entries.
    pub entries: Vec<Json>,
}

/// Whether a bundle has a key.
pub open spec fn is_bundle_key(key: Seq<char>) -> bool {
    key == "version"@ || key == "description"@ || key == "schemas"@
}

/// The first key from `from` on that a bundle does not have.
pub open spec fn unknown_bundle_key(fields: Seq<(Seq<char>, JsonView)>, from: int) -> Option<
    Seq<char>,
>
    decreases fields.len() - from,
{
    if from < 0 || from >= fields.len() {
        None
    } else if !is_bundle_key(fields[from].0) {
        Some(fields[from].0)
    } else {
        unknown_bundle_key(fields, from + 1)
    }
}

/// What is wrong with the keys of a bundle.
pub open spec fn bundle_keys_fault(value: JsonView) -> Option<Seq<char>> {
    match value {
        JsonView::Object(fields) => if unknown_bundle_key(fields, 0) is Some {
            Some(
                "`"@ + unknown_bundle_key(fields, 0)->0
                    + "` is not a key of a bundle; it has `version`, `schemas` and, optionally, `description`"@,
            )
        } else {
            match field(fields, "version"@) {
                None => Some("version: is missing"@),
                Some(JsonView::Str(text)) => if !is_version(text) {
                    Some("version: "@ + version_error_words(text))
                } else {
                    match field(fields, "description"@) {
                        None | Some(JsonView::Null) | Some(JsonView::Str(_)) => match field(
                            fields,
                            "schemas"@,
                        ) {
                            None => Some("schemas: is missing"@),
                            Some(JsonView::Array(_)) => None,
                            Some(_) => Some("schemas: is not an array"@),
                        },
                        Some(_) => Some("description: is not a string"@),
                    }
                },
                Some(_) => Some("version: is not a string"@),
            }
        },
        _ => Some("the document is not a JSON object"@),
    }
}

/// Whether parts are what the keys of a bundle hold.
pub open spec fn parts_of(value: JsonView, parts: BundleParts) -> bool {
    &&& member(value, "version"@) == Some(JsonView::Str(parts.version@))
    &&& match member(value, "description"@) {
        Some(JsonView::Str(text)) => parts.description is Some && parts.description->0@ == text,
        _ => parts.description is None,
    }
    &&& member(value, "schemas"@) == Some(JsonView::Array(items_view(parts.entries@)))
}

fn refuse(why: String) -> (r: BundleError)
    ensures
        r.why == why,
{
    BundleError { why }
}

fn copied_list(items: &Vec<Json>) -> (r: Vec<Json>)
    ensures
        items_view(r@) == items_view(items@),
{
    let mut out: Vec<Json> = Vec::new();
    let mut i: usize = 0;
    while i < items.len()
        invariant
            i <= items@.len(),
            items_view(out@) =~= items_view(items@).take(i as int),
        decreases items@.len() - i,
    {
        let ghost before = items_view(out@);
        out.push(items[i].copied());
        proof {
            assert(items_view(out@) =~= before.push(items@[i as int]@));
        }
        i += 1;
    }
    proof {
        assert(items_view(out@) =~= items_view(items@));
    }
    out
}

impl BundleParts {
    /// What the keys of a bundle hold, refused where they are no bundle's.
    pub fn of_value(value: &Json) -> (r: Result<Self, BundleError>)
        ensures
            match r {
                Ok(parts) => bundle_keys_fault(value@) is None && parts_of(value@, parts),
                Err(e) => bundle_keys_fault(value@) == Some(e.why@),
            },
    {
        broadcast use group_json_views;

        let fields = match value {
            Json::Object(fields) => fields,
            _ => return Err(refuse("the document is not a JSON object".to_owned())),
        };
        let ghost all = fields_view(fields@);
        let mut i: usize = 0;
        while i < fields.len()
            invariant
                i <= fields@.len(),
                all == fields_view(fields@),
                value@ == JsonView::Object(all),
                unknown_bundle_key(all, 0) == unknown_bundle_key(all, i as int),
            decreases fields@.len() - i,
        {
            let key = fields[i].0.as_str();
            if !(same_text(key, "version") || same_text(key, "description") || same_text(
                key,
                "schemas",
            )) {
                return Err(
                    refuse(
                        cat3(
                            "`",
                            key,
                            "` is not a key of a bundle; it has `version`, `schemas` and, optionally, `description`",
                        ),
                    ),
                );
            }
            i += 1;
        }
        let version = match get_field(fields, "version") {
            None => return Err(refuse("version: is missing".to_owned())),
            Some(Json::Str(text)) => match BundleVersion::from_str(text.as_str()) {
                Ok(version) => version,
                Err(failure) => {
                    let said = failure.message();
                    return Err(refuse(cat2("version: ", said.as_str())));
                },
            },
            Some(_) => return Err(refuse("version: is not a string".to_owned())),
        };
        let description = match get_field(fields, "description") {
            None => None,
            Some(Json::Null) => None,
            Some(Json::Str(text)) => Some(text.clone()),
            Some(_) => return Err(refuse("description: is not a string".to_owned())),
        };
        let entries = match get_field(fields, "schemas") {
            None => return Err(refuse("schemas: is missing".to_owned())),
            Some(Json::Array(items)) => copied_list(items),
            Some(_) => return Err(refuse("schemas: is not an array".to_owned())),
        };
        Ok(BundleParts { version, description, entries })
    }

    /// What the keys of a bundle's text hold.
    pub fn of_json(text: &str) -> (r: Result<Self, BundleError>)
        ensures
            match r {
                Ok(parts) => exists|value: JsonView| #[trigger]
                    reads_as(text@, value) && bundle_keys_fault(value) is None && parts_of(
                        value,
                        parts,
                    ),
                Err(e) => (exists|why: Seq<char>| #[trigger]
                    refused_as(text@, why) && e.why@ == "the document is not JSON: "@ + why) || (
                exists|value: JsonView| #[trigger]
                    reads_as(text@, value) && bundle_keys_fault(value) == Some(e.why@)),
            },
    {
        match Json::parse(text) {
            Ok(value) => BundleParts::of_value(&value),
            Err(why) => Err(refuse(cat2("the document is not JSON: ", why.as_str()))),
        }
    }
}

/// The entries of a bundle.
pub open spec fn entries_in(value: JsonView) -> Seq<JsonView> {
    match member(value, "schemas"@) {
        Some(JsonView::Array(items)) => items,
        _ => Seq::empty(),
    }
}

/// Whether a document is what an entry, where it is an object, says: its `id` and its
/// `schema`.
pub open spec fn says_document(entry: JsonView, document: RegistryDocument) -> bool {
    entry is Object ==> {
        &&& match member(entry, "id"@) {
            Some(JsonView::Str(text)) => parsed_id(text) is Ok && parsed_id(text)->Ok_0
                == document.id@,
            _ => false,
        }
        &&& match member(entry, "schema"@) {
            Some(schema) => same(schema, document.schema@),
            None => false,
        }
    }
}

/// Whether `read` is what each entry reads as, one for each.
pub open spec fn reads_entries(
    entries: Seq<JsonView>,
    read: Seq<Result<RegistryDocument, String>>,
) -> bool {
    &&& read.len() == entries.len()
    &&& forall|i: int|
        0 <= i < read.len() && (#[trigger] read[i]) is Ok ==> says_document(
            entries[i],
            read[i]->Ok_0,
        )
}

fn entry_says(entry: &Json, document: &RegistryDocument) -> (r: bool)
    ensures
        r == says_document(entry@, *document),
{
    broadcast use group_json_views;

    match entry {
        Json::Object(_) => {},
        _ => return true,
    }
    let named = match entry.get("id") {
        Some(Json::Str(text)) => match SchemaId::from_str(text.as_str()) {
            Ok(id) => id.equals(&document.id),
            Err(_) => false,
        },
        _ => false,
    };
    named && match entry.get("schema") {
        Some(schema) => schema.equals(&document.schema),
        None => false,
    }
}

/// Whether `read` is what each entry reads as, one for each.
pub fn entries_read_as(entries: &Vec<Json>, read: &Vec<Result<RegistryDocument, String>>) -> (r:
    bool)
    ensures
        r == reads_entries(items_view(entries@), read@),
{
    let ghost all = items_view(entries@);
    proof {
        assert(all.len() == entries@.len());
    }
    if read.len() != entries.len() {
        return false;
    }
    let mut i: usize = 0;
    while i < read.len()
        invariant
            i <= read@.len() == entries@.len(),
            all == items_view(entries@),
            forall|k: int|
                0 <= k < i && (#[trigger] read@[k]) is Ok ==> says_document(
                    all[k],
                    read@[k]->Ok_0,
                ),
        decreases read@.len() - i,
    {
        if let Ok(document) = &read[i] {
            if !entry_says(&entries[i], document) {
                proof {
                    assert(all[i as int] == entries@[i as int]@);
                    assert(read@[i as int] is Ok);
                }
                return false;
            }
        }
        i += 1;
    }
    true
}

/// What is said of the first entry from `from` on that is no registry document.
pub open spec fn entries_fault(read: Seq<Result<RegistryDocument, String>>, from: int) -> Option<
    Seq<char>,
>
    decreases read.len() - from,
{
    if from < 0 || from >= read.len() {
        None
    } else {
        match read[from] {
            Err(why) => Some(
                "schemas["@ + decimal(from as nat)
                    + "]: is not a registry document {\"id\", \"schema\"}: "@ + why@,
            ),
            Ok(_) => entries_fault(read, from + 1),
        }
    }
}

/// What entries read as hold, where each reads.
pub open spec fn read_view(read: Seq<Result<RegistryDocument, String>>) -> Seq<
    (SchemaIdView, JsonView),
> {
    Seq::new(read.len(), |i: int| (read[i]->Ok_0.id@, read[i]->Ok_0.schema@))
}

/// What comes of reading a bundle whose keys are in order, its entries reading as
/// `read`.
pub open spec fn bundle_read(
    value: JsonView,
    read: Seq<Result<RegistryDocument, String>>,
    outcome: Result<SchemaBundle, BundleError>,
) -> bool {
    match outcome {
        Ok(bundle) => {
            &&& entries_fault(read, 0) is None
            &&& bundle_fault(read_view(read)) is None
            &&& member(value, "version"@) == Some(JsonView::Str(bundle.declares()))
            &&& bundle.described() == match member(value, "description"@) {
                Some(JsonView::Str(text)) => Some(text),
                _ => None,
            }
            &&& bundle.documents() == read_view(read)
        },
        Err(e) => match entries_fault(read, 0) {
            Some(why) => e.why@ == why,
            None => bundle_fault(read_view(read)) == Some(e.why@),
        },
    }
}

impl SchemaBundle {
    /// The version it declares.
    pub closed spec fn declares(&self) -> Seq<char> {
        self.version@
    }

    /// What it is, for a person.
    pub closed spec fn described(&self) -> Option<Seq<char>> {
        text_view(self.description)
    }

    /// What its documents hold.
    pub closed spec fn documents(&self) -> Seq<(SchemaIdView, JsonView)> {
        documents_view(self.schemas@)
    }

    #[verifier::type_invariant]
    closed spec fn well_formed(&self) -> bool {
        bundle_fault(documents_view(self.schemas@)) is None
    }

    /// A bundle of `schemas` at `version`: refused where there is none, where one
    /// is no object, and where an id is declared twice.
    pub fn new(
        version: BundleVersion,
        description: Option<String>,
        schemas: Vec<RegistryDocument>,
    ) -> (r: Result<Self, BundleError>)
        ensures
            match r {
                Ok(bundle) => bundle_fault(documents_view(schemas@)) is None && bundle.declares()
                    == version@ && bundle.described() == text_view(description)
                    && bundle.documents() == documents_view(schemas@),
                Err(e) => bundle_fault(documents_view(schemas@)) == Some(e.why@),
            },
    {
        let ghost all = documents_view(schemas@);
        if schemas.len() == 0 {
            return Err(
                refuse(
                    "schemas: is empty; a bundle publishes at least one registry document".to_owned(),
                ),
            );
        }
        let mut i: usize = 0;
        while i < schemas.len()
            invariant
                i <= schemas@.len(),
                schemas@.len() > 0,
                all == documents_view(schemas@),
                documents_fault(all, 0) == documents_fault(all, i as int),
            decreases schemas@.len() - i,
        {
            let index = decimal_of(i as u64);
            if !schemas[i].schema.is_object() {
                return Err(
                    refuse(
                        cat3("schemas[", index.as_str(), "].schema: is not a JSON Schema object"),
                    ),
                );
            }
            if let Some(first) = find_declared(&schemas, i) {
                let id = schemas[i].id.to_text();
                let first = decimal_of(first as u64);
                return Err(
                    refuse(
                        cat7(
                            "schemas[",
                            index.as_str(),
                            "].id: `",
                            id.as_str(),
                            "` is already declared by schemas[",
                            first.as_str(),
                            "]; each id appears once in a bundle",
                        ),
                    ),
                );
            }
            i += 1;
        }
        Ok(SchemaBundle { version, description, schemas })
    }

    /// The bundle its keys and its entries, each read as a registry document,
    /// make: the first entry that did not read is what it is refused for. `read` holds
    /// what each entry reads as, one for each.
    pub fn from_parts(parts: BundleParts, read: Vec<Result<RegistryDocument, String>>) -> (r:
        Result<Self, BundleError>)
        requires
            reads_entries(items_view(parts.entries@), read@),
        ensures
            match r {
                Ok(bundle) => entries_fault(read@, 0) is None && bundle_fault(read_view(read@)) is None
                    && bundle.declares() == parts.version@ && bundle.described() == text_view(
                    parts.description,
                ) && bundle.documents() == read_view(read@),
                Err(e) => match entries_fault(read@, 0) {
                    Some(why) => e.why@ == why,
                    None => bundle_fault(read_view(read@)) == Some(e.why@),
                },
            },
    {
        let ghost all = read@;
        let mut schemas: Vec<RegistryDocument> = Vec::new();
        let count: usize = read.len();
        let mut rest = read;
        let mut i: usize = 0;
        proof {
            assert(all.skip(0) =~= all);
        }
        while rest.len() > 0
            invariant
                i + rest@.len() == count == all.len(),
                all == read@,
                rest@ =~= all.skip(i as int),
                entries_fault(all, 0) == entries_fault(all, i as int),
                documents_view(schemas@) =~= read_view(all).take(i as int),
            decreases rest@.len(),
        {
            let ghost before = documents_view(schemas@);
            proof {
                assert(rest@[0] == all[i as int]);
            }
            let first = rest.remove(0);
            match first {
                Ok(document) => {
                    schemas.push(document);
                    proof {
                        assert(documents_view(schemas@) =~= before.push(
                            read_view(all)[i as int],
                        ));
                    }
                },
                Err(why) => {
                    let index = decimal_of(i as u64);
                    return Err(
                        refuse(
                            cat4(
                                "schemas[",
                                index.as_str(),
                                "]: is not a registry document {\"id\", \"schema\"}: ",
                                why.as_str(),
                            ),
                        ),
                    );
                },
            }
            i += 1;
        }
        proof {
            assert(documents_view(schemas@) =~= read_view(all));
        }
        SchemaBundle::new(parts.version, parts.description, schemas)
    }

    /// The bundle a text is, given what each of its entries reads as; nothing where
    /// `read` is not that.
    pub fn from_json(text: &str, read: Vec<Result<RegistryDocument, String>>) -> (r: Option<
        Result<Self, BundleError>,
    >)
        ensures
            match parsed_json(text@) {
                Err(failure) => r is Some && r->0 is Err && r->0->Err_0.why@
                    == "the document is not JSON: "@ + failure,
                Ok(value) => match bundle_keys_fault(value) {
                    Some(why) => r is Some && r->0 is Err && r->0->Err_0.why@ == why,
                    None => if reads_entries(entries_in(value), read@) {
                        r is Some && bundle_read(value, read@, r->0)
                    } else {
                        r is None
                    },
                },
            },
    {
        let parts = match BundleParts::of_json(text) {
            Ok(parts) => parts,
            Err(e) => return Some(Err(e)),
        };
        if entries_read_as(&parts.entries, &read) {
            Some(SchemaBundle::from_parts(parts, read))
        } else {
            None
        }
    }

    /// The bundle a value is, given what each of its entries reads as.
    pub fn from_value(value: &Json, read: Vec<Result<RegistryDocument, String>>) -> (r: Result<
        Self,
        BundleError,
    >)
        requires
            bundle_keys_fault(value@) is None ==> reads_entries(entries_in(value@), read@),
        ensures
            match bundle_keys_fault(value@) {
                Some(why) => r is Err && r->Err_0.why@ == why,
                None => bundle_read(value@, read@, r),
            },
    {
        match BundleParts::of_value(value) {
            Ok(parts) => SchemaBundle::from_parts(parts, read),
            Err(e) => Err(e),
        }
    }

    /// The version the bundle declares.
    pub fn version(&self) -> (r: &BundleVersion)
        ensures
            r@ == self.declares(),
    {
        &self.version
    }

    /// What the bundle is, for a person.
    pub fn description(&self) -> (r: Option<&str>)
        ensures
            match r {
                Some(text) => self.described() == Some(text@),
                None => self.described() is None,
            },
    {
        match &self.description {
            Some(text) => Some(text.as_str()),
            None => None,
        }
    }

    /// The registry documents it publishes.
    pub fn schemas(&self) -> (r: &Vec<RegistryDocument>)
        ensures
            documents_view(r@) == self.documents(),
            bundle_fault(documents_view(r@)) is None,
    {
        proof {
            use_type_invariant(self);
        }
        &self.schemas
    }

    /// Registers every document, up to the first refusal.
    pub fn register_into(&self, registry: &mut Registry) -> (r: Result<(), RegistryError>)
        ensures
            match r {
                Ok(()) => registered_from(old(registry)@, self.documents()) == Ok::<
                    Seq<(SchemaIdView, JsonView)>,
                    int,
                >(final(registry)@),
                Err(e) => {
                    &&& registered_from(old(registry)@, self.documents()) is Err
                    &&& {
                        let at = registered_from(old(registry)@, self.documents())->Err_0;
                        &&& 0 <= at < self.documents().len()
                        &&& registered_from(old(registry)@, self.documents().take(at)) == Ok::<
                            Seq<(SchemaIdView, JsonView)>,
                            int,
                        >(final(registry)@)
                        &&& registration_refused(final(registry)@, self.documents()[at], e)
                    }
                },
            },
    {
        let ghost all = self.documents();
        let ghost start = registry@;
        let mut i: usize = 0;
        proof {
            assert(all.take(0) =~= Seq::<(SchemaIdView, JsonView)>::empty());
        }
        while i < self.schemas.len()
            invariant
                i <= self.schemas@.len(),
                all == documents_view(self.schemas@),
                all == self.documents(),
                start == old(registry)@,
                registered_from(start, all.take(i as int)) == Ok::<
                    Seq<(SchemaIdView, JsonView)>,
                    int,
                >(registry@),
            decreases self.schemas@.len() - i,
        {
            let document = &self.schemas[i];
            let ghost here = registry@;
            proof {
                assert(all.take(i + 1).drop_last() =~= all.take(i as int));
                assert(all.take(i + 1).last() == all[i as int]);
            }
            match registry.register_schema(document.id.copied(), document.schema.copied()) {
                Ok(()) => {},
                Err(e) => {
                    proof {
                        assert(registered_from(start, all.take(i + 1)) == Err::<
                            Seq<(SchemaIdView, JsonView)>,
                            int,
                        >(i as int));
                        lemma_registration_stops(start, all, i + 1);
                    }
                    return Err(e);
                },
            }
            i += 1;
        }
        proof {
            assert(all.take(i as int) =~= all);
        }
        Ok(())
    }
}

/// What a registry holds once documents are registered in order, or which of
/// them is refused.
pub open spec fn registered_from(
    entries: Seq<(SchemaIdView, JsonView)>,
    documents: Seq<(SchemaIdView, JsonView)>,
) -> Result<Seq<(SchemaIdView, JsonView)>, int>
    decreases documents.len(),
{
    if documents.len() == 0 {
        Ok(entries)
    } else {
        match registered_from(entries, documents.drop_last()) {
            Err(at) => Err(at),
            Ok(before) => {
                let (id, document) = documents.last();
                match held(before, id) {
                    Some(kept) => if same(kept, document) {
                        Ok(before)
                    } else {
                        Err(documents.len() - 1)
                    },
                    None => if schema_compiles(settled(document)) {
                        Ok(placed(before, id, document))
                    } else {
                        Err(documents.len() - 1)
                    },
                }
            },
        }
    }
}

/// Whether `error` is why a registry refuses a document: a different one under
/// its id, or that it is no schema.
pub open spec fn registration_refused(
    entries: Seq<(SchemaIdView, JsonView)>,
    document: (SchemaIdView, JsonView),
    error: RegistryError,
) -> bool {
    match error {
        RegistryError::Conflict { id } => id@ == document.0 && held(entries, id@) is Some && !same(
            held(entries, id@)->0,
            document.1,
        ),
        RegistryError::NotASchema { id, why } => id@ == document.0 && held(entries, id@) is None
            && !schema_compiles(settled(document.1)),
        RegistryError::Unknown { .. } => false,
    }
}

/// Where registering stops, it stops whatever follows.
pub proof fn lemma_registration_stops(
    entries: Seq<(SchemaIdView, JsonView)>,
    documents: Seq<(SchemaIdView, JsonView)>,
    n: int,
)
    requires
        0 <= n <= documents.len(),
        registered_from(entries, documents.take(n)) is Err,
    ensures
        registered_from(entries, documents) == registered_from(entries, documents.take(n)),
    decreases documents.len(),
{
    if n < documents.len() {
        assert(documents.drop_last().take(n) =~= documents.take(n));
        lemma_registration_stops(entries, documents.drop_last(), n);
    } else {
        assert(documents.take(n) =~= documents);
    }
}

} // verus!
