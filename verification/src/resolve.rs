//! How a link resolves to its bundle, through a cache for a pinned remote link.
//!
//! What is read, fetched and written is the caller's to do: each function here
//! decides what comes next from what came back.

use crate::bundle::{
    BundleError, BundleVersion, SchemaBundle, no_version_is_older_than_itself,
    older_is_transitive, pin_admits, registered_from, registration_refused, version_before,
    versions_are_ordered,
};
use crate::bytes::text_bytes;
use crate::digest::{sha256, sha256_of};
use crate::filter::text_view;
use crate::json::JsonView;
use crate::link::{
    Access, LinkError, LinkLocation, LinkView, LocationView, RemoteUrl, SchemaLink,
    absolute_location, link_error_words, redirected, remote_fault,
};
use crate::local::{path_in, path_of};
use crate::schema::{Read, Registry, SchemaIdView};
use crate::stamp::ConfirmedAt;
use crate::text::{
    byte_len, cat2, cat3, chars_of, decimal, decimal_of, ends, ends_with, hex, hex_of, is_before,
    lemma_before_irreflexive, lemma_before_total, lemma_before_transitive, parse_unsigned,
    quoted, quoted_of, same_text, text_before, trim, trimmed, unsigned_value,
};
use vstd::prelude::*;
use vstd::utf8::encode_utf8;

verus! {

/// The variable naming the freshness window, in whole seconds.
pub const SCHEMA_TTL_ENV: &'static str = "ONEMESSAGEBUS_SCHEMA_TTL";

/// The variable that, set to `1`, forces an unconditional fetch.
pub const SCHEMA_REFRESH_ENV: &'static str = "ONEMESSAGEBUS_SCHEMA_REFRESH";

/// The freshness window in seconds where none is named.
pub const DEFAULT_SCHEMA_TTL: u64 = 3600;

/// How many seconds establishing a connection may take.
pub const CONNECT_TIMEOUT: u64 = 5;

/// How many seconds a response's headers, and then its body, may take.
pub const READ_TIMEOUT: u64 = 15;

/// The bound on a bundle's text.
pub const MAX_BUNDLE_BYTES: u64 = 16777216;

/// The bound on a cache entry's metadata.
pub const MAX_META_BYTES: u64 = 65536;

/// How many redirects one fetch follows.
pub const MAX_REDIRECTS: usize = 5;

/// The longest validator kept.
pub const MAX_VALIDATOR_BYTES: usize = 512;

/// How much a resolution may lean on the cache.
#[derive(Debug, Clone, Copy, PartialEq, Eq, Structural)]
pub enum Freshness {
    /// A satisfying entry confirmed within the freshness window is used with no
    /// request; an older one is revalidated.
    Window,
    /// Every satisfying entry is revalidated, whatever its age.
    Revalidate,
    /// A satisfying entry is used with no request, whatever its age.
    CachedFirst,
}

/// How a link came to resolve.
#[derive(Debug)]
pub enum Outcome {
    /// A file, read.
    Read,
    /// Fetched.
    Fetched,
    /// A cached entry used with no request.
    Cached,
    /// A cached entry the origin confirmed current.
    Confirmed,
    /// A cached entry used because its revalidation could not be made.
    Reused {
        /// Why the revalidation failed.
        why: String,
    },
}

impl Outcome {
    /// The word a report names it by.
    pub fn word(&self) -> (r: &'static str)
        ensures
            r@ == match *self {
                Outcome::Read => "read"@,
                Outcome::Fetched => "fetched"@,
                Outcome::Cached => "cached"@,
                Outcome::Confirmed => "confirmed"@,
                Outcome::Reused { .. } => "reused"@,
            },
    {
        match self {
            Outcome::Read => "read",
            Outcome::Fetched => "fetched",
            Outcome::Cached => "cached",
            Outcome::Confirmed => "confirmed",
            Outcome::Reused { .. } => "reused",
        }
    }
}

/// A link resolved to its bundle.
#[derive(Debug)]
pub struct Resolved {
    link: SchemaLink,
    bundle: SchemaBundle,
    outcome: Outcome,
}

impl Resolved {
    /// The link.
    pub closed spec fn link_is(&self) -> LinkView {
        self.link@
    }

    /// The bundle.
    pub closed spec fn bundle_is(&self) -> SchemaBundle {
        self.bundle
    }

    /// How it got there.
    pub closed spec fn outcome_is(&self) -> Outcome {
        self.outcome
    }

    #[verifier::type_invariant]
    closed spec fn well_formed(&self) -> bool {
        held_to(self.link@, self.bundle) || !(self.outcome is Read || self.outcome is Fetched)
    }

    /// The link.
    pub fn link(&self) -> (r: &SchemaLink)
        ensures
            r@ == self.link_is(),
    {
        &self.link
    }

    /// The bundle it resolved to.
    pub fn bundle(&self) -> (r: &SchemaBundle)
        ensures
            *r == self.bundle_is(),
    {
        &self.bundle
    }

    /// How it got there.
    pub fn outcome(&self) -> (r: &Outcome)
        ensures
            *r == self.outcome_is(),
    {
        &self.outcome
    }

    /// Registers every document of the bundle, up to the first refusal.
    pub fn register_into(&self, registry: &mut Registry) -> (r: Result<(), LinkError>)
        ensures
            match r {
                Ok(()) => registered_from(old(registry)@, self.bundle_is().documents()) == Ok::<
                    Seq<(SchemaIdView, JsonView)>,
                    int,
                >(final(registry)@),
                Err(LinkError::Register { link, source }) => {
                    &&& link@ == self.link_is().written
                    &&& registered_from(old(registry)@, self.bundle_is().documents()) is Err
                    &&& registration_refused(
                        final(registry)@,
                        self.bundle_is().documents()[registered_from(
                            old(registry)@,
                            self.bundle_is().documents(),
                        )->Err_0],
                        source,
                    )
                },
                Err(_) => false,
            },
    {
        match self.bundle.register_into(registry) {
            Ok(()) => Ok(()),
            Err(source) => Err(
                LinkError::Register { link: self.link.as_str().to_owned(), source },
            ),
        }
    }
}

// ---------------------------------------------------------------------------
// Bounds.
// ---------------------------------------------------------------------------

/// Why a document past the bundle bound is refused.
pub open spec fn too_large_words() -> Seq<char> {
    "the document is larger than the 16 MiB a bundle may be"@
}

/// Why a document past the bundle bound is refused.
pub fn too_large() -> (r: String)
    ensures
        r@ == too_large_words(),
{
    "the document is larger than the 16 MiB a bundle may be".to_owned()
}

/// Refuses a document of `len` bytes past `limit`.
pub fn check_size(len: u64, limit: u64) -> (r: Result<(), String>)
    ensures
        match r {
            Ok(()) => len <= limit,
            Err(why) => len > limit && why@ == if limit == MAX_BUNDLE_BYTES {
                too_large_words()
            } else {
                "the document is larger than the "@ + decimal(limit as nat)
                    + " bytes it may be"@
            },
        },
{
    if len <= limit {
        return Ok(());
    }
    if limit == MAX_BUNDLE_BYTES {
        return Err(too_large());
    }
    let bound = decimal_of(limit);
    Err(cat3("the document is larger than the ", bound.as_str(), " bytes it may be"))
}

// ---------------------------------------------------------------------------
// Cache entries.
// ---------------------------------------------------------------------------

/// Whether a request can carry text as a header's value: no control character
/// but a tab.
pub open spec fn is_header_value(text: Seq<char>) -> bool {
    forall|i: int|
        0 <= i < text.len() ==> ((#[trigger] text[i]) as u32 >= 32 && text[i] as u32 != 127)
            || text[i] == '\t'
}

/// A revalidation validator an origin answered with: one a later request can
/// carry as a header's value.
#[derive(Debug)]
pub struct OriginValidator {
    text: String,
}

impl View for OriginValidator {
    type V = Seq<char>;

    closed spec fn view(&self) -> Seq<char> {
        self.text@
    }
}

impl OriginValidator {
    #[verifier::type_invariant]
    closed spec fn well_formed(&self) -> bool {
        is_header_value(self.text@)
    }

    /// `text`, where it is short enough and a header's value.
    pub fn new(text: &str) -> (r: Option<Self>)
        ensures
            match r {
                Some(validator) => validator@ == text@ && is_header_value(text@) && encode_utf8(
                    text@,
                ).len() <= MAX_VALIDATOR_BYTES,
                None => !is_header_value(text@) || encode_utf8(text@).len()
                    > MAX_VALIDATOR_BYTES,
            },
    {
        if byte_len(text) > MAX_VALIDATOR_BYTES {
            return None;
        }
        let chars = chars_of(text);
        let mut i: usize = 0;
        while i < chars.len()
            invariant
                i <= chars@.len(),
                chars@ == text@,
                forall|k: int|
                    0 <= k < i ==> ((#[trigger] text@[k]) as u32 >= 32 && text@[k] as u32 != 127)
                        || text@[k] == '\t',
            decreases chars@.len() - i,
        {
            let c = chars[i];
            if !((c as u32 >= 32 && c as u32 != 127) || c == '\t') {
                proof {
                    assert(text@[i as int] == c);
                }
                return None;
            }
            i += 1;
        }
        Some(OriginValidator { text: text.to_owned() })
    }

    /// The value a request carries.
    pub fn as_str(&self) -> (r: &str)
        ensures
            r@ == self@,
            is_header_value(r@),
    {
        proof {
            use_type_invariant(self);
        }
        self.text.as_str()
    }
}

/// One entry of the cache, as it is listed.
#[derive(Debug)]
pub struct CachedBundle {
    /// The link's location, without its pin.
    pub url: RemoteUrl,
    /// The version the cached bundle declares.
    pub version: BundleVersion,
    /// When the origin last confirmed it.
    pub confirmed_at: ConfirmedAt,
}

/// What a cache entry records beside its body.
#[derive(Debug)]
pub struct EntryMeta {
    /// The link's location, without its pin.
    pub url: RemoteUrl,
    /// The version the cached bundle declares.
    pub version: BundleVersion,
    /// When the origin last confirmed it.
    pub confirmed_at: ConfirmedAt,
    /// The origin's `ETag`.
    pub etag: Option<OriginValidator>,
    /// The origin's `Last-Modified`.
    pub last_modified: Option<OriginValidator>,
}

impl EntryMeta {
    /// Whether a revalidation of the entry is conditional: there is a validator
    /// to carry.
    pub fn conditional(&self) -> (r: bool)
        ensures
            r == (self.etag is Some || self.last_modified is Some),
    {
        self.etag.is_some() || self.last_modified.is_some()
    }

    /// The same entry, confirmed at `now`.
    pub fn confirmed(self, now: ConfirmedAt) -> (r: Self)
        ensures
            r == (EntryMeta { confirmed_at: now, ..self }),
    {
        EntryMeta {
            url: self.url,
            version: self.version,
            confirmed_at: now,
            etag: self.etag,
            last_modified: self.last_modified,
        }
    }
}

/// One readable cache entry.
#[derive(Debug)]
pub struct Entry {
    /// What it records beside its body.
    pub meta: EntryMeta,
    /// Its body.
    pub bundle: SchemaBundle,
}

/// The directory a URL's entries are kept in: a digest of the URL.
pub open spec fn url_dir_of(cache: Seq<char>, url: Seq<char>) -> Seq<char> {
    path_in(cache, hex(sha256(encode_utf8(url)).take(16)))
}

/// The directory a URL's entries are kept in.
pub fn url_dir(cache: &str, url: &str) -> (r: String)
    ensures
        r@ == url_dir_of(cache@, url@),
{
    let bytes = text_bytes(url);
    let digest = sha256_of(&bytes);
    let name = hex_of(&digest, 16);
    path_of(cache, name.as_str())
}

/// The file the body of a version is kept in.
pub fn body_path(dir: &str, version: &BundleVersion) -> (r: String)
    ensures
        r@ == path_in(dir@, version@ + ".json"@),
{
    let name = cat2(version.as_str(), ".json");
    path_of(dir, name.as_str())
}

/// The file the metadata of a version is kept in.
pub fn meta_path(dir: &str, version: &BundleVersion) -> (r: String)
    ensures
        r@ == path_in(dir@, version@ + ".meta.json"@),
{
    let name = cat2(version.as_str(), ".meta.json");
    path_of(dir, name.as_str())
}

/// Whether a file's name is one metadata is kept under.
pub fn is_meta_name(name: &str) -> (r: bool)
    ensures
        r == ends(name@, ".meta.json"@),
{
    ends_with(name, ".meta.json")
}

/// Whether metadata read from `path`, within `dir` of the cache `cache`, is an
/// entry's of this cache: of the URL asked for, kept in that URL's directory
/// under that version's name.
pub fn is_entry_at(cache: &str, dir: &str, path: &str, meta: &EntryMeta, url: Option<&RemoteUrl>) -> (r:
    bool)
    ensures
        r == ((url is Some ==> url->0@ == meta.url@) && url_dir_of(cache@, meta.url@) == dir@
            && path_in(dir@, meta.version@ + ".meta.json"@) == path@),
{
    if let Some(url) = url {
        if !same_text(url.as_str(), meta.url.as_str()) {
            return false;
        }
    }
    let kept = url_dir(cache, meta.url.as_str());
    if !same_text(kept.as_str(), dir) {
        return false;
    }
    let expected = meta_path(dir, &meta.version);
    same_text(expected.as_str(), path)
}

/// Whether a body is the one metadata was written beside: it declares the same
/// version.
pub fn is_body_of(bundle: &SchemaBundle, meta: &EntryMeta) -> (r: bool)
    ensures
        r == (bundle.declares() == meta.version@),
{
    same_text(bundle.version().as_str(), meta.version.as_str())
}

// ---------------------------------------------------------------------------
// Resolving.
// ---------------------------------------------------------------------------

/// Resolves links to bundles.
#[derive(Debug)]
pub struct LinkResolver {
    cache_dir: Option<String>,
    ttl: u64,
    refresh: bool,
}

/// What a resolution starts with.
#[derive(Debug)]
pub enum Plan {
    /// The bundle is read from a file.
    Read {
        /// The file.
        path: String,
    },
    /// The bundle is fetched, and not kept.
    Fetch,
    /// The bundle is fetched, and replaces every entry of its URL.
    Replace {
        /// The URL's directory.
        dir: String,
    },
    /// The entries of the URL are read, and consulted.
    Consult {
        /// The URL's directory.
        dir: String,
    },
}

/// Whether a plan is what a resolution starts with.
pub open spec fn plans(
    resolver: LinkResolver,
    link: LinkView,
    freshness: Freshness,
    plan: Plan,
) -> bool {
    match link.location {
        LocationView::File(file) => plan is Read && plan->path@ == file,
        LocationView::Remote(url) => match resolver.caches_in() {
            Some(cache) if link.pin is Some => if resolver.forces() && freshness
                != Freshness::CachedFirst {
                plan is Replace && plan->Replace_dir@ == url_dir_of(cache, url)
            } else {
                plan is Consult && plan->Consult_dir@ == url_dir_of(cache, url)
            },
            _ => plan is Fetch,
        },
    }
}

/// What consulting the entries of a URL comes to.
#[derive(Debug, Clone, Copy, PartialEq, Eq, Structural)]
pub enum Consulted {
    /// None satisfies the pin: the bundle is fetched, and kept.
    Fetch,
    /// The entry at this place is used with no request.
    Cached(usize),
    /// The entry at this place is revalidated.
    Revalidate(usize),
}

/// The newest of the first `n` entries a pin admits.
pub open spec fn newest_admitted(entries: Seq<Entry>, pin: Seq<char>, n: int) -> Option<int>
    decreases n,
{
    if n <= 0 || n > entries.len() {
        None
    } else {
        let before = newest_admitted(entries, pin, n - 1);
        let version = entries[n - 1].meta.version@;
        if pin_admits(pin, version) && (before is None || version_before(
            entries[before->0].meta.version@,
            version,
        )) {
            Some(n - 1)
        } else {
            before
        }
    }
}

/// Whether an entry confirmed at `confirmed` is within the window at `now`: a window of
/// no length holds none.
pub open spec fn is_fresh(now: int, confirmed: int, ttl: u64) -> bool {
    let age = if now - confirmed > i64::MAX {
        i64::MAX as int
    } else {
        now - confirmed
    };
    ttl > 0 && (age < 0 || age < ttl)
}

/// What an origin answered a revalidation.
#[derive(Debug)]
pub enum Revalidation {
    /// That the entry is current.
    Unchanged,
    /// A document: the bundle it is, or why it is none.
    Document(Result<SchemaBundle, BundleError>),
    /// Nothing that could be used.
    Failed(LinkError),
}

/// What is to be kept after a revalidation.
#[derive(Debug, Clone, Copy, PartialEq, Eq, Structural)]
pub enum Keeping {
    /// Nothing.
    Nothing,
    /// The entry's metadata, confirmed now.
    Confirm,
    /// The bundle fetched, as an entry.
    Store,
}

/// Whether a bundle declares a version its link's pin admits.
pub open spec fn held_to(link: LinkView, bundle: SchemaBundle) -> bool {
    match link.pin {
        Some(pin) => pin_admits(pin, bundle.declares()),
        None => true,
    }
}

/// Whether an error is that a bundle declares a version its link's pin does not
/// admit.
pub open spec fn pin_refused(error: LinkError, link: LinkView, bundle: SchemaBundle) -> bool {
    match error {
        LinkError::PinUnsatisfied { link: named, pin, declared } => named@ == link.written
            && link.pin == Some(pin@) && declared@ == bundle.declares(),
        _ => false,
    }
}

/// `bundle`, when the link's pin admits the version it declares.
pub fn held_to_pin(link: &SchemaLink, bundle: SchemaBundle) -> (r: Result<SchemaBundle, LinkError>)
    ensures
        match r {
            Ok(kept) => kept == bundle && held_to(link@, bundle),
            Err(e) => !held_to(link@, bundle) && pin_refused(e, link@, bundle),
        },
{
    if let Some(pin) = link.pin() {
        if !pin.admits(bundle.version()) {
            return Err(
                LinkError::PinUnsatisfied {
                    link: link.as_str().to_owned(),
                    pin: pin.copied(),
                    declared: bundle.version().copied(),
                },
            );
        }
    }
    Ok(bundle)
}

/// Whether an error is that a link's bundle could not be reached.
pub open spec fn unreachable_for(
    error: LinkError,
    link: LinkView,
    access: Access,
    reason: Seq<char>,
) -> bool {
    match error {
        LinkError::Unreachable { link: named, doing, why } => named@ == link.written && doing
            == access && why@ == reason,
        _ => false,
    }
}

/// Whether an error is that what a link served is no bundle.
pub open spec fn not_a_bundle(error: LinkError, link: LinkView, failure: BundleError) -> bool {
    match error {
        LinkError::NotABundle { link: named, source } => named@ == link.written && source == failure,
        _ => false,
    }
}

/// A refusal to fetch a link's bundle.
pub fn refusal(link: &SchemaLink, why: String) -> (r: LinkError)
    ensures
        unreachable_for(r, link@, Access::Fetch, why@),
{
    LinkError::Unreachable { link: link.as_str().to_owned(), doing: Access::Fetch, why }
}

/// What an environment says of resolving, as far as it is text.
#[derive(Debug)]
pub enum EnvText {
    /// The variable is not set.
    Unset,
    /// It holds what is not text.
    NotText,
    /// It holds text.
    Text(String),
}

/// The variables a resolver is described by.
#[derive(Debug)]
pub struct LinkEnv {
    /// [`SCHEMA_CACHE_DIR_ENV`].
    pub cache_dir: Option<String>,
    /// `XDG_CACHE_HOME`.
    pub xdg_cache_home: Option<String>,
    /// `HOME`.
    pub home: Option<String>,
    /// [`SCHEMA_TTL_ENV`].
    pub ttl: EnvText,
    /// [`SCHEMA_REFRESH_ENV`].
    pub refresh: EnvText,
}

/// A variable that is set and not empty.
pub open spec fn non_empty(value: Option<String>) -> Option<Seq<char>> {
    match value {
        Some(text) => if text@.len() > 0 {
            Some(text@)
        } else {
            None
        },
        None => None,
    }
}

/// The cache directory an environment names.
pub open spec fn env_cache_dir(env: LinkEnv) -> Option<Seq<char>> {
    match non_empty(env.cache_dir) {
        Some(dir) => Some(dir),
        None => match non_empty(env.xdg_cache_home) {
            Some(home) => Some(path_in(home, "onemessagebus/schemas"@)),
            None => match non_empty(env.home) {
                Some(home) => Some(path_in(home, ".cache/onemessagebus/schemas"@)),
                None => None,
            },
        },
    }
}

/// The window a variable names, or why it names none.
pub open spec fn env_ttl(value: EnvText) -> Result<nat, Seq<char>> {
    match value {
        EnvText::Unset => Ok(DEFAULT_SCHEMA_TTL as nat),
        EnvText::NotText => Err("is not text"@),
        EnvText::Text(text) => {
            let seconds = trimmed(text@);
            if seconds.len() == 0 {
                Ok(DEFAULT_SCHEMA_TTL as nat)
            } else {
                match unsigned_value(seconds, u64::MAX as nat) {
                    Some(n) => Ok(n),
                    None => Err(
                        quoted(seconds)
                            + " is not a whole number of seconds; 0 revalidates on every resolution"@,
                    ),
                }
            }
        },
    }
}

/// Whether a variable forces a fetch, or why it says neither.
pub open spec fn env_refresh(value: EnvText) -> Result<bool, Seq<char>> {
    match value {
        EnvText::Unset => Ok(false),
        EnvText::NotText => Err("is not text"@),
        EnvText::Text(text) => {
            let said = trimmed(text@);
            if said.len() == 0 || said == "0"@ {
                Ok(false)
            } else if said == "1"@ {
                Ok(true)
            } else {
                Err(quoted(said) + " is not 1 (force a fetch) or 0"@)
            }
        },
    }
}

/// Whether an error is what is wrong with a variable.
pub open spec fn env_refused(error: LinkError, name: Seq<char>, reason: Seq<char>) -> bool {
    match error {
        LinkError::Environment { name: named, why } => named@ == name && why@ == reason,
        _ => false,
    }
}

fn set_value(value: &Option<String>) -> (r: Option<&str>)
    ensures
        match r {
            Some(text) => non_empty(*value) == Some(text@),
            None => non_empty(*value) is None,
        },
{
    match value {
        Some(text) => if text.as_str().is_empty() {
            None
        } else {
            Some(text.as_str())
        },
        None => None,
    }
}

fn read_ttl(value: &EnvText) -> (r: Result<u64, String>)
    ensures
        match r {
            Ok(n) => env_ttl(*value) == Ok::<nat, Seq<char>>(n as nat),
            Err(why) => env_ttl(*value) == Err::<nat, Seq<char>>(why@),
        },
{
    match value {
        EnvText::Unset => Ok(DEFAULT_SCHEMA_TTL),
        EnvText::NotText => Err("is not text".to_owned()),
        EnvText::Text(text) => {
            let seconds = trim(text.as_str());
            if seconds.as_str().is_empty() {
                return Ok(DEFAULT_SCHEMA_TTL);
            }
            match parse_unsigned(seconds.as_str(), u64::MAX) {
                Some(n) => Ok(n),
                None => {
                    let shown = quoted_of(seconds.as_str());
                    Err(
                        cat2(
                            shown.as_str(),
                            " is not a whole number of seconds; 0 revalidates on every resolution",
                        ),
                    )
                },
            }
        },
    }
}

fn read_refresh(value: &EnvText) -> (r: Result<bool, String>)
    ensures
        match r {
            Ok(forced) => env_refresh(*value) == Ok::<bool, Seq<char>>(forced),
            Err(why) => env_refresh(*value) == Err::<bool, Seq<char>>(why@),
        },
{
    match value {
        EnvText::Unset => Ok(false),
        EnvText::NotText => Err("is not text".to_owned()),
        EnvText::Text(text) => {
            let said = trim(text.as_str());
            if said.as_str().is_empty() || same_text(said.as_str(), "0") {
                return Ok(false);
            }
            if same_text(said.as_str(), "1") {
                return Ok(true);
            }
            let shown = quoted_of(said.as_str());
            Err(cat2(shown.as_str(), " is not 1 (force a fetch) or 0"))
        },
    }
}

impl LinkResolver {
    /// The cache directory.
    pub closed spec fn caches_in(&self) -> Option<Seq<char>> {
        text_view(self.cache_dir)
    }

    /// The freshness window, in seconds.
    pub closed spec fn window(&self) -> u64 {
        self.ttl
    }

    /// Whether a fetch is forced.
    pub closed spec fn forces(&self) -> bool {
        self.refresh
    }

    /// A resolver over `cache_dir`, no cache at all where there is none, with the
    /// default freshness window and no forced fetch.
    pub fn new(cache_dir: Option<String>) -> (r: Self)
        ensures
            r.caches_in() == text_view(cache_dir),
            r.window() == DEFAULT_SCHEMA_TTL,
            !r.forces(),
    {
        LinkResolver { cache_dir, ttl: DEFAULT_SCHEMA_TTL, refresh: false }
    }

    /// The same resolver with freshness window `ttl`, in seconds; zero revalidates on
    /// every resolution.
    pub fn with_ttl(self, ttl: u64) -> (r: Self)
        ensures
            r.caches_in() == self.caches_in(),
            r.window() == ttl,
            r.forces() == self.forces(),
    {
        LinkResolver { cache_dir: self.cache_dir, ttl, refresh: self.refresh }
    }

    /// The same resolver, forcing an unconditional fetch when `refresh`.
    pub fn with_refresh(self, refresh: bool) -> (r: Self)
        ensures
            r.caches_in() == self.caches_in(),
            r.window() == self.window(),
            r.forces() == refresh,
    {
        LinkResolver { cache_dir: self.cache_dir, ttl: self.ttl, refresh }
    }

    /// The resolver an environment describes.
    pub fn from_env(env: &LinkEnv) -> (r: Result<Self, LinkError>)
        ensures
            match r {
                Ok(resolver) => env_ttl(env.ttl) == Ok::<nat, Seq<char>>(resolver.window() as nat)
                    && env_refresh(env.refresh) == Ok::<bool, Seq<char>>(resolver.forces())
                    && resolver.caches_in() == env_cache_dir(*env),
                Err(e) => match env_ttl(env.ttl) {
                    Err(why) => env_refused(e, SCHEMA_TTL_ENV@, why),
                    Ok(_) => env_refresh(env.refresh) is Err && env_refused(
                        e,
                        SCHEMA_REFRESH_ENV@,
                        env_refresh(env.refresh)->Err_0,
                    ),
                },
            },
    {
        let cache_dir = match set_value(&env.cache_dir) {
            Some(dir) => Some(dir.to_owned()),
            None => match set_value(&env.xdg_cache_home) {
                Some(home) => Some(path_of(home, "onemessagebus/schemas")),
                None => match set_value(&env.home) {
                    Some(home) => Some(path_of(home, ".cache/onemessagebus/schemas")),
                    None => None,
                },
            },
        };
        let ttl = match read_ttl(&env.ttl) {
            Ok(ttl) => ttl,
            Err(why) => return Err(
                LinkError::Environment { name: SCHEMA_TTL_ENV.to_owned(), why },
            ),
        };
        let refresh = match read_refresh(&env.refresh) {
            Ok(refresh) => refresh,
            Err(why) => return Err(
                LinkError::Environment { name: SCHEMA_REFRESH_ENV.to_owned(), why },
            ),
        };
        Ok(LinkResolver { cache_dir, ttl, refresh })
    }

    /// The cache directory, when one can be named.
    pub fn cache_dir(&self) -> (r: Option<&str>)
        ensures
            match r {
                Some(dir) => self.caches_in() == Some(dir@),
                None => self.caches_in() is None,
            },
    {
        match &self.cache_dir {
            Some(dir) => Some(dir.as_str()),
            None => None,
        }
    }

    /// The cache directory, refused where none can be named.
    pub fn named_cache(&self) -> (r: Result<&str, LinkError>)
        ensures
            match r {
                Ok(dir) => self.caches_in() == Some(dir@),
                Err(e) => self.caches_in() is None && e == LinkError::NoCacheDir,
            },
    {
        match &self.cache_dir {
            Some(dir) => Ok(dir.as_str()),
            None => Err(LinkError::NoCacheDir),
        }
    }

    /// What resolving `link` starts with: a file is read, an unpinned remote link
    /// is fetched, and a pinned one goes through the cache.
    pub fn plan(&self, link: &SchemaLink, freshness: Freshness) -> (r: Plan)
        ensures
            plans(*self, link@, freshness, r),
    {
        let url = match link.location() {
            LinkLocation::File(path) => return Plan::Read { path: path.clone() },
            LinkLocation::Remote(url) => url,
        };
        let cache = match &self.cache_dir {
            Some(cache) => cache,
            None => return Plan::Fetch,
        };
        if link.pin().is_none() {
            return Plan::Fetch;
        }
        let dir = url_dir(cache.as_str(), url.as_str());
        if self.refresh && freshness != Freshness::CachedFirst {
            Plan::Replace { dir }
        } else {
            Plan::Consult { dir }
        }
    }

    /// What the entries of a URL are good for: the newest that `pin` admits is
    /// used, revalidated first where it is not fresh enough.
    pub fn consult(
        &self,
        pin: &BundleVersion,
        entries: &Vec<Entry>,
        now: ConfirmedAt,
        freshness: Freshness,
    ) -> (r: Consulted)
        ensures
            match newest_admitted(entries@, pin@, entries@.len() as int) {
                None => r == Consulted::Fetch,
                Some(at) => if freshness == Freshness::CachedFirst || (freshness
                    == Freshness::Window && is_fresh(
                    now.second(),
                    entries@[at].meta.confirmed_at.second(),
                    self.window(),
                )) {
                    r is Cached && r->Cached_0 == at
                } else {
                    r is Revalidate && r->Revalidate_0 == at
                },
            },
            r is Cached ==> r->Cached_0 < entries@.len(),
            r is Revalidate ==> r->Revalidate_0 < entries@.len(),
    {
        let mut newest: Option<usize> = None;
        let mut i: usize = 0;
        while i < entries.len()
            invariant
                i <= entries@.len(),
                match newest {
                    Some(at) => newest_admitted(entries@, pin@, i as int) == Some(at as int) && at
                        < entries@.len(),
                    None => newest_admitted(entries@, pin@, i as int) is None,
                },
            decreases entries@.len() - i,
        {
            let version = &entries[i].meta.version;
            if pin.admits(version) {
                let newer = match newest {
                    None => true,
                    Some(at) => entries[at].meta.version.is_older(version),
                };
                if newer {
                    newest = Some(i);
                }
            }
            i += 1;
        }
        let at = match newest {
            None => return Consulted::Fetch,
            Some(at) => at,
        };
        let now = now.unix_seconds();
        let confirmed = entries[at].meta.confirmed_at.unix_seconds();
        let fresh = if self.ttl == 0 {
            false
        } else if now < confirmed {
            true
        } else {
            let age: u64 = if confirmed < 0 && now > i64::MAX + confirmed {
                i64::MAX as u64
            } else {
                (now - confirmed) as u64
            };
            age < self.ttl
        };
        if freshness == Freshness::CachedFirst || (freshness == Freshness::Window && fresh) {
            Consulted::Cached(at)
        } else {
            Consulted::Revalidate(at)
        }
    }

    /// What a link's file resolves to: what it read as, or why it could not be
    /// read.
    pub fn after_read(
        link: &SchemaLink,
        path: &str,
        read: Result<Result<SchemaBundle, BundleError>, String>,
    ) -> (r: Result<Resolved, LinkError>)
        ensures
            match read {
                Err(why) => r is Err && unreachable_for(
                    r->Err_0,
                    link@,
                    Access::Read,
                    path@ + ": "@ + why@,
                ),
                Ok(Err(failure)) => r is Err && not_a_bundle(r->Err_0, link@, failure),
                Ok(Ok(bundle)) => match r {
                    Ok(resolved) => held_to(link@, bundle) && resolved.link_is() == link@
                        && resolved.bundle_is() == bundle && resolved.outcome_is()
                        == Outcome::Read,
                    Err(e) => !held_to(link@, bundle) && pin_refused(e, link@, bundle),
                },
            },
    {
        let bundle = match read {
            Err(why) => return Err(
                LinkError::Unreachable {
                    link: link.as_str().to_owned(),
                    doing: Access::Read,
                    why: cat3(path, ": ", why.as_str()),
                },
            ),
            Ok(Err(source)) => return Err(
                LinkError::NotABundle { link: link.as_str().to_owned(), source },
            ),
            Ok(Ok(bundle)) => bundle,
        };
        match held_to_pin(link, bundle) {
            Ok(bundle) => Ok(Resolved { link: link.copied(), bundle, outcome: Outcome::Read }),
            Err(e) => Err(e),
        }
    }

    /// What a link fetched resolves to: what its document was, or why it could
    /// not be fetched.
    pub fn after_fetch(
        link: &SchemaLink,
        fetched: Result<Result<SchemaBundle, BundleError>, LinkError>,
    ) -> (r: Result<Resolved, LinkError>)
        ensures
            match fetched {
                Err(failure) => r == Err::<Resolved, LinkError>(failure),
                Ok(Err(failure)) => r is Err && not_a_bundle(r->Err_0, link@, failure),
                Ok(Ok(bundle)) => match r {
                    Ok(resolved) => held_to(link@, bundle) && resolved.link_is() == link@
                        && resolved.bundle_is() == bundle && resolved.outcome_is()
                        == Outcome::Fetched,
                    Err(e) => !held_to(link@, bundle) && pin_refused(e, link@, bundle),
                },
            },
    {
        let bundle = match fetched {
            Err(failure) => return Err(failure),
            Ok(Err(source)) => return Err(
                LinkError::NotABundle { link: link.as_str().to_owned(), source },
            ),
            Ok(Ok(bundle)) => bundle,
        };
        match held_to_pin(link, bundle) {
            Ok(bundle) => Ok(Resolved { link: link.copied(), bundle, outcome: Outcome::Fetched }),
            Err(e) => Err(e),
        }
    }

    /// What a link resolves to from an entry used with no request.
    pub fn from_entry(link: &SchemaLink, entry: Entry) -> (r: Resolved)
        ensures
            r.link_is() == link@,
            r.bundle_is() == entry.bundle,
            r.outcome_is() == Outcome::Cached,
    {
        Resolved { link: link.copied(), bundle: entry.bundle, outcome: Outcome::Cached }
    }

    /// What a link resolves to once its entry was revalidated, and what is to be
    /// kept: an entry that could not be revalidated is used as it is.
    pub fn after_revalidation(link: &SchemaLink, entry: SchemaBundle, answer: Revalidation) -> (r:
        Result<(Resolved, Keeping), LinkError>)
        ensures
            match answer {
                Revalidation::Unchanged => r is Ok && r->Ok_0.0.link_is() == link@
                    && r->Ok_0.0.bundle_is() == entry && r->Ok_0.0.outcome_is()
                    == Outcome::Confirmed && r->Ok_0.1 == Keeping::Confirm,
                Revalidation::Document(Ok(bundle)) => match r {
                    Ok(kept) => held_to(link@, bundle) && kept.0.link_is() == link@
                        && kept.0.bundle_is() == bundle && kept.0.outcome_is()
                        == Outcome::Fetched && kept.1 == Keeping::Store,
                    Err(e) => !held_to(link@, bundle) && pin_refused(e, link@, bundle),
                },
                Revalidation::Document(Err(failure)) => r is Ok && reuses(
                    r->Ok_0.0,
                    link@,
                    entry,
                    "the origin answered a document that is not a schema bundle: "@ + failure.why@,
                ) && r->Ok_0.1 == Keeping::Nothing,
                Revalidation::Failed(failure) => r is Ok && reuses(
                    r->Ok_0.0,
                    link@,
                    entry,
                    match failure {
                        LinkError::Unreachable { link: _, doing: _, why } => why@,
                        other => link_error_words(other),
                    },
                ) && r->Ok_0.1 == Keeping::Nothing,
            },
    {
        let link = link.copied();
        match answer {
            Revalidation::Unchanged => Ok(
                (Resolved { link, bundle: entry, outcome: Outcome::Confirmed }, Keeping::Confirm),
            ),
            Revalidation::Document(Ok(bundle)) => match held_to_pin(&link, bundle) {
                Ok(bundle) => Ok(
                    (Resolved { link, bundle, outcome: Outcome::Fetched }, Keeping::Store),
                ),
                Err(e) => Err(e),
            },
            Revalidation::Document(Err(failure)) => {
                let why = cat2(
                    "the origin answered a document that is not a schema bundle: ",
                    failure.why.as_str(),
                );
                Ok((Resolved { link, bundle: entry, outcome: Outcome::Reused { why } }, Keeping::Nothing))
            },
            Revalidation::Failed(failure) => {
                let why = match failure {
                    LinkError::Unreachable { link: _, doing: _, why } => why,
                    other => other.message(),
                };
                Ok((Resolved { link, bundle: entry, outcome: Outcome::Reused { why } }, Keeping::Nothing))
            },
        }
    }
}

/// Whether a resolution uses an entry because its revalidation failed for `why`.
pub open spec fn reuses(
    resolved: Resolved,
    link: LinkView,
    entry: SchemaBundle,
    reason: Seq<char>,
) -> bool {
    &&& resolved.link_is() == link
    &&& resolved.bundle_is() == entry
    &&& match resolved.outcome_is() {
        Outcome::Reused { why } => why@ == reason,
        _ => false,
    }
}

/// What a resolution is handed.
#[derive(Debug)]
pub enum ResolveEvent {
    /// It starts.
    Start,
    /// The file it asked for was read, or why not.
    FileRead {
        /// The file.
        path: String,
        /// What it read as.
        read: Result<Result<SchemaBundle, BundleError>, String>,
    },
    /// The bundle it asked for was fetched, or why not.
    Fetched {
        /// Where it is to be kept, if at all.
        dir: Option<String>,
        /// Whether it replaces every entry there.
        replaces: bool,
        /// What its document was.
        got: Result<Result<SchemaBundle, BundleError>, LinkError>,
    },
    /// The entries it asked for were read.
    EntriesRead {
        /// The directory they are kept in.
        dir: String,
        /// The entries.
        entries: Vec<Entry>,
        /// Now.
        now: ConfirmedAt,
    },
    /// The entry it asked about was revalidated.
    Revalidated {
        /// The directory it is kept in.
        dir: String,
        /// The entry.
        entry: Entry,
        /// What the origin answered.
        answer: Revalidation,
    },
}

/// What a resolution asks for next.
#[derive(Debug)]
pub enum ResolveAction {
    /// Read a bundle from a file.
    ReadFile {
        /// The file.
        path: String,
    },
    /// Fetch the bundle.
    Fetch {
        /// Where it is to be kept, if at all.
        dir: Option<String>,
        /// Whether it replaces every entry there.
        replaces: bool,
    },
    /// Read the entries of a directory.
    ReadEntries {
        /// The directory.
        dir: String,
    },
    /// Revalidate an entry.
    Revalidate {
        /// The directory it is kept in.
        dir: String,
        /// The entry.
        entry: Entry,
    },
    /// Nothing more: the link resolved, once what is to be kept is.
    Finish {
        /// What the link resolved to.
        resolved: Resolved,
        /// What is to be kept.
        keeping: Keeping,
        /// Where, if at all.
        dir: Option<String>,
        /// Whether every entry there goes first.
        replaces: bool,
    },
}

/// Whether a resolution that was fetched finishes so.
pub open spec fn finishes_fetched(
    link: LinkView,
    bundle: SchemaBundle,
    dir: Option<String>,
    replaces: bool,
    action: ResolveAction,
) -> bool {
    match action {
        ResolveAction::Finish { resolved, keeping, dir: at, replaces: clears } => {
            &&& held_to(link, bundle)
            &&& resolved.link_is() == link
            &&& resolved.bundle_is() == bundle
            &&& resolved.outcome_is() == Outcome::Fetched
            &&& keeping == if dir is Some {
                Keeping::Store
            } else {
                Keeping::Nothing
            }
            &&& at == dir
            &&& clears == replaces
        },
        _ => false,
    }
}

/// Whether a resolution finishes with a bundle that was not fetched, keeping nothing.
pub open spec fn finishes_with(
    link: LinkView,
    bundle: SchemaBundle,
    outcome: Outcome,
    action: ResolveAction,
) -> bool {
    match action {
        ResolveAction::Finish { resolved, keeping, dir, replaces } => {
            &&& resolved.link_is() == link
            &&& resolved.bundle_is() == bundle
            &&& resolved.outcome_is() == outcome
            &&& keeping == Keeping::Nothing
            &&& !replaces
        },
        _ => false,
    }
}

/// Whether `r` is what a resolution does once its file was read.
pub open spec fn after_file(
    link: LinkView,
    path: Seq<char>,
    read: Result<Result<SchemaBundle, BundleError>, String>,
    r: Result<ResolveAction, LinkError>,
) -> bool {
    match read {
        Err(why) => r is Err && unreachable_for(
            r->Err_0,
            link,
            Access::Read,
            path + ": "@ + why@,
        ),
        Ok(Err(failure)) => r is Err && not_a_bundle(r->Err_0, link, failure),
        Ok(Ok(bundle)) => match r {
            Ok(action) => held_to(link, bundle) && finishes_with(
                link,
                bundle,
                Outcome::Read,
                action,
            ),
            Err(e) => !held_to(link, bundle) && pin_refused(e, link, bundle),
        },
    }
}

/// Whether `r` is what a resolution does once its bundle was fetched.
pub open spec fn after_document(
    link: LinkView,
    dir: Option<String>,
    replaces: bool,
    got: Result<Result<SchemaBundle, BundleError>, LinkError>,
    r: Result<ResolveAction, LinkError>,
) -> bool {
    match got {
        Err(failure) => r == Err::<ResolveAction, LinkError>(failure),
        Ok(Err(failure)) => r is Err && not_a_bundle(r->Err_0, link, failure),
        Ok(Ok(bundle)) => match r {
            Ok(action) => finishes_fetched(link, bundle, dir, replaces, action),
            Err(e) => !held_to(link, bundle) && pin_refused(e, link, bundle),
        },
    }
}

/// Whether `r` is what a resolution does once the entries of its URL were read.
pub open spec fn after_entries(
    resolver: LinkResolver,
    link: LinkView,
    freshness: Freshness,
    dir: String,
    entries: Seq<Entry>,
    now: ConfirmedAt,
    r: Result<ResolveAction, LinkError>,
) -> bool {
    let newest = match link.pin {
        Some(pin) => newest_admitted(entries, pin, entries.len() as int),
        None => None,
    };
    match newest {
        None => r == Ok::<ResolveAction, LinkError>(
            ResolveAction::Fetch { dir: Some(dir), replaces: false },
        ),
        Some(at) => if freshness == Freshness::CachedFirst || (freshness == Freshness::Window
            && is_fresh(
            now.second(),
            entries[at].meta.confirmed_at.second(),
            resolver.window(),
        )) {
            r is Ok && finishes_with(link, entries[at].bundle, Outcome::Cached, r->Ok_0)
        } else {
            r == Ok::<ResolveAction, LinkError>(
                ResolveAction::Revalidate { dir, entry: entries[at] },
            )
        },
    }
}

/// Whether `r` is what a resolution does once its entry was revalidated.
pub open spec fn after_answer(
    link: LinkView,
    dir: String,
    entry: Entry,
    answer: Revalidation,
    r: Result<ResolveAction, LinkError>,
) -> bool {
    match answer {
        Revalidation::Document(Ok(bundle)) => match r {
            Ok(action) => finishes_fetched(link, bundle, Some(dir), false, action),
            Err(e) => !held_to(link, bundle) && pin_refused(e, link, bundle),
        },
        Revalidation::Unchanged => match r {
            Ok(ResolveAction::Finish { resolved, keeping, dir: at, replaces }) => {
                &&& resolved.link_is() == link
                &&& resolved.bundle_is() == entry.bundle
                &&& resolved.outcome_is() == Outcome::Confirmed
                &&& keeping == Keeping::Confirm
                &&& at == Some(dir)
                &&& !replaces
            },
            _ => false,
        },
        Revalidation::Document(Err(failure)) => match r {
            Ok(ResolveAction::Finish { resolved, keeping, dir: _, replaces }) => reuses(
                resolved,
                link,
                entry.bundle,
                "the origin answered a document that is not a schema bundle: "@ + failure.why@,
            ) && keeping == Keeping::Nothing && !replaces,
            _ => false,
        },
        Revalidation::Failed(failure) => match r {
            Ok(ResolveAction::Finish { resolved, keeping, dir: _, replaces }) => reuses(
                resolved,
                link,
                entry.bundle,
                match failure {
                    LinkError::Unreachable { link: _, doing: _, why } => why@,
                    other => link_error_words(other),
                },
            ) && keeping == Keeping::Nothing && !replaces,
            _ => false,
        },
    }
}

/// How many steps a resolution takes at most from an event on.
pub open spec fn steps_left(event: ResolveEvent) -> nat {
    match event {
        ResolveEvent::Start => 4,
        ResolveEvent::EntriesRead { .. } => 3,
        _ => 1,
    }
}

/// How many steps a resolution takes at most from an action on.
pub open spec fn steps_after(action: ResolveAction) -> nat {
    match action {
        ResolveAction::ReadEntries { .. } => 3,
        ResolveAction::Finish { .. } => 0,
        _ => 1,
    }
}

impl LinkResolver {
    /// What resolving `link` asks for next, from what it was handed: a file is read,
    /// an unpinned remote link is fetched, and a pinned one resolves through the
    /// cache as `freshness`, the window and a forced fetch say.
    pub fn resolve(&self, link: &SchemaLink, freshness: Freshness, event: ResolveEvent) -> (r: Result<
        ResolveAction,
        LinkError,
    >)
        ensures
            match event {
                ResolveEvent::Start => match r {
                    Ok(ResolveAction::ReadFile { path }) => plans(
                        *self,
                        link@,
                        freshness,
                        Plan::Read { path },
                    ),
                    Ok(ResolveAction::Fetch { dir: None, replaces }) => !replaces && plans(
                        *self,
                        link@,
                        freshness,
                        Plan::Fetch,
                    ),
                    Ok(ResolveAction::Fetch { dir: Some(dir), replaces }) => replaces && plans(
                        *self,
                        link@,
                        freshness,
                        Plan::Replace { dir },
                    ),
                    Ok(ResolveAction::ReadEntries { dir }) => plans(
                        *self,
                        link@,
                        freshness,
                        Plan::Consult { dir },
                    ),
                    _ => false,
                },
                ResolveEvent::FileRead { path, read } => after_file(link@, path@, read, r),
                ResolveEvent::Fetched { dir, replaces, got } => after_document(
                    link@,
                    dir,
                    replaces,
                    got,
                    r,
                ),
                ResolveEvent::EntriesRead { dir, entries, now } => after_entries(
                    *self,
                    link@,
                    freshness,
                    dir,
                    entries@,
                    now,
                    r,
                ),
                ResolveEvent::Revalidated { dir, entry, answer } => after_answer(
                    link@,
                    dir,
                    entry,
                    answer,
                    r,
                ),
            },
            r is Ok ==> steps_after(r->Ok_0) < steps_left(event),
    {
        match event {
            ResolveEvent::Start => match self.plan(link, freshness) {
                Plan::Read { path } => Ok(ResolveAction::ReadFile { path }),
                Plan::Fetch => Ok(ResolveAction::Fetch { dir: None, replaces: false }),
                Plan::Replace { dir } => Ok(
                    ResolveAction::Fetch { dir: Some(dir), replaces: true },
                ),
                Plan::Consult { dir } => Ok(ResolveAction::ReadEntries { dir }),
            },
            ResolveEvent::FileRead { path, read } => match LinkResolver::after_read(
                link,
                path.as_str(),
                read,
            ) {
                Ok(resolved) => Ok(
                    ResolveAction::Finish {
                        resolved,
                        keeping: Keeping::Nothing,
                        dir: None,
                        replaces: false,
                    },
                ),
                Err(e) => Err(e),
            },
            ResolveEvent::Fetched { dir, replaces, got } => match LinkResolver::after_fetch(
                link,
                got,
            ) {
                Ok(resolved) => {
                    let keeping = if dir.is_some() {
                        Keeping::Store
                    } else {
                        Keeping::Nothing
                    };
                    Ok(ResolveAction::Finish { resolved, keeping, dir, replaces })
                },
                Err(e) => Err(e),
            },
            ResolveEvent::EntriesRead { dir, entries, now } => {
                let consulted = match link.pin() {
                    Some(pin) => self.consult(pin, &entries, now, freshness),
                    None => Consulted::Fetch,
                };
                let mut entries = entries;
                match consulted {
                    Consulted::Fetch => Ok(
                        ResolveAction::Fetch { dir: Some(dir), replaces: false },
                    ),
                    Consulted::Cached(at) => {
                        let entry = entries.remove(at);
                        Ok(
                            ResolveAction::Finish {
                                resolved: LinkResolver::from_entry(link, entry),
                                keeping: Keeping::Nothing,
                                dir: None,
                                replaces: false,
                            },
                        )
                    },
                    Consulted::Revalidate(at) => {
                        let entry = entries.remove(at);
                        Ok(ResolveAction::Revalidate { dir, entry })
                    },
                }
            },
            ResolveEvent::Revalidated { dir, entry, answer } => {
                match LinkResolver::after_revalidation(link, entry.bundle, answer) {
                    Ok((resolved, keeping)) => Ok(
                        ResolveAction::Finish { resolved, keeping, dir: Some(dir), replaces: false },
                    ),
                    Err(e) => Err(e),
                }
            },
        }
    }
}

/// The entry used is one the pin admits, and no entry the pin admits is newer.
pub proof fn newest_entry_is_used(entries: Seq<Entry>, pin: Seq<char>, n: int)
    requires
        0 <= n <= entries.len(),
    ensures
        match newest_admitted(entries, pin, n) {
            Some(at) => {
                &&& 0 <= at < n
                &&& pin_admits(pin, entries[at].meta.version@)
                &&& forall|i: int|
                    0 <= i < n && pin_admits(pin, (#[trigger] entries[i]).meta.version@)
                        ==> !version_before(entries[at].meta.version@, entries[i].meta.version@)
            },
            None => forall|i: int|
                0 <= i < n ==> !pin_admits(pin, (#[trigger] entries[i]).meta.version@),
        },
    decreases n,
{
    if n > 0 {
        newest_entry_is_used(entries, pin, n - 1);
        let version = entries[n - 1].meta.version@;
        no_version_is_older_than_itself(version);
        if let Some(at) = newest_admitted(entries, pin, n - 1) {
            if pin_admits(pin, version) && version_before(entries[at].meta.version@, version) {
                assert forall|i: int|
                    0 <= i < n && pin_admits(pin, (#[trigger] entries[i]).meta.version@)
                        implies !version_before(version, entries[i].meta.version@) by {
                    if i < n - 1 && version_before(version, entries[i].meta.version@) {
                        older_is_transitive(
                            entries[at].meta.version@,
                            version,
                            entries[i].meta.version@,
                        );
                    }
                }
            }
        }
    }
}

/// Where an entry is admitted by the pin there is a newest one, which a
/// resolution that puts the cache first uses with no request.
pub proof fn cached_first_never_waits(entries: Seq<Entry>, pin: Seq<char>, i: int)
    requires
        0 <= i < entries.len(),
        pin_admits(pin, entries[i].meta.version@),
    ensures
        newest_admitted(entries, pin, entries.len() as int) is Some,
{
    newest_entry_is_used(entries, pin, entries.len() as int);
}

// ---------------------------------------------------------------------------
// Requests.
// ---------------------------------------------------------------------------

/// What is done with an answer.
#[derive(Debug)]
pub enum Hop {
    /// It is the answer.
    Answered,
    /// The request is made again, of this URL.
    Follow(RemoteUrl),
}

/// Whether a status redirects.
pub open spec fn is_redirect(status: u16) -> bool {
    status == 301 || status == 302 || status == 303 || status == 307 || status == 308
}

/// What is wrong with a redirect from `target`, after `followed` others.
pub open spec fn redirect_fault(
    status: u16,
    location: Option<Seq<char>>,
    target: Seq<char>,
    followed: nat,
) -> Option<Seq<char>> {
    match location {
        None => Some(
            "the origin answered HTTP "@ + decimal(status as nat) + " with no Location"@,
        ),
        Some(location) => match remote_fault(absolute_location(target, location)) {
            Some(why) => Some(
                "the origin redirected to "@ + quoted(location)
                    + ", which a link may not follow: "@ + why,
            ),
            None => if followed >= MAX_REDIRECTS {
                Some("the origin redirected more than 5 times"@)
            } else {
                None
            },
        },
    }
}

/// What is done with an answer of `status` from `target`, `followed` redirects
/// on: every redirect is held to what a link itself may name.
pub fn hop(target: &RemoteUrl, status: u16, location: Option<&str>, followed: usize) -> (r: Result<
    Hop,
    String,
>)
    ensures
        if !is_redirect(status) {
            r == Ok::<Hop, String>(Hop::Answered)
        } else {
            let said = match location {
                Some(text) => Some(text@),
                None => None,
            };
            match r {
                Ok(Hop::Follow(url)) => redirect_fault(status, said, target@, followed as nat) is None
                    && url@ == absolute_location(target@, location->0@),
                Ok(Hop::Answered) => false,
                Err(why) => redirect_fault(status, said, target@, followed as nat) == Some(why@),
            }
        },
{
    if !(status == 301 || status == 302 || status == 303 || status == 307 || status == 308) {
        return Ok(Hop::Answered);
    }
    let location = match location {
        Some(location) => location,
        None => {
            let code = decimal_of(status as u64);
            return Err(cat3("the origin answered HTTP ", code.as_str(), " with no Location"));
        },
    };
    match redirected(target, location) {
        Ok(url) => {
            if followed >= MAX_REDIRECTS {
                Err("the origin redirected more than 5 times".to_owned())
            } else {
                Ok(Hop::Follow(url))
            }
        },
        Err(why) => {
            let shown = quoted_of(location);
            let said = cat3(", which ", why.as_str(), "");
            proof {
                reveal_strlit("");
                reveal_strlit(", which ");
                reveal_strlit("a link may not follow: ");
                reveal_strlit(", which a link may not follow: ");
                assert(said@ =~= ", which a link may not follow: "@ + remote_fault(
                    absolute_location(target@, location@),
                )->0);
                assert("the origin redirected to "@ + quoted(location@) + said@
                    =~= "the origin redirected to "@ + quoted(location@)
                    + ", which a link may not follow: "@ + remote_fault(
                    absolute_location(target@, location@),
                )->0);
            }
            Err(cat3("the origin redirected to ", shown.as_str(), said.as_str()))
        },
    }
}

/// Refuses an answer whose status is no success.
pub fn check_status(status: u16) -> (r: Result<(), String>)
    ensures
        match r {
            Ok(()) => 200 <= status < 300,
            Err(why) => !(200 <= status < 300) && why@ == "the origin answered HTTP "@ + decimal(
                status as nat,
            ),
        },
{
    if 200 <= status && status < 300 {
        return Ok(());
    }
    let code = decimal_of(status as u64);
    Err(cat2("the origin answered HTTP ", code.as_str()))
}

/// Whether an answer to a revalidation says the entry is current.
pub fn unchanged(meta: &EntryMeta, status: u16) -> (r: bool)
    ensures
        r == ((meta.etag is Some || meta.last_modified is Some) && status == 304),
{
    meta.conditional() && status == 304
}

/// How a request failed.
#[derive(Debug)]
pub enum FetchFailure {
    /// The connection was not established in time.
    Connect,
    /// Nothing was received in time.
    Receive,
    /// The body is past the bound.
    TooLarge,
    /// Otherwise, in words.
    Other(String),
}

/// A failed request in words, naming the bound a timeout crossed.
pub fn transport_failure(failure: &FetchFailure) -> (r: String)
    ensures
        r@ == match *failure {
            FetchFailure::Connect => "the connection was not established within the "@ + decimal(
                CONNECT_TIMEOUT as nat,
            ) + "-second connect timeout"@,
            FetchFailure::Receive => "nothing was received within the "@ + decimal(
                READ_TIMEOUT as nat,
            ) + "-second read timeout"@,
            FetchFailure::TooLarge => too_large_words(),
            FetchFailure::Other(words) => words@,
        },
{
    match failure {
        FetchFailure::Connect => {
            let bound = decimal_of(CONNECT_TIMEOUT);
            cat3(
                "the connection was not established within the ",
                bound.as_str(),
                "-second connect timeout",
            )
        },
        FetchFailure::Receive => {
            let bound = decimal_of(READ_TIMEOUT);
            cat3("nothing was received within the ", bound.as_str(), "-second read timeout")
        },
        FetchFailure::TooLarge => too_large(),
        FetchFailure::Other(words) => words.clone(),
    }
}

// ---------------------------------------------------------------------------
// Listing the cache.
// ---------------------------------------------------------------------------

/// What a listed entry is.
pub open spec fn listed(entry: CachedBundle) -> (Seq<char>, Seq<char>, int) {
    (entry.url@, entry.version@, entry.confirmed_at.second())
}

/// What listed entries are.
pub open spec fn listing(entries: Seq<CachedBundle>) -> Seq<(Seq<char>, Seq<char>, int)> {
    Seq::new(entries.len(), |i: int| listed(entries[i]))
}

/// Whether a listed entry comes before another: by URL, then by version.
pub open spec fn listed_before(a: (Seq<char>, Seq<char>, int), b: (Seq<char>, Seq<char>, int)) -> bool {
    text_before(a.0, b.0) || (a.0 == b.0 && version_before(a.1, b.1))
}

/// Whether entries are listed by URL, then by version.
pub open spec fn in_listing_order(entries: Seq<(Seq<char>, Seq<char>, int)>) -> bool {
    forall|i: int, j: int| 0 <= i < j < entries.len() ==> !listed_before(entries[j], entries[i])
}

fn lists_before(a: &CachedBundle, b: &CachedBundle) -> (r: bool)
    ensures
        r == listed_before(listed(*a), listed(*b)),
{
    is_before(a.url.as_str(), b.url.as_str()) || (same_text(a.url.as_str(), b.url.as_str())
        && a.version.is_older(&b.version))
}

proof fn lemma_listed_transitive(
    a: (Seq<char>, Seq<char>, int),
    b: (Seq<char>, Seq<char>, int),
    c: (Seq<char>, Seq<char>, int),
)
    requires
        !listed_before(b, a),
        !listed_before(c, b),
    ensures
        !listed_before(c, a),
{
    if listed_before(c, a) {
        lemma_before_total(a.0, b.0);
        lemma_before_total(b.0, c.0);
        if c.0 == a.0 {
            if text_before(a.0, b.0) {
                assert(text_before(c.0, b.0));
            }
            assert(a.0 == b.0);
            if a.1 != b.1 {
                versions_are_ordered(a.1, b.1);
            }
            if b.1 != c.1 {
                versions_are_ordered(b.1, c.1);
            }
            if a.1 != b.1 && b.1 != c.1 {
                older_is_transitive(a.1, b.1, c.1);
                older_is_transitive(a.1, c.1, a.1);
                no_version_is_older_than_itself(a.1);
            } else {
                no_version_is_older_than_itself(a.1);
            }
        } else {
            if text_before(a.0, b.0) {
                lemma_before_transitive(c.0, a.0, b.0);
            } else {
                assert(a.0 == b.0);
            }
        }
    }
}

/// The entries, listed by URL and then by version; entries alike keep their
/// order.
pub fn listed_in_order(entries: Vec<CachedBundle>) -> (r: Vec<CachedBundle>)
    ensures
        listing(r@).to_multiset() == listing(entries@).to_multiset(),
        in_listing_order(listing(r@)),
{
    let ghost all = listing(entries@);
    let count: usize = entries.len();
    let mut rest = entries;
    let mut out: Vec<CachedBundle> = Vec::new();
    proof {
        assert(listing(out@) + listing(rest@) =~= all);
    }
    while rest.len() > 0
        invariant
            (listing(out@) + listing(rest@)).to_multiset() == all.to_multiset(),
            in_listing_order(listing(out@)),
        decreases rest@.len(),
    {
        let ghost out_was = listing(out@);
        let ghost rest_was = listing(rest@);
        let next = rest.remove(0);
        let ghost one = listed(next);
        proof {
            assert(rest_was[0] == one);
            assert(rest_was =~= seq![one] + listing(rest@));
        }
        let mut at: usize = out.len();
        while at > 0 && lists_before(&next, &out[at - 1])
            invariant
                at <= out@.len(),
                out_was == listing(out@),
                one == listed(next),
                forall|k: int| at <= k < out_was.len() ==> listed_before(one, #[trigger] out_was[k]),
            decreases at,
        {
            at = at - 1;
        }
        out.insert(at, next);
        proof {
            assert(listing(out@) =~= out_was.insert(at as int, one));
            out_was.to_multiset_ensures();
            lemma_moved(out_was, listing(rest@), at as int, one);
            assert(in_listing_order(listing(out@))) by {
                let now = listing(out@);
                assert forall|i: int, j: int| 0 <= i < j < now.len() implies !listed_before(
                    now[j],
                    now[i],
                ) by {
                    if i == at as int {
                        assert(now[j] == out_was[j - 1]);
                        assert(listed_before(one, out_was[j - 1]));
                        lemma_listed_asymmetric(one, out_was[j - 1]);
                    } else if j == at as int {
                        assert(now[i] == out_was[i]);
                        if i < at - 1 {
                            assert(!listed_before(out_was[at - 1], out_was[i]));
                            lemma_listed_transitive(out_was[i], out_was[at - 1], one);
                        }
                    } else {
                        let k = if i > at { i - 1 } else { i };
                        let l = if j > at { j - 1 } else { j };
                        assert(now[i] == out_was[k] && now[j] == out_was[l]);
                    }
                }
            }
        }
    }
    proof {
        assert(listing(out@) + listing(rest@) =~= listing(out@));
    }
    out
}

proof fn lemma_listed_asymmetric(a: (Seq<char>, Seq<char>, int), b: (Seq<char>, Seq<char>, int))
    requires
        listed_before(a, b),
    ensures
        !listed_before(b, a),
{
    if listed_before(b, a) {
        if text_before(a.0, b.0) {
            if text_before(b.0, a.0) {
                lemma_before_transitive(a.0, b.0, a.0);
            }
            lemma_before_irreflexive(a.0);
        } else {
            if text_before(b.0, a.0) {
                lemma_before_irreflexive(a.0);
            } else {
                older_is_transitive(a.1, b.1, a.1);
                no_version_is_older_than_itself(a.1);
            }
        }
    }
}

/// A window of no length revalidates on every resolution: however an entry was
/// confirmed, a resolution that reads the cache asks its origin before it is used.
pub proof fn zero_window_revalidates(
    resolver: LinkResolver,
    link: LinkView,
    dir: String,
    entries: Seq<Entry>,
    now: ConfirmedAt,
    r: Result<ResolveAction, LinkError>,
)
    requires
        resolver.window() == 0,
        after_entries(resolver, link, Freshness::Window, dir, entries, now, r),
    ensures
        r is Ok,
        r->Ok_0 is Fetch || r->Ok_0 is Revalidate,
{
}

/// Moving the first of what is left into its place keeps what there is.
pub proof fn lemma_moved<A>(done: Seq<A>, rest: Seq<A>, at: int, one: A)
    requires
        0 <= at <= done.len(),
    ensures
        (done.insert(at, one) + rest).to_multiset() == (done + (seq![one] + rest)).to_multiset(),
{
    broadcast use vstd::seq_lib::group_to_multiset_ensures;

    vstd::seq_lib::lemma_multiset_commutative(done.insert(at, one), rest);
    vstd::seq_lib::lemma_multiset_commutative(done, seq![one] + rest);
    vstd::seq_lib::lemma_multiset_commutative(seq![one], rest);
    assert(done.insert(at, one) =~= done.take(at) + (seq![one] + done.skip(at)));
    vstd::seq_lib::lemma_multiset_commutative(done.take(at), seq![one] + done.skip(at));
    vstd::seq_lib::lemma_multiset_commutative(seq![one], done.skip(at));
    vstd::seq_lib::lemma_multiset_commutative(done.take(at), done.skip(at));
    assert(done.take(at) + done.skip(at) =~= done);
    assert((done.insert(at, one) + rest).to_multiset() =~= (done + (seq![one]
        + rest)).to_multiset());
}

} // verus!
