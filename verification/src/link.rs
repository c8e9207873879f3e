//! Schema links: a URL or a path a bundle is published at, pinned to a version.

use crate::bundle::{BundleError, BundleVersion, is_version};
use crate::filter::text_view;
use crate::local::{path_in, path_of};
use crate::proxy::{after_last, authority_len, authority_of, cut_after_last, host_in, host_of};
use crate::schema::{Read, RegistryError, registry_error_words};
use crate::text::{
    blank, cat2, cat3, cat4, cat5, cat6, chars_of, contains, find, holds_part, is_blank, last_at,
    last_of, lower, lower_of, occurs_at, parse_unsigned, quoted, quoted_of, same_text, starts,
    starts_with, string_of, trim, trimmed, unsigned_value,
};
use vstd::prelude::*;

verus! {

// ---------------------------------------------------------------------------
// Remote URLs.
// ---------------------------------------------------------------------------

/// The parts of a URI a link reads.
pub struct UriView {
    pub scheme: Option<Seq<char>>,
    pub host: Option<Seq<char>>,
    pub authority: Option<Seq<char>>,
}

/// The parts of a URI a link reads.
#[derive(Debug)]
pub struct UriParts {
    /// The scheme.
    pub scheme: Option<String>,
    /// The host.
    pub host: Option<String>,
    /// The authority.
    pub authority: Option<String>,
}

impl View for UriParts {
    type V = UriView;

    open spec fn view(&self) -> UriView {
        UriView {
            scheme: text_view(self.scheme),
            host: text_view(self.host),
            authority: text_view(self.authority),
        }
    }
}

/// The parts `ureq::http::Uri` reads a URI as; nothing where it is none.
pub uninterp spec fn parsed_uri(text: Seq<char>) -> Option<UriView>;

/// `ureq::http::Uri`'s `from_str`, and its `scheme_str`, `host` and `authority`:
/// the parts it reads, named [`parsed_uri`].
#[verifier::external_body]
fn uri_parts(text: &str) -> (r: Option<UriParts>)
    ensures
        match r {
            Some(parts) => parsed_uri(text@) == Some(parts@),
            None => parsed_uri(text@) is None,
        },
{
    let uri: ureq::http::Uri = text.parse().ok()?;
    Some(UriParts {
        scheme: uri.scheme_str().map(str::to_owned),
        host: uri.host().map(str::to_owned),
        authority: uri.authority().map(|authority| authority.as_str().to_owned()),
    })
}

/// The text of an optional text, none where there is none.
pub open spec fn or_empty(text: Option<Seq<char>>) -> Seq<char> {
    match text {
        Some(text) => text,
        None => Seq::empty(),
    }
}

/// Whether a host is this machine's own.
pub open spec fn is_loopback(host: Seq<char>) -> bool {
    let host = lower(host);
    host == "localhost"@ || host == "127.0.0.1"@ || host == "[::1]"@ || host == "::1"@
}

/// Whether the port an authority names, if any, is no number from 0 to 65535.
pub open spec fn bad_port(authority: Seq<char>) -> bool {
    let after_host = after_last(after_last(authority, '@'), ']');
    match last_at(after_host, ':') {
        Some(at) => unsigned_value(after_host.skip(at + 1), 65535) is None,
        None => false,
    }
}

/// Why the parts of a URI are no remote location.
pub open spec fn uri_fault(uri: Option<UriView>) -> Option<Seq<char>> {
    match uri {
        None => Some("it is not a well-formed URL: a scheme, an authority and a path"@),
        Some(uri) => {
            let scheme = match uri.scheme {
                Some(scheme) => lower(scheme),
                None => ""@,
            };
            if scheme != "https"@ && scheme != "http"@ {
                Some("it is not an https:// or http:// URL"@)
            } else if or_empty(uri.host).len() == 0 {
                Some("its URL names no host"@)
            } else if bad_port(or_empty(uri.authority)) {
                Some("it is not a well-formed URL: its port is not a number from 0 to 65535"@)
            } else if scheme == "http"@ && !is_loopback(uri.host->0) {
                Some(
                    "http:// is taken only for a loopback host (localhost, 127.0.0.1 or [::1]); use https://"@,
                )
            } else {
                None
            }
        },
    }
}

/// Why `text` is no remote location.
pub open spec fn remote_fault(text: Seq<char>) -> Option<Seq<char>> {
    uri_fault(parsed_uri(text))
}

/// A URL a link fetches its bundle from: `https://` on any host, or `http://` on
/// a loopback one.
#[derive(Debug)]
pub struct RemoteUrl {
    text: String,
}

impl View for RemoteUrl {
    type V = Seq<char>;

    closed spec fn view(&self) -> Seq<char> {
        self.text@
    }
}

/// Why the parts of a URI are no remote location.
pub fn check_uri(uri: &Option<UriParts>) -> (r: Result<(), String>)
    ensures
        match r {
            Ok(()) => uri_fault(
                match *uri {
                    Some(parts) => Some(parts@),
                    None => None,
                },
            ) is None,
            Err(why) => uri_fault(
                match *uri {
                    Some(parts) => Some(parts@),
                    None => None,
                },
            ) == Some(why@),
        },
{
    let uri = match uri {
        Some(uri) => uri,
        None => return Err(
            "it is not a well-formed URL: a scheme, an authority and a path".to_owned(),
        ),
    };
    let scheme = match &uri.scheme {
        Some(scheme) => lower_of(scheme.as_str()),
        None => "".to_owned(),
    };
    let secure = same_text(scheme.as_str(), "https");
    let plain = same_text(scheme.as_str(), "http");
    if !secure && !plain {
        return Err("it is not an https:// or http:// URL".to_owned());
    }
    let host = match &uri.host {
        Some(host) => host.as_str(),
        None => return Err("its URL names no host".to_owned()),
    };
    if host.is_empty() {
        return Err("its URL names no host".to_owned());
    }
    let authority = match &uri.authority {
        Some(authority) => authority.clone(),
        None => String::new(),
    };
    let host_port = cut_after_last(authority.as_str(), '@');
    let after_host = cut_after_last(host_port.as_str(), ']');
    let chars = chars_of(after_host.as_str());
    if let Some(at) = last_of(&chars, ':') {
        let len: usize = chars.len();
        let port = string_of(&chars, at + 1, len);
        proof {
            assert(port@ =~= after_host@.skip(at + 1));
        }
        if parse_unsigned(port.as_str(), 65535).is_none() {
            return Err(
                "it is not a well-formed URL: its port is not a number from 0 to 65535".to_owned(),
            );
        }
    }
    let low = lower_of(host);
    let loopback = same_text(low.as_str(), "localhost") || same_text(low.as_str(), "127.0.0.1")
        || same_text(low.as_str(), "[::1]") || same_text(low.as_str(), "::1");
    proof {
        reveal_strlit("http");
        reveal_strlit("https");
        assert("http"@.len() != "https"@.len());
    }
    if plain && !loopback {
        return Err(
            "http:// is taken only for a loopback host (localhost, 127.0.0.1 or [::1]); use https://".to_owned(),
        );
    }
    Ok(())
}

impl RemoteUrl {
    #[verifier::type_invariant]
    closed spec fn well_formed(&self) -> bool {
        remote_fault(self.text@) is None
    }

    /// `text` as a remote location, or why it is not one.
    pub fn parse(text: &str) -> (r: Result<Self, String>)
        ensures
            match r {
                Ok(url) => remote_fault(text@) is None && url@ == text@,
                Err(why) => remote_fault(text@) == Some(why@),
            },
    {
        let uri = uri_parts(text);
        match check_uri(&uri) {
            Ok(()) => Ok(RemoteUrl { text: text.to_owned() }),
            Err(why) => Err(why),
        }
    }

    /// The URL, as the link wrote it without its pin.
    pub fn as_str(&self) -> (r: &str)
        ensures
            r@ == self@,
            remote_fault(r@) is None,
    {
        proof {
            use_type_invariant(self);
        }
        self.text.as_str()
    }

    /// The same URL.
    pub fn copied(&self) -> (r: Self)
        ensures
            r@ == self@,
    {
        proof {
            use_type_invariant(self);
        }
        RemoteUrl { text: self.text.clone() }
    }
}

/// Where what follows `scheme://` starts.
pub open spec fn after_scheme(url: Seq<char>) -> int {
    if holds_part(url, "://"@) {
        first_reading(url, "://"@) + 3
    } else {
        0
    }
}

/// Where `text` first reads `part`, where it does.
pub open spec fn first_reading(text: Seq<char>, part: Seq<char>) -> int {
    choose|at: int| is_first_reading(text, part, at)
}

/// Whether `text` first reads `part` at `at`.
pub open spec fn is_first_reading(text: Seq<char>, part: Seq<char>, at: int) -> bool {
    occurs_at(text, part, at) && forall|k: int| 0 <= k < at ==> !occurs_at(text, part, k)
}

/// Where what follows `scheme://` starts.
fn scheme_end(url: &Vec<char>) -> (r: usize)
    ensures
        r == after_scheme(url@),
        r <= url@.len(),
{
    proof {
        reveal_strlit("://");
    }
    let sep = chars_of("://");
    let len: usize = url.len();
    match find(url, &sep) {
        Some(at) => {
            proof {
                assert(is_first_reading(url@, "://"@, at as int));
                let other = first_reading(url@, "://"@);
                assert(is_first_reading(url@, "://"@, other));
                if other < at {
                    assert(!occurs_at(url@, "://"@, other));
                }
                if at < other {
                    assert(!occurs_at(url@, "://"@, at as int));
                }
            }
            at + 3
        },
        None => 0,
    }
}

/// What a `Location` is from a URL: itself, or its path at the URL's own scheme
/// and authority where it is one.
pub open spec fn absolute_location(from: Seq<char>, location: Seq<char>) -> Seq<char> {
    if starts(location, "/"@) && !starts(location, "//"@) {
        let rest_at = after_scheme(from);
        from.take(rest_at) + authority_of(from.skip(rest_at)) + location
    } else {
        location
    }
}

/// The URL a `Location` names from `from`: absolute, or rooted at `from`'s scheme
/// and authority, held to what a remote location is either way.
pub fn redirected(from: &RemoteUrl, location: &str) -> (r: Result<RemoteUrl, String>)
    ensures
        match r {
            Ok(url) => url@ == absolute_location(from@, location@) && remote_fault(url@) is None,
            Err(why) => remote_fault(absolute_location(from@, location@)) is Some && why@
                == "a link may not follow: "@ + remote_fault(
                absolute_location(from@, location@),
            )->0,
        },
{
    let absolute = if starts_with(location, "/") && !starts_with(location, "//") {
        let chars = chars_of(from.as_str());
        let rest_at = scheme_end(&chars);
        let end = authority_len(&chars, rest_at);
        let root = string_of(&chars, 0, end);
        proof {
            assert(root@ =~= from@.take(rest_at as int) + authority_of(
                from@.skip(rest_at as int),
            ));
        }
        cat2(root.as_str(), location)
    } else {
        location.to_owned()
    };
    match RemoteUrl::parse(absolute.as_str()) {
        Ok(url) => Ok(url),
        Err(why) => Err(cat2("a link may not follow: ", why.as_str())),
    }
}

/// The host a request to a URL reaches, empty where it names none, and whether
/// its scheme is `https`.
pub fn request_host(url: &str) -> (r: (String, bool))
    ensures
        r.0@ == or_empty(host_in(url@.skip(after_scheme(url@)))),
        r.1 == starts(lower(url@), "https://"@),
{
    let low = lower_of(url);
    let https = starts_with(low.as_str(), "https://");
    let chars = chars_of(url);
    let at = scheme_end(&chars);
    let len: usize = chars.len();
    let rest = string_of(&chars, at, len);
    proof {
        assert(rest@ =~= url@.skip(at as int));
    }
    match host_of(rest.as_str()) {
        Some(host) => (host, https),
        None => (String::new(), https),
    }
}

// ---------------------------------------------------------------------------
// Links.
// ---------------------------------------------------------------------------

/// Where a link's bundle is read from.
#[derive(Debug)]
pub enum LinkLocation {
    /// An `https://` URL, or an `http://` one on a loopback host: fetched.
    Remote(RemoteUrl),
    /// A `file://` URL or a bare path: read on every resolution, never cached.
    File(String),
}

/// Where a link's bundle is read from.
pub enum LocationView {
    Remote(Seq<char>),
    File(Seq<char>),
}

impl View for LinkLocation {
    type V = LocationView;

    open spec fn view(&self) -> LocationView {
        match *self {
            LinkLocation::Remote(url) => LocationView::Remote(url@),
            LinkLocation::File(path) => LocationView::File(path@),
        }
    }
}

/// A link a configuration names: `<location>` or `<location>@<pin>`.
#[derive(Debug)]
pub struct SchemaLink {
    written: String,
    location: LinkLocation,
    pin: Option<BundleVersion>,
}

/// What a link is.
pub struct LinkView {
    pub written: Seq<char>,
    pub location: LocationView,
    pub pin: Option<Seq<char>>,
}

/// An optional version.
pub open spec fn pin_view(pin: Option<BundleVersion>) -> Option<Seq<char>> {
    match pin {
        Some(pin) => Some(pin@),
        None => None,
    }
}

impl View for SchemaLink {
    type V = LinkView;

    closed spec fn view(&self) -> LinkView {
        LinkView {
            written: self.written@,
            location: self.location@,
            pin: pin_view(self.pin),
        }
    }
}

/// What reaching a bundle was: reading a file, or fetching a URL.
#[derive(Debug, Clone, Copy, PartialEq, Eq, Structural)]
pub enum Access {
    /// A file, read.
    Read,
    /// A remote link, fetched.
    Fetch,
}

/// What reaching a bundle was, in a word.
pub open spec fn access_word(access: Access) -> Seq<char> {
    match access {
        Access::Read => "read"@,
        Access::Fetch => "fetch"@,
    }
}

/// Why a link did not resolve, or could not be parsed.
#[derive(Debug)]
pub enum LinkError {
    /// The text is not a link.
    Malformed {
        /// What was offered.
        link: String,
        /// What is wrong with it.
        why: String,
    },
    /// A variable the resolver reads holds what it cannot use.
    Environment {
        /// The variable.
        name: String,
        /// What is wrong with its value.
        why: String,
    },
    /// The bundle could not be fetched or read.
    Unreachable {
        /// The link.
        link: String,
        /// Whether it was read or fetched.
        doing: Access,
        /// Why not.
        why: String,
    },
    /// What the link served is not a bundle.
    NotABundle {
        /// The link.
        link: String,
        /// What is wrong with the document.
        source: BundleError,
    },
    /// The bundle declares a version the link's pin does not admit.
    PinUnsatisfied {
        /// The link.
        link: String,
        /// The pin.
        pin: BundleVersion,
        /// The version the bundle declared.
        declared: BundleVersion,
    },
    /// No cache directory can be named.
    NoCacheDir,
    /// The cache directory could not be read or written.
    Cache {
        /// The directory or file that failed.
        path: String,
        /// What the filesystem said.
        why: String,
    },
    /// A linked document contradicts one already registered.
    Register {
        /// The link.
        link: String,
        /// The registry's refusal.
        source: RegistryError,
    },
}

/// The variable naming the schema cache directory, over every other source.
pub const SCHEMA_CACHE_DIR_ENV: &'static str = "ONEMESSAGEBUS_SCHEMA_CACHE_DIR";

/// A refusal in words.
pub open spec fn link_error_words(error: LinkError) -> Seq<char> {
    match error {
        LinkError::Malformed { link, why } => quoted(link@) + " is not a schema link: "@ + why@,
        LinkError::Environment { name, why } => name@ + ": "@ + why@,
        LinkError::Unreachable { link, doing, why } => link@ + ": cannot "@ + access_word(doing)
            + " the bundle: "@ + why@,
        LinkError::NotABundle { link, source } => link@ + ": not a schema bundle: "@ + source.why@,
        LinkError::PinUnsatisfied { link, pin, declared } => link@
            + ": the bundle declares version "@ + declared@ + ", which the pin @"@ + pin@
            + " does not admit"@,
        LinkError::NoCacheDir => "no schema cache directory: set "@ + SCHEMA_CACHE_DIR_ENV@
            + ", XDG_CACHE_HOME or HOME"@,
        LinkError::Cache { path, why } => "the schema cache at "@ + path@ + ": "@ + why@,
        LinkError::Register { link, source } => link@ + ": "@ + registry_error_words(source),
    }
}

impl LinkError {
    /// The refusal in words.
    pub fn message(&self) -> (r: String)
        ensures
            r@ == link_error_words(*self),
    {
        match self {
            LinkError::Malformed { link, why } => {
                let shown = quoted_of(link.as_str());
                cat3(shown.as_str(), " is not a schema link: ", why.as_str())
            },
            LinkError::Environment { name, why } => cat3(name.as_str(), ": ", why.as_str()),
            LinkError::Unreachable { link, doing, why } => {
                let word = match doing {
                    Access::Read => "read",
                    Access::Fetch => "fetch",
                };
                cat5(link.as_str(), ": cannot ", word, " the bundle: ", why.as_str())
            },
            LinkError::NotABundle { link, source } => cat3(
                link.as_str(),
                ": not a schema bundle: ",
                source.why.as_str(),
            ),
            LinkError::PinUnsatisfied { link, pin, declared } => cat6(
                link.as_str(),
                ": the bundle declares version ",
                declared.as_str(),
                ", which the pin @",
                pin.as_str(),
                " does not admit",
            ),
            LinkError::NoCacheDir => cat3(
                "no schema cache directory: set ",
                SCHEMA_CACHE_DIR_ENV,
                ", XDG_CACHE_HOME or HOME",
            ),
            LinkError::Cache { path, why } => cat4(
                "the schema cache at ",
                path.as_str(),
                ": ",
                why.as_str(),
            ),
            LinkError::Register { link, source } => {
                let said = source.message();
                cat3(link.as_str(), ": ", said.as_str())
            },
        }
    }
}

/// Where the last segment of a link starts: after the last `/` or `\`.
pub open spec fn last_segment(text: Seq<char>) -> int
    decreases text.len(),
{
    if text.len() == 0 {
        0
    } else if text.last() == '/' || text.last() == '\\' {
        text.len() as int
    } else {
        last_segment(text.drop_last())
    }
}

/// Where the pin of a link starts, at its `@`, where it has one.
pub open spec fn pin_at(text: Seq<char>) -> Option<int> {
    let segment = last_segment(text);
    match last_at(text.skip(segment), '@') {
        Some(at) => if is_version(text.skip(segment + at + 1)) {
            Some(segment + at)
        } else {
            None
        },
        None => None,
    }
}

/// The location a link names, without its pin.
pub open spec fn located(text: Seq<char>) -> Seq<char> {
    match pin_at(text) {
        Some(at) => text.take(at),
        None => text,
    }
}

/// The pin a link names.
pub open spec fn pinned(text: Seq<char>) -> Option<Seq<char>> {
    match pin_at(text) {
        Some(at) => Some(text.skip(at + 1)),
        None => None,
    }
}

/// The path a `file://` URL names: what follows, less a leading `localhost`. Paths
/// start at `/`; a drive letter after it stays part of the path.
pub open spec fn file_path(location: Seq<char>) -> Seq<char> {
    let rest = location.skip(7);
    if starts(rest, "localhost"@) {
        rest.skip(9)
    } else {
        rest
    }
}

/// Where a location's bundle is read from, or why it is no location.
pub open spec fn location_of(location: Seq<char>) -> Result<LocationView, Seq<char>> {
    if location.len() == 0 {
        Err("it names a pin and no location"@)
    } else if starts(lower(location), "https://"@) || starts(lower(location), "http://"@) {
        match remote_fault(location) {
            Some(why) => Err(why),
            None => Ok(LocationView::Remote(location)),
        }
    } else if starts(lower(location), "file://"@) {
        if starts(file_path(location), "/"@) {
            Ok(LocationView::File(file_path(location)))
        } else {
            Err("a file:// URL names an absolute path, e.g. file:///srv/frames.json"@)
        }
    } else if holds_part(location, "://"@) {
        Err(
            "its scheme is not one a link takes: https://, http:// on a loopback host, file://, or a bare path"@,
        )
    } else {
        Ok(LocationView::File(location))
    }
}

/// What a link's text reads as, or why it is no link.
pub open spec fn parsed_link(text: Seq<char>) -> Result<LinkView, Seq<char>> {
    if is_blank(text) {
        Err("it is empty"@)
    } else if trimmed(text) != text {
        Err("it has leading or trailing whitespace"@)
    } else {
        match location_of(located(text)) {
            Err(why) => Err(why),
            Ok(location) => Ok(LinkView { written: text, location, pin: pinned(text) }),
        }
    }
}

fn find_segment(chars: &Vec<char>) -> (r: usize)
    ensures
        r == last_segment(chars@),
        r <= chars@.len(),
{
    let mut end: usize = chars.len();
    proof {
        assert(chars@.take(end as int) =~= chars@);
    }
    while end > 0 && chars[end - 1] != '/' && chars[end - 1] != '\\'
        invariant
            end <= chars@.len(),
            last_segment(chars@) == last_segment(chars@.take(end as int)),
        decreases end,
    {
        proof {
            assert(chars@.take(end as int).drop_last() =~= chars@.take(end - 1));
        }
        end = end - 1;
    }
    end
}

/// Where a location's bundle is read from.
fn parse_location(location: &str) -> (r: Result<LinkLocation, String>)
    ensures
        match r {
            Ok(read) => location_of(location@) == Ok::<LocationView, Seq<char>>(read@),
            Err(why) => location_of(location@) == Err::<LocationView, Seq<char>>(why@),
        },
{
    if location.is_empty() {
        return Err("it names a pin and no location".to_owned());
    }
    let low = lower_of(location);
    if starts_with(low.as_str(), "https://") || starts_with(low.as_str(), "http://") {
        return match RemoteUrl::parse(location) {
            Ok(url) => Ok(LinkLocation::Remote(url)),
            Err(why) => Err(why),
        };
    }
    if starts_with(low.as_str(), "file://") {
        let chars = chars_of(location);
        let len: usize = chars.len();
        proof {
            reveal_strlit("file://");
            reveal_strlit("localhost");
        }
        let rest = string_of(&chars, 7, len);
        proof {
            assert(rest@ =~= location@.skip(7));
        }
        let path = if starts_with(rest.as_str(), "localhost") {
            let inner = chars_of(rest.as_str());
            let end: usize = inner.len();
            let path = string_of(&inner, 9, end);
            proof {
                assert(path@ =~= rest@.skip(9));
            }
            path
        } else {
            rest
        };
        if !starts_with(path.as_str(), "/") {
            return Err(
                "a file:// URL names an absolute path, e.g. file:///srv/frames.json".to_owned(),
            );
        }
        return Ok(LinkLocation::File(path));
    }
    if contains(location, "://") {
        return Err(
            "its scheme is not one a link takes: https://, http:// on a loopback host, file://, or a bare path".to_owned(),
        );
    }
    Ok(LinkLocation::File(location.to_owned()))
}

/// What a link is once a relative bare path is resolved against `dir`.
pub open spec fn rebased_link(link: LinkView, dir: Seq<char>) -> LinkView {
    match link.location {
        LocationView::File(path) => if !starts(path, "/"@) && !starts(
            lower(link.written),
            "file://"@,
        ) {
            let path = path_in(dir, path);
            LinkView {
                written: match link.pin {
                    Some(pin) => path + "@"@ + pin,
                    None => path,
                },
                location: LocationView::File(path),
                pin: link.pin,
            }
        } else {
            link
        },
        _ => link,
    }
}

impl SchemaLink {
    /// Parses a link. A relative bare path stays relative.
    pub fn parse(text: &str) -> (r: Result<Self, LinkError>)
        ensures
            match r {
                Ok(link) => parsed_link(text@) == Ok::<LinkView, Seq<char>>(link@),
                Err(e) => match e {
                    LinkError::Malformed { link, why } => link@ == text@ && parsed_link(text@)
                        == Err::<LinkView, Seq<char>>(why@),
                    _ => false,
                },
            },
    {
        if blank(text) {
            return Err(
                LinkError::Malformed { link: text.to_owned(), why: "it is empty".to_owned() },
            );
        }
        let bare = trim(text);
        if !same_text(bare.as_str(), text) {
            return Err(
                LinkError::Malformed {
                    link: text.to_owned(),
                    why: "it has leading or trailing whitespace".to_owned(),
                },
            );
        }
        let chars = chars_of(text);
        let len: usize = chars.len();
        let segment = find_segment(&chars);
        let tail_text = string_of(&chars, segment, len);
        let tail = chars_of(tail_text.as_str());
        proof {
            assert(tail@ =~= text@.skip(segment as int));
        }
        let mut end: usize = len;
        let mut pin: Option<BundleVersion> = None;
        if let Some(at) = last_of(&tail, '@') {
            let candidate = string_of(&chars, segment + at + 1, len);
            proof {
                assert(candidate@ =~= text@.skip(segment + at + 1));
            }
            if let Ok(version) = BundleVersion::from_str(candidate.as_str()) {
                end = segment + at;
                pin = Some(version);
            }
        }
        let location = string_of(&chars, 0, end);
        proof {
            assert(pin_at(text@) is Some ==> pin_at(text@)->0 == end);
            assert(pin_at(text@) is None ==> end == len);
            assert(location@ =~= located(text@));
            assert(pin_view(pin) == pinned(text@));
        }
        match parse_location(location.as_str()) {
            Ok(location) => Ok(SchemaLink { written: text.to_owned(), location, pin }),
            Err(why) => Err(LinkError::Malformed { link: text.to_owned(), why }),
        }
    }

    /// The same link, a relative bare path resolved against `dir`.
    pub fn rebased(self, dir: &str) -> (r: Self)
        ensures
            r@ == rebased_link(self@, dir@),
    {
        let low = lower_of(self.written.as_str());
        let moved: Option<String> = match &self.location {
            LinkLocation::File(path) => if !starts_with(path.as_str(), "/") && !starts_with(
                low.as_str(),
                "file://",
            ) {
                Some(path_of(dir, path.as_str()))
            } else {
                None
            },
            _ => None,
        };
        match moved {
            Some(path) => {
                let written = match &self.pin {
                    Some(pin) => cat3(path.as_str(), "@", pin.as_str()),
                    None => path.clone(),
                };
                SchemaLink { written, location: LinkLocation::File(path), pin: self.pin }
            },
            None => self,
        }
    }

    /// Where the bundle is read from.
    pub fn location(&self) -> (r: &LinkLocation)
        ensures
            r@ == self@.location,
    {
        &self.location
    }

    /// The pin, when the link names one.
    pub fn pin(&self) -> (r: Option<&BundleVersion>)
        ensures
            match r {
                Some(pin) => self@.pin == Some(pin@),
                None => self@.pin is None,
            },
    {
        self.pin.as_ref()
    }

    /// The link as text: the location, and `@<pin>` when it names one.
    pub fn as_str(&self) -> (r: &str)
        ensures
            r@ == self@.written,
    {
        self.written.as_str()
    }

    /// The same link.
    pub fn copied(&self) -> (r: Self)
        ensures
            r@ == self@,
    {
        SchemaLink {
            written: self.written.clone(),
            location: match &self.location {
                LinkLocation::Remote(url) => LinkLocation::Remote(url.copied()),
                LinkLocation::File(path) => LinkLocation::File(path.clone()),
            },
            pin: match &self.pin {
                Some(pin) => Some(pin.copied()),
                None => None,
            },
        }
    }
}

/// A link reads as the text it is written as, and its location and pin make it
/// up again.
pub proof fn link_is_its_location_and_pin(text: Seq<char>)
    requires
        parsed_link(text) is Ok,
    ensures
        parsed_link(text)->Ok_0.written == text,
        match parsed_link(text)->Ok_0.pin {
            Some(pin) => text == located(text) + "@"@ + pin && is_version(pin),
            None => text == located(text),
        },
{
    reveal_strlit("@");
    let segment = last_segment(text);
    lemma_segment_bound(text);
    if let Some(at) = last_at(text.skip(segment), '@') {
        lemma_last_at_holds(text.skip(segment), '@');
        if let Some(pin) = pinned(text) {
            assert(text =~= located(text) + "@"@ + pin);
        }
    }
}

proof fn lemma_segment_bound(text: Seq<char>)
    ensures
        0 <= last_segment(text) <= text.len(),
    decreases text.len(),
{
    if text.len() > 0 {
        lemma_segment_bound(text.drop_last());
    }
}

/// Where a character last occurs, it is.
pub proof fn lemma_last_at_holds(text: Seq<char>, c: char)
    requires
        last_at(text, c) is Some,
    ensures
        0 <= last_at(text, c)->0 < text.len(),
        text[last_at(text, c)->0] == c,
    decreases text.len(),
{
    if text.len() > 0 && text.last() != c {
        lemma_last_at_holds(text.drop_last(), c);
    }
}

} // verus!
