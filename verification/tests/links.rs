use onemessagebus::bundle::{BundleParts, BundleVersion, RegistryDocument, SchemaBundle};
use onemessagebus::json::Json;
use onemessagebus::link::{
    redirected, request_host, LinkError, LinkLocation, RemoteUrl, SchemaLink,
};
use onemessagebus::proxy::{host_of, no_proxy_admits, proxy_for, ProxyEnv};
use onemessagebus::resolve::{
    check_size, check_status, hop, is_entry_at, listed_in_order, meta_path, transport_failure,
    unchanged, url_dir, CachedBundle, Consulted, Entry, EntryMeta, EnvText, FetchFailure,
    Freshness, Hop, Keeping, LinkEnv, LinkResolver, OriginValidator, Outcome, Plan, ResolveAction,
    ResolveEvent, Revalidation,
};
use onemessagebus::schema::{Registry, RegistryError, SchemaId};
use onemessagebus::stamp::ConfirmedAt;

fn version(text: &str) -> BundleVersion {
    BundleVersion::from_str(text).unwrap()
}

fn link(text: &str) -> SchemaLink {
    SchemaLink::parse(text).unwrap()
}

fn bundle(declared: &str, id: &str) -> SchemaBundle {
    let documents = vec![RegistryDocument {
        id: SchemaId::from_str(id).unwrap(),
        schema: Json::parse("{\"type\":\"object\"}").unwrap(),
    }];
    SchemaBundle::new(version(declared), None, documents).unwrap()
}

fn entry(declared: &str, at: u64) -> Entry {
    Entry {
        meta: EntryMeta {
            url: RemoteUrl::parse("https://example.org/frames.json").unwrap(),
            version: version(declared),
            confirmed_at: ConfirmedAt::from_unix_seconds(at).unwrap(),
            etag: OriginValidator::new("\"a\""),
            last_modified: None,
        },
        bundle: bundle(declared, "acme.order@1"),
    }
}

fn malformed(text: &str) -> String {
    match SchemaLink::parse(text) {
        Err(LinkError::Malformed { link, why }) => {
            assert_eq!(link, text);
            why
        }
        _ => panic!("{text} is a link"),
    }
}

#[test]
fn no_proxy_matches_hosts_suffixes_ports_and_everything() {
    assert!(no_proxy_admits("localhost", "localhost"));
    assert!(no_proxy_admits(" example.org , localhost ", "LOCALHOST"));
    assert!(no_proxy_admits(".example.org", "a.example.org"));
    assert!(no_proxy_admits("*.example.org", "example.org"));
    assert!(no_proxy_admits("localhost:8443", "localhost"));
    assert!(no_proxy_admits("[::1]", "[::1]"));
    assert!(no_proxy_admits("*", "anything"));
    assert!(!no_proxy_admits("example.org", "badexample.org"));
    assert!(!no_proxy_admits("", "localhost"));
}

#[test]
fn hosts_are_read_from_authorities() {
    assert_eq!(host_of("user@example.org:80/x"), Some("example.org".to_owned()));
    assert_eq!(host_of("[::1]:8080?q"), Some("[::1]".to_owned()));
    assert_eq!(host_of("[::1"), None);
    assert_eq!(host_of("/x"), None);
    assert_eq!(request_host("HTTPS://a.b/c"), ("a.b".to_owned(), true));
    assert_eq!(request_host("http://a.b#c"), ("a.b".to_owned(), false));
}

#[test]
fn proxies_follow_the_scheme_and_the_exemptions() {
    let env = ProxyEnv {
        https: (Some("  ".to_owned()), Some(" http://p:1 ".to_owned())),
        http: (None, None),
        exempt: (Some("example.org".to_owned()), None),
    };
    assert_eq!(proxy_for(&env, true, "other.org"), Some("http://p:1".to_owned()));
    assert_eq!(proxy_for(&env, true, "example.org"), None);
    assert_eq!(proxy_for(&env, false, "other.org"), None);
}

#[test]
fn versions_are_read_and_pins_admit() {
    assert_eq!(version("8.1.2").parts(), &vec![8, 1, 2]);
    assert!(version("8").admits(&version("8.1.2")));
    assert!(version("8.0").admits(&version("8")));
    assert!(version("8.1.2").admits(&version("8.1.2")));
    assert!(!version("8.1").admits(&version("8.2")));
    let refused = BundleVersion::from_str("8.x").unwrap_err();
    assert_eq!(
        refused.message(),
        "\"8.x\" is not a version: one to three dot-separated non-negative integers, e.g. 8, 8.1 or 8.1.2"
    );
    assert!(BundleVersion::from_str("").is_err());
    assert!(BundleVersion::from_str("1.2.3.4").is_err());
    assert!(BundleVersion::from_str("+1").is_err());
    assert!(BundleVersion::from_str("18446744073709551616").is_err());
}

#[test]
fn versions_are_older_by_component_then_spelling() {
    assert!(version("8.1").is_older(&version("8.2")));
    assert!(version("9").is_older(&version("10")));
    assert!(version("8").is_older(&version("8.0")));
    assert!(version("08").is_older(&version("8")));
    assert!(!version("8").is_older(&version("8")));
}

#[test]
fn links_are_parsed() {
    let pinned = link("https://example.org/frames.json@8.1");
    assert_eq!(pinned.pin().unwrap().as_str(), "8.1");
    match pinned.location() {
        LinkLocation::Remote(url) => assert_eq!(url.as_str(), "https://example.org/frames.json"),
        _ => panic!("not remote"),
    }
    assert_eq!(pinned.as_str(), "https://example.org/frames.json@8.1");
    let file = link("file:///srv/frames.json");
    match file.location() {
        LinkLocation::File(path) => assert_eq!(path, "/srv/frames.json"),
        _ => panic!("not a file"),
    }
    let here = link("file://localhost/srv/x");
    match here.location() {
        LinkLocation::File(path) => assert_eq!(path, "/srv/x"),
        _ => panic!("not a file"),
    }
    let named = link("dir@2/frames@latest.json");
    assert!(named.pin().is_none());
}

#[test]
fn links_are_refused_naming_why() {
    assert_eq!(malformed("  "), "it is empty");
    assert_eq!(malformed(" a"), "it has leading or trailing whitespace");
    assert_eq!(malformed("@8"), "it names a pin and no location");
    assert_eq!(
        malformed("ftp://a/b"),
        "its scheme is not one a link takes: https://, http:// on a loopback host, file://, or a bare path"
    );
    assert_eq!(
        malformed("file://srv"),
        "a file:// URL names an absolute path, e.g. file:///srv/frames.json"
    );
    assert_eq!(
        malformed("http://example.org/x"),
        "http:// is taken only for a loopback host (localhost, 127.0.0.1 or [::1]); use https://"
    );
    assert_eq!(
        malformed("https://example.org:99999/x"),
        "it is not a well-formed URL: its port is not a number from 0 to 65535"
    );
    assert_eq!(
        malformed("https://exa mple.org/"),
        "it is not a well-formed URL: a scheme, an authority and a path"
    );
    let e = SchemaLink::parse("@8").unwrap_err();
    assert_eq!(e.message(), "\"@8\" is not a schema link: it names a pin and no location");
}

#[test]
fn loopback_hosts_are_taken_over_http() {
    assert!(RemoteUrl::parse("http://localhost:8080/x").is_ok());
    assert!(RemoteUrl::parse("http://127.0.0.1/x").is_ok());
    assert!(RemoteUrl::parse("http://[::1]:1/x").is_ok());
    assert_eq!(
        RemoteUrl::parse("/just/a/path").unwrap_err(),
        "it is not an https:// or http:// URL"
    );
}

#[test]
fn relative_paths_are_rebased() {
    assert_eq!(link("frames.json@8").rebased("/etc/bus").as_str(), "/etc/bus/frames.json@8");
    assert_eq!(link("/abs.json").rebased("/etc").as_str(), "/abs.json");
    assert_eq!(link("a.json").rebased("").as_str(), "a.json");
    assert_eq!(link("https://a.b/c").rebased("/etc").as_str(), "https://a.b/c");
}

#[test]
fn redirects_stay_within_what_a_link_names() {
    let from = RemoteUrl::parse("https://example.org/a/b?c").unwrap();
    assert_eq!(redirected(&from, "/d").unwrap().as_str(), "https://example.org/d");
    assert_eq!(redirected(&from, "https://x.y/z").unwrap().as_str(), "https://x.y/z");
    assert_eq!(
        redirected(&from, "http://x.y/z").unwrap_err(),
        "a link may not follow: http:// is taken only for a loopback host (localhost, 127.0.0.1 or [::1]); use https://"
    );
    match hop(&from, 200, None, 0) {
        Ok(Hop::Answered) => {}
        _ => panic!("not answered"),
    }
    match hop(&from, 302, Some("/d"), 4) {
        Ok(Hop::Follow(url)) => assert_eq!(url.as_str(), "https://example.org/d"),
        _ => panic!("not followed"),
    }
    assert_eq!(
        hop(&from, 302, Some("/d"), 5).unwrap_err(),
        "the origin redirected more than 5 times"
    );
    assert_eq!(
        hop(&from, 308, None, 0).unwrap_err(),
        "the origin answered HTTP 308 with no Location"
    );
    assert_eq!(
        hop(&from, 301, Some("ftp:x"), 0).unwrap_err(),
        "the origin redirected to \"ftp:x\", which a link may not follow: it is not an https:// or http:// URL"
    );
}

#[test]
fn statuses_sizes_and_failures_are_told() {
    assert!(check_status(204).is_ok());
    assert_eq!(check_status(404).unwrap_err(), "the origin answered HTTP 404");
    assert!(check_size(16777216, 16777216).is_ok());
    assert_eq!(
        check_size(16777217, 16777216).unwrap_err(),
        "the document is larger than the 16 MiB a bundle may be"
    );
    assert_eq!(
        check_size(65537, 65536).unwrap_err(),
        "the document is larger than the 65536 bytes it may be"
    );
    assert_eq!(
        transport_failure(&FetchFailure::Connect),
        "the connection was not established within the 5-second connect timeout"
    );
    assert_eq!(
        transport_failure(&FetchFailure::Receive),
        "nothing was received within the 15-second read timeout"
    );
    let one = entry("8", 10);
    assert!(unchanged(&one.meta, 304));
    assert!(!unchanged(&one.meta, 200));
}

#[test]
fn bundles_are_refused_naming_the_key() {
    let refused = |text: &str| BundleParts::of_json(text).unwrap_err().why;
    assert!(refused("{").starts_with("the document is not JSON: "));
    assert_eq!(refused("[]"), "the document is not a JSON object");
    assert_eq!(
        refused("{\"x\":1}"),
        "`x` is not a key of a bundle; it has `version`, `schemas` and, optionally, `description`"
    );
    assert_eq!(refused("{}"), "version: is missing");
    assert_eq!(refused("{\"version\":1}"), "version: is not a string");
    assert_eq!(refused("{\"version\":\"8\"}"), "schemas: is missing");
    assert_eq!(
        refused("{\"version\":\"8\",\"description\":1}"),
        "description: is not a string"
    );
    assert_eq!(refused("{\"version\":\"8\",\"schemas\":1}"), "schemas: is not an array");
    let parts = BundleParts::of_json("{\"version\":\"8\",\"schemas\":[]}").unwrap();
    assert_eq!(
        SchemaBundle::from_parts(parts, Vec::new()).unwrap_err().message(),
        "not a schema bundle: schemas: is empty; a bundle publishes at least one registry document"
    );
}

#[test]
fn bundles_publish_each_id_once() {
    let document = |id: &str, schema: &str| RegistryDocument {
        id: SchemaId::from_str(id).unwrap(),
        schema: Json::parse(schema).unwrap(),
    };
    let twice = vec![document("a.b@1", "{}"), document("a.c@1", "{}"), document("a.b@1", "{}")];
    assert_eq!(
        SchemaBundle::new(version("1"), None, twice).unwrap_err().why,
        "schemas[2].id: `a.b@1` is already declared by schemas[0]; each id appears once in a bundle"
    );
    let flat = vec![document("a.b@1", "true")];
    assert_eq!(
        SchemaBundle::new(version("1"), None, flat).unwrap_err().why,
        "schemas[0].schema: is not a JSON Schema object"
    );
    let value = Json::parse("{\"version\":\"1\",\"description\":\"d\",\"schemas\":[0]}").unwrap();
    assert_eq!(
        SchemaBundle::from_value(&value, vec![Err("missing field `id`".to_owned())]).unwrap_err().why,
        "schemas[0]: is not a registry document {\"id\", \"schema\"}: missing field `id`"
    );
    let read = SchemaBundle::from_value(&value, vec![Ok(document("a.b@1", "{}"))]).unwrap();
    assert_eq!(read.description(), Some("d"));
    assert_eq!(read.version().as_str(), "1");
    assert_eq!(read.schemas().len(), 1);
}

#[test]
fn bundles_register_up_to_the_first_conflict() {
    let mut registry = Registry::new();
    let first = bundle("1", "acme.order@1");
    assert!(first.register_into(&mut registry).is_ok());
    assert!(first.register_into(&mut registry).is_ok());
    let documents = vec![
        RegistryDocument {
            id: SchemaId::from_str("acme.other@1").unwrap(),
            schema: Json::parse("{}").unwrap(),
        },
        RegistryDocument {
            id: SchemaId::from_str("acme.order@1").unwrap(),
            schema: Json::parse("{\"type\":\"string\"}").unwrap(),
        },
    ];
    let second = SchemaBundle::new(version("2"), None, documents).unwrap();
    match second.register_into(&mut registry) {
        Err(RegistryError::Conflict { id }) => assert_eq!(id.to_text(), "acme.order@1"),
        _ => panic!("no conflict"),
    }
    assert_eq!(registry.id_texts(), vec!["acme.order@1", "acme.other@1"]);
}

#[test]
fn resolutions_are_planned() {
    let cached = LinkResolver::new(Some("/cache".to_owned()));
    match cached.plan(&link("/srv/x.json"), Freshness::Window) {
        Plan::Read { path } => assert_eq!(path, "/srv/x.json"),
        _ => panic!("not read"),
    }
    assert!(matches!(cached.plan(&link("https://a.b/c"), Freshness::Window), Plan::Fetch));
    let pinned = link("https://a.b/c@1");
    match cached.plan(&pinned, Freshness::Window) {
        Plan::Consult { dir } => assert_eq!(dir, url_dir("/cache", "https://a.b/c")),
        _ => panic!("not consulted"),
    }
    let forced = LinkResolver::new(Some("/cache".to_owned())).with_refresh(true);
    assert!(matches!(forced.plan(&pinned, Freshness::Window), Plan::Replace { .. }));
    assert!(matches!(forced.plan(&pinned, Freshness::CachedFirst), Plan::Consult { .. }));
    let bare = LinkResolver::new(None);
    assert!(matches!(bare.plan(&pinned, Freshness::Window), Plan::Fetch));
    assert!(matches!(bare.named_cache(), Err(LinkError::NoCacheDir)));
}

#[test]
fn the_newest_admitted_entry_is_consulted() {
    let resolver = LinkResolver::new(Some("/cache".to_owned())).with_ttl(60);
    let entries = vec![entry("8.1", 100), entry("9", 100), entry("8.2", 100), entry("8.0.9", 100)];
    let now = ConfirmedAt::from_unix_seconds(159).unwrap();
    let later = ConfirmedAt::from_unix_seconds(160).unwrap();
    let pin = version("8");
    assert_eq!(resolver.consult(&pin, &entries, now, Freshness::Window), Consulted::Cached(2));
    assert_eq!(resolver.consult(&pin, &entries, later, Freshness::Window), Consulted::Revalidate(2));
    assert_eq!(resolver.consult(&pin, &entries, later, Freshness::CachedFirst), Consulted::Cached(2));
    assert_eq!(resolver.consult(&pin, &entries, now, Freshness::Revalidate), Consulted::Revalidate(2));
    assert_eq!(resolver.consult(&version("7"), &entries, now, Freshness::Window), Consulted::Fetch);
}

#[test]
fn a_resolution_runs_step_by_step() {
    let resolver = LinkResolver::new(Some("/cache".to_owned()));
    let pinned = link("https://example.org/frames.json@8");
    let dir = match resolver.resolve(&pinned, Freshness::Revalidate, ResolveEvent::Start) {
        Ok(ResolveAction::ReadEntries { dir }) => dir,
        _ => panic!("no entries asked for"),
    };
    let now = ConfirmedAt::from_unix_seconds(200).unwrap();
    let read = ResolveEvent::EntriesRead { dir, entries: vec![entry("8.1", 100)], now };
    let (dir, kept) = match resolver.resolve(&pinned, Freshness::Revalidate, read) {
        Ok(ResolveAction::Revalidate { dir, entry }) => (dir, entry),
        _ => panic!("not revalidated"),
    };
    let failed = Revalidation::Document(Err(SchemaBundle::new(version("1"), None, Vec::new()).unwrap_err()));
    let answered = ResolveEvent::Revalidated { dir, entry: kept, answer: failed };
    match resolver.resolve(&pinned, Freshness::Revalidate, answered) {
        Ok(ResolveAction::Finish { resolved, keeping, .. }) => {
            assert_eq!(resolved.outcome().word(), "reused");
            match resolved.outcome() {
                Outcome::Reused { why } => assert_eq!(
                    why,
                    "the origin answered a document that is not a schema bundle: schemas: is empty; a bundle publishes at least one registry document"
                ),
                _ => panic!("not reused"),
            }
            assert_eq!(resolved.bundle().version().as_str(), "8.1");
            assert_eq!(keeping, Keeping::Nothing);
        }
        _ => panic!("not finished"),
    }
}

#[test]
fn fetched_bundles_are_held_to_their_pin() {
    let resolver = LinkResolver::new(None);
    let pinned = link("https://example.org/frames.json@8");
    let got = ResolveEvent::Fetched { dir: None, replaces: false, got: Ok(Ok(bundle("9", "a.b@1"))) };
    let e = resolver.resolve(&pinned, Freshness::Window, got).unwrap_err();
    assert_eq!(
        e.message(),
        "https://example.org/frames.json@8: the bundle declares version 9, which the pin @8 does not admit"
    );
    let file = link("/srv/x.json");
    let unread = ResolveEvent::FileRead { path: "/srv/x.json".to_owned(), read: Err("gone".to_owned()) };
    let e = resolver.resolve(&file, Freshness::Window, unread).unwrap_err();
    assert_eq!(e.message(), "/srv/x.json: cannot read the bundle: /srv/x.json: gone");
}

#[test]
fn environments_describe_resolvers() {
    let env = |ttl: EnvText, refresh: EnvText| LinkEnv {
        cache_dir: None,
        xdg_cache_home: Some("".to_owned()),
        home: Some("/home/me".to_owned()),
        ttl,
        refresh,
    };
    let plain = LinkResolver::from_env(&env(EnvText::Unset, EnvText::Text(" 0 ".to_owned()))).unwrap();
    assert_eq!(plain.cache_dir(), Some("/home/me/.cache/onemessagebus/schemas"));
    let e = LinkResolver::from_env(&env(EnvText::Text("soon".to_owned()), EnvText::Unset)).unwrap_err();
    assert_eq!(
        e.message(),
        "ONEMESSAGEBUS_SCHEMA_TTL: \"soon\" is not a whole number of seconds; 0 revalidates on every resolution"
    );
    let e = LinkResolver::from_env(&env(EnvText::Unset, EnvText::Text("yes".to_owned()))).unwrap_err();
    assert_eq!(
        e.message(),
        "ONEMESSAGEBUS_SCHEMA_REFRESH: \"yes\" is not 1 (force a fetch) or 0"
    );
    let e = LinkResolver::from_env(&env(EnvText::NotText, EnvText::Unset)).unwrap_err();
    assert_eq!(e.message(), "ONEMESSAGEBUS_SCHEMA_TTL: is not text");
}

#[test]
fn cache_entries_are_kept_under_a_digest() {
    assert_eq!(url_dir("/c", "abc"), "/c/ba7816bf8f01cfea414140de5dae2223");
    let url = "https://example.org/frames.json";
    let dir = url_dir("/c", url);
    let one = entry("8.1", 5);
    let path = meta_path(&dir, &one.meta.version);
    assert!(path.ends_with("/8.1.meta.json"));
    assert!(is_entry_at("/c", &dir, &path, &one.meta, None));
    assert!(!is_entry_at("/c", "/c/other", &path, &one.meta, None));
    let other = RemoteUrl::parse("https://x.y/z").unwrap();
    assert!(!is_entry_at("/c", &dir, &path, &one.meta, Some(&other)));
    assert!(OriginValidator::new("a\nb").is_none());
    assert!(OriginValidator::new(&"x".repeat(513)).is_none());
}

#[test]
fn listings_are_by_url_then_version() {
    let listed = |url: &str, v: &str| CachedBundle {
        url: RemoteUrl::parse(url).unwrap(),
        version: version(v),
        confirmed_at: ConfirmedAt::from_unix_seconds(1).unwrap(),
    };
    let order = listed_in_order(vec![
        listed("https://b.org/x", "1"),
        listed("https://a.org/x", "10"),
        listed("https://a.org/x", "9"),
    ]);
    let texts: Vec<String> = order
        .iter()
        .map(|one| format!("{}@{}", one.url.as_str(), one.version.as_str()))
        .collect();
    assert_eq!(texts, vec!["https://a.org/x@9", "https://a.org/x@10", "https://b.org/x@1"]);
}

#[test]
fn stamps_are_written_and_read_back() {
    let at = ConfirmedAt::from_unix_seconds(1789566143).unwrap();
    assert_eq!(at.to_text(), Some("2026-09-16T13:42:23Z".to_owned()));
    assert_eq!(ConfirmedAt::from_str("2026-09-16T13:42:23Z").unwrap().unix_seconds(), 1789566143);
    assert!(ConfirmedAt::from_unix_seconds(253402300799).is_some());
    assert!(ConfirmedAt::from_unix_seconds(253402300800).is_none());
    assert_eq!(
        ConfirmedAt::from_str("yesterday").unwrap_err(),
        "\"yesterday\" is not an RFC 3339 UTC stamp to the second, e.g. 2026-09-16T13:42:23Z"
    );
    assert!(ConfirmedAt::now().unix_seconds() > 1700000000);
}

#[test]
fn bundles_are_read_from_their_text() {
    let text = "{\"version\":\"1.2\",\"description\":\"d\",\"schemas\":[{\"id\":\"a.b@1\",\"schema\":{}}]}";
    let document = RegistryDocument {
        id: SchemaId::from_str("a.b@1").unwrap(),
        schema: Json::parse("{}").unwrap(),
    };
    let read = SchemaBundle::from_json(text, vec![Ok(document)]).unwrap().unwrap();
    assert_eq!(read.version().as_str(), "1.2");
    assert_eq!(read.description(), Some("d"));
    assert_eq!(read.schemas().len(), 1);
    assert!(SchemaBundle::from_json(text, Vec::new()).is_none());
    let other = RegistryDocument {
        id: SchemaId::from_str("a.b@2").unwrap(),
        schema: Json::parse("{}").unwrap(),
    };
    assert!(SchemaBundle::from_json(text, vec![Ok(other)]).is_none());
    let refused = SchemaBundle::from_json("{", Vec::new()).unwrap().unwrap_err();
    assert!(refused.why.starts_with("the document is not JSON: "), "{}", refused.why);
}

#[test]
fn a_window_of_nothing_revalidates_whatever_the_clock_says() {
    let entries = vec![entry("8", 500)];
    let before = ConfirmedAt::from_unix_seconds(100).unwrap();
    let none = LinkResolver::new(Some("/cache".to_owned())).with_ttl(0);
    let pin = version("8");
    assert_eq!(none.consult(&pin, &entries, before, Freshness::Window), Consulted::Revalidate(0));
    let some = LinkResolver::new(Some("/cache".to_owned())).with_ttl(1);
    assert_eq!(some.consult(&pin, &entries, before, Freshness::Window), Consulted::Cached(0));
}
