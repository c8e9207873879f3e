use onemessagebus::author::{Allowlist, Author, OpWord};
use onemessagebus::bind::Layouts;
use onemessagebus::config::{
    check_keys, AuthorConfig, CacheConfig, Config, ConfigError, ConfiguredAuthor, PolicyConfig,
    QueueConfig, ValidatorConfig, ValidatorKind,
};
use onemessagebus::json::Json;
use onemessagebus::kinds::{
    check_kind, plugin_kind_of, plugin_name, Candidate, KindOrigin, Opener, TransportConfig,
    TransportKinds,
};
use onemessagebus::layout::{
    LayoutAuthor, LayoutAuthorWire, LayoutDocument, LayoutName, MemberName, NonEmpty, PrepareStep,
    StampStep,
};
use onemessagebus::names::QueueName;
use onemessagebus::policy::{Policy, QueueSpec};
use onemessagebus::predicate::FieldPath;
use onemessagebus::prepare::LinkedLayout;
use onemessagebus::schema::{Registry, SchemaId};
use onemessagebus::table::Table;
use onemessagebus::transport::TransportError;
use onemessagebus::validate::{combined, CommandValidator, PassCache, Shortfall, Verdict, When};

fn json(text: &str) -> Json {
    Json::parse(text).unwrap()
}

fn queue_name(text: &str) -> QueueName {
    QueueName::from_str(text).unwrap()
}

fn op(word: &str) -> OpWord {
    OpWord { word: word.to_owned() }
}

fn texts(words: &[&str]) -> Vec<String> {
    words.iter().map(|word| word.to_string()).collect()
}

fn queue(name: &str) -> QueueConfig {
    QueueConfig {
        name: queue_name(name),
        policy: PolicyConfig::none(),
        schema: None,
        answers: None,
        claims: None,
        consumers: None,
        numbered: None,
    }
}

fn layout() -> LinkedLayout {
    let mut authors: Table<LayoutAuthor> = Table::new();
    authors.insert(
        "planner",
        LayoutAuthor::try_from_wire(LayoutAuthorWire {
            every_op: false,
            capabilities: vec![op("plan"), op("note")],
            refusals: Table::new(),
        })
        .unwrap(),
    );
    let mut prepare: Table<Vec<PrepareStep>> = Table::new();
    prepare.insert(
        "inbox",
        vec![PrepareStep::Stamp(StampStep { member: MemberName::new("at").unwrap(), when: None })],
    );
    let queues = NonEmpty::new(vec![QueueSpec::new(queue_name("inbox"), Policy::default())]).unwrap();
    let document = LayoutDocument::new(
        LayoutName::new("desk").unwrap(),
        None,
        queues,
        vec![op("plan"), op("note"), op("stop")],
        authors,
        prepare,
    )
    .unwrap();
    LinkedLayout::new(document, Registry::new()).unwrap()
}

fn author(name: &str, capabilities: &[&str], refusals: &[(&str, &str)]) -> ConfiguredAuthor {
    let mut listed: Table<String> = Table::new();
    for (word, reason) in refusals {
        listed.insert(word, reason.to_string());
    }
    ConfiguredAuthor {
        author: Author::new(name),
        config: AuthorConfig { capabilities: texts(capabilities), refusals: listed },
    }
}

fn desk() -> Config {
    Config::local("/tmp/bus", Some("desk"))
}

fn refusal(config: &Config) -> String {
    let layouts = Layouts::new().with(layout());
    match config.bind(&layouts, &Registry::new()) {
        Err(e) => e.message(),
        Ok(_) => panic!("bound"),
    }
}

fn checked(text: &str) -> String {
    check_keys(text).unwrap_err().message()
}

#[test]
fn unknown_codec_keys_are_refused_by_place() {
    assert!(check_keys("codecs:\n  a:\n    select: x\n    frames: {}\n").is_ok());
    assert_eq!(checked("codecs:\n  a:\n    sel: x\n"), ": codecs.a: unknown field `sel`");
    assert_eq!(
        checked("codecs:\n  a:\n    frames:\n      f:\n        bindings:\n          - do: answer\n            response: 1\n          - do: answer\n            message: m\n"),
        ": codecs.a.frames.f.bindings[1]: unknown field `message`"
    );
    assert!(check_keys("codecs:\n  a:\n    frames:\n      f:\n        bindings:\n          - do: ask\n            record: 1\n            blocking: true\n            response: 1\n            unanswered: 1\n").is_ok());
    assert!(check_keys("codecs: 3\n").is_ok());
    assert!(check_keys("a: [").is_err());
}

#[test]
fn author_names_are_checked() {
    assert!(check_keys("authors:\n  planner-2: {}\n").is_ok());
    assert_eq!(
        checked("authors:\n  Planner: {}\n"),
        ": authors.Planner: an author name must match ^[a-z][a-z0-9-]{0,63}$"
    );
}

#[test]
fn versions_and_validators_are_checked() {
    let mut config = desk();
    config.version = 2;
    assert_eq!(
        config.checked().unwrap_err().message(),
        "version: 2 is not a configuration version this build reads; it reads 1"
    );
    let mut config = desk();
    config.validators.push(ValidatorConfig {
        on: queue_name("inbox"),
        when: None,
        kind: ValidatorKind::Command,
        command: Vec::new(),
        cache: None,
    });
    match Config::parse("a: 1", Ok(config)) {
        Err(ConfigError::Parse { why, .. }) => assert!(why.starts_with("validators[0].command: ")),
        _ => panic!("parsed"),
    }
    match Config::load("/etc/bus.yaml", "/etc", Ok("a: 1".to_owned()), Err("no version".to_owned())) {
        Err(e) => assert_eq!(e.message(), "/etc/bus.yaml: no version"),
        _ => panic!("loaded"),
    }
    match Config::load("/etc/bus.yaml", "/etc", Err("gone".to_owned()), Err(String::new())) {
        Err(e) => assert_eq!(e.message(), "cannot read the configuration /etc/bus.yaml: gone"),
        _ => panic!("loaded"),
    }
}

#[test]
fn profiles_are_looked_up() {
    let config = Config::local("/tmp/bus", Some("office"));
    assert_eq!(
        refusal(&config),
        "profile: `office` is not a layout this build links; the layouts are: desk"
    );
    let layouts = Layouts::new().with(layout());
    let config = desk().with_transport_dir("/var/bus");
    assert_eq!(config.transport.dir.as_deref(), Some("/var/bus"));
    let bus = config.bind(&layouts, &Registry::new()).unwrap();
    assert_eq!(bus.kind(), "local");
    assert_eq!(bus.queues(), vec!["inbox"]);
    assert!(bus.allowlist().allows(&Author::new("planner"), &op("plan")).is_ok());
}

#[test]
fn queues_override_the_layouts() {
    let layouts = Layouts::new().with(layout());
    let mut config = desk();
    let mut changed = queue("inbox");
    changed.numbered = Some(true);
    config.queues.insert("inbox", changed);
    config.queues.insert("extra", queue("extra"));
    let bus = config.bind(&layouts, &Registry::new()).unwrap();
    assert_eq!(bus.queues(), vec!["extra", "inbox"]);
    assert!(bus.queue(&queue_name("inbox")).unwrap().spec.numbered);
    let mut config = desk();
    let mut lost = queue("inbox");
    lost.answers = Some(queue_name("nowhere"));
    config.queues.insert("inbox", lost);
    assert_eq!(
        refusal(&config),
        "queues.inbox.answers: `nowhere` is not a queue this configuration declares"
    );
    let mut config = desk();
    let mut typed = queue("inbox");
    typed.schema = Some(SchemaId::from_str("acme.order@1").unwrap());
    config.queues.insert("inbox", typed);
    assert_eq!(
        refusal(&config),
        "queues.inbox.schema: acme.order@1 is not a schema this layout registers; it registers: "
    );
}

#[test]
fn added_schemas_stand_beside_the_layouts() {
    let layouts = Layouts::new().with(layout());
    let mut added = Registry::new();
    let id = SchemaId::from_str("acme.order@1").unwrap();
    added.register_schema(id.copied(), json("{}")).unwrap();
    let mut config = desk();
    let mut typed = queue("inbox");
    typed.schema = Some(id.copied());
    config.queues.insert("inbox", typed);
    let bus = config.bind(&layouts, &added).unwrap();
    assert_eq!(bus.registry().id_texts(), vec!["acme.order@1"]);
}

#[test]
fn grants_are_narrowed_and_never_widened() {
    let layouts = Layouts::new().with(layout());
    let planner = Author::new("planner");
    let mut config = desk();
    config.authors.insert("planner", author("planner", &["plan"], &[]));
    let bus = config.bind(&layouts, &Registry::new()).unwrap();
    assert!(bus.allowlist().allows(&planner, &op("plan")).is_ok());
    assert_eq!(
        bus.allowlist().allows(&planner, &op("note")).unwrap_err().message(),
        "'note' is not an op planner may issue: the configuration does not grant it"
    );
    let mut config = desk();
    config.authors.insert("planner", author("planner", &["stop"], &[]));
    assert_eq!(
        refusal(&config),
        "authors.planner.capabilities: `stop` is not granted to planner by the profile, and a configuration may narrow an author's grants but never widen them"
    );
}

#[test]
fn new_authors_are_granted_what_they_are_given() {
    let layouts = Layouts::new().with(layout());
    let mut config = desk();
    config.authors.insert("scribe", author("scribe", &["note", "note"], &[("stop", "not yours")]));
    let bus = config.bind(&layouts, &Registry::new()).unwrap();
    let scribe = Author::new("scribe");
    assert_eq!(bus.allowlist().granted(&scribe).len(), 1);
    assert_eq!(
        bus.allowlist().allows(&scribe, &op("stop")).unwrap_err().message(),
        "'stop' is not an op scribe may issue: not yours"
    );
    let told = |capabilities: &[&str], refusals: &[(&str, &str)]| {
        let mut config = desk();
        config.authors.insert("scribe", author("scribe", capabilities, refusals));
        refusal(&config)
    };
    assert_eq!(
        told(&["sing"], &[]),
        "authors.scribe.capabilities: `sing` is not an op; the ops are: plan, note, stop"
    );
    assert_eq!(told(&[], &[("sing", "no")]), "authors.scribe.refusals.sing: `sing` is not an op");
    assert_eq!(
        told(&["note"], &[("note", "no")]),
        "authors.scribe.refusals.note: a granted op may not have a refusal"
    );
    assert_eq!(
        told(&[], &[("note", " ")]),
        "authors.scribe.refusals.note: a refusal reason must be non-empty text"
    );
}

#[test]
fn validators_judge_what_they_are_bound_to() {
    let layouts = Layouts::new().with(layout());
    let declared = |on: &str| ValidatorConfig {
        on: queue_name(on),
        when: Some(When::Carries(FieldPath::from_str("text").unwrap())),
        kind: ValidatorKind::Command,
        command: texts(&["check", "--all"]),
        cache: Some(CacheConfig { dir: "/c".to_owned(), bar_fingerprint: texts(&["bar"]) }),
    };
    let mut config = desk();
    config.validators.push(declared("inbox"));
    let bus = config.bind(&layouts, &Registry::new()).unwrap();
    let inbox = queue_name("inbox");
    let loud = json("{\"text\":\"hi\"}");
    let quiet = json("{\"text\":\"\"}");
    let routed = vec![(queue_name("inbox"), json("{}"))];
    let asked = bus.asks(&inbox, &loud, &routed);
    assert_eq!(asked.len(), 1);
    assert_eq!(asked[0].validator, 0);
    assert!(bus.asks(&inbox, &quiet, &routed).is_empty());
    assert_eq!(bus.gates()[0].validator.as_ref().unwrap().command(), &texts(&["check", "--all"]));
    let mut config = desk();
    config.validators.push(declared("nowhere"));
    assert_eq!(
        refusal(&config),
        "validators[0].on: `nowhere` is not a queue this configuration declares; it declares: inbox"
    );
}

#[test]
fn layouts_stamp_what_is_offered() {
    let layouts = Layouts::new().with(layout());
    let bus = desk().bind(&layouts, &Registry::new()).unwrap();
    let routed = bus.prepare(&queue_name("inbox"), &json("{\"t\":1}")).unwrap();
    assert_eq!(routed.len(), 1);
    assert!(routed[0].1.get("at").is_some());
    let kept = layout()
        .prepare_at(&queue_name("inbox"), &json("{\"t\":1}"), bus.allowlist(), 5)
        .unwrap();
    assert_eq!(kept[0].1.render(), "{\"t\":1,\"at\":5}");
}

#[test]
fn verdicts_combine_refusals_first() {
    let refuse = || Verdict::Refuse { reason: "no".to_owned() };
    let unjudged = || Verdict::Unjudged { reason: "?".to_owned() };
    assert!(combined(&vec![Verdict::Pass, Verdict::Pass]).passes());
    assert!(combined(&Vec::new()).passes());
    assert_eq!(combined(&vec![unjudged(), refuse()]).reason(), Some("no"));
    assert_eq!(combined(&vec![Verdict::Pass, unjudged()]).reason(), Some("?"));
    let both = combined(&vec![combined(&vec![unjudged()]), combined(&vec![refuse()])]);
    assert_eq!(both.reason(), combined(&vec![unjudged(), refuse()]).reason());
}

#[test]
fn commands_judge_by_their_exit() {
    let judge = CommandValidator::new(texts(&["check"])).unwrap();
    assert!(judge.verdict_of(Some(0), "").passes());
    assert!(judge.answered(Some(0), &Vec::new()).passes());
    assert_eq!(judge.answered(Some(1), &vec![b'n', 0xff, b'o']).reason(), Some("n\u{fffd}o"));
    assert!(matches!(judge.verdict_of(Some(1), "bad\n"), Verdict::Refuse { .. }));
    assert!(matches!(judge.verdict_of(Some(2), ""), Verdict::Unjudged { .. }));
    assert!(matches!(judge.verdict_of(None, ""), Verdict::Unjudged { .. }));
    assert!(matches!(judge.fell_short(Shortfall::NotRun, "gone"), Verdict::Unjudged { .. }));
    assert!(CommandValidator::new(Vec::new()).is_err());
    assert!(PassCache::new("/c", Vec::new()).is_err());
}

#[test]
fn passes_are_recorded_under_their_bar() {
    let command = texts(&["check"]);
    let key = PassCache::key(&command, &b"record".to_vec(), "bar-1");
    let moved = PassCache::key(&command, &b"record".to_vec(), "bar-2");
    let record = Some(PassCache::record(&key));
    assert!(PassCache::holds_pass(&record, &key));
    assert!(!PassCache::holds_pass(&record, &moved));
    assert!(!PassCache::holds_pass(&None, &key));

    let bare = CommandValidator::new(texts(&["check"])).unwrap();
    assert!(bare.pass_key(&b"record".to_vec(), &Some("bar-1".to_owned())).is_none());
    let cache = PassCache::new("/c", texts(&["bar"])).unwrap();
    let caching = CommandValidator::new(texts(&["check"])).unwrap().with_cache(cache);
    assert!(caching.pass_key(&b"record".to_vec(), &None).is_none());
    let under = caching.pass_key(&b"record".to_vec(), &Some("bar-1".to_owned()));
    assert_eq!(under.as_ref().unwrap().bar, key.bar);
    assert!(CommandValidator::remembered(&under, &record).unwrap().passes());
    assert!(CommandValidator::remembered(&Some(moved), &record).is_none());
    assert!(CommandValidator::remembered(&None, &record).is_none());
    let kept = CommandValidator::to_record(&under, &Verdict::Pass);
    assert!(PassCache::holds_pass(&kept, &key));
    let refused = Verdict::Refuse { reason: "no".to_owned() };
    assert!(CommandValidator::to_record(&under, &refused).is_none());
    assert!(CommandValidator::to_record(&None, &Verdict::Pass).is_none());
}

#[test]
fn transports_are_opened_by_kind() {
    let mut kinds = TransportKinds::builtin();
    assert!(check_kind("nats-2").is_ok());
    assert_eq!(
        check_kind("2nats").unwrap_err().message(),
        TransportError::Config {
            kind: "2nats".to_owned(),
            why: "\"2nats\" is not a transport kind: a kind is lowercase ASCII letters, digits and `-`, starting with a letter".to_owned(),
        }
        .message()
    );
    assert!(kinds.register("nats").is_ok());
    assert!(kinds.register("nats").is_err());
    assert!(kinds.register("memory").is_err());
    let named = |kind: &str| TransportConfig { kind: kind.to_owned(), dir: None, options: Vec::new() };
    let none = Vec::new();
    assert!(matches!(kinds.open(&named("memory"), None, &none), Ok(Opener::Registered)));
    assert!(matches!(
        kinds.open(&named("kafka"), Some("/bin/k".to_owned()), &none),
        Ok(Opener::Plugin(_))
    ));
    match kinds.open(&named("kafka"), None, &none) {
        Err(TransportError::UnknownKind { known, .. }) => assert_eq!(known, "local, memory, nats"),
        _ => panic!("opened"),
    }
    assert!(named("local").local_dir().is_err());
    assert_eq!(TransportConfig::local("/d").local_dir().unwrap(), "/d");
    assert!(TransportConfig::local("/d").check_memory().is_err());
    assert!(named("memory").check_memory().is_ok());
}

#[test]
fn plugins_are_listed_where_nothing_shadows_them() {
    let kinds = TransportKinds::builtin();
    let file = |name: &str, path: &str, executable: bool| Candidate {
        name: name.to_owned(),
        path: path.to_owned(),
        executable,
    };
    assert_eq!(plugin_name("nats"), "onemessagebus-transport-nats");
    assert_eq!(plugin_kind_of("onemessagebus-transport-nats.exe"), Some("nats".to_owned()));
    assert_eq!(plugin_kind_of("other"), None);
    let listed = kinds.kinds(&vec![
        file("onemessagebus-transport-zmq", "/a/zmq", true),
        file("onemessagebus-transport-nats", "/a/nats", true),
        file("onemessagebus-transport-nats", "/b/nats", true),
        file("onemessagebus-transport-local", "/a/local", true),
        file("onemessagebus-transport-dead", "/a/dead", false),
    ]);
    let shown: Vec<(String, KindOrigin, Option<String>)> =
        listed.into_iter().map(|one| (one.kind, one.origin, one.path)).collect();
    assert_eq!(
        shown,
        vec![
            ("local".to_owned(), KindOrigin::Builtin, None),
            ("memory".to_owned(), KindOrigin::Builtin, None),
            ("nats".to_owned(), KindOrigin::Plugin, Some("/a/nats".to_owned())),
            ("zmq".to_owned(), KindOrigin::Plugin, Some("/a/zmq".to_owned())),
        ]
    );
}

#[test]
fn allowlists_answer_for_their_authors() {
    let mut list = Allowlist::new(vec![op("plan"), op("note")]);
    let planner = Author::new("planner");
    list.grant(&planner, op("plan"));
    list.refuse(&planner, &op("note"), "ask first");
    assert!(list.declares(&planner));
    assert_eq!(list.authors(), vec!["planner"]);
    assert_eq!(
        list.allows(&planner, &op("note")).unwrap_err().message(),
        "'note' is not an op planner may issue: ask first"
    );
    assert!(list.narrow("k", &Author::new("nobody"), &Vec::new(), "r").is_err());
}

#[test]
fn allowlists_hand_out_their_operations_in_order() {
    let mut list = Allowlist::new(vec![op("plan"), op("note"), op("stop")]);
    let zoe = Author::new("zoe");
    let amy = Author::new("amy");
    list.grant(&zoe, op("stop"));
    list.grant(&zoe, op("plan"));
    list.grant(&zoe, op("stop"));
    list.declare(&amy);
    assert_eq!(list.authors(), vec!["amy", "zoe"]);
    assert_eq!(list.granted(&zoe), vec![op("stop"), op("plan")]);
    assert!(list.granted(&amy).is_empty());
    assert_eq!(list.vocabulary(), &vec![op("plan"), op("note"), op("stop")]);
    list.narrow("k", &zoe, &vec!["plan".to_owned()], "narrowed").unwrap();
    assert_eq!(list.granted(&zoe), vec![op("plan")]);
    assert_eq!(list.allows(&zoe, &op("stop")).unwrap_err().reason, "narrowed");
}
