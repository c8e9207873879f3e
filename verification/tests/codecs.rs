use onemessagebus::author::{Allowlist, Author, OpWord};
use onemessagebus::codec::{
    after_ask, after_raise, Done, frame_of, opening, validate_codec, Binding, BindingAction, CodecConfig,
    CodecFailure, CodecName, ConfiguredCodec, EnvName, FieldEquals, FrameConfig, Opening,
    ServeError, ServeOptions,
};
use onemessagebus::correlation::{Answer, Refusal, RefusalKind};
use onemessagebus::json::Json;
use onemessagebus::layout::{
    CheckStep, GrantOps, GrantStep, LayoutAuthor, LayoutAuthorWire, LayoutDocument, LayoutName,
    MemberName, NonEmpty, PrepareStep, RenameStep, Route, RouteStep, StampStep, VersionStep,
};
use onemessagebus::mapping::{resolve_ask, validate_mappings, visit_strings};
use onemessagebus::names::QueueName;
use onemessagebus::policy::{Policy, QueueSpec};
use onemessagebus::predicate::{FieldPath, Predicate};
use onemessagebus::prepare::{LinkedLayout, stamp_millis};
use onemessagebus::queue_reads::Asker;
use onemessagebus::schema::{Registry, SchemaId};
use onemessagebus::table::Table;
use onemessagebus::template::{path, render, render_string, valid_path};

fn json(text: &str) -> Json {
    Json::parse(text).unwrap()
}

fn queue_name(text: &str) -> QueueName {
    QueueName::from_str(text).unwrap()
}

fn member(text: &str) -> MemberName {
    MemberName::new(text).unwrap()
}

fn field(text: &str) -> FieldPath {
    FieldPath::from_str(text).unwrap()
}

fn op(word: &str) -> OpWord {
    OpWord { word: word.to_owned() }
}

fn registry() -> Registry {
    let mut registry = Registry::new();
    registry
        .register_schema(SchemaId::from_str("acme.frame@1").unwrap(), json("{\"type\":\"object\"}"))
        .unwrap();
    registry
}

fn codec(bindings: Vec<Binding>) -> CodecConfig {
    let mut frames: Table<FrameConfig> = Table::new();
    frames.insert(
        "ping",
        FrameConfig { schema: SchemaId::from_str("acme.frame@1").unwrap(), bindings },
    );
    CodecConfig {
        queue: None,
        reply_window_seconds: None,
        session_env: None,
        asker_env: None,
        about_env: None,
        select: "type".to_owned(),
        frames,
    }
}

fn answers(text: &str) -> Binding {
    Binding { when: None, action: BindingAction::Answer { response: json(text) } }
}

fn allowed() -> Allowlist<OpWord> {
    let mut list = Allowlist::new(vec![op("plan"), op("stop")]);
    list.grant(&Author::new("planner"), op("plan"));
    list
}

fn layout(steps: Vec<PrepareStep>) -> LinkedLayout {
    let mut prepare: Table<Vec<PrepareStep>> = Table::new();
    prepare.insert("inbox", steps);
    let mut authors: Table<LayoutAuthor> = Table::new();
    authors.insert(
        "planner",
        LayoutAuthor::try_from_wire(LayoutAuthorWire {
            every_op: false,
            capabilities: vec![op("plan")],
            refusals: Table::new(),
        })
        .unwrap(),
    );
    let queues = NonEmpty::new(vec![
        QueueSpec::new(queue_name("inbox"), Policy::default()),
        QueueSpec::new(queue_name("commands"), Policy::default()),
    ])
    .unwrap();
    let document = LayoutDocument::new(
        LayoutName::new("desk").unwrap(),
        None,
        queues,
        vec![op("plan"), op("stop")],
        authors,
        prepare,
    )
    .unwrap();
    LinkedLayout::new(document, registry()).unwrap()
}

fn prepared(steps: Vec<PrepareStep>, record: &str) -> Result<Vec<(String, String)>, String> {
    layout(steps)
        .prepare_at(&queue_name("inbox"), &json(record), &allowed(), 42)
        .map(|routed| {
            routed
                .into_iter()
                .map(|(queue, record)| (queue.as_str().to_owned(), record.render()))
                .collect()
        })
}

#[test]
fn templates_are_rendered() {
    let frame = json("{\"a\":{\"b\":7},\"t\":\"x\"}");
    assert_eq!(render_string("{frame.a}", &frame, None).unwrap().render(), "{\"b\":7}");
    assert_eq!(
        render_string("n={frame.a.b} {frame.t}", &frame, None).unwrap().as_str(),
        Some("n=7 x")
    );
    assert_eq!(render_string("{frame.z}", &frame, None).unwrap().as_str(), Some(""));
    assert_eq!(render_string("{{x}}", &frame, None).unwrap().as_str(), Some("{x}"));
    assert!(render_string("{frame.z", &frame, None).is_err());
    assert!(render_string("{other.z}", &frame, None).is_err());
    let whole = render(&json("{\"k\":[\"{frame.t}\",1]}"), &frame, None).unwrap();
    assert_eq!(whole.render(), "{\"k\":[\"x\",1]}");
    assert!(valid_path("a.b"));
    assert!(!valid_path("a..b"));
    assert_eq!(path(&frame, "a.b").unwrap().as_u64(), Some(7));
}

#[test]
fn placeholders_are_checked_where_they_stand() {
    assert!(visit_strings(&json("[\"{frame.a}\"]"), false).is_ok());
    assert!(visit_strings(&json("[\"{reply.a}\"]"), true).is_ok());
    assert!(visit_strings(&json("[\"{reply.a}\"]"), false).is_err());
    assert!(visit_strings(&json("[\"{frame.a\"]"), false).is_err());
    assert!(validate_mappings(&json("{\"a\":1}")).is_ok());
    let plain = resolve_ask(&json("{\"a\":\"{reply.t}\"}"), &json("{}"), &json("{\"t\":\"r\"}"));
    assert_eq!(plain.unwrap().unwrap().render(), "{\"a\":\"r\"}");
}

#[test]
fn codecs_are_validated() {
    let name = CodecName::from_str("mcp").unwrap();
    assert!(validate_codec(&name, &codec(vec![answers("{}")])).is_ok());
    let mut bad = codec(vec![answers("{}")]);
    bad.select = "a..b".to_owned();
    assert_eq!(
        validate_codec(&name, &bad).unwrap_err(),
        "codecs.mcp.select is not a dot-separated object path"
    );
    let mut none = codec(Vec::new());
    assert_eq!(
        validate_codec(&name, &none).unwrap_err(),
        "codecs.mcp.frames.ping.bindings is empty"
    );
    none.frames = Table::new();
    assert_eq!(validate_codec(&name, &none).unwrap_err(), "codecs.mcp.frames is empty");
    let twice = codec(vec![Binding {
        when: None,
        action: BindingAction::Raise { record: json("{}"), response: None, fail: None },
    }]);
    assert_eq!(
        validate_codec(&name, &twice).unwrap_err(),
        "codecs.mcp.frames.ping.bindings[0]: raise takes exactly one of `response` and `fail`"
    );
    let deep = codec(vec![Binding {
        when: Some(FieldEquals { field: "a".to_owned(), equals: json("[]") }),
        action: BindingAction::Answer { response: json("{}") },
    }]);
    assert_eq!(
        validate_codec(&name, &deep).unwrap_err(),
        "codecs.mcp.frames.ping.bindings[0].when.equals is not a JSON scalar"
    );
    assert!(CodecName::from_str("Mcp").is_err());
    assert!(EnvName::from_str("A_1").is_ok());
    assert!(EnvName::from_str("1A").is_err());
}

#[test]
fn frames_are_selected_and_answered() {
    let first = Binding {
        when: Some(FieldEquals { field: "n".to_owned(), equals: json("1") }),
        action: BindingAction::Answer { response: json("\"one\"") },
    };
    let config = codec(vec![first, answers("\"any {frame.n}\"")]);
    let served = ConfiguredCodec::new(CodecName::from_str("mcp").unwrap(), config).unwrap();
    let registry = registry();
    let told = |text: &str| match served.open(text, &registry) {
        Ok((_, _, Opening::Respond(response))) => response.render(),
        Ok(_) => "another opening".to_owned(),
        Err(CodecFailure::Refused(why)) => why,
        Err(CodecFailure::Failed(why)) => why,
    };
    assert_eq!(told("{\"type\":\"ping\",\"n\":1}"), "\"one\"");
    assert_eq!(told("{\"type\":\"ping\",\"n\":2}"), "\"any 2\"");
    assert!(matches!(served.open("{\"type\":\"pong\"}", &registry), Err(CodecFailure::Refused(_))));
    assert!(matches!(served.open("nope", &registry), Err(CodecFailure::Refused(_))));
    assert!(frame_of("{}").is_ok());
}

#[test]
fn raises_and_asks_are_concluded() {
    let frame = json("{\"t\":\"x\"}");
    let ask = BindingAction::Ask {
        record: json("{\"q\":\"{frame.t}\"}"),
        blocking: true,
        response: json("{\"a\":\"{reply.text}\"}"),
        unanswered: json("{\"a\":null}"),
    };
    match opening(&ask, &frame) {
        Ok(Opening::Ask { record, blocking }) => {
            assert!(blocking);
            assert_eq!(record.render(), "{\"q\":\"x\"}");
        }
        _ => panic!("not asked"),
    }
    let replied = after_ask(
        &json("{\"a\":\"{reply.text}\"}"),
        &json("{\"a\":null}"),
        &frame,
        Ok(Answer::Reply(json("{\"text\":\"yes\"}"))),
    );
    assert_eq!(replied.ok().unwrap().render(), "{\"a\":\"yes\"}");
    let silent = after_ask(&json("{}"), &json("{\"a\":null}"), &frame, Ok(Answer::Timeout));
    assert_eq!(silent.ok().unwrap().render(), "{\"a\":null}");
    let raised = after_raise(&Some(json("{\"ok\":true}")), &None, &frame, Ok(()));
    assert_eq!(raised.ok().unwrap().render(), "{\"ok\":true}");
    assert!(matches!(
        after_raise(&None, &Some("gone {frame.t}".to_owned()), &frame, Ok(())),
        Err(CodecFailure::Failed(_))
    ));
    let refused: Answer<Json> =
        Answer::Refused(Refusal { kind: RefusalKind::Queue, reason: "r".to_owned() });
    assert_eq!(refused.word(), "refused");
    assert_eq!(
        ServeError::of(CodecFailure::Refused("no".to_owned())).message(),
        "no"
    );
}

#[test]
fn sessions_stamp_what_they_raise() {
    let options = ServeOptions {
        asker: Some(Asker::new("planner", "a test").unwrap()),
        about: None,
        session_millis: None,
        reply_window_millis: 1,
    };
    assert_eq!(
        options.raised(&json("{\"t\":1}")).render(),
        "{\"t\":1,\"asker\":\"planner\"}"
    );
    assert_eq!(
        options.raised(&json("{\"asker\":\"me\"}")).render(),
        "{\"asker\":\"me\"}"
    );
    assert_eq!(options.raised(&json("3")).render(), "3");
}

#[test]
fn steps_stamp_and_rename() {
    let stamp = PrepareStep::Stamp(StampStep { member: member("at"), when: None });
    assert_eq!(
        prepared(vec![stamp], "{\"t\":1}").unwrap(),
        vec![("inbox".to_owned(), "{\"t\":1,\"at\":42}".to_owned())]
    );
    let rename = PrepareStep::Rename(RenameStep { from: member("t"), to: member("u"), when: None });
    assert_eq!(
        prepared(vec![rename], "{\"t\":1}").unwrap(),
        vec![("inbox".to_owned(), "{\"u\":1}".to_owned())]
    );
    assert_eq!(
        prepared(Vec::new(), "{\"t\":1}").unwrap(),
        vec![("inbox".to_owned(), "{\"t\":1}".to_owned())]
    );
}

#[test]
fn steps_check_and_hold_to_versions() {
    let check = || {
        PrepareStep::Check(CheckStep {
            schema: SchemaId::from_str("acme.frame@1").unwrap(),
            at: Some(field("body")),
            refusal: "no body".to_owned(),
            when: None,
        })
    };
    assert!(prepared(vec![check()], "{\"body\":{}}").is_ok());
    assert!(prepared(vec![check()], "{\"body\":1}").unwrap_err().starts_with("no body"));
    let version = || {
        PrepareStep::Version(VersionStep {
            at: field("v"),
            value: 2,
            reads: vec![1, 2],
            required_when: Some(Predicate::All(Vec::new())),
            refusal: "wants {value}, found {found}".to_owned(),
            when: None,
        })
    };
    assert_eq!(
        prepared(vec![version()], "{\"v\":1}").unwrap(),
        vec![("inbox".to_owned(), "{\"v\":2}".to_owned())]
    );
    assert_eq!(prepared(vec![version()], "{\"v\":9}").unwrap_err(), "wants 2, found 9");
    assert_eq!(prepared(vec![version()], "{}").unwrap_err(), "wants 2, found none");
}

#[test]
fn steps_grant_by_author_and_word() {
    let grant = || {
        PrepareStep::Grant(GrantStep {
            author: field("by"),
            default_author: None,
            ops: GrantOps::Word(op("plan")),
            refusal: None,
            unknown: None,
            undeclared: None,
            malformed: None,
            when: None,
        })
    };
    assert!(prepared(vec![grant()], "{\"by\":\"planner\"}").is_ok());
    assert!(prepared(vec![grant()], "{\"by\":\"stranger\"}").is_err());
    assert!(prepared(vec![grant()], "{\"by\":7}").is_err());
}

#[test]
fn steps_route_by_shape() {
    let route = || {
        PrepareStep::Route(RouteStep {
            routes: NonEmpty::new(vec![Route {
                queue: queue_name("commands"),
                on: NonEmpty::new(vec![member("command")]).ok().unwrap(),
                take: NonEmpty::new(vec![member("command")]).ok().unwrap(),
                under: None,
                stamp: Vec::new(),
            }])
            .ok()
            .unwrap(),
            fallback: Some(queue_name("commands")),
            when: None,
        })
    };
    let routed = prepared(vec![route()], "{\"command\":\"go\",\"text\":\"hi\"}").unwrap();
    assert_eq!(routed[0].0, "commands");
    assert_eq!(routed[0].1, "{\"command\":\"go\"}");
}

#[test]
fn layouts_are_refused_naming_why() {
    assert!(LayoutName::new("Desk").is_err());
    assert!(MemberName::new(" ").is_err());
    let none: Vec<u8> = Vec::new();
    assert_eq!(NonEmpty::new(none).err().unwrap(), "is empty; it holds at least one");
    let unbound = LayoutDocument::new(
        LayoutName::new("desk").unwrap(),
        None,
        NonEmpty::new(vec![QueueSpec::new(queue_name("inbox"), Policy::default())]).unwrap(),
        Vec::new(),
        Table::new(),
        {
            let mut prepare: Table<Vec<PrepareStep>> = Table::new();
            prepare.insert(
                "inbox",
                vec![PrepareStep::Check(CheckStep {
                    schema: SchemaId::from_str("acme.none@1").unwrap(),
                    at: None,
                    refusal: "r".to_owned(),
                    when: None,
                })],
            );
            prepare
        },
    );
    match unbound {
        Ok(document) => assert_eq!(
            LinkedLayout::new(document, Registry::new()).err().unwrap(),
            "prepare.inbox[0].check.schema: acme.none@1 is not a schema a linked bundle carries"
        ),
        Err(_) => panic!("the document stands"),
    }
}

#[test]
fn frames_are_answered_step_by_step() {
    let ask = Binding {
        when: Some(FieldEquals { field: "n".to_owned(), equals: json("1") }),
        action: BindingAction::Ask {
            record: json("{\"q\":\"{frame.n}\"}"),
            blocking: true,
            response: json("{\"a\":\"{reply.text}\"}"),
            unanswered: json("{\"a\":null}"),
        },
    };
    let raise = Binding {
        when: None,
        action: BindingAction::Raise {
            record: json("{\"r\":\"{frame.n}\"}"),
            response: Some(json("{\"ok\":true}")),
            fail: None,
        },
    };
    let name = CodecName::from_str("mcp").unwrap();
    let served = ConfiguredCodec::new(name, codec(vec![ask, raise])).unwrap();
    let registry = registry();
    let asked = "{\"type\":\"ping\",\"n\":1}";
    assert!(matches!(
        served.answer(asked, &registry, Done::Nothing),
        Ok(Opening::Ask { blocking: true, .. })
    ));
    match served.answer(asked, &registry, Done::Asked(Ok(Answer::Reply(json("{\"text\":\"yes\"}"))))) {
        Ok(Opening::Respond(response)) => assert_eq!(response.render(), "{\"a\":\"yes\"}"),
        other => panic!("{other:?}"),
    }
    let raised = "{\"type\":\"ping\",\"n\":2}";
    assert!(matches!(
        served.answer(raised, &registry, Done::Nothing),
        Ok(Opening::Raise(_))
    ));
    match served.answer(raised, &registry, Done::Raised(Ok(()))) {
        Ok(Opening::Respond(response)) => assert_eq!(response.render(), "{\"ok\":true}"),
        other => panic!("{other:?}"),
    }
    match served.answer(raised, &registry, Done::Raised(Err("full".to_owned()))) {
        Err(CodecFailure::Failed(why)) => {
            assert_eq!(why, "the queue refused the raised record: full");
        }
        other => panic!("{other:?}"),
    }
    assert!(matches!(
        served.answer(raised, &registry, Done::Asked(Ok(Answer::Timeout))),
        Err(CodecFailure::Failed(_))
    ));
    assert!(matches!(
        served.answer("nope", &registry, Done::Nothing),
        Err(CodecFailure::Refused(_))
    ));
}

#[test]
fn stamps_hold_what_milliseconds_fit() {
    assert_eq!(stamp_millis(None), 0);
    assert_eq!(stamp_millis(Some(1_700_000_000_123)), 1_700_000_000_123);
    assert_eq!(stamp_millis(Some(u128::from(u64::MAX) + 1)), u64::MAX);
}
