use onemessagebus::ask::{AskOptions, MessageSchema};
use onemessagebus::bind::Layouts;
use onemessagebus::bus::BusError;
use onemessagebus::codec::ServeOptions;
use onemessagebus::config::{Config, PolicyConfig, QueueConfig, ValidatorConfig, ValidatorKind};
use onemessagebus::correlation::Correlation;
use onemessagebus::json::Json;
use onemessagebus::names::{ConsumerName, DocumentName, QueueName};
use onemessagebus::prepare::LinkedLayout;
use onemessagebus::queue::QueueError;
use onemessagebus::queue_reads::Asker;
use onemessagebus::schema::{Registry, SchemaId};
use onemessagebus::transport::{MemoryTransport, Transport};
use onemessagebus::validate::{ValidationContext, Validator, Verdict};

/// Judges by the record's `ok`, and refuses a question it is not told the name of.
struct ByField;

impl Validator<Json> for ByField {
    fn validate(&self, message: &Json, context: &ValidationContext) -> Verdict {
        if message.get("secret").is_some() && context.correlation.is_none() {
            return Verdict::Refuse { reason: "nobody asked".to_owned() };
        }
        match message.get("ok").map(Json::is_true) {
            Some(true) | None => Verdict::Pass,
            Some(false) => {
                Verdict::Refuse { reason: format!("not ok on {}", context.queue.as_str()) }
            }
        }
    }
}

struct Silent;

impl Validator<Json> for Silent {
    fn validate(&self, _message: &Json, _context: &ValidationContext) -> Verdict {
        Verdict::Unjudged { reason: "asleep".to_owned() }
    }
}

fn json(text: &str) -> Json {
    Json::parse(text).unwrap()
}

fn name(text: &str) -> QueueName {
    QueueName::from_str(text).unwrap()
}

fn queue(text: &str, policy: PolicyConfig, answers: Option<&str>) -> QueueConfig {
    QueueConfig {
        name: name(text),
        policy,
        schema: None,
        answers: answers.map(name),
        claims: None,
        consumers: None,
        numbered: None,
    }
}

fn gate(on: &str) -> ValidatorConfig {
    ValidatorConfig {
        on: name(on),
        when: None,
        kind: ValidatorKind::Command,
        command: vec!["judge".to_owned()],
        cache: None,
    }
}

fn config(gates: &[&str]) -> Config {
    let mut config = Config::local("/tmp/bus", None);
    let mut events = PolicyConfig::none();
    events.hold_pending = Some(true);
    events.blocking_first = Some(true);
    events.projection = Some(DocumentName::from_str("state.json").unwrap());
    config.queues.insert("asks", queue("asks", events, Some("replies")));
    config.queues.insert("replies", queue("replies", PolicyConfig::none(), None));
    config.validators = gates.iter().map(|on| gate(on)).collect();
    config
}

fn layouts() -> Layouts<LinkedLayout> {
    Layouts::new()
}

fn any_schema() -> MessageSchema {
    MessageSchema { id: SchemaId::from_str("acme.any@1").unwrap(), document: json("{}") }
}

fn correlation(text: &str) -> Correlation {
    Correlation::from_str(text).unwrap()
}

#[test]
fn offers_are_judged_before_they_are_pushed() {
    let layouts = layouts();
    let config = config(&["replies"]);
    let bus = config.bind(&layouts, &Registry::new()).unwrap();
    let replies = name("replies");
    let judges = vec![ByField];
    let mut transport = MemoryTransport::new();

    let refused = bus.send(&mut transport, &judges, &replies, &json("{\"ok\":false}"));
    match refused {
        Err(BusError::Queue(QueueError::Refused { reason, .. })) => {
            assert_eq!(reason, "not ok on replies");
        }
        other => panic!("{other:?}"),
    }
    assert!(transport.read(&replies, None, 9).unwrap().records.is_empty());

    let sent = bus.send(&mut transport, &judges, &replies, &json("{\"ok\":true}")).unwrap();
    assert_eq!(sent.len(), 1);
    assert_eq!(transport.read(&replies, None, 9).unwrap().records.len(), 1);

    let unjudged = bus.send(&mut transport, &vec![Silent], &replies, &json("{}"));
    assert!(matches!(unjudged, Err(BusError::Queue(QueueError::Unjudged { .. }))));
    assert_eq!(transport.read(&replies, None, 9).unwrap().records.len(), 1);
}

#[test]
fn validating_appends_nothing() {
    let layouts = layouts();
    let config = config(&["replies"]);
    let bus = config.bind(&layouts, &Registry::new()).unwrap();
    let judges = vec![ByField];
    assert!(bus.validate(&judges, &name("replies"), &json("{\"ok\":true}")).unwrap().passes());
    let refused = bus.validate(&judges, &name("replies"), &json("{\"ok\":false}")).unwrap();
    assert_eq!(refused.reason(), Some("not ok on replies"));
    assert!(matches!(
        bus.validate(&judges, &name("nowhere"), &json("{}")),
        Err(BusError::UnknownQueue { .. })
    ));
}

#[test]
fn validators_that_are_code_judge_last() {
    let layouts = layouts();
    let config = config(&["replies"]);
    let bus = config.bind(&layouts, &Registry::new()).unwrap();
    let bus = bus.with_validator(&name("replies")).unwrap();
    assert_eq!(bus.gates().len(), 2);
    assert!(bus.gates()[0].validator.is_some());
    assert!(bus.gates()[1].validator.is_none());
    let record = json("{\"ok\":false}");
    let routed = bus.prepare(&name("replies"), &record).unwrap();
    let asks = bus.asks(&name("replies"), &record, &routed);
    assert_eq!(asks.iter().map(|asked| asked.validator).collect::<Vec<_>>(), vec![0, 1]);
    let both = vec![ByField, ByField];
    assert_eq!(
        bus.validate(&both, &name("replies"), &record).unwrap().reason(),
        Some("not ok on replies")
    );
    assert!(matches!(
        bus.with_validator(&name("nowhere")),
        Err(BusError::UnknownQueue { .. })
    ));
}

#[test]
fn whole_questions_are_asked_and_answered() {
    let layouts = layouts();
    let config = config(&["asks", "replies"]);
    let bus = config.bind(&layouts, &Registry::new()).unwrap();
    let asks = name("asks");
    let judges = vec![ByField, ByField];
    let mut transport = MemoryTransport::new();
    let question = json("{\"text\":\"why?\",\"secret\":1}");
    let pending = bus
        .ask(
            &mut transport,
            &judges,
            &asks,
            &any_schema(),
            &question,
            AskOptions::default(),
            &vec![correlation("one")],
        )
        .unwrap()
        .unwrap();
    assert_eq!(pending.correlation().as_str(), "one");
    let again = bus.ask(
        &mut transport,
        &judges,
        &asks,
        &any_schema(),
        &question,
        AskOptions::default(),
        &vec![correlation("one")],
    );
    assert!(matches!(again, Ok(None)));

    let refused = bus.reply(&mut transport, &judges, &asks, None, &json("{\"ok\":false}"));
    assert!(matches!(refused, Err(BusError::Queue(QueueError::Refused { .. }))));
    assert!(pending.reply_record(&transport).unwrap().is_none());

    let bound = bus
        .reply(&mut transport, &judges, &asks, Some(&correlation("one")), &json("{\"secret\":2}"))
        .unwrap();
    assert!(bound.answered);
    assert_eq!(
        pending.reply_record(&transport).unwrap().unwrap().render(),
        "{\"secret\":2,\"correlation\":\"one\"}"
    );
    assert!(matches!(
        bus.reply(&mut transport, &judges, &asks, None, &json("{}")),
        Err(BusError::Unbound { .. })
    ));
}

#[test]
fn held_records_are_answered_where_they_were_claimed() {
    let layouts = layouts();
    let config = config(&[]);
    let bus = config.bind(&layouts, &Registry::new()).unwrap();
    let asks = name("asks");
    let none: Vec<ByField> = Vec::new();
    let mut transport = MemoryTransport::new();
    bus.send(&mut transport, &none, &asks, &json("{\"text\":\"go?\",\"blocking\":true,\"correlation\":\"c\"}")).unwrap();
    let opened = bus.queue(&asks).unwrap();
    let claimed =
        opened.claim(&mut transport, &ConsumerName::default_consumer()).unwrap().unwrap();
    let elsewhere = onemessagebus::names::Position::from_token(claimed.position.token() + 7);
    assert!(matches!(
        bus.reply_at(&mut transport, &none, &asks, elsewhere, &json("{}")),
        Err(BusError::Queue(QueueError::NotPending { .. }))
    ));
    let bound =
        bus.reply_at(&mut transport, &none, &asks, claimed.position, &json("{\"t\":1}")).unwrap();
    assert!(bound.answered);
    assert_eq!(bound.correlation.unwrap().as_str(), "c");
    assert_eq!(bound.sent[0].1.record.render(), "{\"t\":1,\"correlation\":\"c\"}");
    assert!(opened.pending(&mut transport).unwrap().is_none());
    assert!(matches!(
        bus.reply_at(&mut transport, &none, &name("replies"), claimed.position, &json("{}")),
        Err(BusError::Queue(QueueError::NotAnEventQueue { .. }))
    ));
}

#[test]
fn configured_queues_stand_under_their_own_names() {
    assert!(config(&[]).well_named());
    let mut twisted = config(&[]);
    twisted.queues.insert("other", queue("replies", PolicyConfig::none(), None));
    assert!(!twisted.well_named());
}

#[test]
fn sessions_raise_under_their_own_asker() {
    let layouts = layouts();
    let config = config(&["replies"]);
    let bus = config.bind(&layouts, &Registry::new()).unwrap();
    let session = bus.serve(&name("replies")).unwrap();
    let mut options = ServeOptions::default();
    options.asker = Some(Asker::new("me", "the test").unwrap());
    let mut transport = MemoryTransport::new();
    let judges = vec![ByField];
    let sent = session
        .raise(&bus, &mut transport, &judges, &options, &json("{\"t\":1}"))
        .unwrap();
    assert_eq!(sent[0].1.record.render(), "{\"t\":1,\"asker\":\"me\"}");
    assert!(matches!(
        session.raise(&bus, &mut transport, &judges, &options, &json("{\"ok\":false}")),
        Err(BusError::Queue(QueueError::Refused { .. }))
    ));
}
