use onemessagebus::ask::{AskOptions, Lifetime, MessageSchema};
use onemessagebus::bind::{Layout, Layouts};
use onemessagebus::bus::{Bus, BusError};
use onemessagebus::config::{Config, PolicyConfig, QueueConfig};
use onemessagebus::correlation::Correlation;
use onemessagebus::event_log::frame;
use onemessagebus::fold::Event;
use onemessagebus::json::Json;
use onemessagebus::names::{ConsumerName, DocumentName, Position, QueueName};
use onemessagebus::policy::{Policy, QueueSpec, Supersede};
use onemessagebus::predicate::{FieldPath, Predicate};
use onemessagebus::prepare::LinkedLayout;
use onemessagebus::projection::parse_projection;
use onemessagebus::queue::{QueueError, RawQueue};
use onemessagebus::queue_reads::Asker;
use onemessagebus::reply::{wait_step, Settled, WaitStep};
use onemessagebus::schema::{Registry, SchemaId};
use onemessagebus::codec::{Arrival, Served};
use onemessagebus::serve::ServeStep;
use onemessagebus::subscription::Subscription;
use onemessagebus::table::Table;
use onemessagebus::transport::{MemoryTransport, Transport, TransportError};
use onemessagebus::validate::Verdict;

fn json(text: &str) -> Json {
    Json::parse(text).unwrap()
}

fn queue_name(text: &str) -> QueueName {
    QueueName::from_str(text).unwrap()
}

fn event_policy() -> Policy {
    let mut policy = Policy::default();
    policy.hold_pending = true;
    policy.blocking_first = true;
    policy.projection = Some(DocumentName::from_str("state.json").unwrap());
    policy
}

fn open(name: &str, policy: Policy) -> RawQueue {
    RawQueue::open(QueueSpec::new(queue_name(name), policy), Registry::new())
}

fn me() -> ConsumerName {
    ConsumerName::default_consumer()
}

fn correlation(text: &str) -> Correlation {
    Correlation::from_str(text).unwrap()
}

fn any_schema() -> MessageSchema {
    MessageSchema { id: SchemaId::from_str("acme.any@1").unwrap(), document: json("{}") }
}

fn layouts() -> Layouts<LinkedLayout> {
    Layouts::new()
}

fn configured() -> Config {
    let mut config = Config::local("/tmp/bus", None);
    let mut policy = PolicyConfig::none();
    policy.hold_pending = Some(true);
    policy.blocking_first = Some(true);
    policy.projection = Some(DocumentName::from_str("state.json").unwrap());
    config.queues.insert(
        "asks",
        QueueConfig {
            name: queue_name("asks"),
            policy,
            schema: None,
            answers: Some(queue_name("replies")),
            claims: None,
            consumers: None,
            numbered: None,
        },
    );
    config.queues.insert(
        "replies",
        QueueConfig {
            name: queue_name("replies"),
            policy: PolicyConfig::none(),
            schema: None,
            answers: None,
            claims: None,
            consumers: None,
            numbered: None,
        },
    );
    config
}

fn asked<'a>(bus: &Bus<'a, LinkedLayout>, transport: &mut MemoryTransport, id: &str) -> onemessagebus::ask::Pending {
    let asks = queue_name("asks");
    let raised = bus
        .raise(
            transport,
            &asks,
            &any_schema(),
            &json("{\"text\":\"why?\"}"),
            &AskOptions::default(),
            &vec![correlation(id)],
        )
        .unwrap()
        .unwrap();
    bus.ask_raised(transport, &asks, raised, None, &Verdict::Pass).unwrap()
}

#[test]
fn plain_records_are_claimed_in_order() {
    let mut transport = MemoryTransport::new();
    let queue = open("jobs", Policy::default());
    for n in 0..3 {
        let pushed = queue.push(&mut transport, &json(&format!("{{\"n\":{n}}}")), &Verdict::Pass).unwrap();
        assert_eq!(pushed.position.token(), n + 1);
        assert_eq!(pushed.id, None);
    }
    assert_eq!(queue.unread_count(&mut transport).unwrap(), 3);
    for n in 0..3 {
        let claimed = queue.claim(&mut transport, &me()).unwrap().unwrap();
        assert_eq!(claimed.record.render(), format!("{{\"n\":{n}}}"));
    }
    assert!(queue.claim(&mut transport, &me()).unwrap().is_none());
    let other = ConsumerName::from_str("other").unwrap();
    assert!(queue.claim(&mut transport, &other).unwrap().is_some());
}

#[test]
fn numbered_records_are_numbered() {
    let mut transport = MemoryTransport::new();
    let mut spec = QueueSpec::new(queue_name("log"), Policy::default());
    spec.numbered = true;
    let queue = RawQueue::open(spec, Registry::new());
    let first = queue.push(&mut transport, &json("{\"a\":1}"), &Verdict::Pass).unwrap();
    let second = queue.push(&mut transport, &json("{\"a\":2}"), &Verdict::Pass).unwrap();
    assert_eq!(first.record.render(), "{\"id\":0,\"a\":1}");
    assert_eq!(second.id, Some(1));
    match queue.push(&mut transport, &json("[1]"), &Verdict::Pass) {
        Err(QueueError::NotAnObject { shape, .. }) => assert_eq!(shape, "an array"),
        _ => panic!("pushed"),
    }
}

#[test]
fn blocking_records_are_claimed_first_and_held() {
    let mut transport = MemoryTransport::new();
    let queue = open("asks", event_policy());
    queue.push(&mut transport, &json("{\"t\":1}"), &Verdict::Pass).unwrap();
    queue.push(&mut transport, &json("{\"t\":2,\"blocking\":true}"), &Verdict::Pass).unwrap();
    let claimed = queue.claim(&mut transport, &me()).unwrap().unwrap();
    assert_eq!(claimed.record.get("t").unwrap().as_u64(), Some(2));
    let held = queue.held(&mut transport).unwrap().unwrap();
    assert_eq!(held.id, claimed.id);
    assert_eq!(held.position.token(), claimed.position.token());
    let status = queue.status(&mut transport).unwrap();
    assert!(status.events);
    assert_eq!(status.records, 3);
    assert_eq!(status.waiting.len(), 1);
    assert_eq!(status.unread, 1);
    assert_eq!(status.pending_position.unwrap().token(), claimed.position.token());
    assert_eq!(status.cursors.names(), vec!["default"]);
}

#[test]
fn superseded_records_no_longer_wait() {
    let mut transport = MemoryTransport::new();
    let mut policy = event_policy();
    policy.supersede_on = Some(Supersede { key: FieldPath::from_str("topic").unwrap(), when: None });
    let queue = open("news", policy);
    queue.push(&mut transport, &json("{\"topic\":\"a\",\"n\":1}"), &Verdict::Pass).unwrap();
    queue.push(&mut transport, &json("{\"topic\":\"b\",\"n\":2}"), &Verdict::Pass).unwrap();
    queue.push(&mut transport, &json("{\"topic\":\"a\",\"n\":3}"), &Verdict::Pass).unwrap();
    let waiting = queue.waiting(&mut transport).unwrap();
    let numbers: Vec<u64> = waiting.iter().map(|r| r.get("n").unwrap().as_u64().unwrap()).collect();
    assert_eq!(numbers, vec![2, 3]);
}

#[test]
fn only_admitted_records_are_claimed() {
    let mut transport = MemoryTransport::new();
    let mut spec = QueueSpec::new(queue_name("jobs"), Policy::default());
    spec.claims = Some(Predicate::equals(FieldPath::from_str("ready").unwrap(), Json::Bool(true)));
    let queue = RawQueue::open(spec, Registry::new());
    queue.push(&mut transport, &json("{\"n\":1}"), &Verdict::Pass).unwrap();
    queue.push(&mut transport, &json("{\"n\":2,\"ready\":true}"), &Verdict::Pass).unwrap();
    let claimed = queue.claim(&mut transport, &me()).unwrap().unwrap();
    assert_eq!(claimed.record.get("n").unwrap().as_u64(), Some(2));
}

#[test]
fn refused_and_unjudged_records_are_not_appended() {
    let mut transport = MemoryTransport::new();
    let queue = open("jobs", Policy::default());
    let refused = Verdict::Refuse { reason: "too long".to_owned() };
    match queue.push(&mut transport, &json("{}"), &refused) {
        Err(QueueError::Refused { reason, .. }) => assert_eq!(reason, "too long"),
        _ => panic!("pushed"),
    }
    let unjudged = Verdict::Unjudged { reason: "no judge".to_owned() };
    match queue.push(&mut transport, &json("{}"), &unjudged) {
        Err(QueueError::Unjudged { reason, .. }) => assert_eq!(reason, "no judge"),
        _ => panic!("pushed"),
    }
    assert!(queue.log_after(&transport, None).unwrap().is_empty());
}

#[test]
fn records_are_held_to_their_schema() {
    let mut transport = MemoryTransport::new();
    let mut registry = Registry::new();
    let id = SchemaId::from_str("acme.order@1").unwrap();
    registry.register_schema(id.copied(), json("{\"type\":\"object\",\"required\":[\"n\"]}")).unwrap();
    let mut spec = QueueSpec::new(queue_name("orders"), Policy::default());
    spec.schema = Some(id);
    let queue = RawQueue::open(spec, registry);
    assert!(queue.push(&mut transport, &json("{\"n\":1}"), &Verdict::Pass).is_ok());
    match queue.push(&mut transport, &json("{}"), &Verdict::Pass) {
        Err(QueueError::Violation { violation, .. }) => assert_eq!(violation.pointer, ""),
        _ => panic!("pushed"),
    }
}

#[test]
fn abandoned_records_are_kept_and_taken_back() {
    let mut transport = MemoryTransport::new();
    let queue = open("asks", event_policy());
    let raised = queue
        .push(&mut transport, &json("{\"asker\":\"planner\"}"), &Verdict::Pass)
        .unwrap();
    let id = raised.id.unwrap();
    let marked = queue.abandon(&mut transport, &vec![id]).unwrap();
    assert_eq!(marked.len(), 1);
    assert_eq!(queue.unread_count(&mut transport).unwrap(), 0);
    assert_eq!(queue.waiting(&mut transport).unwrap().len(), 1);
    let asker = Asker::new("planner", "a test").unwrap();
    let back = queue.attend(&mut transport, &asker).unwrap();
    assert_eq!(back.len(), 1);
    assert_eq!(queue.unread_count(&mut transport).unwrap(), 1);
}

#[test]
fn listeners_own_what_they_raise_and_claim() {
    let mut transport = MemoryTransport::new();
    let asker = Asker::new("planner", "a test").unwrap();
    let mut listener = Subscription::open(
        &mut transport,
        open("asks", event_policy()),
        me(),
        Lifetime::Durable(asker),
    )
    .unwrap();
    let pushed = listener.push(&mut transport, &json("{\"t\":1}"), &Verdict::Pass).unwrap();
    assert_eq!(pushed.record.get("asker").unwrap().as_str(), Some("planner"));
    let marked = listener.abandon(&mut transport).unwrap();
    assert_eq!(marked.len(), 1);
    let again = Asker::new("planner", "a test").unwrap();
    let second = Subscription::open(
        &mut transport,
        open("asks", event_policy()),
        me(),
        Lifetime::Durable(again),
    )
    .unwrap();
    assert_eq!(second.abandon(&mut transport).unwrap().len(), 1);
    match Subscription::open(&mut transport, open("jobs", Policy::default()), me(), Lifetime::Session) {
        Err(QueueError::NotAnEventQueue { what, .. }) => {
            assert_eq!(what, "listeners that abandon and attend")
        }
        _ => panic!("opened"),
    }
}

#[test]
fn the_pending_record_is_answered_where_it_was_claimed() {
    let mut transport = MemoryTransport::new();
    let mut spec = QueueSpec::new(queue_name("asks"), event_policy());
    spec.answers = Some(queue_name("replies"));
    let queue = RawQueue::open(spec, Registry::new());
    queue.push(&mut transport, &json("{\"blocking\":true}"), &Verdict::Pass).unwrap();
    let claimed = queue.claim(&mut transport, &me()).unwrap().unwrap();
    let replies = open("replies", Policy::default());
    let reply = replies.push(&mut transport, &json("{\"ok\":true}"), &Verdict::Pass).unwrap();
    match queue.answer_at(&mut transport, Position::from_token(99), reply.position) {
        Err(QueueError::NotPending { why, .. }) => assert_eq!(
            why,
            format!("the pending record was claimed at position {}, not 99", claimed.position.token())
        ),
        _ => panic!("answered"),
    }
    assert!(matches!(
        queue.answer_at(&mut transport, claimed.position, Position::from_token(50)),
        Err(QueueError::NoReply { .. })
    ));
    assert!(queue.answer_at(&mut transport, claimed.position, reply.position).is_ok());
    assert!(queue.held(&mut transport).unwrap().is_none());
}

#[test]
fn projections_are_sealed_and_a_broken_seal_is_refused() {
    let mut transport = MemoryTransport::new();
    let queue = open("asks", event_policy());
    queue.push(&mut transport, &json("{\"t\":1}"), &Verdict::Pass).unwrap();
    let name = DocumentName::from_str("state.json").unwrap();
    let document = transport.document(&queue_name("asks"), &name).unwrap().unwrap();
    let folded = parse_projection(&document).unwrap();
    assert!(folded.is_intact());
    let mut broken = folded;
    broken.next_id = 7;
    assert!(!broken.is_intact());
    assert!(transport.replace_document(&queue_name("asks"), &name, &b"{}".to_vec()).is_ok());
    assert_eq!(queue.waiting(&mut transport).unwrap().len(), 1);
}

#[test]
fn transports_refuse_what_is_no_record() {
    let mut transport = MemoryTransport::new();
    let jobs = queue_name("jobs");
    match transport.append(&jobs, &b"a\nb".to_vec()) {
        Err(TransportError::NotARecord { why, .. }) => assert_eq!(why, "holds a newline"),
        _ => panic!("appended"),
    }
    match transport.append(&jobs, &b"  ".to_vec()) {
        Err(TransportError::NotARecord { why, .. }) => assert_eq!(why, "is empty"),
        _ => panic!("appended"),
    }
    match transport.read(&jobs, Some(Position::from_token(3)), 10) {
        Err(TransportError::PastEnd { end, .. }) => assert_eq!(end.token(), 0),
        _ => panic!("read"),
    }
}

#[test]
fn questions_are_asked_and_answered() {
    let layouts = layouts();
    let config = configured();
    let bus = config.bind(&layouts, &Registry::new()).unwrap();
    assert_eq!(bus.queues(), vec!["asks", "replies"]);
    let mut transport = MemoryTransport::new();
    let pending = asked(&bus, &mut transport, "q-1");
    assert_eq!(pending.correlation().as_str(), "q-1");
    assert_eq!(pending.id(), 0);
    assert!(pending.settled(&transport).unwrap().is_none());
    let asks = queue_name("asks");
    let again = bus
        .raise(
            &transport,
            &asks,
            &any_schema(),
            &json("{}"),
            &AskOptions::default(),
            &vec![correlation("q-1")],
        )
        .unwrap();
    assert!(again.is_none());
    let binding = bus.bind_reply(&transport, &asks, None).unwrap();
    let replies = queue_name("replies");
    let routed = bus
        .prepare_reply(&replies, Some(&binding.question.correlation), &json("{\"text\":\"because\"}"))
        .unwrap();
    assert_eq!(routed[0].1.render(), "{\"text\":\"because\",\"correlation\":\"q-1\"}");
    let bound = bus.reply_bound(&mut transport, binding, routed, &Verdict::Pass).unwrap();
    assert!(bound.answered);
    match pending.settled(&transport).unwrap() {
        Some(Settled::Replied(record)) => assert_eq!(record.get("text").unwrap().as_str(), Some("because")),
        _ => panic!("not replied"),
    }
    match bus.bind_reply(&transport, &asks, None) {
        Err(BusError::Unbound { why, .. }) => assert_eq!(
            why,
            "the reply echoes no correlation, and no ask is pending to bind it to"
        ),
        _ => panic!("bound"),
    }
}

#[test]
fn replies_bind_to_what_they_echo() {
    let layouts = layouts();
    let config = configured();
    let bus = config.bind(&layouts, &Registry::new()).unwrap();
    let mut transport = MemoryTransport::new();
    asked(&bus, &mut transport, "q-1");
    asked(&bus, &mut transport, "q-2");
    let asks = queue_name("asks");
    match bus.bind_reply(&transport, &asks, None) {
        Err(e) => assert_eq!(
            e.message(),
            "asks: the reply echoes no correlation, and 2 asks are pending, so it binds to none of them; echo one \u{2014} pending there: q-1, q-2"
        ),
        _ => panic!("bound"),
    }
    let second = correlation("q-2");
    assert_eq!(bus.bind_reply(&transport, &asks, Some(&second)).unwrap().question.id, 1);
    let unknown = correlation("q-9");
    match bus.bind_reply(&transport, &asks, Some(&unknown)) {
        Err(BusError::Unbound { why, .. }) => assert_eq!(
            why,
            "no pending ask carries the correlation q-9, so the reply echoing it answers nothing; pending there: q-1, q-2"
        ),
        _ => panic!("bound"),
    }
}

#[test]
fn lost_questions_are_listened_for_again() {
    let layouts = layouts();
    let config = configured();
    let bus = config.bind(&layouts, &Registry::new()).unwrap();
    let mut transport = MemoryTransport::new();
    let pending = asked(&bus, &mut transport, "q-1");
    pending.abandon(&mut transport).unwrap();
    assert!(pending.is_abandoned(&transport).unwrap());
    assert!(matches!(pending.settled(&transport).unwrap(), Some(Settled::Abandoned)));
    pending.rearm(&mut transport).unwrap();
    assert!(!pending.is_abandoned(&transport).unwrap());
    let asks = queue_name("asks");
    let missing = correlation("q-7");
    match bus.listen(&mut transport, &asks, &missing, &Lifetime::Session) {
        Err(BusError::Unbound { why, .. }) => {
            assert_eq!(why, "no question on asks carries the correlation q-7")
        }
        _ => panic!("listened"),
    }
    let known = correlation("q-1");
    let listener = bus.listen(&mut transport, &asks, &known, &Lifetime::Session).unwrap();
    assert_eq!(listener.position().token(), pending.position().token());
}

#[test]
fn sessions_abandon_with_their_stream_and_not_at_their_bound() {
    let layouts = layouts();
    let config = configured();
    let bus = config.bind(&layouts, &Registry::new()).unwrap();
    let mut transport = MemoryTransport::new();
    let mut session = bus.serve(&queue_name("asks")).unwrap();
    let pending = asked(&bus, &mut transport, "q-1");
    session.keep(pending);
    assert!(matches!(
        session.step(&mut transport, &Arrival::Line("  ".to_owned())).unwrap(),
        ServeStep::Continue
    ));
    match session.step(&mut transport, &Arrival::Line(" {} ".to_owned())).unwrap() {
        ServeStep::Answer(text) => assert_eq!(text, "{}"),
        _ => panic!("not a frame"),
    }
    match session.step(&mut transport, &Arrival::BoundReached).unwrap() {
        ServeStep::Over(Served::SessionOver { standing }) => assert_eq!(standing, 1),
        _ => panic!("not over"),
    }
    match session.step(&mut transport, &Arrival::Ended).unwrap() {
        ServeStep::Over(Served::StreamEnded { abandoned }) => assert_eq!(abandoned, 1),
        _ => panic!("not over"),
    }
    let asks = bus.queue(&queue_name("asks")).unwrap();
    assert!(asks.is_marked_abandoned(&transport, 0).unwrap());
    match bus.serve(&queue_name("nowhere")) {
        Err(e) => assert_eq!(
            e.message(),
            "`nowhere` is not a queue this configuration declares; it declares: asks, replies"
        ),
        _ => panic!("served"),
    }
}

#[test]
fn questions_need_a_queue_that_takes_them() {
    let layouts = layouts();
    let config = configured();
    let bus = config.bind(&layouts, &Registry::new()).unwrap();
    match bus.askable(&queue_name("replies")) {
        Err(BusError::Queue(QueueError::NotAnEventQueue { what, .. })) => {
            assert_eq!(what, "questions to ask or answer")
        }
        _ => panic!("askable"),
    }
    let mut deaf = configured();
    let mut kept = deaf.queues.remove("asks").unwrap();
    kept.answers = None;
    deaf.queues.insert("asks", kept);
    let layouts: Layouts<LinkedLayout> = Layouts::new();
    let bus = deaf.bind(&layouts, &Registry::new()).unwrap();
    match bus.askable(&queue_name("asks")) {
        Err(e) => assert_eq!(
            e.message(),
            "asks is not a queue a question is asked on: it declares no queue its answers are appended to (`answers`)"
        ),
        _ => panic!("askable"),
    }
}

#[test]
fn offers_are_pushed_where_they_are_routed() {
    let layouts = layouts();
    let config = configured();
    let bus = config.bind(&layouts, &Registry::new()).unwrap();
    let mut transport = MemoryTransport::new();
    let asks = queue_name("asks");
    assert!(matches!(
        bus.prepare(&asks, &json("[]")),
        Err(BusError::Queue(QueueError::NotAnObject { .. }))
    ));
    let routed = bus.prepare(&asks, &json("{\"t\":1}")).unwrap();
    assert!(bus.asks(&asks, &json("{\"t\":1}"), &routed).is_empty());
    let sent = bus.send_routed(&mut transport, &asks, routed, &Verdict::Pass).unwrap();
    assert_eq!(sent.len(), 1);
    assert_eq!(sent[0].0.as_str(), "asks");
    let lost = vec![(queue_name("nowhere"), json("{}"))];
    assert!(matches!(
        bus.send_routed(&mut transport, &asks, lost, &Verdict::Pass),
        Err(BusError::UnknownQueue { .. })
    ));
}

#[test]
fn waits_are_sliced() {
    assert!(matches!(wait_step(None, Some(0)), WaitStep::TimedOut));
    assert!(matches!(wait_step(None, Some(150)), WaitStep::Wait(150)));
    assert!(matches!(wait_step(None, Some(900)), WaitStep::Wait(200)));
    assert!(matches!(wait_step(None, None), WaitStep::Wait(200)));
    assert!(matches!(
        wait_step(Some(Settled::Abandoned), Some(0)),
        WaitStep::Settled(Settled::Abandoned)
    ));
}

#[test]
fn an_absent_table_lists_nothing() {
    let empty: Table<u64> = Table::new();
    assert_eq!(empty.len(), 0);
    let names: Vec<String> = layouts().names();
    assert!(names.is_empty());
    fn is_layout<L: Layout>(_: &Layouts<L>) -> bool {
        true
    }
    assert!(is_layout(&layouts()));
}

#[test]
fn the_pending_record_is_not_displaced() {
    let mut transport = MemoryTransport::new();
    let queue = open("asks", event_policy());
    queue.push(&mut transport, &json("{\"t\":1,\"blocking\":true}"), &Verdict::Pass).unwrap();
    queue.push(&mut transport, &json("{\"t\":2,\"blocking\":true}"), &Verdict::Pass).unwrap();
    let first = queue.claim(&mut transport, &me()).unwrap().unwrap();
    assert_eq!(first.id, Some(0));
    assert!(queue.claim(&mut transport, &me()).unwrap().is_none());
    let held = queue.held(&mut transport).unwrap().unwrap();
    assert_eq!(held.id, Some(0));
    assert_eq!(held.position.token(), first.position.token());
    assert_eq!(queue.waiting(&mut transport).unwrap().len(), 1);

    queue.push(&mut transport, &json("{\"t\":3}"), &Verdict::Pass).unwrap();
    assert_eq!(queue.claim(&mut transport, &me()).unwrap().unwrap().id, Some(2));
    assert_eq!(queue.held(&mut transport).unwrap().unwrap().id, Some(0));

    assert!(queue.answer_pending(&mut transport).unwrap().is_some());
    let second = queue.claim(&mut transport, &me()).unwrap().unwrap();
    assert_eq!(second.id, Some(1));
    assert_eq!(queue.held(&mut transport).unwrap().unwrap().id, Some(1));
}

#[test]
fn a_claim_a_log_tells_of_is_not_handed_out_again() {
    let mut transport = MemoryTransport::new();
    let queue = open("asks", event_policy());
    queue.push(&mut transport, &json("{\"t\":1,\"blocking\":true}"), &Verdict::Pass).unwrap();
    let second =
        queue.push(&mut transport, &json("{\"t\":2,\"blocking\":true}"), &Verdict::Pass).unwrap();
    assert_eq!(queue.claim(&mut transport, &me()).unwrap().unwrap().id, Some(0));
    transport.append(&queue_name("asks"), &frame(Event::Claimed, &second.record)).unwrap();
    assert!(queue.waiting(&mut transport).unwrap().is_empty());
    assert_eq!(queue.held(&mut transport).unwrap().unwrap().id, Some(0));
    assert!(queue.answer_pending(&mut transport).unwrap().is_some());
    assert!(queue.claim(&mut transport, &me()).unwrap().is_none());
}

#[test]
fn a_refused_question_leaves_nothing_behind() {
    let layouts = layouts();
    let bus = configured().bind(&layouts, &Registry::new()).unwrap();
    let mut transport = MemoryTransport::new();
    let asks = queue_name("asks");
    let raise = |transport: &MemoryTransport, id: &str| {
        let question = json("{\"text\":\"why?\"}");
        let candidates = vec![correlation(id)];
        let options = AskOptions::default();
        bus.raise(transport, &asks, &any_schema(), &question, &options, &candidates).unwrap().unwrap()
    };

    let mut lost = raise(&transport, "c-1");
    lost.routed.push((queue_name("nowhere"), json("{}")));
    match bus.ask_raised(&mut transport, &asks, lost, None, &Verdict::Pass) {
        Err(BusError::UnknownQueue { queue, .. }) => assert_eq!(queue.as_str(), "nowhere"),
        _ => panic!("asked"),
    }
    let mut flat = raise(&transport, "c-2");
    flat.routed.push((queue_name("asks"), json("7")));
    assert!(matches!(
        bus.ask_raised(&mut transport, &asks, flat, None, &Verdict::Pass),
        Err(BusError::Queue(QueueError::NotAnObject { .. }))
    ));
    let mut elsewhere = raise(&transport, "c-3");
    elsewhere.routed = vec![(queue_name("replies"), json("{}"))];
    assert!(matches!(
        bus.ask_raised(&mut transport, &asks, elsewhere, None, &Verdict::Pass),
        Err(BusError::NotAskable { .. })
    ));
    for queue in ["asks", "replies"] {
        assert!(transport.read(&queue_name(queue), None, 9).unwrap().records.is_empty());
    }

    let mut twice = raise(&transport, "c-4");
    twice.routed.push((queue_name("replies"), json("{\"copy\":true}")));
    twice.routed.push((queue_name("asks"), json("{\"more\":true}")));
    let pending = bus.ask_raised(&mut transport, &asks, twice, None, &Verdict::Pass).unwrap();
    assert_eq!(pending.id, 1);
    let asked = open("asks", event_policy());
    let ids: Vec<u64> = asked
        .waiting(&mut transport)
        .unwrap()
        .iter()
        .map(|record| record.get("id").unwrap().as_u64().unwrap())
        .collect();
    assert_eq!(ids, vec![0, 1]);
    assert_eq!(transport.read(&queue_name("replies"), None, 9).unwrap().records.len(), 1);
}
