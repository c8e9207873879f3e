use onemessagebus::carry::{
    check_schema, header_line, header_of, not_a_message, parse, store_text, CarriedEntry,
    StoreHeader,
};
use onemessagebus::inbox::{BackendError, Closed, Inbox, Undelivered};
use onemessagebus::json::Json;
use onemessagebus::names::{DocumentName, Position, QueueName};
use onemessagebus::plugin::{
    answer, carried_document, carried_record, check_greeting, check_hello, input_ended,
    read_batch, section_step, wait_slice, waits_on, PluginAnswer, PluginError, PluginErrorKind,
    PluginRequest, PluginStored, SectionStep,
};
use onemessagebus::schema::SchemaId;
use onemessagebus::spool::{
    answer_of, check_offer_schema, check_spool, check_version, look_step, message_file, mint,
    offered, AnswerBody, Look, LookStep, OFFER,
};
use onemessagebus::transport::{MemoryTransport, TransportError};

fn json(text: &str) -> Json {
    Json::parse(text).unwrap()
}

fn id(text: &str) -> SchemaId {
    SchemaId::from_str(text).unwrap()
}

fn queue_name(text: &str) -> QueueName {
    QueueName::from_str(text).unwrap()
}

fn carried(ts: &str) -> CarriedEntry {
    CarriedEntry { ts: ts.to_owned(), schema: id("a.b@1"), message: json("{\"n\":1}") }
}

#[test]
fn messages_arrive_in_order_and_are_answered_once() {
    let mut inbox: Inbox<String, u8> = Inbox::new();
    let first = inbox.offer("a".to_owned()).unwrap();
    let second = inbox.offer("b".to_owned()).unwrap();
    let one = inbox.take().unwrap();
    assert_eq!(one.message(), "a");
    assert_eq!(one.id(), first.id);
    assert_eq!(inbox.answer(one, 7), Some(first.id));
    let two = inbox.take().unwrap();
    assert_eq!(two.message(), "b");
    assert_eq!(inbox.let_go(two), Some(second.id));
    assert!(inbox.take().is_none());
    assert_eq!(inbox.answered().len(), 1);
    assert_eq!(inbox.answered()[0].disposition, 7);
}

#[test]
fn the_first_close_is_the_one_told() {
    let mut inbox: Inbox<u8, u8> = Inbox::new();
    let queued = inbox.offer(1).unwrap();
    let held = inbox.offer(2).unwrap();
    let taken = inbox.take().unwrap();
    assert_eq!(inbox.close(Closed::new("done")), vec![held.id, queued.id]);
    assert!(inbox.close(Closed::new("again")).is_empty());
    assert_eq!(inbox.closed().unwrap().reason, "done");
    assert_eq!(inbox.offer(3).unwrap_err().message(), "the inbox is closed: done");
    assert_eq!(inbox.answer(taken, 9), None);
    assert_eq!(inbox.answered().len(), 1);
    match inbox.adopt_carried(vec![4]) {
        Err(Undelivered::Closed(closed)) => assert_eq!(closed.reason, "done"),
        _ => panic!("adopted"),
    }
}

#[test]
fn carried_messages_are_adopted_with_nobody_waiting() {
    let mut inbox: Inbox<u8, u8> = Inbox::new();
    assert_eq!(inbox.adopt_carried(vec![1, 2]).unwrap(), 2);
    let one = inbox.take().unwrap();
    assert_eq!(*one.message(), 1);
    assert_eq!(inbox.answer(one, 5), None);
    assert!(inbox.close(Closed::new("x")).is_empty());
}

#[test]
fn backends_tell_what_they_could_not_do() {
    let elapsed = |waited: u64| BackendError::Elapsed { spool: "/s".to_owned(), waited }.message();
    assert_eq!(
        elapsed(30000),
        "nothing took the message offered to the spool at /s within 30s; it was withdrawn"
    );
    assert!(elapsed(1500).contains(" within 1500ms;"));
    assert_eq!(BackendError::io("read", "/f", "gone").message(), "cannot read /f: gone");
    assert_eq!(
        BackendError::Encoding { what: "message".to_owned(), why: "odd".to_owned() }.message(),
        "the message does not serialize: odd"
    );
    assert_eq!(
        BackendError::Bound { path: "/s".to_owned() }.message(),
        "/s is already bound by another receiver; a spool has one receiver at a time"
    );
    assert_eq!(
        BackendError::Abandoned { spool: "/s".to_owned(), file: "/s/1".to_owned() }.message(),
        "the receiver of the spool at /s took the message (/s/1) and is no longer bound, with no answer written"
    );
    let refused = BackendError::Refused { spool: "/s".to_owned(), why: "no".to_owned() };
    assert_eq!(
        Undelivered::Backend(refused).message(),
        "the receiver of the spool at /s refused the message: no"
    );
}

#[test]
fn stores_start_with_their_header() {
    assert_eq!(
        header_line(),
        "{\"schema_version\":1,\"kind\":\"onemessagebus-carry-store\"}\n"
    );
    let header = Some(StoreHeader { schema_version: 1, kind: "onemessagebus-carry-store".to_owned() });
    let contents = format!("{}{}", header_line(), carried("2026-01-01T00:00:00.000Z").line());
    let text = store_text("/s", &contents, &header).unwrap();
    assert_eq!(text.header_bytes, header_line().len());
    assert_eq!(text.records.len(), 1);
    assert_eq!(header_of(&contents).unwrap().1.lines().count(), 1);
    let (size, entries) = parse("/s", &contents, &header, vec![Ok(carried("2026-01-01T00:00:00.000Z"))]).unwrap().unwrap();
    assert!(parse("/s", &contents, &header, Vec::new()).is_none());
    assert!(parse("/s", &contents, &header, vec![Ok(carried("2026-01-01T00:00:00.001Z"))]).is_none());
    assert_eq!(size, header_line().len());
    assert_eq!(entries[0].message.render(), "{\"n\":1}");
}

#[test]
fn stores_are_refused_naming_why() {
    let header = |version: u32| {
        Some(StoreHeader { schema_version: version, kind: "onemessagebus-carry-store".to_owned() })
    };
    let told = |contents: &str, header: &Option<StoreHeader>| {
        parse("/s", contents, header, Vec::new()).unwrap().unwrap_err().message()
    };
    assert_eq!(
        told("", &None),
        "/s is not a carry store: it is empty, and a carry store starts with its header line"
    );
    assert_eq!(told("x", &None), "/s is not a carry store: it has no header line");
    assert_eq!(
        told("x\n", &None),
        "/s is not a carry store: its first line is not a carry store's header"
    );
    assert_eq!(
        told("h\n", &header(2)),
        "/s is not a document this build reads: it declares schema_version 2, and this build reads 1"
    );
    assert_eq!(
        told("h\nx", &header(1)),
        "/s is not a document this build reads: it ends in a torn record"
    );
    let bad = vec![Ok(carried("2026-01-01T00:00:00.000Z")), Ok(carried("now"))];
    let two =
        format!("h\n{}{}", carried("2026-01-01T00:00:00.000Z").line(), carried("now").line());
    assert_eq!(
        parse("/s", &two, &header(1), bad).unwrap().unwrap_err().message(),
        "/s is not a document this build reads: record 2: its ts \"now\" is not RFC 3339 with millisecond precision in UTC"
    );
    assert_eq!(
        parse("/s", "h\na\n", &header(1), vec![Err("odd".to_owned())]).unwrap().unwrap_err().message(),
        "/s is not a document this build reads: record 1: odd"
    );
    let entry = carried("2026-01-01T00:00:00.000Z");
    assert!(check_schema("/s", 0, &entry, &id("a.b@1")).is_ok());
    assert_eq!(
        check_schema("/s", 0, &entry, &id("a.c@1")).unwrap_err().message(),
        "/s is not a document this build reads: record 1: it carries a a.b@1, and this inbox takes a.c@1"
    );
    assert!(not_a_message("/s", 1, &id("a.b@1"), "odd").message().ends_with("record 2: it is not a a.b@1: odd"));
}

#[test]
fn offers_sort_by_their_instants() {
    let early = mint(99, 7, 3);
    let late = mint(100, 1, 0);
    assert_eq!(early, "000000000000000000000000000000000000099-7-00000000000000000003");
    assert!(early < late);
    let names = vec![
        format!("{late}{OFFER}"),
        "spool.json".to_owned(),
        format!("{early}{OFFER}"),
    ];
    assert_eq!(offered(&names), vec![early.clone(), late]);
    assert_eq!(message_file("/s", "x", OFFER), "/s/x.offer.json");
}

#[test]
fn spools_are_checked_and_waited_on() {
    assert!(check_spool("/s", true, true).is_ok());
    assert_eq!(
        check_spool("/s", false, false).unwrap_err().message(),
        "/s is not a spool: nothing is there"
    );
    assert_eq!(
        check_spool("/s", false, true).unwrap_err().message(),
        "/s is not a spool: it is not a directory"
    );
    assert!(check_version("/s", "/s/f", &json("{\"schema_version\":1}")).is_ok());
    assert_eq!(
        check_version("/s", "/s/f", &json("{}")).unwrap_err().message(),
        "/s/f is not a document this build reads: it declares schema_version none, and this build reads 1"
    );
    let look = Look { offered: true, closed: false, elapsed: false, taken: false, bound: true };
    assert_eq!(look_step(look), LookStep::Sleep);
    assert_eq!(look_step(Look { elapsed: true, ..look }), LookStep::WithdrawElapsed);
    assert_eq!(look_step(Look { closed: true, elapsed: true, ..look }), LookStep::WithdrawClosed);
    assert_eq!(look_step(Look { offered: false, ..look }), LookStep::LastLook);
    assert_eq!(look_step(Look { offered: false, taken: true, closed: true, ..look }), LookStep::Sleep);
    assert_eq!(
        look_step(Look { offered: false, taken: true, bound: false, ..look }),
        LookStep::LastLook
    );
}

#[test]
fn answers_reach_their_senders() {
    assert_eq!(answer_of("/s", AnswerBody::Disposition(json("1"))).unwrap().as_u64(), Some(1));
    assert!(matches!(
        answer_of("/s", AnswerBody::Closed(Closed::new("x"))),
        Err(Undelivered::Closed(_))
    ));
    match answer_of("/s", AnswerBody::Refused { reason: "odd".to_owned() }) {
        Err(e) => assert_eq!(e.message(), "the receiver of the spool at /s refused the message: odd"),
        _ => panic!("answered"),
    }
    assert!(check_offer_schema(&None, &id("a.b@1")).is_ok());
    assert_eq!(
        check_offer_schema(&Some(id("a.c@1")), &id("a.b@1")).unwrap_err(),
        "the message is a.c@1, and this receiver takes a.b@1"
    );
}

#[test]
fn plugins_answer_requests() {
    let mut transport = MemoryTransport::new();
    let jobs = queue_name("jobs");
    let append = PluginRequest::Append { queue: queue_name("jobs"), record: "\u{e9}".to_owned() };
    match answer(&mut transport, &append) {
        Ok(Some(PluginAnswer::Position(at))) => assert_eq!(at.token(), 1),
        _ => panic!("not appended"),
    }
    let read = PluginRequest::Read { queue: queue_name("jobs"), from: None, limit: u64::MAX };
    match answer(&mut transport, &read) {
        Ok(Some(PluginAnswer::Batch { records, torn })) => {
            assert_eq!(records[0].record, "\u{e9}");
            let back = read_batch(&records, &torn);
            assert_eq!(back.records[0].bytes, "\u{e9}".as_bytes().to_vec());
        }
        _ => panic!("not read"),
    }
    let begin = PluginRequest::BeginExclusive { queue: queue_name("jobs") };
    assert!(answer(&mut transport, &begin).is_err());
    assert!(matches!(section_step(None, &begin), SectionStep::Begin));
    let end = PluginRequest::EndExclusive { queue: queue_name("jobs"), failed: false };
    assert!(matches!(section_step(Some(&jobs), &end), SectionStep::Ended));
    match section_step(None, &end) {
        SectionStep::Misplaced(error) => {
            assert_eq!(error.message, "end_exclusive for jobs, which no open section holds")
        }
        _ => panic!("ended"),
    }
    let failed = PluginRequest::EndExclusive { queue: queue_name("jobs"), failed: true };
    assert!(matches!(section_step(Some(&jobs), &failed), SectionStep::Failed(_)));
    assert!(matches!(section_step(None, &append), SectionStep::Answer));
    assert!(input_ended(None).is_ok());
    assert!(input_ended(Some(&jobs)).unwrap_err().message().contains("the client went away inside its section over jobs"));
}

#[test]
fn refused_positions_cross_the_protocol() {
    let failure = TransportError::PastEnd {
        queue: queue_name("jobs"),
        position: Position::from_token(9),
        end: Position::from_token(2),
    };
    let told = PluginError::of(&failure);
    assert_eq!(told.kind, PluginErrorKind::PastEnd);
    assert_eq!(told.into_transport_error("nats").message(), failure.message());
    let other = PluginError::of(&TransportError::Backend {
        transport: "x".to_owned(),
        detail: "y".to_owned(),
    });
    assert_eq!(other.kind, PluginErrorKind::Refused);
    match other.into_transport_error("nats") {
        TransportError::Backend { transport, .. } => assert_eq!(transport, "nats"),
        _ => panic!("another failure"),
    }
}

#[test]
fn greetings_name_both_versions() {
    assert!(check_hello("onemessagebus-transport", 1).is_ok());
    assert_eq!(
        check_hello("x", 2).unwrap_err(),
        "the client speaks x version 2, and this plugin speaks onemessagebus-transport version 1"
    );
    assert_eq!(
        check_greeting("/p", "onemessagebus-transport", 2).unwrap_err(),
        "the plugin /p speaks onemessagebus-transport version 2, and this build speaks onemessagebus-transport version 1"
    );
    assert_eq!(wait_slice(900), 50);
    assert_eq!(wait_slice(20), 20);
    assert!(waits_on(false, 51));
    assert!(!waits_on(false, 50));
    assert!(!waits_on(true, 900));
}

#[test]
fn only_text_crosses_the_protocol() {
    let jobs = queue_name("jobs");
    assert_eq!(carried_record(&jobs, &b"{}".to_vec()).unwrap(), "{}");
    assert!(carried_record(&jobs, &vec![0xff]).is_err());
    let name = DocumentName::from_str("state.json").unwrap();
    assert_eq!(
        carried_document("nats", &name, &vec![0xff]).unwrap_err().message(),
        TransportError::Backend {
            transport: "nats".to_owned(),
            detail: "document state.json is not UTF-8, which the plugin protocol carries documents as".to_owned(),
        }
        .message()
    );
    let none: Vec<PluginStored> = Vec::new();
    assert!(read_batch(&none, &None).records.is_empty());
}

#[test]
fn a_ticket_is_settled_once() {
    let mut inbox: Inbox<u8, u8> = Inbox::new();
    assert_eq!(inbox.offer_all(vec![1, 2]).unwrap(), 2);
    let third = inbox.offer(3).unwrap();
    let fourth = inbox.offer(4).unwrap();
    assert_eq!(third.id, 2);
    assert_eq!(fourth.id, 3);
    let adopted = inbox.take().unwrap();
    assert_eq!(inbox.answer(adopted, 9), None);
    let second = inbox.take().unwrap();
    assert_eq!(inbox.let_go(second), None);
    let held = inbox.take().unwrap();
    assert_eq!(held.id(), third.id);
    assert_eq!(inbox.close(Closed::new("done")), vec![fourth.id, third.id]);
    assert_eq!(inbox.answer(held, 5), None);
    assert_eq!(inbox.answered().len(), 2);
    assert_eq!(inbox.offer(5).unwrap_err().reason, "done");
}
