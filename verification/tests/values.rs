use onemessagebus::correlation::{Address, Answer, Correlation};
use onemessagebus::fold::Event;
use onemessagebus::event_log::{frame, parse_line};
use onemessagebus::json::Json;
use onemessagebus::local::LocalTransport;
use onemessagebus::names::{ConsumerName, DocumentName, Position, QueueName};
use onemessagebus::predicate::{FieldPath, Predicate, PredicateWire};
use onemessagebus::queue_reads::Asker;
use onemessagebus::schema::{CheckError, Read, Registry, RegistryError, SchemaId};
use onemessagebus::table::Table;
use onemessagebus::text::{
    decimal_of, is_before, lower_of, parse_unsigned, replace, split, trim, words_of,
};
use onemessagebus::transport::TransportError;

fn json(text: &str) -> Json {
    Json::parse(text).unwrap()
}

fn field(text: &str) -> FieldPath {
    FieldPath::from_str(text).unwrap()
}

fn jobs() -> QueueName {
    QueueName::from_str("jobs").unwrap()
}

fn empty_wire() -> PredicateWire {
    PredicateWire {
        field: None,
        equals: None,
        present: None,
        non_empty: None,
        all: None,
        any: None,
        not: None,
    }
}

#[test]
fn numbers_and_words_are_read() {
    assert_eq!(decimal_of(18446744073709551615), "18446744073709551615");
    assert_eq!(parse_unsigned("+7", 10), Some(7));
    assert_eq!(parse_unsigned("11", 10), None);
    assert_eq!(parse_unsigned("", 10), None);
    assert_eq!(trim(" \u{a0}a b\n"), "a b");
    assert_eq!(words_of(" a \u{2003}b "), vec!["a", "b"]);
    assert_eq!(split("a..b", '.'), vec!["a", "", "b"]);
    assert_eq!(replace("aXbX", "X", "--"), "a--b--");
    assert_eq!(lower_of("AbC\u{c9}"), "abc\u{c9}");
    assert!(is_before("a", "ab"));
    assert!(!is_before("b", "ab"));
}

#[test]
fn values_are_read_and_written() {
    let value = json("{\"b\":[1,-2,2.5,null,true],\"a\":\"\\u00e9\\n\"}");
    assert_eq!(value.render(), "{\"b\":[1,-2,2.5,null,true],\"a\":\"\u{e9}\\n\"}");
    assert_eq!(value.get("b").unwrap().render_pretty(), "[\n  1,\n  -2,\n  2.5,\n  null,\n  true\n]");
    assert!(value.equals(&json("{\"a\":\"\u{e9}\\n\",\"b\":[1,-2,2.5,null,true]}")));
    assert!(!json("1").equals(&json("1.0")));
    assert!(Json::parse("{").is_err());
    assert_eq!(json("{\"a\":1,\"a\":2}").render(), "{\"a\":2}");
}

#[test]
fn names_are_refused_naming_why() {
    assert!(QueueName::from_str("a-b_9").is_ok());
    assert!(QueueName::from_str("").is_err());
    assert!(QueueName::from_str("-a").is_err());
    assert!(QueueName::from_str("a b").unwrap_err().message().contains("' '"));
    assert!(ConsumerName::default_consumer().is_default());
    assert!(DocumentName::from_str("state.json").is_ok());
    assert!(DocumentName::from_str("a/b").is_err());
    assert_eq!(Position::from_token(12).to_text(), "12");
}

#[test]
fn tables_are_in_name_order() {
    let mut table: Table<u64> = Table::new();
    table.insert("b", 2);
    table.insert("a", 1);
    table.insert("b", 3);
    assert_eq!(table.names(), vec!["a", "b"]);
    assert_eq!(table.get("b"), Some(&3));
    assert_eq!(table.remove("a"), Some(1));
    assert_eq!(table.remove("a"), None);
    assert_eq!(table.len(), 1);
}

#[test]
fn predicates_test_records() {
    let record = json("{\"a\":{\"b\":1},\"c\":null,\"d\":\"\",\"e\":[]}");
    assert!(Predicate::equals(field("a.b"), json("1")).matches(&record));
    let present = |at: &str, present: bool| Predicate::Present { field: field(at), present };
    assert!(present("a", true).matches(&record));
    assert!(present("c", false).matches(&record));
    let non_empty = |at: &str| Predicate::NonEmpty { field: field(at), non_empty: true };
    assert!(non_empty("a").matches(&record));
    assert!(!non_empty("d").matches(&record));
    assert!(!non_empty("e").matches(&record));
    assert!(Predicate::All(Vec::new()).matches(&record));
    assert!(!Predicate::Any(Vec::new()).matches(&record));
    assert!(Predicate::Not(Box::new(non_empty("d"))).matches(&record));
}

#[test]
fn predicates_are_written_as_one_form() {
    let mut wire = empty_wire();
    wire.field = Some(field("a"));
    wire.present = Some(true);
    let read = Predicate::try_from_wire(&wire).unwrap();
    assert!(read.matches(&json("{\"a\":1}")));
    let back = read.to_wire();
    assert_eq!(back.present, Some(true));
    assert!(back.equals.is_none());
    assert!(Predicate::try_from_wire(&empty_wire()).is_err());
    let mut both = empty_wire();
    both.field = Some(field("a"));
    both.present = Some(true);
    both.non_empty = Some(true);
    assert!(Predicate::try_from_wire(&both).is_err());
}

#[test]
fn paths_step_through_objects() {
    assert_eq!(field("a.b.c").to_text(), "a.b.c");
    assert!(FieldPath::from_str("a..b").is_err());
    assert!(FieldPath::from_str("").is_err());
    let record = json("{\"a\":{\"b\":1}}");
    assert_eq!(field("a.b").get(&record).unwrap().as_u64(), Some(1));
    assert!(field("a.c").get(&record).is_none());
}

#[test]
fn schema_ids_are_read_and_written() {
    let id = SchemaId::from_str("acme.order@12").unwrap();
    assert_eq!(id.namespace(), "acme");
    assert_eq!(id.name(), "order");
    assert_eq!(id.version(), 12);
    assert_eq!(id.family(), "acme.order");
    assert_eq!(id.at(13).to_text(), "acme.order@13");
    for bad in ["acme", "acme.order", "acme.order@0", "acme.order@x", ".a@1", "a.@1"] {
        assert!(SchemaId::from_str(bad).is_err());
    }
}

#[test]
fn registries_hold_one_document_each() {
    let mut registry = Registry::new();
    let first = SchemaId::from_str("acme.order@1").unwrap();
    let second = SchemaId::from_str("acme.order@2").unwrap();
    registry.register_schema(second.copied(), json("{\"type\":\"object\"}")).unwrap();
    registry.register_schema(first.copied(), json("{\"type\":\"string\"}")).unwrap();
    registry.register_schema(first.copied(), json("{\"type\":\"string\"}")).unwrap();
    match registry.register_schema(first.copied(), json("{}")) {
        Err(RegistryError::Conflict { id }) => assert!(id.equals(&first)),
        _ => panic!("registered"),
    }
    let odd = SchemaId::from_str("acme.odd@1").unwrap();
    assert!(matches!(
        registry.register_schema(odd.copied(), json("{\"type\":7}")),
        Err(RegistryError::NotASchema { .. })
    ));
    assert_eq!(registry.id_texts(), vec!["acme.order@1", "acme.order@2"]);
    assert!(registry.check(&first, &json("\"x\"")).is_ok());
    assert!(matches!(registry.check(&first, &json("1")), Err(CheckError::Violation(_))));
    match registry.check(&odd, &json("1")) {
        Err(CheckError::Registry(e)) => assert_eq!(
            e.message(),
            "acme.odd@1 is not a registered schema; registered: acme.order@1, acme.order@2"
        ),
        _ => panic!("checked"),
    }
}

#[test]
fn older_versions_are_read_and_newer_are_not() {
    let mut registry = Registry::new();
    for version in [1, 3] {
        let id = SchemaId::new("acme", "order", version).unwrap();
        registry.register_schema(id, json("{}")).unwrap();
    }
    assert_eq!(registry.read_set("acme.order"), vec![3, 1]);
    assert_eq!(registry.writes("acme.order"), Some(3));
    assert!(matches!(registry.read_at("acme.order", 1), Read::At { .. }));
    assert!(matches!(registry.read_at("acme.order", 9), Read::Unknown(_)));
}

#[test]
fn correlations_are_minted_and_read() {
    let minted = Correlation::mint(&b"fallback".to_vec());
    assert!(Correlation::from_str(minted.as_str()).is_ok());
    assert_ne!(minted.as_str(), Correlation::mint(&b"fallback".to_vec()).as_str());
    assert_eq!(
        Correlation::of_fallback(&b"abc".to_vec()).as_str(),
        Correlation::of_bytes(&vec![
            0xba, 0x78, 0x16, 0xbf, 0x8f, 0x01, 0xcf, 0xea, 0x41, 0x41, 0x40, 0xde, 0x5d, 0xae, 0x22, 0x23
        ])
        .as_str()
    );
    assert!(Correlation::from_str("-x").is_err());
    assert!(Correlation::from_str("a b").is_err());
    assert!(Correlation::from_str(&"a".repeat(129)).is_err());
    assert!(Address::from_str("the door").is_ok());
    assert!(Address::from_str(" ").is_err());
    assert!(Address::from_str("a\u{7}").is_err());
    let timeout: Answer<u8> = Answer::Timeout;
    assert_eq!(timeout.word(), "timeout");
    assert!(Asker::named(&vec![0xff], "here").is_err());
    assert!(Asker::new(" ", "here").is_err());
}

#[test]
fn log_lines_say_what_happened() {
    let line = frame(Event::Claimed, &json("{\"id\":1}"));
    let (event, record) = parse_line(&line).unwrap();
    assert_eq!(event, Some(Event::Claimed));
    assert_eq!(record.render(), "{\"id\":1}");
    let (plain, _) = parse_line(&b"{\"id\":1}".to_vec()).unwrap();
    assert_eq!(plain, None);
    assert!(parse_line(&b"nope".to_vec()).is_none());
}

#[test]
fn local_files_are_healed_and_read() {
    let bytes = b"one\ntwo\nthr".to_vec();
    assert_eq!(LocalTransport::heal(&bytes), 8);
    let append = LocalTransport::append_locked(&jobs(), &bytes, &b"three".to_vec()).unwrap();
    assert_eq!(append.boundary, 8);
    assert_eq!(append.lost, 3);
    assert_eq!(append.line, b"three\n".to_vec());
    assert_eq!(append.after.token(), 14);
    let batch = LocalTransport::read_in(&jobs(), &bytes, Some(Position::from_token(4)), 9).unwrap();
    assert_eq!(batch.records.len(), 1);
    assert_eq!(batch.records[0].bytes, b"two".to_vec());
    assert_eq!(batch.torn.unwrap().at.token(), 8);
    assert!(matches!(
        LocalTransport::read_in(&jobs(), &bytes, Some(Position::from_token(5)), 9),
        Err(TransportError::NotABoundary { .. })
    ));
    assert!(matches!(
        LocalTransport::read_in(&jobs(), &bytes, Some(Position::from_token(50)), 9),
        Err(TransportError::PastEnd { .. })
    ));
}

#[test]
fn local_cursors_survive() {
    let bytes = b"one\ntwo\nthree\n".to_vec();
    let count = LocalTransport::commit_count(&jobs(), &bytes, Position::from_token(8)).unwrap();
    assert_eq!(count, 2);
    let text = LocalTransport::cursor_text(count);
    assert_eq!(LocalTransport::cursor_in(&bytes, &text).unwrap().token(), 8);
    let local = LocalTransport::over("/d");
    assert_eq!(local.dir(), "/d");
    assert!(local.records_path(&jobs()).starts_with("/d/"));
    let default = ConsumerName::default_consumer();
    let json = ConsumerName::from_str("json").unwrap();
    assert_eq!(local.records_path(&jobs()), "/d/jobs.jsonl");
    assert_eq!(local.cursor_path(&jobs(), &default), "/d/jobs-cursor.json");
    assert_eq!(local.cursor_path(&jobs(), &json), "/d/jobs-cursor.json.json");
    assert_eq!(local.torn_path(&jobs()), "/d/jobs.jsonl.torn");
    assert_eq!(local.lock_path(&jobs()), "/d/.lock/jobs.lock");
}

#[test]
fn violations_say_where_and_what() {
    let mut registry = Registry::new();
    let id = SchemaId::from_str("acme.job@1").unwrap();
    registry
        .register_schema(
            id.copied(),
            json("{\"type\":\"object\",\"properties\":{\"n\":{\"type\":\"integer\"}}}"),
        )
        .unwrap();
    match registry.check(&id, &json("{\"n\":\"x\"}")) {
        Err(CheckError::Violation(violation)) => {
            assert_eq!(violation.pointer, "/n");
            assert_eq!(violation.to_text(), format!("acme.job@1: at /n: {}", violation.message));
            assert!(violation.message.contains("integer"), "{}", violation.message);
        }
        other => panic!("{other:?}"),
    }
    let bad = SchemaId::from_str("acme.bad@1").unwrap();
    match registry.register_schema(bad, json("{\"type\":\"nothing\"}")) {
        Err(RegistryError::NotASchema { why, .. }) => assert!(!why.is_empty()),
        other => panic!("{other:?}"),
    }
}

#[test]
fn correlations_are_minted_of_what_was_drawn() {
    let drawn = Some((0..16u8).collect::<Vec<u8>>());
    let minted = Correlation::of_drawn(&drawn, &b"x".to_vec());
    assert_eq!(minted.as_str(), "c-000102030405060708090a0b0c0d0e0f");
    let fallen_back = Correlation::of_drawn(&None, &b"x".to_vec());
    assert_eq!(fallen_back.as_str(), "c-2d711642b726b04401627ca9fbac32f5");
    assert_eq!(Correlation::of_fallback(&b"x".to_vec()).as_str(), fallen_back.as_str());
    assert_ne!(Correlation::mint(&Vec::new()).as_str(), Correlation::mint(&Vec::new()).as_str());
}
