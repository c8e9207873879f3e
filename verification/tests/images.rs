use onemessagebus::image::{Change, LocalImage};
use onemessagebus::json::Json;
use onemessagebus::names::{ConsumerName, DocumentName, Position, QueueName};
use onemessagebus::plugin::{answer, PluginAnswer, PluginRequest};
use onemessagebus::policy::{Policy, QueueSpec};
use onemessagebus::queue::RawQueue;
use onemessagebus::schema::Registry;
use onemessagebus::transport::{Transport, TransportError};
use onemessagebus::validate::Verdict;

fn jobs() -> QueueName {
    QueueName::from_str("jobs").unwrap()
}

fn me() -> ConsumerName {
    ConsumerName::default_consumer()
}

fn texts(image: &LocalImage, from: Option<Position>) -> Vec<String> {
    image
        .read(&jobs(), from, usize::MAX)
        .unwrap()
        .records
        .into_iter()
        .map(|stored| String::from_utf8(stored.bytes).unwrap())
        .collect()
}

#[test]
fn appends_cut_what_a_dead_writer_left() {
    let mut image = LocalImage::new();
    image.load_records(&jobs(), b"{\"n\":1}\n\n{\"n\":2}\n{\"n".to_vec());
    let batch = image.read(&jobs(), None, usize::MAX).unwrap();
    assert_eq!(batch.records.len(), 2);
    assert_eq!(batch.torn.unwrap().bytes, 3);
    let after = image.append(&jobs(), &b"{\"n\":3}".to_vec()).unwrap();
    assert_eq!(after.token(), 25);
    assert_eq!(texts(&image, None), vec!["{\"n\":1}", "{\"n\":2}", "{\"n\":3}"]);
    match &image.changes()[0] {
        Change::Appended { queue, append } => {
            assert_eq!(queue.as_str(), "jobs");
            assert_eq!(append.boundary, 17);
            assert_eq!(append.lost, 3);
            assert_eq!(append.line, b"{\"n\":3}\n".to_vec());
        }
        other => panic!("{other:?}"),
    }
    assert!(matches!(
        image.append(&jobs(), &b" ".to_vec()),
        Err(TransportError::NotARecord { .. })
    ));
    assert_eq!(image.changes().len(), 1);
}

#[test]
fn cursors_count_the_records_before_them() {
    let mut image = LocalImage::new();
    image.load_records(&jobs(), b"a\nb\nc\n".to_vec());
    assert!(image.cursor(&jobs(), &me()).unwrap().is_none());
    image.load_cursor(&jobs(), &me(), " 2\n");
    assert_eq!(image.cursor(&jobs(), &me()).unwrap().unwrap().token(), 4);
    image.load_cursor(&jobs(), &ConsumerName::from_str("other").unwrap(), "not a count");
    assert!(image
        .cursor(&jobs(), &ConsumerName::from_str("other").unwrap())
        .unwrap()
        .is_none());
    image.load_cursor(&jobs(), &ConsumerName::from_str("far").unwrap(), "99");
    let far = ConsumerName::from_str("far").unwrap();
    assert_eq!(image.cursor(&jobs(), &far).unwrap().unwrap().token(), 6);

    image.append(&jobs(), &b"d".to_vec()).unwrap();
    assert_eq!(image.cursor(&jobs(), &me()).unwrap().unwrap().token(), 4);
    assert_eq!(image.cursor(&jobs(), &far).unwrap().unwrap().token(), 8);
    image.commit(&jobs(), &me(), Position::from_token(6)).unwrap();
    assert_eq!(image.cursor(&jobs(), &me()).unwrap().unwrap().token(), 6);
    assert!(matches!(
        image.commit(&jobs(), &me(), Position::from_token(5)),
        Err(TransportError::NotABoundary { .. })
    ));
    assert!(matches!(
        image.commit(&jobs(), &me(), Position::from_token(50)),
        Err(TransportError::PastEnd { .. })
    ));
    assert!(matches!(
        &image.changes()[1],
        Change::Committed { count: 3, .. }
    ));
}

#[test]
fn operations_leave_what_is_to_be_written() {
    let mut image = LocalImage::new();
    let mut policy = Policy::default();
    policy.hold_pending = true;
    policy.projection = Some(DocumentName::from_str("state.json").unwrap());
    let queue = RawQueue::open(QueueSpec::new(jobs(), policy), Registry::new());
    queue.push(&mut image, &Json::parse("{\"t\":1}").unwrap(), &Verdict::Pass).unwrap();
    let claimed = queue.claim(&mut image, &me()).unwrap().unwrap();
    assert_eq!(claimed.id, Some(0));
    let appended = image
        .changes()
        .iter()
        .filter(|change| matches!(change, Change::Appended { .. }))
        .count();
    assert_eq!(appended, 2);
    let kept = image
        .document(&jobs(), &DocumentName::from_str("state.json").unwrap())
        .unwrap()
        .unwrap();
    match image.changes().last().unwrap() {
        Change::Replaced { name, bytes } => {
            assert_eq!(name.as_str(), "state.json");
            assert_eq!(*bytes, kept);
        }
        other => panic!("{other:?}"),
    }
}

#[test]
fn fingerprints_move_with_their_queue() {
    let mut image = LocalImage::new();
    image.load_records(&jobs(), b"a\nb\n".to_vec());
    let other = QueueName::from_str("other").unwrap();
    let before = image.fingerprint(&jobs()).unwrap();
    assert!(image.fingerprint(&jobs()).unwrap().equals(&before));
    image.append(&other, &b"x".to_vec()).unwrap();
    let state = DocumentName::from_str("state.json").unwrap();
    image.replace_document(&jobs(), &state, &b"{}".to_vec()).unwrap();
    assert!(image.fingerprint(&jobs()).unwrap().equals(&before));
    image.commit(&jobs(), &me(), Position::from_token(2)).unwrap();
    let committed = image.fingerprint(&jobs()).unwrap();
    assert!(!committed.equals(&before));
    image.append(&jobs(), &b"c".to_vec()).unwrap();
    assert!(!image.fingerprint(&jobs()).unwrap().equals(&committed));
}

#[test]
fn a_torn_record_is_told_over_the_protocol() {
    let mut image = LocalImage::new();
    image.load_records(&jobs(), b"one\ntw".to_vec());
    let read = PluginRequest::Read { queue: jobs(), from: None, limit: 10 };
    match answer(&mut image, &read) {
        Ok(Some(PluginAnswer::Batch { records, torn })) => {
            assert_eq!(records.len(), 1);
            let torn = torn.unwrap();
            assert_eq!(torn.at.token(), 4);
            assert_eq!(torn.bytes, 2);
        }
        _ => panic!("not read"),
    }
    let held = image.fingerprint(&jobs()).unwrap();
    match answer(&mut image, &PluginRequest::Fingerprint { queue: jobs() }) {
        Ok(Some(PluginAnswer::Fingerprint(told))) => assert!(told.equals(&held)),
        _ => panic!("not told"),
    }
}
