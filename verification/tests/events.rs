use onemessagebus::bounds::{bound_detail, bound_payload, bound_text};
use onemessagebus::capability::{capabilities, FlagKind, StdoutShape};
use onemessagebus::clock::{now_rfc3339, stamp_or_epoch};
use onemessagebus::emit::{healed_words, recorded, Emitter};
use onemessagebus::envelope::{ArtifactRef, Envelope, Kind, Labels, Source};
use onemessagebus::filter::{glob, Filter, Matcher};
use onemessagebus::json::Json;
use onemessagebus::read::{
    check_boundary, check_line, collect_all, read_lines, reading_of, resume_from, FileReadings,
    Merge, Reading, Torn,
};
use onemessagebus::redact::{credential_name, Redactor};
use onemessagebus::resident::{resident_protocol, ResidentExit, ResidentVerb, True};
use onemessagebus::carry::is_stamp;

fn json(text: &str) -> Json {
    Json::parse(text).unwrap()
}

fn fields(text: &str) -> Vec<(String, Json)> {
    match json(text) {
        Json::Object(fields) => fields,
        _ => panic!("not an object"),
    }
}

fn envelope(ts: &str, stream: &str, seq: u64, kind: &str) -> Envelope {
    Envelope {
        v: 1,
        ts: ts.to_owned(),
        stream: stream.to_owned(),
        seq,
        source: Source::new("agent"),
        kind: Kind::new(kind),
        dimensions: Vec::new(),
        labels: Labels::new(),
        payload: Vec::new(),
        artifacts: Vec::new(),
    }
}

fn emitter() -> Emitter {
    Emitter::new("s-1", Source::new("agent"), 3, Redactor::new())
}

#[test]
fn texts_are_bounded_to_their_tail() {
    assert_eq!(bound_text("short"), ("short".to_owned(), false));
    let long = format!("x{}", "y".repeat(4096));
    let (kept, cut) = bound_text(&long);
    assert!(cut);
    assert_eq!(kept, "y".repeat(4096));
    let wide = format!("{}{}", "\u{e9}".repeat(2000), "z".repeat(97));
    let (kept, _) = bound_text(&wide);
    assert_eq!(kept.len(), 4095);
    assert!(wide.ends_with(&kept));
}

#[test]
fn payloads_are_bounded_to_their_heads() {
    let inside = fields("{\"a\":\"b\",\"n\":1}");
    assert_eq!(Json::Object(bound_payload(&inside)).render(), "{\"a\":\"b\",\"n\":1}");
    let long = vec![
        ("a".to_owned(), Json::Str("x".repeat(5000))),
        ("b".to_owned(), json("{\"deep\":\"kept\"}")),
    ];
    let kept = bound_payload(&long);
    assert_eq!(kept[0].1.as_str().unwrap().len(), 4096);
    assert_eq!(kept[2].0, "truncated");
    assert!(kept[2].1.is_true());
    let wide = vec![("a".to_owned(), Json::Str(format!("x{}", "\u{e9}".repeat(3000))))];
    assert_eq!(bound_payload(&wide)[0].1.as_str().unwrap().len(), 4095);
}

#[test]
fn details_are_collapsed_and_bounded() {
    assert_eq!(bound_detail("  a \n b\t c "), ("a b c".to_owned(), false));
    let (kept, cut) = bound_detail(&"\u{e9}".repeat(161));
    assert!(cut);
    assert_eq!(kept.chars().count(), 160);
}

#[test]
fn credentials_are_redacted() {
    let redactor = Redactor::new().with_secret("hunter2hunter2").with_secret("short");
    assert_eq!(
        redactor.redact("key hunter2hunter2, and short"),
        "key [redacted], and [redacted]"
    );
    assert_eq!(redactor.redact("use ghp_12345678\", ok"), "use [redacted]\", ok");
    assert_eq!(redactor.redact("ghp_ is a prefix"), "ghp_ is a prefix");
    assert_eq!(redactor.redact("AKIA12345678\n"), "[redacted]\n");
    let nested = redactor.redact_value(&json("{\"a\":[{\"b\":\"gho_abcdefgh\"}],\"n\":1}"));
    assert_eq!(nested.render(), "{\"a\":[{\"b\":\"[redacted]\"}],\"n\":1}");
}

#[test]
fn environments_hold_credentials_by_name() {
    assert!(credential_name("my_Api_Key"));
    assert!(!credential_name("PATH"));
    let redactor = Redactor::from_env(&vec![
        ("GITHUB_TOKEN".to_owned(), "abcdefghij".to_owned()),
        ("TOKEN_ENABLED".to_owned(), "yes".to_owned()),
        ("HOME".to_owned(), "/home/someone".to_owned()),
    ]);
    assert_eq!(redactor.redact("abcdefghij yes /home/someone"), "[redacted] yes /home/someone");
}

#[test]
fn envelopes_are_one_line_each() {
    let mut one = envelope("2026-01-01T00:00:00.000Z", "s", 7, "step-done");
    one.dimensions = fields("{\"run\":\"r1\"}");
    one.labels = Labels::new().with("k", Json::text("v"));
    one.payload = fields("{\"a\":\"b\"}");
    one.artifacts.push(ArtifactRef { id: "i".to_owned(), kind: "log".to_owned(), bytes: 9 });
    assert_eq!(
        one.line(),
        "{\"v\":1,\"ts\":\"2026-01-01T00:00:00.000Z\",\"stream\":\"s\",\"seq\":7,\"source\":\"agent\",\"kind\":\"step-done\",\"run\":\"r1\",\"labels\":{\"k\":\"v\"},\"payload\":{\"a\":\"b\"},\"artifacts\":[{\"id\":\"i\",\"kind\":\"log\",\"bytes\":9}]}\n"
    );
    assert_eq!(one.labels.get_str("k"), Some("v"));
    assert_eq!(one.order_key(), ("2026-01-01T00:00:00.000Z", "s", 7));
}

#[test]
fn numbers_have_no_gap() {
    let mut emitter = emitter().with_filter(Filter {
        includes: Vec::new(),
        exclude: vec![Matcher::new().kind("noise*")],
    });
    let mut written = Vec::new();
    for kind in ["a", "noise-1", "b", "noise-2", "c"] {
        let emitted = emitter.try_emit(
            Kind::new(kind),
            &fields("{\"t\":\"ghp_12345678\"}"),
            Vec::new(),
            "ts".to_owned(),
            0,
        );
        assert_eq!(emitted.envelope.payload[0].1.as_str(), Some("[redacted]"));
        if emitted.line.is_some() {
            written.push(emitted.envelope.seq);
        }
    }
    assert_eq!(written, vec![1, 2, 3]);
}

#[test]
fn shared_files_number_from_what_they_hold() {
    let mut emitter = Emitter::shared("s", Source::new("agent"), 1, Redactor::new(), "/tmp/x");
    let held = recorded(&b"{}\n{}\n{\"to".to_vec());
    assert_eq!(held.whole, 2);
    let torn = held.torn.unwrap();
    assert_eq!(torn, Torn { at: 6, bytes: 4 });
    assert_eq!(
        healed_words(&torn, "/tmp/x"),
        "onemessagebus: healed a torn record of 4 bytes at byte 6 of /tmp/x"
    );
    let emitted = emitter.try_emit(Kind::new("a"), &Vec::new(), Vec::new(), "ts".to_owned(), held.whole);
    assert_eq!(emitted.envelope.seq, 3);
    let mut whole = b"{}\n{}\n".to_vec();
    whole.extend_from_slice(emitted.line.unwrap().as_bytes());
    assert_eq!(recorded(&whole).whole, 3);
}

#[test]
fn emitters_stamp_what_they_were_given() {
    let emitter = emitter()
        .with_version(9)
        .with_labels(Labels::new().with("a", Json::text("parent")).with("b", Json::text("kept")))
        .with_labels(Labels::new().with("a", Json::text("child")))
        .with_dimensions(fields("{\"run\":1}"));
    assert_eq!(emitter.stream(), "s-1");
    assert_eq!(emitter.source().as_str(), "agent");
    assert_eq!(emitter.version(), 9);
    assert_eq!(emitter.labels().get_str("a"), Some("child"));
    assert_eq!(emitter.labels().get_str("b"), Some("kept"));
    let one = envelope("t", "s-1", 1, "k");
    let failed = emitter.failed(one, "disk full");
    assert_eq!(
        failed.error.message(),
        "cannot record a k event on stream s-1: disk full"
    );
    let locked = emitter.unlocked(failed.envelope, "/f", "busy");
    assert_eq!(locked.error.message(), "cannot order a k event in /f: busy");
    let odd = emitter.unserializable(locked.envelope, "nan");
    assert_eq!(
        odd.error.message(),
        "cannot record a k event on stream s-1 at seq 1: it does not serialize to JSON: nan"
    );
}

#[test]
fn streams_are_read_from_a_boundary() {
    let lines = read_lines(&b"one\n\ntwo\nthr".to_vec(), 100);
    let at: Vec<(u64, u64)> = lines.whole.iter().map(|line| (line.at, line.position)).collect();
    assert_eq!(at, vec![(100, 104), (104, 105), (105, 109)]);
    assert_eq!(lines.torn, Some(Torn { at: 109, bytes: 3 }));
    assert_eq!(resume_from(&lines, 100), 109);
    assert!(check_boundary("/f", 0, None).is_ok());
    assert!(check_boundary("/f", 4, Some(b'\n')).is_ok());
    assert_eq!(
        check_boundary("/f", 4, None).unwrap_err(),
        "cannot read /f from byte 4: it is past the end of the file; resume from a position a reading handed back, or 0"
    );
    assert!(check_boundary("/f", 4, Some(b'x')).unwrap_err().contains("it is inside a record"));
    assert_eq!(check_line(" ").unwrap_err(), "an empty line, which no writer leaves");
    assert!(check_line("{}").is_ok());
}

#[test]
fn streams_merge_in_order_and_stay_stable() {
    let file = |path: &str, all: Vec<Envelope>| FileReadings {
        path: path.to_owned(),
        readings: all
            .into_iter()
            .map(|envelope| Reading::Record(onemessagebus::read::Record { envelope, position: 0 }))
            .collect(),
    };
    let mut second = file("b", vec![envelope("1", "b", 1, "third"), envelope("1", "a", 1, "second")]);
    second.readings.push(Reading::Torn(Torn { at: 5, bytes: 1 }));
    let merge = Merge::new(vec![
        file("a", vec![envelope("2", "a", 2, "last"), envelope("1", "a", 1, "first")]),
        second,
    ]);
    let kinds: Vec<&str> = merge.records().iter().map(|one| one.kind.as_str()).collect();
    assert_eq!(kinds, vec!["first", "second", "third", "last"]);
    assert_eq!(merge.torn().len(), 1);
    assert_eq!(merge.torn()[0].0, "b");
    assert!(merge.refused().is_empty());
    assert_eq!(merge.into_records().len(), 4);
}

#[test]
fn readings_are_sorted_out() {
    let lines = read_lines(&b"x\ny\n".to_vec(), 0);
    let mut readings = Vec::new();
    readings.push(reading_of(&lines.whole[0], Err("odd".to_owned())));
    readings.push(reading_of(&lines.whole[1], Ok(envelope("t", "s", 1, "k"))));
    let all = collect_all(readings, 4);
    assert_eq!(all.position, 4);
    assert_eq!(all.refused[0].reason, "odd");
    assert_eq!(all.refused[0].position, 2);
    assert_eq!(all.records[0].position, 4);
    assert!(all.torn.is_none());
}

#[test]
fn filters_take_by_source_kind_and_field() {
    assert!(glob("step-*", "step-done"));
    assert!(glob("*a*b", "xaxxb"));
    assert!(!glob("step", "step-done"));
    assert!(glob("*", ""));
    let none = Vec::new();
    let labels = fields("{\"env\":\"prod\"}");
    let filter = Filter {
        includes: vec![Matcher::new().source("agent").fields(fields("{\"env\":\"prod\"}"))],
        exclude: vec![Matcher::new().kind("secret-*")],
    };
    assert!(filter.allows("agent", "step", &none, &labels));
    assert!(!filter.allows("agent", "secret-x", &none, &labels));
    assert!(!filter.allows("other", "step", &none, &labels));
    assert!(!filter.allows("agent", "step", &none, &none));
    assert!(Filter::everything().allows("any", "thing", &none, &none));
}

#[test]
fn clocks_stamp_with_milliseconds() {
    assert!(is_stamp(&now_rfc3339()));
    assert_eq!(stamp_or_epoch(None), "1970-01-01T00:00:00.000Z");
    assert!(!is_stamp("2026-01-01T00:00:00Z"));
    let whole = "2026-01-01T00:00:00.000Z";
    assert_eq!(stamp_or_epoch(Some(whole.to_owned())), whole);
    assert_eq!(
        stamp_or_epoch(Some("2026-01-01T00:00:00Z".to_owned())),
        "1970-01-01T00:00:00.000Z"
    );
}

#[test]
fn capabilities_are_declared() {
    let all = capabilities();
    let methods: Vec<&str> = all.iter().map(|one| one.method).collect();
    assert_eq!(
        methods,
        vec!["schemaList", "schemaCheck", "schemaGen", "schemaRegister", "eventsMerge", "eventsEmit"]
    );
    assert_eq!(all[4].python_method(), "events_merge");
    assert_eq!(all[4].output(), Some("envelope"));
    assert_eq!(all[1].output(), None);
    assert_eq!(FlagKind::KeyValue("--label").flag(), Some("--label"));
    assert_eq!(FlagKind::Positional.flag(), None);
    assert_eq!(FlagKind::Switch("--x").wire_name(), "switch");
    assert_eq!(StdoutShape::Jsonl("e").wire_name(), "jsonl");
    assert_eq!(all[5].bindings.len(), 8);
}

#[test]
fn resident_verbs_are_capabilities() {
    let verb = ResidentVerb::named("eventsEmit").unwrap();
    assert!(capabilities().iter().any(|declared| declared.method == verb.capability().method));
    assert_eq!(verb.method(), "eventsEmit");
    assert!(verb.capability().stdin);
    assert!(ResidentVerb::named("sing").is_none());
    assert_eq!(
        ResidentVerb::read("sing").unwrap_err(),
        "`sing` is not a verb of the resident core; it answers each capability's method: schemaList, schemaCheck, schemaGen, schemaRegister, eventsMerge, eventsEmit"
    );
    assert_eq!(resident_protocol().to_text(), "bus.resident-protocol@1");
    assert_eq!(ResidentExit::Invalid.code(), 2);
    assert_eq!(ResidentExit::from_code(1), Ok(ResidentExit::Failed));
    assert_eq!(
        ResidentExit::from_code(3).unwrap_err(),
        "3 is not an exit code a refusal carries; it is 1 or 2"
    );
    assert!(True::read(true).is_ok());
    assert!(True::read(false).is_err());
}

#[test]
fn filters_are_refused_where_they_are_read() {
    let keys = vec!["env".to_owned()];
    assert!(Filter::is_inline("  {\"include\":[]}"));
    assert!(!Filter::is_inline("filters/prod.yaml"));
    assert_eq!(
        Filter::unreadable("filters/prod.yaml", "gone").why,
        "cannot read the event filter filters/prod.yaml: gone"
    );
    match Filter::parse(Err("unknown field `x`".to_owned()), &keys) {
        Err(e) => assert_eq!(e.why, "the event filter is unusable: unknown field `x`"),
        Ok(_) => panic!("read"),
    }
    let bare = Filter { includes: vec![Matcher::new()], exclude: Vec::new() };
    match Filter::parse(Ok(bare), &keys) {
        Err(e) => assert!(e.why.starts_with("include[0] {}: a matcher naming no field"), "{}", e.why),
        Ok(_) => panic!("read"),
    }
    assert!(Filter::parse(Ok(Filter::everything()), &keys).is_ok());
    match Matcher::parse("{}", Ok(Matcher::new()), &keys) {
        Err(e) => assert!(e.why.starts_with("{}: a matcher naming no field"), "{}", e.why),
        Ok(_) => panic!("read"),
    }
    match Matcher::parse("[", Err("EOF".to_owned()), &keys) {
        Err(e) => assert_eq!(e.why, "the matcher is unusable: EOF"),
        Ok(_) => panic!("read"),
    }
}

#[test]
fn filters_take_whole_envelopes() {
    let envelope = |kind: &str, env: &str| Envelope {
        v: 1,
        ts: stamp_or_epoch(None),
        stream: "s".to_owned(),
        seq: 1,
        source: Source::new("agent"),
        kind: Kind::new(kind),
        dimensions: Vec::new(),
        labels: Labels::new().with("env", Json::text(env)),
        payload: Vec::new(),
        artifacts: Vec::new(),
    };
    let filter = Filter {
        includes: vec![Matcher::new().fields(vec![("env".to_owned(), Json::text("prod"))])],
        exclude: vec![Matcher::new().kind("noise*")],
    };
    assert!(filter.matches(&envelope("started", "prod")));
    assert!(!filter.matches(&envelope("started", "dev")));
    assert!(!filter.matches(&envelope("noise-level", "prod")));
}

#[test]
fn emitters_tell_when_they_have_no_number_left() {
    let single = Emitter::new("s", Source::new("agent"), 1, Redactor::new());
    assert!(single.can_emit(u64::MAX));
    let shared = Emitter::shared("s", Source::new("agent"), 1, Redactor::new(), "/tmp/s.jsonl");
    assert!(shared.can_emit(7));
    assert!(!shared.can_emit(u64::MAX));
}

#[test]
fn no_part_of_a_held_secret_is_left() {
    let long = Redactor::new().with_secret("abcdefgh").with_secret("abcdefghij");
    assert_eq!(long.redact("x abcdefghij y"), "x [redacted] y");
    assert_eq!(long.redact("x abcdefgh y"), "x [redacted] y");
    let crossing = Redactor::new().with_secret("abcdefgh").with_secret("efghijkl");
    assert_eq!(crossing.redact("abcdefghijkl"), "[redacted]");
    assert_eq!(crossing.redact("efghabcdefgh."), "efgh[redacted].");
    assert_eq!(Redactor::new().with_secret("hunter2").redact("is hunter2?"), "is [redacted]?");
    assert_eq!(Redactor::new().with_secret("").redact("plain"), "plain");
}

#[test]
fn an_event_nothing_numbered_carries_no_number() {
    let secret = Redactor::new().with_secret("hunter2");
    let emitter = Emitter::shared("s", Source::new("agent"), 1, secret, "/tmp/x");
    let stamped = emitter.stamped(
        Kind::new("step"),
        fields("{\"at\":1}"),
        &fields("{\"key\":\"hunter2\"}"),
        Vec::new(),
        stamp_or_epoch(None),
    );
    assert_eq!(stamped.seq, 0);
    assert_eq!(stamped.stream, "s");
    assert_eq!(stamped.payload[0].1.as_str(), Some("[redacted]"));
    assert_eq!(stamped.dimensions.len(), 1);
}
