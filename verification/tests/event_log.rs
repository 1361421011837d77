//! Event-log semantics across the three modules that share it: `record`
//! writes a log, `verify` compares against one, `playback` feeds one back
//! into a sim.
use continuo::component::{Component, StepCtx};
use continuo::config::ConductorConfig;
use continuo::ids::{ComponentId, ComponentPath};
use continuo::json::payload_json;
use continuo::keyexpr::KeyExpr;
use continuo::messages::Message;
use continuo::pacing::Pacing;
use continuo::playback::PlaybackComponent;
use continuo::record::{
    try_recorded_message, EventLog, LogEvent, LogHeader, MembershipChange, RecordError,
    RecordedJoin, RecordedJoinRequest, RecordedLeave, RecordedMessage, RecordedObservation,
    Recorder, TickFingerprint,
};
use continuo::time::SimTime;
use continuo::verify::{event_mismatch, Verifier};
use serde_json::Value;

const WORLD_NAME: &str = "test";
const WORLD_SEED: u64 = 7;
const KEY: &str = "w/a";
const PUBLISHER: &str = "p";
const PAYLOAD: &[u8] = br#"{"v":1.5}"#;
const TICK_HASH: u64 = 0xdead_beef;
const WORLD_HASH: u64 = 0x1234_5678_9abc_def0;

/// The config the fixture log claims to have been recorded from.
fn sample_config() -> ConductorConfig {
    ConductorConfig {
        world_name: WORLD_NAME.to_string(),
        world_seed: WORLD_SEED,
        pacing: Pacing::FreeRun,
    }
}

fn another_seed() -> ConductorConfig {
    ConductorConfig {
        world_seed: WORLD_SEED + 1,
        ..sample_config()
    }
}

fn sample_message() -> Message {
    Message {
        key: KeyExpr::new(KEY).unwrap(),
        publisher: ComponentPath::parse(PUBLISHER).unwrap(),
        seq: 0,
        sim_time: SimTime::zero(),
        payload: PAYLOAD.to_vec(),
    }
}

fn sample_fingerprint() -> TickFingerprint {
    TickFingerprint {
        tick: 1,
        sim_time: SimTime::zero(),
        tick_hash: TICK_HASH,
        world_hash: WORLD_HASH,
    }
}

/// The `("test", seed 7)` header, then the two events of a single tick at
/// t=0: one message followed by that tick's fingerprint. A verifier fed
/// exactly those two events in that order must agree with it.
fn sample_log() -> EventLog {
    let mut recorder = Recorder::new(&sample_config());
    recorder.message_callback(&sample_message());
    recorder.tick_callback(&sample_fingerprint());
    recorder.finish()
}

// --- JSON lines -------------------------------------------------------------

fn text_of(value: Value) -> String {
    serde_json::to_string(&value).expect("a value serializes")
}

fn header_line(header: &LogHeader) -> String {
    let mut fields = serde_json::Map::new();
    fields.insert("version".to_string(), Value::from(header.version));
    fields.insert(
        "world_name".to_string(),
        Value::from(header.world_name.clone()),
    );
    fields.insert("world_seed".to_string(), Value::from(header.world_seed));
    text_of(Value::Object(fields))
}

fn event_line(event: &LogEvent) -> String {
    let mut fields = serde_json::Map::new();
    fields.insert("type".to_string(), Value::from(event.kind()));
    match event {
        LogEvent::Msg(m) => {
            fields.insert("seq".to_string(), Value::from(m.seq));
            fields.insert("key".to_string(), Value::from(m.key.clone()));
            fields.insert("publisher".to_string(), Value::from(m.publisher.clone()));
            fields.insert("time".to_string(), Value::from(m.sim_time.to_string()));
            fields.insert(
                "payload".to_string(),
                serde_json::from_str(&m.payload).expect("a payload is JSON"),
            );
        }
        LogEvent::Tick(t) => {
            fields.insert("tick".to_string(), Value::from(t.tick));
            fields.insert("time".to_string(), Value::from(t.sim_time.to_string()));
            fields.insert("tick_hash".to_string(), Value::from(t.tick_hash));
            fields.insert("world_hash".to_string(), Value::from(t.world_hash));
        }
        other => panic!("not in the fixture: {other:?}"),
    }
    text_of(Value::Object(fields))
}

fn header_of(line: &str) -> LogHeader {
    let value: Value = serde_json::from_str(line).expect("a header is JSON");
    LogHeader {
        version: u32::try_from(value["version"].as_u64().unwrap()).unwrap(),
        world_name: value["world_name"].as_str().unwrap().to_string(),
        world_seed: value["world_seed"].as_u64().unwrap(),
    }
}

fn event_of(line: &str) -> LogEvent {
    let value: Value = serde_json::from_str(line).expect("an event is JSON");
    let sim_time: SimTime = value["time"].as_str().unwrap().parse().unwrap();
    if value["type"].as_str() == Some("tick") {
        LogEvent::Tick(TickFingerprint {
            tick: value["tick"].as_u64().unwrap(),
            sim_time,
            tick_hash: value["tick_hash"].as_u64().unwrap(),
            world_hash: value["world_hash"].as_u64().unwrap(),
        })
    } else {
        LogEvent::Msg(RecordedMessage {
            sim_time,
            key: value["key"].as_str().unwrap().to_string(),
            publisher: value["publisher"].as_str().unwrap().to_string(),
            seq: value["seq"].as_u64().unwrap(),
            payload: text_of(value["payload"].clone()),
        })
    }
}

fn lines_of(log: &EventLog) -> String {
    let events: Vec<String> = log.events.iter().map(event_line).collect();
    EventLog::to_jsonl(&header_line(&log.header), &events)
}

fn read_back(text: &str) -> EventLog {
    let lines = EventLog::from_jsonl(text).unwrap();
    EventLog {
        header: header_of(&lines.header),
        events: lines.events.iter().map(|(_, line)| event_of(line)).collect(),
    }
}

#[test]
fn event_log_jsonl_round_trip() {
    let log = sample_log();
    let text = lines_of(&log);
    assert_eq!(text.lines().count(), 3);
    assert!(text.lines().nth(1).unwrap().contains(r#""v":1.5"#));
    let back = read_back(&text);
    assert!(log.first_divergence(&back).is_none());
    assert_eq!(back.final_world_hash(), Some(WORLD_HASH));
}

#[test]
fn record_jsonl_round_trip() {
    let log = sample_log();
    let text = lines_of(&log);
    assert_eq!(text.lines().count(), 3);
    assert!(text.lines().nth(1).unwrap().contains(r#""v":1.5"#));
    let back = read_back(&text);
    assert!(log.first_divergence(&back).is_none());
    assert_eq!(back.final_world_hash(), Some(0x1234_5678_9abc_def0));
}

#[test]
fn a_line_is_blank_when_it_holds_nothing_but_white_space() {
    let mut white: Vec<u32> = vec![0x20, 0x85, 0xa0, 0x1680, 0x2028, 0x2029, 0x202f, 0x205f, 0x3000];
    white.extend(0x09..=0x0d);
    white.extend(0x2000..=0x200a);
    for code in (0..=0x3100).chain([0xfeff, 0x1f600, 0x10ffff]).filter(|code| *code != 0x0a) {
        let Some(c) = char::from_u32(code) else { continue };
        let lines = EventLog::from_jsonl(&format!("{{}}\n{c} \n")).unwrap();
        assert_eq!(lines.events.is_empty(), white.contains(&code), "{code:#x}");
    }
}

#[test]
fn blank_lines_are_skipped_and_the_rest_keep_their_numbers() {
    let lines = EventLog::from_jsonl("\n {\"h\":1} \r\n\t \n{\"e\":2}\n\n{\"e\":3}").unwrap();
    assert_eq!(lines.header, " {\"h\":1} ");
    assert_eq!(
        lines.events,
        vec![
            (4, "{\"e\":2}".to_string()),
            (6, "{\"e\":3}".to_string())
        ]
    );
}

#[test]
fn a_text_without_a_line_is_no_log() {
    for text in ["", "\n", " \t\r\n\u{2003}\n"] {
        let error = EventLog::from_jsonl(text).expect_err("there is no header");
        assert!(matches!(error, RecordError::Empty));
        assert_eq!(error.to_string(), "event log is empty (missing header line)");
    }
    let parse = RecordError::Parse {
        line: 3,
        source: "expected value".to_string(),
    };
    assert_eq!(
        parse.to_string(),
        "event log line 3 is not valid: expected value"
    );
    assert_eq!(
        RecordError::Io("disk full".to_string()).to_string(),
        "event log I/O failed: disk full"
    );
}

// --- record ---------------------------------------------------------------

#[test]
fn the_header_names_the_run_that_produced_the_log() {
    assert_eq!(
        sample_log().header,
        LogHeader {
            version: 1,
            world_name: WORLD_NAME.to_string(),
            world_seed: WORLD_SEED,
        }
    );
}

#[test]
fn a_payload_is_recorded_without_the_space_around_it() {
    assert_eq!(
        payload_json(&b" \n{\"v\": 1.50}\t".to_vec()),
        Some("{\"v\": 1.50}".to_string())
    );
    assert_eq!(payload_json(&b"{\"v\":".to_vec()), None);
    assert_eq!(payload_json(&b"1 2".to_vec()), None);
    assert_eq!(payload_json(&vec![b'"', 0xff, b'"']), None);
}

#[test]
fn a_payload_that_is_no_json_is_not_recorded() {
    let mut broken = sample_message();
    broken.payload = b"not json".to_vec();
    assert_eq!(try_recorded_message(&broken), None);

    let mut recorder = Recorder::new(&sample_config());
    assert!(!recorder.try_message(&broken));
    assert!(recorder.try_message(&sample_message()));
    assert_eq!(recorder.finish().events.len(), 1);

    let mut verifier = Verifier::new(sample_log(), &sample_config());
    assert!(!verifier.try_message(&broken));
    assert!(verifier.try_message(&sample_message()));
    assert!(!verifier.diverged());
}

#[test]
fn membership_and_observations_are_recorded_in_order() {
    let mut recorder = Recorder::new(&sample_config());
    let join = RecordedJoin {
        path: "a".to_string(),
        first_due: SimTime::zero(),
    };
    let leave = RecordedLeave {
        path: "a".to_string(),
        leaves_at: SimTime::from_secs(1),
    };
    let request = RecordedObservation::JoinRequested(RecordedJoinRequest {
        path: "b".to_string(),
        first_due: SimTime::from_secs(2),
    });
    recorder.membership_callback(&MembershipChange::Joined(join.clone()));
    recorder.observation_callback(&request);
    recorder.membership_callback(&MembershipChange::Left(leave.clone()));
    let log = recorder.finish();
    assert_eq!(
        log.events,
        vec![
            LogEvent::Join(join),
            LogEvent::Observed(request),
            LogEvent::Leave(leave)
        ]
    );
    assert_eq!(log.final_world_hash(), None);
}

// --- verify ---------------------------------------------------------------

fn altered(mut log: EventLog) -> EventLog {
    if let LogEvent::Tick(fingerprint) = &mut log.events[1] {
        fingerprint.world_hash ^= 1;
    }
    log
}

#[test]
fn two_logs_diverge_at_the_first_differing_event() {
    let a = sample_log();
    assert!(a.first_divergence(&sample_log()).is_none());

    let b = altered(sample_log());
    let divergence = a.first_divergence(&b).expect("must diverge");
    assert_eq!(divergence.event_index, Some(1));

    let c = Recorder::new(&another_seed()).finish();
    assert!(a
        .first_divergence(&c)
        .expect("header differs")
        .event_index
        .is_none());
}

#[test]
fn divergence_detection() {
    let a = sample_log();
    let b = sample_log();
    assert!(a.first_divergence(&b).is_none());

    let b = altered(b);
    let div = a.first_divergence(&b).expect("must diverge");
    assert_eq!(div.event_index, Some(1));

    let c = Recorder::new(&another_seed()).finish(); // different seed
    assert!(a
        .first_divergence(&c)
        .expect("header differs")
        .event_index
        .is_none());
}

#[test]
fn a_log_that_goes_on_longer_diverges_where_the_other_ends() {
    let a = sample_log();
    let mut longer = sample_log();
    longer.events.push(LogEvent::Tick(sample_fingerprint()));
    let divergence = a.first_divergence(&longer).expect("must diverge");
    assert_eq!(divergence.event_index, Some(2));
}

#[test]
fn the_verifier_accepts_a_matching_stream() {
    let mut verifier = Verifier::new(sample_log(), &sample_config());
    verifier.message_callback(&sample_message());
    verifier.tick_callback(&sample_fingerprint());
    assert!(!verifier.diverged());
    assert_eq!(verifier.finish().expect("streams match"), 2);
}

#[test]
fn checker_accepts_a_matching_stream() {
    let mut checker = Verifier::new(sample_log(), &sample_config());
    checker.message_callback(&sample_message());
    checker.tick_callback(&sample_fingerprint());
    assert!(!checker.diverged());
    assert_eq!(checker.finish().expect("streams match"), 2);
}

#[test]
fn the_verifier_flags_the_first_mismatching_event() {
    let mut verifier = Verifier::new(altered(sample_log()), &sample_config());
    verifier.message_callback(&sample_message());
    assert!(!verifier.diverged(), "message still matches");
    verifier.tick_callback(&sample_fingerprint());
    assert!(verifier.diverged(), "fingerprint mismatch must be caught");
    let divergence = verifier.finish().expect_err("must diverge");
    assert_eq!(divergence.event_index, Some(1));
}

#[test]
fn checker_flags_the_first_mismatching_event() {
    let mut checker = Verifier::new(altered(sample_log()), &sample_config());
    checker.message_callback(&sample_message());
    assert!(!checker.diverged(), "message still matches");
    checker.tick_callback(&sample_fingerprint());
    assert!(checker.diverged(), "fingerprint mismatch must be caught");
    let divergence = checker.finish().expect_err("must diverge");
    assert_eq!(divergence.event_index, Some(1));
}

#[test]
fn the_verifier_flags_a_truncated_rerun() {
    let mut verifier = Verifier::new(sample_log(), &sample_config());
    verifier.message_callback(&sample_message());
    // The re-run ends here; the recorded tick is never matched.
    let divergence = verifier.finish().expect_err("must diverge");
    assert_eq!(divergence.event_index, Some(1));
    assert!(divergence.description.contains("more event(s)"));
}

#[test]
fn checker_flags_a_truncated_rerun() {
    let mut checker = Verifier::new(sample_log(), &sample_config());
    checker.message_callback(&sample_message());
    // The re-run ends here; the recorded tick is never matched.
    let divergence = checker.finish().expect_err("must diverge");
    assert_eq!(divergence.event_index, Some(1));
    assert!(divergence.description.contains("more event(s)"));
}

#[test]
fn the_verifier_rejects_a_header_mismatch_immediately() {
    let verifier = Verifier::new(sample_log(), &another_seed());
    assert!(verifier.diverged());
    let divergence = verifier.finish().expect_err("must diverge");
    assert_eq!(divergence.event_index, None);
}

#[test]
fn checker_rejects_a_header_mismatch_immediately() {
    let checker = Verifier::new(sample_log(), &another_seed()); // wrong seed
    assert!(checker.diverged());
    let divergence = checker.finish().expect_err("must diverge");
    assert_eq!(divergence.event_index, None);
}

#[test]
fn a_re_run_that_goes_on_is_flagged_too() {
    let mut verifier = Verifier::new(sample_log(), &sample_config());
    verifier.message_callback(&sample_message());
    verifier.tick_callback(&sample_fingerprint());
    verifier.tick_callback(&sample_fingerprint());
    let divergence = verifier.finish().expect_err("must diverge");
    assert_eq!(divergence.event_index, Some(2));
}

#[test]
fn observations_are_never_compared() {
    let request = RecordedObservation::JoinRequested(RecordedJoinRequest {
        path: "b".to_string(),
        first_due: SimTime::from_secs(2),
    });
    let mut noisy = sample_log();
    noisy.events.insert(1, LogEvent::Observed(request));
    assert_eq!(sample_log().first_divergence(&noisy), None);

    let mut verifier = Verifier::new(noisy, &sample_config());
    verifier.message_callback(&sample_message());
    verifier.tick_callback(&sample_fingerprint());
    assert_eq!(verifier.finish().expect("streams match"), 2);
}

#[test]
fn a_mismatch_says_what_differs() {
    let log = sample_log();
    assert_eq!(event_mismatch(&log.events[0], &log.events[0]), None);
    let said = event_mismatch(&log.events[0], &log.events[1]).expect("they differ");
    assert!(said.contains("msg") && said.contains("tick"), "{said}");

    let mut other = sample_message();
    other.payload = b"2".to_vec();
    let other = try_recorded_message(&other).expect("2 is JSON");
    let said = event_mismatch(&log.events[0], &other).expect("they differ");
    assert!(said.contains(KEY) && said.contains(PUBLISHER), "{said}");
}

// --- playback -------------------------------------------------------------

#[test]
fn a_playback_double_republishes_its_recording_verbatim() {
    let log = sample_log();
    let mut playback_double =
        PlaybackComponent::from_log(ComponentId::new(PUBLISHER).unwrap(), &log, PUBLISHER);
    let mut ctx = StepCtx::new(SimTime::zero(), None, WORLD_NAME, 0, Vec::new());

    let next_due = playback_double.step(&mut ctx).unwrap();
    let outbox = ctx.take_outbox();
    assert_eq!(outbox.len(), 1);
    assert_eq!(outbox[0].0.as_str(), KEY);
    assert_eq!(outbox[0].1, PAYLOAD);
    // Nothing else was recorded, so the playback double never wakes again.
    assert_eq!(next_due, SimTime::from_nanos(i64::MAX));
}

#[test]
fn a_playback_double_ignores_other_publishers() {
    let log = sample_log();
    let mut playback_double = PlaybackComponent::from_log(
        ComponentId::new("someone-else").unwrap(),
        &log,
        "someone-else",
    );
    let mut ctx = StepCtx::new(SimTime::zero(), None, WORLD_NAME, 0, Vec::new());

    assert_eq!(
        playback_double.step(&mut ctx).unwrap(),
        SimTime::from_nanos(i64::MAX)
    );
    assert!(ctx.take_outbox().is_empty());
}

#[test]
fn a_playback_double_wakes_at_each_recorded_instant() {
    let mut recorder = Recorder::new(&sample_config());
    for (seq, millis) in [(0, 10), (1, 10), (2, 30)] {
        let mut message = sample_message();
        message.seq = seq;
        message.sim_time = SimTime::from_millis(millis);
        recorder.message_callback(&message);
    }
    let log = recorder.finish();
    let id = ComponentId::new(PUBLISHER).unwrap();
    let mut double = PlaybackComponent::from_log(id, &log, PUBLISHER);
    assert!(double.subscriptions().is_empty());

    let mut published: Vec<usize> = Vec::new();
    let mut now = SimTime::zero();
    for _ in 0..3 {
        let mut ctx = StepCtx::new(now, None, WORLD_NAME, 0, Vec::new());
        now = double.step(&mut ctx).unwrap();
        published.push(ctx.take_outbox().len());
    }
    assert_eq!(published, vec![0, 2, 1], "at 0, 10 and 30 ms");
    assert_eq!(now, SimTime::from_nanos(i64::MAX));
}
