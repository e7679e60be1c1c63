use mpodol::action::{Action, ArgMap, ArgValue, Tool};
use mpodol::event::{
    error_records, frame, log_lines, now_ms, Durability, ErrorRecord, Event, EventKind, EventLog,
    LogError, LogLine, Replay,
};
use mpodol::reject::{Reject, RejectCode};
use mpodol::runbook::example_service_restart;
use mpodol::store::{read_log, Mend};
use mpodol::validate::validate;
use serde_json::Value;

// ---- a log in memory ----------------------------------------------------

fn parse_action(s: &str) -> Action {
    let v: Value = serde_json::from_str(s).expect("test fixture must parse");
    action_from(&v).expect("an action")
}

fn action_from(v: &Value) -> Option<Action> {
    let name = v.get("tool")?.as_str()?;
    let tool = Tool::all().into_iter().find(|t| t.as_str() == name)?;
    let mut args = ArgMap::new();
    for (key, value) in v.get("args")?.as_object()? {
        let value = match value.as_str() {
            Some(text) => ArgValue::Str(text.to_string()),
            None => ArgValue::Int(value.as_u64()?),
        };
        args.insert(key.clone(), value);
    }
    Some(Action { tool, args })
}

fn action_json(a: &Action) -> Value {
    let mut args = serde_json::Map::new();
    for key in a.args.keys() {
        let value = match a.args.get(&key).unwrap() {
            ArgValue::Str(s) => Value::from(s.as_str()),
            ArgValue::Int(n) => Value::from(*n),
        };
        args.insert(key, value);
    }
    let mut all = serde_json::Map::new();
    all.insert("tool".to_string(), Value::from(a.tool.as_str()));
    all.insert("args".to_string(), Value::Object(args));
    Value::Object(all)
}

fn opt(s: &Option<String>) -> Value {
    match s {
        Some(s) => Value::from(s.as_str()),
        None => Value::Null,
    }
}

fn json(e: &Event) -> String {
    let mut all = serde_json::Map::new();
    all.insert("seq".to_string(), Value::from(e.seq));
    all.insert("ts_ms".to_string(), Value::from(e.ts_ms));
    let kind = match &e.kind {
        EventKind::UserMessage { text } => {
            all.insert("text".to_string(), Value::from(text.as_str()));
            "user_message"
        }
        EventKind::AgentThought { text } => {
            all.insert("text".to_string(), Value::from(text.as_str()));
            "agent_thought"
        }
        EventKind::ActionExecuted { step_id, action } => {
            all.insert("step_id".to_string(), Value::from(step_id.as_str()));
            all.insert("action".to_string(), action_json(action));
            "action_executed"
        }
        EventKind::Error(r) => {
            all.insert("step_id".to_string(), Value::from(r.step_id.as_str()));
            all.insert("step_intent".to_string(), Value::from(r.step_intent.as_str()));
            all.insert("tool".to_string(), opt(&r.tool));
            all.insert("code".to_string(), Value::from(r.code.as_str()));
            all.insert("args_fingerprint".to_string(), opt(&r.args_fingerprint));
            all.insert("reason".to_string(), Value::from(r.reason.as_str()));
            all.insert("repair_hint".to_string(), Value::from(r.repair_hint.as_str()));
            "error"
        }
        other => panic!("not written in these tests: {:?}", other),
    };
    all.insert("kind".to_string(), Value::from(kind));
    Value::Object(all).to_string()
}

fn field(v: &Value, name: &str) -> Result<String, String> {
    match v.get(name).and_then(|f| f.as_str()) {
        Some(s) => Ok(s.to_string()),
        None => Err(format!("missing field `{}`", name)),
    }
}

fn parse(line: &str) -> Result<Event, String> {
    let v: Value = serde_json::from_str(line).map_err(|e| e.to_string())?;
    let number = |name: &str| {
        v.get(name)
            .and_then(|f| f.as_u64())
            .ok_or_else(|| format!("missing field `{}`", name))
    };
    let text = |name: &str| v.get(name).and_then(|f| f.as_str()).map(|s| s.to_string());
    let kind = match field(&v, "kind")?.as_str() {
        "user_message" => EventKind::UserMessage { text: field(&v, "text")? },
        "agent_thought" => EventKind::AgentThought { text: field(&v, "text")? },
        "action_executed" => EventKind::ActionExecuted {
            step_id: field(&v, "step_id")?,
            action: action_from(&v["action"]).ok_or_else(|| "no action".to_string())?,
        },
        "error" => EventKind::Error(ErrorRecord {
            step_id: field(&v, "step_id")?,
            step_intent: field(&v, "step_intent")?,
            tool: text("tool"),
            code: field(&v, "code")?,
            args_fingerprint: text("args_fingerprint"),
            reason: field(&v, "reason")?,
            repair_hint: field(&v, "repair_hint")?,
        }),
        other => return Err(format!("unknown kind {}", other)),
    };
    Ok(Event { seq: number("seq")?, ts_ms: number("ts_ms")?, kind })
}

fn lines(file: &[u8]) -> Vec<LogLine> {
    let log = read_log(file).expect("lines of text");
    let parsed = log.lines.iter().map(|t| parse(t)).collect();
    log.parsed(parsed)
}

fn open(file: &mut Vec<u8>, durability: Durability) -> Result<(EventLog, Replay), LogError> {
    let (log, replay) = EventLog::open(lines(file), durability)?;
    let jsons: Vec<String> = replay.events.iter().map(json).collect();
    match replay.rewrite(file, &jsons) {
        Some(Mend::Whole(text)) => *file = text.into_bytes(),
        Some(Mend::LineEnd) => file.push(b'\n'),
        None => {}
    }
    Ok((log, replay))
}

fn write(file: &mut Vec<u8>, log: &mut EventLog, ev: Event) -> Event {
    file.extend_from_slice(frame(&json(&ev)).as_bytes());
    log.commit(ev, Ok(())).unwrap()
}

fn append(file: &mut Vec<u8>, log: &mut EventLog, kind: EventKind) -> Event {
    let ev = log.append(now_ms(Some(1)), kind);
    write(file, log, ev)
}

fn user(text: &str) -> EventKind {
    EventKind::UserMessage { text: text.to_string() }
}

fn replay(file: &[u8]) -> Result<Replay, LogError> {
    EventLog::replay(lines(file))
}

// ---- the log ------------------------------------------------------------

#[test]
fn event_log_roundtrip() {
    let mut file = Vec::new();
    let (mut log, first) = open(&mut file, Durability::Sync).unwrap();
    assert!(first.events.is_empty());
    assert_eq!(log.next_seq(), 1);

    append(&mut file, &mut log, user("restart telemetry"));
    append(
        &mut file,
        &mut log,
        EventKind::AgentThought { text: "read config first".to_string() },
    );
    let a = parse_action(r#"{"tool":"file_read","args":{"path":"/etc/mpodol/t.conf"}}"#);
    append(
        &mut file,
        &mut log,
        EventKind::ActionExecuted { step_id: "read-config".to_string(), action: a.clone() },
    );

    let back = replay(&file).unwrap();
    assert!(!back.dropped_partial_tail);
    assert_eq!(back.events.len(), 3);
    assert_eq!(back.events.iter().map(|e| e.seq).collect::<Vec<_>>(), vec![1, 2, 3]);
    match &back.events[2].kind {
        EventKind::ActionExecuted { action, step_id } => {
            assert_eq!(action, &a);
            assert_eq!(step_id, "read-config");
        }
        other => panic!("wrong kind: {:?}", other),
    }
}

#[test]
fn reopening_continues_the_sequence() {
    let mut file = Vec::new();
    {
        let (mut log, _) = open(&mut file, Durability::Sync).unwrap();
        append(&mut file, &mut log, user("a"));
    }
    let (mut log, before) = open(&mut file, Durability::Sync).unwrap();
    assert_eq!(before.events.len(), 1);
    assert_eq!(log.next_seq(), 2);
    let ev = append(&mut file, &mut log, user("b"));
    assert_eq!(ev.seq, 2);
}

#[test]
fn event_log_survives_truncated_tail() {
    let mut file = Vec::new();
    {
        let (mut log, _) = open(&mut file, Durability::Sync).unwrap();
        append(&mut file, &mut log, user("one"));
        append(&mut file, &mut log, user("two"));
    }
    let whole = file.clone();
    file.extend_from_slice(b"{\"seq\":3,\"ts_ms\":1,\"kind\":\"user_mes");

    let (mut log, before) = open(&mut file, Durability::Sync).unwrap();
    assert!(before.dropped_partial_tail, "partial tail must be reported");
    assert_eq!(before.events.len(), 2);
    assert_eq!(log.next_seq(), 3);
    assert_eq!(file, whole);

    append(&mut file, &mut log, user("three"));
    let back = replay(&file).unwrap();
    assert!(!back.dropped_partial_tail);
    assert_eq!(back.events.len(), 3);
}

#[test]
fn corruption_in_the_middle_is_an_error_not_a_skip() {
    let mut file = Vec::new();
    {
        let (mut log, _) = open(&mut file, Durability::Sync).unwrap();
        append(&mut file, &mut log, user("one"));
        append(&mut file, &mut log, user("two"));
    }
    let text = String::from_utf8(file).unwrap();
    let mut all: Vec<&str> = text.lines().collect();
    all.insert(1, "{ this is not an event }");
    let damaged = all.join("\n") + "\n";

    match replay(damaged.as_bytes()) {
        Err(LogError::Corrupt { line_no, .. }) => assert_eq!(line_no, 2),
        other => panic!("expected Corrupt, got {:?}", other),
    }
}

#[test]
fn rejects_are_logged_as_structured_records() {
    let mut file = Vec::new();
    let rb = example_service_restart();
    let step = rb.step(0).unwrap();
    let action =
        parse_action(r#"{"tool":"file_read","args":{"path":"/etc/mpodol/../../etc/passwd"}}"#);
    let rej = validate(&rb, 0, &action).unwrap_err();

    let (mut log, _) = open(&mut file, Durability::Sync).unwrap();
    let ev = log.append_reject(5, &step.id, &step.intent, Some(&action), &rej);
    assert_eq!(ev.ts_ms, 5);
    write(&mut file, &mut log, ev);

    let back = replay(&file).unwrap();
    let errs = error_records(&back.events);
    assert_eq!(errs.len(), 1);
    let r = errs[0];
    assert_eq!(r.code, RejectCode::PathOutsideRoot.as_str());
    assert_eq!(r.tool.as_deref(), Some("file_read"));
    assert_eq!(r.step_id, "read-config");
    assert!(r.args_fingerprint.is_some());
    assert!(!r.repair_hint.is_empty());
}

#[test]
fn relaxed_durability_still_replays() {
    let mut file = Vec::new();
    {
        let (mut log, _) = open(&mut file, Durability::Relaxed).unwrap();
        assert!(!log.syncs());
        for i in 0..50 {
            append(&mut file, &mut log, EventKind::AgentThought { text: format!("t{}", i) });
        }
    }
    assert_eq!(replay(&file).unwrap().events.len(), 50);
}

#[test]
fn a_failed_write_uses_no_number() {
    let (mut log, _) = EventLog::open(vec![], Durability::Sync).unwrap();
    assert!(log.syncs());
    let ev = log.append(0, user("lost"));
    let full = std::io::Error::new(std::io::ErrorKind::Other, "device full");
    let e = log.commit(ev, Err(full)).unwrap_err();
    assert!(matches!(e, LogError::Io(_)));
    assert_eq!(e.to_text(), "io error: device full");
    assert_eq!(log.next_seq(), 1);
    let ev = log.append(0, user("kept"));
    assert_eq!(log.commit(ev, Ok(())).unwrap().seq, 1);
    assert_eq!(log.next_seq(), 2);
}

#[test]
fn log_errors_have_messages() {
    let e = LogError::Corrupt { line_no: 12, detail: "eof".to_string() };
    assert_eq!(e.to_text(), "corrupt event at line 12: eof");
    let e = LogError::SequenceBreak { expected: 3, found: 10 };
    assert_eq!(e.to_text(), "sequence break: expected 3, found 10");
    let e = LogError::from(std::io::Error::new(std::io::ErrorKind::Other, "x"));
    assert!(matches!(e, LogError::Io(_)));
    assert_eq!(e.message_with("shown"), "io error: shown");
}

fn line(text: &str, parsed: Result<Event, String>) -> LogLine {
    LogLine { text: text.to_string(), parsed }
}

fn numbered(seq: u64) -> Event {
    Event { seq, ts_ms: 0, kind: user("x") }
}

#[test]
fn sequence_breaks_are_told() {
    for (seqs, expected, found) in [
        (vec![2], 1, 2),
        (vec![0], 1, 0),
        (vec![1, 3], 2, 3),
        (vec![1, 2, 2], 3, 2),
        (vec![u64::MAX], 1, u64::MAX),
    ] {
        let all: Vec<LogLine> = seqs.into_iter().map(|s| line("e", Ok(numbered(s)))).collect();
        match EventLog::replay(all) {
            Err(LogError::SequenceBreak { expected: e, found: f }) => {
                assert_eq!((e, f), (expected, found))
            }
            other => panic!("expected SequenceBreak, got {:?}", other),
        }
    }
}

#[test]
fn blank_lines_are_skipped() {
    let bad = || Err("bad".to_string());
    let r = EventLog::replay(vec![
        line("", bad()),
        line("e", Ok(numbered(1))),
        line(" \t\u{a0}", bad()),
        line("e", Ok(numbered(2))),
        line("\r", bad()),
    ])
    .unwrap();
    assert_eq!(r.events, vec![numbered(1), numbered(2)]);
    assert!(!r.dropped_partial_tail);
    // A malformed line before a blank one is not the last.
    match EventLog::replay(vec![line("{", bad()), line("", bad())]) {
        Err(LogError::Corrupt { line_no, detail }) => {
            assert_eq!(line_no, 1);
            assert_eq!(detail, "bad");
        }
        other => panic!("expected Corrupt, got {:?}", other),
    }
    // The first fault is the one told.
    match EventLog::replay(vec![line("e", Ok(numbered(4))), line("{", bad()), line("{", bad())]) {
        Err(LogError::SequenceBreak { expected, found }) => assert_eq!((expected, found), (1, 4)),
        other => panic!("expected SequenceBreak, got {:?}", other),
    }
}

#[test]
fn framed_lines_come_back() {
    let texts = ["{}", "{\"a\":1}", "ä"];
    let mut file = String::new();
    for t in texts {
        file.push_str(&frame(t));
    }
    assert_eq!(file, "{}\n{\"a\":1}\nä\n");
    assert_eq!(log_lines(&file), texts);
    file.push_str("{\"hal");
    assert_eq!(log_lines(&file), vec!["{}", "{\"a\":1}", "ä", "{\"hal"]);
    assert_eq!(log_lines("a\r\nb\r\r\n\nc\r"), vec!["a", "b\r", "", "c\r"]);
    assert!(log_lines("").is_empty());
    for odd in ["", "\n", "a\nb", "a\r\nb\n", "a\r", "\r\n"] {
        assert_eq!(log_lines(odd), odd.lines().map(|l| l.to_string()).collect::<Vec<_>>());
    }
}

#[test]
fn only_a_torn_log_is_rewritten() {
    let jsons = vec!["{1}".to_string(), "{2}".to_string()];
    let torn = Replay { events: vec![numbered(1), numbered(2)], dropped_partial_tail: true };
    let anew = Some(Mend::Whole("{1}\n{2}\n".to_string()));
    assert_eq!(torn.rewrite(b"{1}\n{2}\n{", &jsons), anew);
    assert_eq!(torn.rewrite(b"{1}\n\n{2}\nbad\n", &jsons), anew);
    let whole = Replay { events: vec![numbered(1), numbered(2)], dropped_partial_tail: false };
    assert_eq!(whole.rewrite(b"{1}\r\n{2}\n", &jsons), None);
    assert_eq!(whole.rewrite(b"{1}\n{2}\n \t\r", &jsons), None);
    assert_eq!(whole.rewrite(b"{1}\n{2}", &jsons), Some(Mend::LineEnd));
    assert_eq!(whole.rewrite(b"{1}\n{2} ", &jsons), Some(Mend::LineEnd));
    // White space that JSON does not know would spoil the next line.
    assert_eq!(whole.rewrite("{1}\n{2}\n\u{a0}".as_bytes(), &jsons), Some(Mend::LineEnd));
    let empty = Replay { events: vec![], dropped_partial_tail: false };
    assert_eq!(empty.rewrite(b"", &vec![]), None);
    assert_eq!(empty.rewrite(b" ", &vec![]), None);
}

#[test]
fn white_space_at_the_end_stays() {
    let line = r#"{"seq":1,"ts_ms":1,"kind":"user_message","text":"a"}"#;
    for end in ["\n", "\n ", "\n\n\t\r", "\r\n \r", "\n\u{a0}"] {
        let mut file = format!("{}{}", line, end).into_bytes();
        let before = file.clone();
        let (mut log, first) = open(&mut file, Durability::Sync).unwrap();
        assert_eq!(first.events.len(), 1);
        assert!(!first.dropped_partial_tail);
        assert_eq!(&file[..before.len()], &before[..]);
        assert_eq!(file.len() > before.len(), end.ends_with('\u{a0}'));
        append(&mut file, &mut log, user("b"));
        append(&mut file, &mut log, user("c"));
        let back = replay(&file).unwrap();
        assert_eq!(back.events.iter().map(|e| e.seq).collect::<Vec<_>>(), vec![1, 2, 3]);
        assert!(!back.dropped_partial_tail);
        assert_eq!(&file[..before.len()], &before[..]);
    }
}

#[test]
fn a_lost_line_end_is_restored() {
    let line = "\n  {\"text\":\"a\",\"seq\":1,\"ts_ms\":1,\"kind\":\"user_message\"} \r";
    let mut file = line.as_bytes().to_vec();
    let (mut log, before) = open(&mut file, Durability::Sync).unwrap();
    assert_eq!(before.events.len(), 1);
    assert!(!before.dropped_partial_tail);
    // Every other byte stays.
    assert_eq!(file, format!("{}\n", line).into_bytes());
    append(&mut file, &mut log, user("b"));
    let back = replay(&file).unwrap();
    assert_eq!(back.events.iter().map(|e| e.seq).collect::<Vec<_>>(), vec![1, 2]);
    assert!(!back.dropped_partial_tail);
}

#[test]
fn a_tail_cut_inside_a_character_is_dropped() {
    let first = "{\"seq\":1,\"ts_ms\":1,\"kind\":\"user_message\",\"text\":\"a\"}\n";
    let mut file = first.as_bytes().to_vec();
    file.extend_from_slice(b"{\"seq\":2,\"ts_ms\":1,\"kind\":\"user_message\",\"text\":\"\xC3");
    let r = replay(&file).unwrap();
    assert_eq!(r.events.len(), 1);
    assert_eq!(r.events[0].seq, 1);
    assert!(r.dropped_partial_tail);
    let (mut log, _) = open(&mut file, Durability::Sync).unwrap();
    append(&mut file, &mut log, user("é"));
    let back = replay(&file).unwrap();
    assert_eq!(back.events.len(), 2);
    assert_eq!(back.events[1].kind, user("é"));
    assert!(!back.dropped_partial_tail);
}

#[test]
fn every_cut_of_a_write_recovers() {
    let mut whole = Vec::new();
    let (mut log, _) = open(&mut whole, Durability::Sync).unwrap();
    append(&mut whole, &mut log, user("é one"));
    let base = whole.len();
    append(&mut whole, &mut log, user("tö"));
    for end in base..whole.len() + 1 {
        let mut file = whole[..end].to_vec();
        let (mut log, before) = open(&mut file, Durability::Relaxed).unwrap();
        let kept = if end + 1 >= whole.len() { 2 } else { 1 };
        assert_eq!(before.events.len(), kept, "cut at {}", end);
        assert_eq!(before.dropped_partial_tail, end > base && kept == 1);
        // A second opening changes nothing.
        let once = file.clone();
        let (again, second) = open(&mut file, Durability::Sync).unwrap();
        assert_eq!(file, once);
        assert_eq!(second.events, before.events);
        assert!(!second.dropped_partial_tail);
        assert_eq!(again.next_seq(), log.next_seq());
        let ev = append(&mut file, &mut log, user("next"));
        let back = replay(&file).unwrap();
        assert_eq!(back.events.len(), kept + 1);
        assert_eq!(back.events[kept], ev);
        assert!(!back.dropped_partial_tail);
    }
}

#[test]
fn bytes_are_read_as_lines() {
    let log = read_log("a\r\nä\n\nlast".as_bytes()).unwrap();
    assert_eq!(log.lines, vec!["a", "ä", "", "last"]);
    assert!(!log.cut);
    let log = read_log(b"a\nb\xff\n").unwrap();
    assert_eq!(log.lines, vec!["a"]);
    assert!(log.cut);
    // Only the last line may be something else than text.
    assert!(read_log(b"a\xff\nb\n").is_none());
    assert!(read_log(b"").unwrap().lines.is_empty());
    for text in ["", "\n", "a\nb", "a\r\nb\n", "a\r", "ö\r\r\n\r"] {
        assert_eq!(read_log(text.as_bytes()).unwrap().lines, log_lines(text));
    }
}

#[test]
fn errors_are_found_in_order() {
    let rej = |n: &str| {
        Reject::new(RejectCode::ArgType, format!("reason {}", n), format!("hint {}", n))
    };
    let record = |n: &str| ErrorRecord::from_reject(n, "intent", None, &rej(n));
    let at = |seq: u64, kind: EventKind| Event { seq, ts_ms: 0, kind };
    let events = vec![
        at(1, EventKind::Error(record("a"))),
        at(2, user("x")),
        at(
            3,
            EventKind::Observation {
                step_id: "s".to_string(),
                exit_code: Some(-1),
                text: "t".to_string(),
            },
        ),
        at(4, EventKind::Error(record("b"))),
        at(5, EventKind::StateSnapshot { step_idx: 1, scratchpad: "p".to_string() }),
    ];
    let found = error_records(&events);
    assert_eq!(found, vec![&record("a"), &record("b")]);
    assert_eq!(found[0].tool, None);
    assert_eq!(found[0].args_fingerprint, None);
    assert_eq!(found[0].code, "arg_type");
    assert_eq!(found[0].reason, "reason a");
    assert_eq!(found[0].repair_hint, "hint a");
    assert_eq!(found[0].step_intent, "intent");
}

#[test]
fn time_stamps_are_cut_to_64_bits() {
    assert_eq!(now_ms(None), 0);
    assert_eq!(now_ms(Some(1_700_000_000_123)), 1_700_000_000_123);
    assert_eq!(now_ms(Some((1u128 << 64) + 5)), 5);
}
