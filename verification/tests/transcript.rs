use peat::event::{Event, HOOK_FINAL_SEQ};
use peat::transcript::{
    date_label, iso_to_ms, jsonl_lines, local_day_ms, override_final_msg, parse, zone_offset_ms, Block, Content, Input, Line,
};

fn line() -> Line {
    Line {
        session_id: None,
        timestamp: None,
        cwd: None,
        git_branch: None,
        compact_summary: false,
        ty: None,
        message: None,
        result_error: false,
        result_stdout: None,
    }
}

fn input(command: Option<&str>, file_path: Option<&str>, json: &str) -> Input {
    Input { command: command.map(String::from), file_path: file_path.map(String::from), json: json.to_string() }
}

fn block(ty: &str) -> Block {
    Block {
        ty: Some(ty.to_string()),
        text: None,
        name: None,
        id: None,
        input: input(None, None, "null"),
        is_error: false,
        tool_use_id: None,
    }
}

#[test]
fn iso_timestamps_round_trip() {
    let ms = iso_to_ms("2026-08-10T19:18:11.311Z").unwrap();
    assert_eq!(ms, 1786389491311);
    assert_eq!(iso_to_ms("garbage"), None);
    // date_label is the inverse's date part
    assert_eq!(date_label(ms), "2026-08-10");
}

#[test]
fn iso_edge_cases() {
    assert_eq!(iso_to_ms("1970-01-01T00:00:00Z"), Some(0));
    assert_eq!(iso_to_ms("1970-01-01T00:00:01.5Z"), Some(1000));
    assert_eq!(iso_to_ms("2026-08-10T19:18:11+00:00"), Some(1786389491000));
    assert_eq!(iso_to_ms("2026-13-10T19:18:11.311Z"), None);
    assert_eq!(iso_to_ms("2026-02-30T00:00:00.000Z"), None);
    assert_eq!(iso_to_ms("1969-12-31T23:59:59.999Z"), None);
    assert_eq!(date_label(0), "1970-01-01");
}

#[test]
fn local_day_shifts_by_the_offset() {
    let utc = iso_to_ms("2026-08-10T12:00:00.000Z").unwrap();
    assert_eq!(local_day_ms("2026-08-10", "12:00:00.000", 0), Some(utc));
    assert_eq!(local_day_ms("2026-08-10", "12:00:00.000", 3_600_000), Some(utc - 3_600_000));
    assert_eq!(local_day_ms("2026-08-10", "12:00:00.000", -7_200_000), Some(utc + 7_200_000));
    assert_eq!(local_day_ms("yesterday", "12:00:00.000", 0), None);
}

#[test]
fn unknown_lines_never_fail() {
    // {"type":"mode","mode":"normal","sessionId":"sX"}
    let mode = Line { session_id: Some("sX".into()), ty: Some("mode".into()), ..line() };
    // {"type":"totally-new-thing","payload":{"deep":[1,2,3]}}
    let new_thing = Line { ty: Some("totally-new-thing".into()), ..line() };
    // {"type":"user","sessionId":"sX","timestamp":"2026-08-16T20:00:00.000Z","message":{"content":"hello"}}
    let user = Line {
        session_id: Some("sX".into()),
        timestamp: Some("2026-08-16T20:00:00.000Z".into()),
        ty: Some("user".into()),
        message: Some(Content::Text("hello".into())),
        ..line()
    };
    let parsed = parse(&vec![mode, new_thing, user], None, "0.1").unwrap();
    assert_eq!(parsed.session, "sX");
    assert!(parsed.events.iter().any(|(_, e)| matches!(&e.kind, Event::UserMsg { text } if text == "hello")));
}

#[test]
fn no_session_id_and_no_fallback_records_nothing() {
    assert!(parse(&vec![line()], None, "0.1").is_none());
    let p = parse(&vec![line()], Some("fallback"), "0.1").unwrap();
    assert_eq!(p.session, "fallback");
    assert!(p.events.is_empty());
}

#[test]
fn a_session_transcript_becomes_events() {
    let first = Line {
        session_id: Some("s1".into()),
        timestamp: Some("2026-08-10T19:18:11.311Z".into()),
        cwd: Some("/w/peat".into()),
        git_branch: Some("main".into()),
        ty: Some("user".into()),
        message: Some(Content::Text("fix the build".into())),
        ..line()
    };
    let mut edit = block("tool_use");
    edit.name = Some("Edit".into());
    edit.id = Some("t1".into());
    edit.input = input(None, Some("src/a.rs"), "{\"file_path\":\"src/a.rs\"}");
    let mut commit = block("tool_use");
    commit.name = Some("Bash".into());
    commit.id = Some("t2".into());
    commit.input = input(Some("git commit -m \"fix: build\""), None, "{}");
    let mut said = block("text");
    said.text = Some("Working on it.".into());
    let second = Line {
        timestamp: Some("2026-08-10T19:18:12.000Z".into()),
        ty: Some("assistant".into()),
        message: Some(Content::Blocks(vec![said, edit, commit])),
        result_stdout: Some("[main abc1234] fix: build".into()),
        ..line()
    };
    let mut result = block("tool_result");
    result.tool_use_id = Some("t1".into());
    result.is_error = true;
    let third = Line { ty: Some("user".into()), message: Some(Content::Blocks(vec![result])), ..line() };
    let mut closing = block("text");
    closing.text = Some("All done: the build is green again and the fix is committed.".into());
    let fourth = Line { ty: Some("assistant".into()), message: Some(Content::Blocks(vec![closing])), ..line() };

    let p = parse(&vec![first, second, third, fourth], None, "0.1").unwrap();
    assert_eq!(p.session, "s1");
    let kinds: Vec<(u32, &Event)> = p.events.iter().map(|(id, e)| (id.1, &e.kind)).collect();
    assert!(matches!(kinds[0], (0, Event::SessionMeta { cwd, branch: Some(b), .. }) if cwd == "/w/peat" && b == "main"));
    assert!(matches!(kinds[1], (2, Event::UserMsg { text }) if text == "fix the build"));
    // the edit failed (its tool_result reported an error)
    assert!(matches!(kinds[2], (19, Event::ToolCall { tool, detail, ok: false }) if tool == "Edit" && detail == "src/a.rs"));
    assert!(matches!(kinds[3], (31, Event::FileTouch { path }) if path == "src/a.rs"));
    assert!(matches!(kinds[4], (20, Event::ToolCall { ok: true, .. })));
    assert!(matches!(kinds[5], (30, Event::Commit { hash, message }) if hash == "abc1234" && message == "fix: build"));
    // the last assistant text is the closing message, not a Said
    let (last_seq, last) = kinds.last().unwrap();
    assert_eq!(*last_seq, 50);
    assert!(matches!(last, Event::FinalMsg { text } if text.starts_with("All done")));
    assert!(!kinds.iter().any(|(_, e)| matches!(e, Event::Said { .. })));
    // the line without a timestamp inherits the previous one
    assert_eq!(p.events.last().unwrap().1.ts_ms, iso_to_ms("2026-08-10T19:18:12.000Z").unwrap());
}

#[test]
fn compact_summaries_are_kept() {
    let l = Line {
        session_id: Some("s1".into()),
        compact_summary: true,
        message: Some(Content::Text("summary of the lost context".into())),
        ..line()
    };
    let p = parse(&vec![l], None, "0.1").unwrap();
    assert!(matches!(p.events[0].1.kind, Event::Compaction {}));
    assert!(matches!(&p.events[1].1.kind, Event::CompactSummary { text } if text == "summary of the lost context"));
}

#[test]
fn the_hook_final_message_wins() {
    let mut closing = block("text");
    closing.text = Some("tail text".into());
    let l = Line {
        session_id: Some("s1".into()),
        timestamp: Some("2026-08-10T19:18:11.311Z".into()),
        ty: Some("assistant".into()),
        message: Some(Content::Blocks(vec![closing])),
        ..line()
    };
    let mut p = parse(&vec![l], None, "0.1").unwrap();
    override_final_msg(&mut p, "authoritative");
    let finals: Vec<_> = p.events.iter().filter(|(_, e)| matches!(e.kind, Event::FinalMsg { .. })).collect();
    assert_eq!(finals.len(), 1);
    assert_eq!(finals[0].0 .1, HOOK_FINAL_SEQ);
    assert!(matches!(&finals[0].1.kind, Event::FinalMsg { text } if text == "authoritative"));
}

#[test]
fn jsonl_lines_skip_blank_ones() {
    let ls = jsonl_lines("{\"a\":1}\r\n\n   \n{\"b\":2}");
    assert_eq!(ls, vec!["{\"a\":1}".to_string(), "{\"b\":2}".to_string()]);
}

#[test]
fn zone_offsets_from_date_output() {
    assert_eq!(zone_offset_ms("+0200\n"), 2 * 3_600_000);
    assert_eq!(zone_offset_ms("-0530"), -(5 * 60 + 30) * 60_000);
    assert_eq!(zone_offset_ms("+0000"), 0);
    assert_eq!(zone_offset_ms("UTC"), 0);
    assert_eq!(zone_offset_ms(""), 0);
    assert_eq!(zone_offset_ms("+02:00"), 0);
    assert_eq!(zone_offset_ms("+0x00"), 0);
    // each field parses as a signed integer of its own
    assert_eq!(zone_offset_ms("-+1+2"), -(60 + 2) * 60_000);
}

#[test]
fn midnight_of_a_label_reads_back_as_the_day() {
    for day in [0u64, 59, 789, 20_681, 2_932_896] {
        let ms = day * 86_400_000;
        assert_eq!(iso_to_ms(&format!("{}T00:00:00Z", date_label(ms))), Some(ms));
    }
}

fn session_lines() -> Vec<Line> {
    let meta = Line {
        session_id: Some("sG".into()),
        cwd: Some("/w/peat".into()),
        timestamp: Some("2026-08-16T20:00:00.000Z".into()),
        ty: Some("user".into()),
        message: Some(Content::Text("first ask".into())),
        ..line()
    };
    let mut say = block("text");
    say.text = Some("x".repeat(120));
    let answer = Line {
        timestamp: Some("2026-08-16T20:01:00.000Z".into()),
        ty: Some("assistant".into()),
        message: Some(Content::Blocks(vec![say])),
        ..line()
    };
    vec![meta, answer]
}

#[test]
fn grown_transcript_keeps_its_events() {
    let short = session_lines();
    let mut long = session_lines();
    long.push(Line {
        timestamp: Some("2026-08-16T20:05:00.000Z".into()),
        ty: Some("user".into()),
        message: Some(Content::Text("second ask".into())),
        ..line()
    });
    let a = parse(&short, None, "0.1").unwrap();
    let b = parse(&long, None, "0.1").unwrap();
    assert_eq!(a.session, b.session);
    for (id, e) in &a.events {
        if matches!(e.kind, Event::FinalMsg { .. } | Event::ToolCall { .. }) {
            continue;
        }
        assert!(b.events.iter().any(|(id2, e2)| id2 == id && format!("{e2:?}") == format!("{e:?}")), "{id:?} lost");
    }
    let mut ids: Vec<_> = b.events.iter().map(|(id, _)| id.clone()).collect();
    ids.sort();
    ids.dedup();
    assert_eq!(ids.len(), b.events.len(), "duplicate event ids");
    let metas = b.events.iter().filter(|(_, e)| matches!(e.kind, Event::SessionMeta { .. })).count();
    let finals = b.events.iter().filter(|(_, e)| matches!(e.kind, Event::FinalMsg { .. })).count();
    assert_eq!((metas, finals), (1, 1));
}

#[test]
fn stored_texts_keep_their_caps() {
    let mut lines = session_lines();
    lines[0].message = Some(Content::Text("é".repeat(3000)));
    let p = parse(&lines, None, "0.1").unwrap();
    for (_, e) in &p.events {
        match &e.kind {
            Event::UserMsg { text } => assert!(text.len() <= 2048),
            Event::FinalMsg { text } => assert!(text.len() <= 8192),
            _ => {}
        }
    }
}
