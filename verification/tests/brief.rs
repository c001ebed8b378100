use peat::brief::{
    active_rows, assemble, day_label, subject_trail, frontier, last_session, obs_per_day, recent_days, relevant, subject_rows,
    today_label, touched_files,
};
use peat::civil::Civil;
use peat::event::EventId;
use peat::pipeline::{DayStats, ObsRow, SessStats, SubjStats, TextRow, DAY_MS};
use peat::store::DayMap;

fn subj(text: &str, last_ms: u64, count: i64) -> SubjStats {
    SubjStats { text: text.into(), count, last_ms, last_seq: 0, cited: false }
}

fn sess(end_ms: u64, cwd: &str, final_msg: &str) -> SessStats {
    SessStats { start_ms: 1, end_ms, final_msg: final_msg.into(), cwd: cwd.into(), branch: "main".into(), commits: 2 }
}

#[test]
fn day_labels() {
    assert_eq!(day_label(10, 10), "today");
    assert_eq!(day_label(9, 10), "yesterday");
    assert_eq!(day_label(3, 10), "7d ago");
    assert_eq!(day_label(12, 10), "today");
}

#[test]
fn today_is_local() {
    let noon = Civil { y: 2026, m: 8, d: 10 }.bucket() * DAY_MS + 23 * 3_600_000;
    assert_eq!(today_label(noon, 0), "2026-08-10");
    assert_eq!(today_label(noon, 2 * 3_600_000), "2026-08-11");
    assert_eq!(today_label(noon, -24 * 3_600_000), "2026-08-09");
}

#[test]
fn subjects_newest_first_stable() {
    let s = vec![
        ("a".to_string(), subj("ta", 5, 1)),
        ("b".to_string(), subj("tb", 9, 2)),
        ("c".to_string(), subj("tc", 5, 1)),
        ("d".to_string(), subj("td", 1, 1)),
        ("e".to_string(), subj("te", 7, 1)),
        ("f".to_string(), subj("tf", 0, 1)),
    ];
    let rows = subject_rows(&s, 10);
    let names: Vec<&str> = rows.iter().map(|r| r.subject.as_str()).collect();
    assert_eq!(names, vec!["b", "e", "a", "c", "d"]);
    assert_eq!(rows[0].age, "<1h");
    assert_eq!(rows[0].text, "tb");
}

#[test]
fn active_sessions_are_the_last_hours() {
    let now = 10 * 3_600_000;
    let s = vec![
        ("aaaaaaaaaa".to_string(), sess(now - 100, "/w/one", "")),
        ("bbbbbbbbbb".to_string(), sess(now - 2 * 3_600_000, "/w/two", "closing b")),
        ("cccccccccc".to_string(), sess(now - 50, "three", "closing c")),
    ];
    let rows = active_rows(&s, now);
    assert_eq!(rows.len(), 2);
    assert_eq!((rows[0].place.as_str(), rows[0].session.as_str()), ("three", "cccccccc"));
    assert_eq!(rows[1].place, "one");
    let last = last_session(&s, now).unwrap();
    assert_eq!(last.final_msg, "closing c");
    assert_eq!(last.branch, "main");
}

#[test]
fn digest_days_and_files() {
    let today = 100;
    let mut days = DayMap::new();
    for (b, n) in [(90u64, 1i64), (95, 2), (97, 3), (99, 4)] {
        let mut s = DayStats { tools: n, ..Default::default() };
        s.files.insert("src/z.rs".into(), n);
        s.files.insert("src/a.rs".into(), 2);
        assert!(days.insert(b, s));
    }
    let rows = recent_days(&days, today);
    assert_eq!(rows.len(), 3);
    assert_eq!(rows[0].day, "yesterday");
    assert_eq!(rows[0].tools, 4);
    assert_eq!(rows[2].day, "5d ago");
    // ties rank by path
    assert_eq!(rows[1].files, vec!["src/z.rs".to_string(), "src/a.rs".to_string()]);
    assert_eq!(rows[2].files, vec!["src/a.rs".to_string(), "src/z.rs".to_string()]);
    assert_eq!(frontier(&days, today), 95);
    let index = vec![
        ("src/z.rs".to_string(), vec!["s2-long-id".to_string(), "s1-long-id".to_string(), "s2-long-id".to_string()]),
    ];
    let files = touched_files(&days, &index);
    assert_eq!(files.len(), 2);
    assert_eq!(files[0].path, "src/z.rs");
    assert_eq!(files[0].sessions, vec!["s1-long-".to_string(), "s2-long-".to_string()]);
    assert!(files[1].sessions.is_empty());
}

#[test]
fn relevant_caps_each_session() {
    let row = |kind: &str, cited: bool, text: &str| TextRow { text: text.into(), kind: kind.into(), ts_ms: 0, cited };
    let id = |s: &str, n: u32| -> EventId { (s.to_string(), n) };
    let fused = vec![
        (id("s1", 1), Some(row("obs", true, "one"))),
        (id("s1", 2), None),
        (id("s1", 3), Some(row("user", true, "two"))),
        (id("s1", 4), Some(row("final", true, "three"))),
        (id("s2", 1), Some(row("obs", false, "four"))),
    ];
    let hits = relevant(&fused, 10);
    let texts: Vec<&str> = hits.iter().map(|h| h.text.as_str()).collect();
    assert_eq!(texts, vec!["one", "two", "four"]);
    assert_eq!(hits[0].tag, "obs·cited · <1h");
    assert_eq!(hits[2].tag, "obs · <1h");
}

#[test]
fn observations_count_per_day() {
    let m = obs_per_day(&vec![5 * DAY_MS, 2 * DAY_MS + 1, 5 * DAY_MS + 7]);
    assert_eq!(m.len(), 2);
    assert_eq!((m.key(0), *m.value(0)), (2, 1));
    assert_eq!((m.key(1), *m.value(1)), (5, 2));
}

#[test]
fn assemble_a_brief() {
    let today = Civil { y: 2026, m: 8, d: 17 }.bucket();
    let now = today * DAY_MS + 3_600_000;
    let mut days = DayMap::new();
    for b in (today - 60..=today).step_by(4) {
        assert!(days.insert(b, DayStats { tools: 3, ..Default::default() }));
    }
    let b = assemble(
        "",
        now,
        8,
        0,
        &days,
        &vec![],
        &vec![],
        &vec![("gate".to_string(), subj("green", now - 10, 1))],
        &vec![],
        &vec![],
    );
    assert_eq!(b.today, "2026-08-17");
    assert_eq!(b.days.len(), 3);
    assert!(!b.further.is_empty());
    assert_eq!(b.further[0].end, frontier(&days, today) - 1);
    assert!(b.relevant.is_empty());
    assert_eq!(b.subjects.len(), 1);
    assert!(b.last_session.is_none());
}

#[test]
fn subject_trail_lists_newest_first() {
    let r = |seq: u32, ts: u64, text: &str, cited: bool| ObsRow {
        session: "b575bd9d-aaaa".into(),
        seq,
        ts_ms: ts,
        text: text.into(),
        derived_from: if cited { vec![1] } else { vec![] },
    };
    let head = subj("newest text", 20, 2);
    let lines = subject_trail("gate", Some(&head), &vec![r(1, 10, "older", false), r(2, 20, "newer", true)], 30, false);
    assert_eq!(
        lines,
        vec![
            "gate — newest text (2 obs)".to_string(),
            "  [b575bd9d · <1h · cited] newer".to_string(),
            "  [b575bd9d · <1h] older".to_string(),
        ]
    );
    let none = subject_trail("nope", None, &vec![], 30, false);
    assert_eq!(none, vec!["no such subject: nope".to_string()]);
}
