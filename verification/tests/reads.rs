use peat::cli::Filter;
use peat::event::{Envelope, Event, EventId, OBS_SEQ_BASE};
use peat::pipeline::{ObsRow, SessStats, SubjStats, TextRow};
use peat::reads::{
    asof_today, by_recency, chronological, citing, event_at, find_session, free_obs_seq, near_subjects,
    recall_hits, replay_prefix, session_obs,
};

fn subj(count: i64, last_ms: u64) -> SubjStats {
    SubjStats { count, last_ms, ..Default::default() }
}

fn sess() -> SessStats {
    SessStats::default()
}

fn row(session: &str, seq: u32, ts_ms: u64, from: Vec<u32>) -> ObsRow {
    ObsRow { session: session.to_string(), seq, ts_ms, text: format!("obs {seq}"), derived_from: from }
}

fn ev(session: &str, seq: u32, ts_ms: u64) -> (EventId, Envelope) {
    ((session.to_string(), seq), Envelope::new(session, ts_ms, Event::FinalMsg { text: String::new() }))
}

#[test]
fn near_subjects_overlap_either_way() {
    let subjects = vec![
        ("db".to_string(), subj(2, 0)),
        ("db-lock".to_string(), subj(5, 0)),
        ("ui".to_string(), subj(1, 0)),
        ("lock".to_string(), subj(1, 0)),
        ("d".to_string(), subj(-1, 0)),
    ];
    assert_eq!(
        near_subjects(&subjects, "db-locking"),
        vec!["db (2 obs)", "db-lock (5 obs)", "lock (1 obs)", "d (-1 obs)"]
    );
    // the subject itself is not near itself
    assert_eq!(near_subjects(&subjects, "ui"), Vec::<String>::new());
}

#[test]
fn near_subjects_stops_at_four() {
    let subjects: Vec<(String, SubjStats)> =
        ["a1", "a2", "a3", "a4", "a5"].iter().map(|n| (n.to_string(), subj(1, 0))).collect();
    assert_eq!(near_subjects(&subjects, "a"), vec!["a1 (1 obs)", "a2 (1 obs)", "a3 (1 obs)", "a4 (1 obs)"]);
}

#[test]
fn obs_seq_takes_the_first_free_slot() {
    let s = |x: &str, q: u32| -> EventId { (x.to_string(), q) };
    assert_eq!(free_obs_seq(&vec![], "s1"), OBS_SEQ_BASE);
    let ids = vec![s("s1", OBS_SEQ_BASE), s("s2", OBS_SEQ_BASE + 1), s("s1", OBS_SEQ_BASE + 1), s("s1", 7)];
    assert_eq!(free_obs_seq(&ids, "s1"), OBS_SEQ_BASE + 2);
    assert_eq!(free_obs_seq(&ids, "s2"), OBS_SEQ_BASE);
    // the slots are per session, and a gap is reused
    let gap = vec![s("s1", OBS_SEQ_BASE + 1)];
    assert_eq!(free_obs_seq(&gap, "s1"), OBS_SEQ_BASE);
}

#[test]
fn session_found_by_prefix_in_table_order() {
    let sessions = vec![("ab12cd".to_string(), sess()), ("ab99".to_string(), sess()), ("ff00".to_string(), sess())];
    assert_eq!(find_session(&sessions, "ab"), Some(0));
    assert_eq!(find_session(&sessions, "ab9"), Some(1));
    assert_eq!(find_session(&sessions, "ff00aa"), None);
    assert_eq!(find_session(&sessions, ""), Some(0));
}

#[test]
fn event_point_read() {
    let ledger = vec![ev("a", 1, 10), ev("b", 1, 5), ev("a", 2, 7)];
    assert_eq!(event_at(&ledger, "a", 2), Some(2));
    assert_eq!(event_at(&ledger, "b", 2), None);
}

#[test]
fn citers_of_an_event() {
    let rows = vec![
        ("x".to_string(), row("s1", OBS_SEQ_BASE, 5, vec![3, 9])),
        ("y".to_string(), row("s2", OBS_SEQ_BASE, 6, vec![9])),
        ("y".to_string(), row("s1", OBS_SEQ_BASE + 1, 7, vec![9])),
        ("z".to_string(), row("s1", OBS_SEQ_BASE + 2, 8, vec![])),
    ];
    assert_eq!(citing(&rows, "s1", 9), vec![0, 2]);
    assert_eq!(citing(&rows, "s1", 3), vec![0]);
    assert_eq!(citing(&rows, "s2", 3), Vec::<usize>::new());
}

#[test]
fn a_sessions_observations_oldest_first() {
    let rows = vec![
        ("x".to_string(), row("s1", 1, 50, vec![])),
        ("y".to_string(), row("s2", 2, 10, vec![])),
        ("y".to_string(), row("s1", 3, 20, vec![])),
        ("z".to_string(), row("s1", 4, 50, vec![])),
    ];
    assert_eq!(session_obs(&rows, "s1"), vec![2, 0, 3]);
    assert_eq!(session_obs(&rows, "s3"), Vec::<usize>::new());
}

#[test]
fn subjects_by_recency() {
    let subjects = vec![("a".to_string(), subj(1, 5)), ("b".to_string(), subj(1, 9)), ("c".to_string(), subj(1, 5))];
    assert_eq!(by_recency(&subjects), vec![1, 0, 2]);
}

#[test]
fn ledger_in_chronological_order() {
    let ledger = vec![ev("b", 2, 10), ev("a", 9, 10), ev("b", 1, 10), ev("c", 0, 3), ev("a", 9, 10)];
    assert_eq!(chronological(&ledger), vec![3, 1, 4, 2, 0]);
    assert_eq!(chronological(&vec![]), Vec::<usize>::new());
}

#[test]
fn asof_replays_the_prefix() {
    let ledger = vec![ev("a", 1, 10), ev("a", 2, 30), ev("b", 1, 20)];
    assert_eq!(replay_prefix(&ledger, 20), vec![0, 2]);
    assert_eq!(replay_prefix(&ledger, 5), Vec::<usize>::new());
    assert_eq!(asof_today("2026-03-01", 12), "2026-03-01 · as of that day · 12 events");
}

#[test]
fn recall_filters_then_limits() {
    let t = |kind: &str, ts: u64| Some(TextRow { text: "t".to_string(), kind: kind.to_string(), ts_ms: ts, cited: false });
    let id = |s: &str, q: u32| -> EventId { (s.to_string(), q) };
    let fused = vec![
        (id("s1", 1), t("obs", 100)),
        (id("s2", 1), t("said", 100)),
        (id("s1", 2), None),
        (id("s1", 3), t("obs", 100)),
        (id("s1", 4), t("obs", 100)),
    ];
    let all = Filter { session: None, kind: None, since: None };
    assert_eq!(recall_hits(&fused, &all, 1000, 12), vec![0, 1, 3, 4]);
    assert_eq!(recall_hits(&fused, &all, 1000, 2), vec![0, 1]);
    let obs_s1 = Filter { session: Some("s1".to_string()), kind: Some("obs".to_string()), since: None };
    assert_eq!(recall_hits(&fused, &obs_s1, 1000, 12), vec![0, 3, 4]);
}
