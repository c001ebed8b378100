use std::collections::BTreeMap;

use peat::event::{cap, Envelope, Event, EventId, OBS_SEQ_BASE};
use peat::pipeline::{
    day_delta, day_settle, day_step, embeddable, file_session, obs_row, searchable, sess_row, sess_step, subj_step, DayDelta,
    DayStats, Keyed, ObsRow, SessStats, SubjStats, TextRow, DAY_MS,
};

/// The day and subject views, folded the way the stream folds them: an
/// upsert retracts the record it replaces, and a transaction drains its
/// deltas per key (here in reverse arrival order, so drain order shows).
#[derive(Default)]
struct Views {
    ledger: BTreeMap<EventId, Envelope>,
    days: BTreeMap<u64, DayStats>,
    subjects: BTreeMap<String, SubjStats>,
}

impl Views {
    fn wtx(&mut self, batch: &[(EventId, Envelope)]) {
        let mut day_q: BTreeMap<u64, Vec<(DayDelta, isize)>> = BTreeMap::new();
        let mut subj_q: BTreeMap<String, Vec<(ObsRow, isize)>> = BTreeMap::new();
        for (id, e) in batch {
            let mut push = |e: &Envelope, d: isize| {
                let k = Keyed::new(id.clone(), e.clone());
                if let Some(x) = day_delta(&k) {
                    day_q.entry(x.key).or_default().push((x.val, d));
                }
                if let Some(x) = obs_row(&k) {
                    subj_q.entry(x.key).or_default().push((x.val, d));
                }
            };
            if let Some(old) = self.ledger.insert(id.clone(), e.clone()) {
                push(&old, -1);
            }
            push(e, 1);
        }
        for (day, deltas) in day_q {
            let acc = self.days.entry(day).or_default();
            for (v, d) in deltas.iter().rev() {
                day_step(acc, v, *d);
            }
            day_settle(acc);
        }
        for (subject, deltas) in subj_q {
            let acc = self.subjects.entry(subject).or_default();
            for (v, d) in deltas.iter().rev() {
                subj_step(acc, v, *d);
            }
        }
    }

    fn day_view(&self) -> BTreeMap<u64, (i64, i64)> {
        self.days.iter().map(|(k, v)| (*k, (v.tools, v.fails))).collect()
    }

    fn subj_view(&self) -> BTreeMap<String, (String, i64, (u64, u32))> {
        self.subjects.iter().map(|(k, v)| (k.clone(), (v.text.clone(), v.count, (v.last_ms, v.last_seq)))).collect()
    }
}

fn obs(session: &str, n: u32, ts: u64, subject: &str, text: &str) -> (EventId, Envelope) {
    (
        (session.to_string(), OBS_SEQ_BASE + n),
        Envelope::new(
            session,
            ts,
            Event::Obs { subject: subject.to_string(), text: text.to_string(), derived_from: vec![] },
        ),
    )
}

fn tool(session: &str, n: u32, ts: u64, ok: bool) -> (EventId, Envelope) {
    (
        (session.to_string(), n),
        Envelope::new(session, ts, Event::ToolCall { tool: "Bash".into(), detail: format!("cmd-{n}"), ok }),
    )
}

/// Deterministic synthetic ledger: interleaved sessions, tools, failures,
/// obs revisions across days.
fn ledger() -> Vec<(EventId, Envelope)> {
    let mut ev = Vec::new();
    for s in 0..3u32 {
        let sid = format!("s{s}");
        for n in 0..20u32 {
            let ts = u64::from(s) * DAY_MS / 2 + u64::from(n) * 3_600_000;
            ev.push(tool(&sid, n, ts, n % 5 != 0));
        }
        for n in 0..4u32 {
            let ts = u64::from(s) * DAY_MS / 2 + u64::from(n) * 7_200_000;
            ev.push(obs(&sid, n, ts, if n % 2 == 0 { "staging" } else { "gate" }, &format!("claim {s}-{n}")));
        }
    }
    ev
}

/// What the views must contain after folding `prefix`, by a plain scan.
#[allow(clippy::type_complexity)]
fn predict(
    prefix: &[(EventId, Envelope)],
) -> (BTreeMap<u64, (i64, i64)>, BTreeMap<String, (String, i64, (u64, u32))>) {
    let mut days: BTreeMap<u64, (i64, i64)> = BTreeMap::new();
    let mut subj: BTreeMap<String, (String, i64, (u64, u32))> = BTreeMap::new();
    for (id, e) in prefix {
        match &e.kind {
            Event::ToolCall { ok, .. } => {
                let d = days.entry(e.ts_ms / DAY_MS).or_default();
                d.0 += 1;
                d.1 += i64::from(!ok);
            }
            Event::Obs { subject, text, .. } => {
                let s = subj.entry(subject.clone()).or_default();
                s.1 += 1;
                if (e.ts_ms, id.1) >= s.2 {
                    s.0 = text.clone();
                    s.2 = (e.ts_ms, id.1);
                }
            }
            _ => {}
        }
    }
    (days, subj)
}

#[test]
fn replay_prefix_matches_independent_prediction() {
    let ev = ledger();
    for cut in [0, 1, 7, 24, ev.len()] {
        let prefix = &ev[..cut];
        let mut st = Views::default();
        st.wtx(prefix);
        let (want_days, want_subj) = predict(prefix);
        assert_eq!(st.day_view(), want_days, "day digest diverged at prefix {cut}");
        assert_eq!(st.subj_view(), want_subj, "subjects diverged at prefix {cut}");
    }
}

#[test]
fn batching_is_unobservable() {
    let ev = ledger();
    let mut one = Views::default();
    one.wtx(&ev);
    let mut many = Views::default();
    for e in &ev {
        many.wtx(std::slice::from_ref(e));
    }
    let a = (one.days.len(), one.subjects.iter().map(|(k, v)| (k.clone(), (v.text.clone(), v.count))).collect::<BTreeMap<_, _>>());
    let b = (many.days.len(), many.subjects.iter().map(|(k, v)| (k.clone(), (v.text.clone(), v.count))).collect::<BTreeMap<_, _>>());
    assert_eq!(a, b);
}

#[test]
fn equal_timestamp_obs_resolve_by_seq() {
    for _ in 0..8 {
        let mut st = Views::default();
        st.wtx(&[obs("s1", 0, 5000, "staging", "first claim"), obs("s1", 1, 5000, "staging", "second claim")]);
        let text = st.subjects.get("staging").map(|s| s.text.clone());
        assert_eq!(text.as_deref(), Some("second claim"));
    }
}

#[test]
fn revision_replaces_the_winning_text() {
    let mut st = Views::default();
    st.wtx(&[obs("s1", 0, 1000, "staging", "runs on the raspberry pi")]);
    st.wtx(&[obs("s1", 0, 2000, "staging", "moved to a cloud vm")]);
    let s = &st.subjects["staging"];
    assert_eq!(s.text, "moved to a cloud vm");
    assert_eq!(s.count, 1);
}

#[test]
fn upserting_twice_equals_once() {
    let ev = ledger();
    let mut st = Views::default();
    st.wtx(&ev);
    let once = (st.day_view(), st.subj_view());
    st.wtx(&ev);
    assert_eq!((st.day_view(), st.subj_view()), once);
}

#[test]
fn retraction_undoes_a_day_delta() {
    let mut acc = DayStats::default();
    let d = DayDelta { session_start: false, tool: true, fail: true, commit: false, file: Some("src/a.rs".into()) };
    day_step(&mut acc, &d, 1);
    assert_eq!((acc.tools, acc.fails), (1, 1));
    assert_eq!(acc.files.get("src/a.rs"), Some(1));
    day_step(&mut acc, &d, -1);
    assert_eq!((acc.tools, acc.fails), (0, 0));
    // the count sits at zero until the transaction settles
    assert_eq!(acc.files.get("src/a.rs"), Some(0));
    day_settle(&mut acc);
    assert_eq!(acc.files.get("src/a.rs"), None);
}

#[test]
fn retract_before_insert_commutes_within_a_transaction() {
    let d = DayDelta { session_start: false, tool: false, fail: false, commit: false, file: Some("f".into()) };
    let mut a = DayStats::default();
    day_step(&mut a, &d, -1);
    day_step(&mut a, &d, 1);
    day_settle(&mut a);
    let mut b = DayStats::default();
    day_step(&mut b, &d, 1);
    day_step(&mut b, &d, -1);
    day_settle(&mut b);
    assert_eq!(a.files.get("f"), None);
    assert_eq!(b.files.get("f"), None);
    let mut c = DayStats::default();
    day_step(&mut c, &d, -1);
    day_step(&mut c, &d, 1);
    day_step(&mut c, &d, 1);
    day_settle(&mut c);
    assert_eq!(c.files.get("f"), Some(1));
}

#[test]
fn branch_functions_select_their_kinds() {
    let id: EventId = ("s1".into(), 7);
    let touch = Keyed::new(id.clone(), Envelope::new("s1", 3 * DAY_MS + 5, Event::FileTouch { path: "src/x.rs".into() }));
    let d = day_delta(&touch).unwrap();
    assert_eq!(d.key, 3);
    assert_eq!(d.val.file.as_deref(), Some("src/x.rs"));
    let fs = file_session(&touch).unwrap();
    assert_eq!((fs.key.as_str(), fs.val.as_str()), ("src/x.rs", "s1"));
    assert!(searchable(&touch).is_none());
    assert!(obs_row(&touch).is_none());
    assert!(sess_row(&touch).is_none());

    let blank = Keyed::new(id.clone(), Envelope::new("s1", 9, Event::UserMsg { text: " \n\t".into() }));
    assert!(searchable(&blank).is_none());
    let said = Keyed::new(id.clone(), Envelope::new("s1", 9, Event::Said { text: "the build is green".into() }));
    let row = searchable(&said).unwrap();
    assert_eq!(row.val.kind, "said");
    assert!(row.val.cited);
    assert!(embeddable(&row).is_none());
    let o = Keyed::new(
        id.clone(),
        Envelope::new("s1", 9, Event::Obs { subject: "gate".into(), text: "green".into(), derived_from: vec![] }),
    );
    let row = searchable(&o).unwrap();
    assert_eq!(row.val.kind, "obs");
    assert!(!row.val.cited);
    assert_eq!(embeddable(&row).unwrap().val, "green");
    let long_user = TextRow { text: "x".repeat(401), kind: "user".into(), ts_ms: 0, cited: true };
    assert!(embeddable(&Keyed::new(id.clone(), long_user)).is_none());
    let short_user = TextRow { text: "x".repeat(400), kind: "user".into(), ts_ms: 0, cited: true };
    assert!(embeddable(&Keyed::new(id.clone(), short_user)).is_some());
    let r = obs_row(&o).unwrap();
    assert_eq!(r.key, "gate");
    assert_eq!((r.val.seq, r.val.ts_ms, r.val.text.as_str()), (7, 9, "green"));
}

#[test]
fn session_rows_fold_span_and_closing_message() {
    let mut acc = SessStats::default();
    let meta = Envelope::new(
        "s1",
        500,
        Event::SessionMeta { cwd: "/w/peat".into(), branch: Some("main".into()), ese_version: "0.1".into() },
    );
    let k = Keyed::new(("s1".to_string(), 0), meta.clone());
    assert!(sess_row(&k).is_some());
    sess_step(&mut acc, &meta, 1);
    sess_step(&mut acc, &Envelope::new("s1", 900, Event::Commit { hash: "abc".into(), message: "m".into() }), 1);
    sess_step(&mut acc, &Envelope::new("s1", 700, Event::FinalMsg { text: "done".into() }), 1);
    assert_eq!((acc.start_ms, acc.end_ms, acc.commits), (500, 900, 1));
    assert_eq!((acc.cwd.as_str(), acc.branch.as_str(), acc.final_msg.as_str()), ("/w/peat", "main", "done"));
    sess_step(&mut acc, &Envelope::new("s1", 900, Event::Commit { hash: "abc".into(), message: "m".into() }), -1);
    assert_eq!(acc.commits, 0);
}

#[test]
fn cap_truncates_on_a_char_boundary() {
    assert_eq!(cap("hello", 10), "hello");
    assert_eq!(cap("hello", 3), "hel");
    // 'é' is two bytes: a cut through it backs off to the boundary
    assert_eq!(cap("aé", 2), "a");
    assert_eq!(cap("aé", 3), "aé");
    assert_eq!(cap("", 0), "");
}

#[test]
fn subject_step_keeps_newest() {
    let mut acc = SubjStats::default();
    let row = |seq: u32, ts: u64, text: &str| ObsRow {
        session: "s".into(),
        seq,
        ts_ms: ts,
        text: text.into(),
        derived_from: vec![seq],
    };
    subj_step(&mut acc, &row(1, 10, "new"), 1);
    subj_step(&mut acc, &row(2, 5, "old"), 1);
    assert_eq!((acc.text.as_str(), acc.count, acc.last_ms, acc.cited), ("new", 2, 10, true));
}
