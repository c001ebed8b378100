use peat::civil::Civil;
use peat::event::{Envelope, Event, EventId};
use peat::pipeline::{DayStats, SessStats, DAY_MS};
use peat::store::DayMap;
use peat::zoom::zoom;

#[test]
fn zoom_into_a_month() {
    let start = Civil { y: 2026, m: 7, d: 1 }.bucket();
    let end = Civil { y: 2026, m: 7, d: 31 }.bucket();
    let mut days = DayMap::new();
    assert!(days.insert(start + 2, DayStats { tools: 4, commits: 1, ..Default::default() }));
    assert!(days.insert(start + 20, DayStats { tools: 2, ..Default::default() }));
    let stamps = vec![(start + 3) * DAY_MS, (end + 5) * DAY_MS, (start + 1) * DAY_MS];
    let sess = |s: u64, e: u64| SessStats {
        start_ms: s,
        end_ms: e,
        final_msg: String::new(),
        cwd: String::new(),
        branch: String::new(),
        commits: 0,
    };
    let sessions = vec![
        ("a".to_string(), sess(start * DAY_MS, (start + 1) * DAY_MS)),
        ("b".to_string(), sess((end + 2) * DAY_MS, (end + 3) * DAY_MS)),
        ("c".to_string(), sess((start + 5) * DAY_MS, (start + 9) * DAY_MS)),
    ];
    let fin = |s: &str, ts: u64| -> (EventId, Envelope) {
        ((s.to_string(), 1), Envelope::new(s, ts, Event::FinalMsg { text: format!("closing {s}") }))
    };
    let ledger = vec![fin("a", (start + 1) * DAY_MS), fin("b", (end + 3) * DAY_MS), fin("c", (start + 9) * DAY_MS)];
    let z = zoom(&days, &stamps, &sessions, &ledger, start, end, "jul 2026".to_string());
    assert_eq!((z.head.tools, z.head.commits, z.head.obs), (6, 1, 2));
    assert_eq!(z.head.label, "jul 2026");
    // weeks with activity only
    assert_eq!(z.kids.len(), 2);
    assert!(z.kids.iter().all(|b| b.tools + b.commits + b.obs > 0));
    assert_eq!(z.sessions, vec![2, 0]);
    assert_eq!(z.finals, vec![2, 0]);
    assert_eq!(z.obs, vec![2, 0]);
}
