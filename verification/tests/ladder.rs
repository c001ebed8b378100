use peat::civil::Civil;
use peat::ladder::{bands, children, digest, Band};
use peat::pipeline::DayStats;
use peat::store::DayMap;
use peat::window::{parse_window, window_overflows};

fn day(tools: i64) -> DayStats {
    DayStats { tools, ..Default::default() }
}

#[test]
fn civil_round_trips() {
    for b in [0u64, 719_468, 20_000, 20_680, 20_681, 21_000] {
        assert_eq!(Civil::from_bucket(b).bucket(), b);
    }
    // 2026-08-17 is a Monday
    let c = Civil { y: 2026, m: 8, d: 17 };
    assert_eq!(c.weekday(), 0);
    assert_eq!(c.iso_week().1, 34);
}

#[test]
fn bands_tile_the_past_exactly() {
    let mut rows = DayMap::new();
    let today = Civil { y: 2026, m: 8, d: 17 }.bucket();
    let oldest = today - 400;
    for b in (oldest..=today).step_by(3) {
        assert!(rows.insert(b, day(10)));
    }
    let obs = DayMap::new();
    let bs = bands(&rows, &obs, today, 10);
    assert!(!bs.is_empty());
    // tiling: bands run newest→oldest, contiguous, no gaps or overlaps
    assert_eq!(bs[0].end, today - 1);
    for w in bs.windows(2) {
        assert_eq!(w[1].end, w[0].start - 1, "gap or overlap between bands");
    }
    assert_eq!(bs.last().unwrap().start, oldest);
    assert!(bs.len() <= 10);
}

#[test]
fn budget_changes_reslice_only() {
    let mut rows = DayMap::new();
    let today = Civil { y: 2026, m: 8, d: 17 }.bucket();
    for b in (today - 700..=today).step_by(2) {
        assert!(rows.insert(b, day(1)));
    }
    let obs = DayMap::new();
    for budget in [3usize, 5, 8, 12] {
        let bs = bands(&rows, &obs, today, budget);
        assert!(bs.len() <= budget, "budget {budget} produced {}", bs.len());
        assert_eq!(bs.last().unwrap().start, rows.first_key().unwrap());
    }
}

#[test]
fn window_grammar() {
    let now = Civil { y: 2026, m: 8, d: 17 }.bucket();
    let (s, e, _) = parse_window("2026-08-14", now).unwrap();
    assert_eq!(s, e);
    let (s, e, _) = parse_window("w33", now).unwrap();
    assert_eq!(e - s, 6);
    assert_eq!(Civil::from_bucket(s).weekday(), 0);
    let (s, e, _) = parse_window("2026-07", now).unwrap();
    assert_eq!(Civil::from_bucket(s), Civil { y: 2026, m: 7, d: 1 });
    assert_eq!(Civil::from_bucket(e), Civil { y: 2026, m: 7, d: 31 });
    let (_, e, _) = parse_window("q3", now).unwrap();
    assert_eq!(e, now, "current quarter clamps at now");
    assert!(parse_window("fold", now).is_none());
    assert!(parse_window("w99", now).is_none());
    assert!(parse_window("2026-13", now).is_none());
}

#[test]
fn dominance_filter_on_band_files() {
    let mut rows = DayMap::new();
    let today = Civil { y: 2026, m: 8, d: 17 }.bucket();
    let mut s = day(5);
    s.files.insert("src/a/dominant.rs".into(), 30);
    s.files.insert("src/a/minor1.rs".into(), 2);
    s.files.insert("src/a/minor2.rs".into(), 2);
    assert!(rows.insert(today - 10, s));
    let obs = DayMap::new();
    let bs = bands(&rows, &obs, today, 8);
    let with_files: Vec<&Band> = bs.iter().filter(|b| !b.files.is_empty()).collect();
    assert_eq!(with_files.len(), 1);
    assert_eq!(with_files[0].files, vec!["…/a/dominant.rs".to_string()]);
}

#[test]
fn window_labels_and_ranges() {
    let now = Civil { y: 2026, m: 8, d: 17 }.bucket();
    let (s, e, l) = parse_window("2026-08-14", now).unwrap();
    assert_eq!((s, e), (Civil { y: 2026, m: 8, d: 14 }.bucket(), Civil { y: 2026, m: 8, d: 14 }.bucket()));
    assert_eq!(l, "aug 14");
    let (_, _, l) = parse_window("2026-07", now).unwrap();
    assert_eq!(l, "jul 2026");
    let (s, e, l) = parse_window("2025", now).unwrap();
    assert_eq!(s, Civil { y: 2025, m: 1, d: 1 }.bucket());
    assert_eq!(e, Civil { y: 2025, m: 12, d: 31 }.bucket());
    assert_eq!(l, "2025");
    let (s, e, l) = parse_window("2026-q1", now).unwrap();
    assert_eq!(s, Civil { y: 2026, m: 1, d: 1 }.bucket());
    assert_eq!(e, Civil { y: 2026, m: 3, d: 31 }.bucket());
    assert_eq!(l, "q1 2026");
    // a bare quarter later than the current one is last year's
    let (s, _, l) = parse_window("Q4", now).unwrap();
    assert_eq!(s, Civil { y: 2025, m: 10, d: 1 }.bucket());
    assert_eq!(l, "q4 2025");
    let (s, e, l) = parse_window("2026-07..2026-08-14", now).unwrap();
    assert_eq!(s, Civil { y: 2026, m: 7, d: 1 }.bucket());
    assert_eq!(e, Civil { y: 2026, m: 8, d: 14 }.bucket());
    assert_eq!(l, "jul 2026 – aug 14");
    // a backwards range is no window
    assert!(parse_window("2026-08..2026-07", now).is_none());
    assert!(parse_window("2026-w", now).is_none());
    assert!(parse_window("q5", now).is_none());
    assert!(!window_overflows("2026", now));
}

#[test]
fn bare_week_in_january_is_last_years() {
    let now = Civil { y: 2026, m: 1, d: 2 }.bucket();
    let (s, e, l) = parse_window("w52", now).unwrap();
    assert_eq!(l, "w52");
    assert_eq!(e - s, 6);
    assert!(Civil::from_bucket(s).y == 2025);
}

#[test]
fn children_tile_a_month_by_weeks() {
    let start = Civil { y: 2026, m: 7, d: 1 }.bucket();
    let end = Civil { y: 2026, m: 7, d: 31 }.bucket();
    let cs = children(start, end);
    assert!(!cs.is_empty());
    assert_eq!(cs[0].0, start);
    assert_eq!(cs.last().unwrap().1, end);
    for w in cs.windows(2) {
        assert_eq!(w[1].0, w[0].1 + 1);
    }
}

#[test]
fn digest_sums_a_window() {
    let mut rows = DayMap::new();
    let today = Civil { y: 2026, m: 8, d: 17 }.bucket();
    for b in today - 5..today {
        let mut s = day(2);
        s.fails = 1;
        s.commits = 3;
        s.sessions = 1;
        assert!(rows.insert(b, s));
    }
    let mut obs = DayMap::new();
    assert!(obs.insert(today - 2, 4i64));
    let b = digest(&rows, &obs, today - 3, today - 1, "x".to_string(), String::new(), String::new());
    assert_eq!((b.tools, b.fails, b.commits, b.sessions, b.obs), (6, 3, 9, 3, 4));
}

/// Reads a handle (`peat <window>`) back through the window grammar.
fn zoom_back(handle: &str, now: u64) -> (u64, u64) {
    let w = handle.strip_prefix("peat ").expect("a handle starts with the command");
    let (s, e, _) = parse_window(w, now).expect("a handle is a window");
    (s, e)
}

#[test]
fn child_handles_zoom_into_their_child() {
    let now = Civil { y: 2026, m: 12, d: 31 }.bucket();
    // a quarter splits into months, a month into weeks, a week into days
    let cases = [
        (Civil { y: 2026, m: 7, d: 1 }.bucket(), Civil { y: 2026, m: 9, d: 30 }.bucket()),
        (Civil { y: 2026, m: 8, d: 1 }.bucket(), Civil { y: 2026, m: 8, d: 31 }.bucket()),
        (Civil { y: 2026, m: 8, d: 10 }.bucket(), Civil { y: 2026, m: 8, d: 16 }.bucket()),
    ];
    for (start, end) in cases {
        for (s, e, _, handle) in children(start, end) {
            let (hs, he) = zoom_back(&handle, now);
            // whole units: the handle names the unit the child was cut from
            assert!(hs <= s && e <= he, "{handle} names {hs}..{he}, child is {s}..{e}");
            if s != start && e != end {
                assert_eq!((hs, he), (s, e), "{handle}");
            }
        }
    }
}

#[test]
fn band_handles_zoom_into_their_band() {
    let mut days = DayMap::new();
    let first = Civil { y: 2024, m: 2, d: 3 }.bucket();
    let today = Civil { y: 2026, m: 8, d: 20 }.bucket();
    assert!(days.insert(first, day(1)));
    let obs = DayMap::new();
    for b in bands(&days, &obs, today, 8) {
        let (hs, he) = zoom_back(&b.handle, today);
        assert!(hs <= b.start && b.end <= he, "{} names {hs}..{he}, band is {}..{}", b.handle, b.start, b.end);
    }
}

#[test]
fn days_that_do_not_exist_are_search_words() {
    let now = Civil { y: 2026, m: 8, d: 17 }.bucket();
    assert_eq!(parse_window("2026-02-30", now), None);
    assert_eq!(parse_window("2026-08-00", now), None);
    assert_eq!(parse_window("2026-04-31", now), None);
    assert_eq!(parse_window("2025-02-29", now), None);
    let leap = Civil { y: 2024, m: 2, d: 29 }.bucket();
    assert_eq!(parse_window("2024-02-29", now), Some((leap, leap, "feb 29".to_string())));
}

#[test]
fn ladder_at_the_start_of_1970() {
    let mut days = DayMap::new();
    assert!(days.insert(0, day(1)));
    let obs = DayMap::new();
    let bs = bands(&days, &obs, 5, 2);
    let spans: Vec<(u64, u64)> = bs.iter().map(|b| (b.start, b.end)).collect();
    assert_eq!(spans, vec![(4, 4), (0, 3)]);
    assert_eq!(bs[1].label, "earlier");
}
