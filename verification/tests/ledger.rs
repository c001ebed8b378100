use peat::cli::parse_u64;
use peat::ledger::{
    current_session, is_lock_conflict, ledger_at, lock_wait_secs, Attempt, LedgerAt, LockStep, LockWait,
    MAX_DELAY_MS,
};

fn s(x: &str) -> Option<String> {
    Some(x.to_string())
}

#[test]
fn explicit_session_wins_and_is_trimmed() {
    assert_eq!(current_session(s("  abc123 \n"), s("local"), s("shared")), s("abc123"));
}

#[test]
fn worktree_file_before_shared_file() {
    assert_eq!(current_session(None, s("local-1\n"), s("shared")), s("local-1"));
    assert_eq!(current_session(None, None, s("\tshared-2 ")), s("shared-2"));
    assert_eq!(current_session(None, None, None), None);
}

#[test]
fn blank_first_source_names_no_session() {
    // the first present source decides; a blank one is not skipped over
    assert_eq!(current_session(s("   "), s("local"), None), None);
    assert_eq!(current_session(None, s("\n"), s("shared")), None);
}

#[test]
fn ledger_location_policy() {
    match ledger_at(s("/tmp/x/db"), s("elsewhere")) {
        LedgerAt::Env { path } => assert_eq!(path, "/tmp/x/db"),
        _ => panic!("PEAT_DB must win"),
    }
    match ledger_at(None, s("  ../shared \n")) {
        LedgerAt::Redirect { target } => assert_eq!(target, "../shared"),
        _ => panic!("a redirect file points elsewhere"),
    }
    assert!(matches!(ledger_at(None, s(" \n ")), LedgerAt::Local));
    assert!(matches!(ledger_at(None, None), LedgerAt::Local));
}

#[test]
fn lock_wait_limit_from_env() {
    assert_eq!(lock_wait_secs(None), 120);
    assert_eq!(lock_wait_secs(Some("30")), 30);
    assert_eq!(lock_wait_secs(Some("+7")), 7);
    assert_eq!(lock_wait_secs(Some("soon")), 120);
    assert_eq!(lock_wait_secs(Some("")), 120);
    assert_eq!(lock_wait_secs(Some("18446744073709551615")), u64::MAX);
    assert_eq!(lock_wait_secs(Some("18446744073709551616")), 120);
    assert_eq!(parse_u64("-1"), None);
}

#[test]
fn lock_messages() {
    assert!(is_lock_conflict("database Locked by another process"));
    assert!(is_lock_conflict("Locked"));
    assert!(!is_lock_conflict("locked"));
    assert!(!is_lock_conflict("corrupt journal"));
}

fn locked() -> Attempt {
    Attempt::Failed { message: "keyspace Locked".to_string() }
}

#[test]
fn backoff_doubles_to_its_cap_then_gives_up() {
    let mut w = LockWait::new(10);
    let mut pauses = vec![];
    let mut firsts = vec![];
    loop {
        match w.step(&locked()) {
            LockStep::Wait { ms, first, limit_secs, .. } => {
                assert_eq!(limit_secs, 10);
                pauses.push(ms);
                firsts.push(first);
            }
            LockStep::GiveUp { limit_secs } => {
                assert_eq!(limit_secs, 10);
                break;
            }
            _ => panic!("a lock conflict waits or gives up"),
        }
    }
    assert_eq!(pauses, vec![200, 400, 800, 1600, 3000, 3000, 3000]);
    assert_eq!(firsts, vec![true, false, false, false, false, false, false]);
    assert_eq!(w.waited_ms, 12000);
    assert!(pauses.iter().all(|&p| p <= MAX_DELAY_MS));
}

#[test]
fn other_failures_and_success_do_not_wait() {
    let mut w = LockWait::new(120);
    assert!(matches!(w.step(&Attempt::Failed { message: "schema mismatch".to_string() }), LockStep::Rethrow));
    assert_eq!(w.waited_ms, 0);
    assert!(matches!(w.step(&locked()), LockStep::Wait { ms: 200, first: true, waited_secs: 0, limit_secs: 120 }));
    assert!(matches!(w.step(&Attempt::Opened), LockStep::Ready));
    assert_eq!((w.waited_ms, w.delay_ms), (200, 400));
}

#[test]
fn zero_limit_gives_up_at_once() {
    let mut w = LockWait::new(0);
    assert!(matches!(w.step(&locked()), LockStep::GiveUp { limit_secs: 0 }));
}
