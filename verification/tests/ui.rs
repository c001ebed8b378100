use peat::cli::{band_budget, parse_usize, starts_with, Filter};
use peat::ui::{accent, age_label, clip, dim, h1, short_path, short_sess, warn};

#[test]
fn styles_are_identity_off_a_terminal() {
    assert_eq!(h1(false, "header"), "header");
    assert_eq!(accent(false, "s1"), "s1");
    assert_eq!(dim(false, "meta"), "meta");
    assert_eq!(warn(false, "uncited"), "uncited");
}

#[test]
fn styles_on_a_terminal_wrap_or_pass_through() {
    for (got, code) in [(h1(true, "x"), "1"), (dim(true, "x"), "2"), (warn(true, "x"), "31"), (accent(true, "x"), "36")] {
        assert!(got == "x" || got == format!("\u{1b}[{code}mx\u{1b}[0m"), "{got:?}");
    }
}

#[test]
fn clip_collapses_whitespace_and_truncates() {
    assert_eq!(clip("  a \n b\tc ", 10), "a b c");
    assert_eq!(clip("abcdef", 3), "abc…");
    assert_eq!(clip("abc", 3), "abc");
}

#[test]
fn short_path_keeps_two_components() {
    assert_eq!(short_path("src/a/dominant.rs"), "…/a/dominant.rs");
    assert_eq!(short_path("/x/y/z.rs"), "…/y/z.rs");
    assert_eq!(short_path("a/b"), "a/b");
    assert_eq!(short_path("file"), "file");
}

#[test]
fn short_sess_takes_eight_chars() {
    assert_eq!(short_sess("b575bd9d-1234-5678"), "b575bd9d");
    assert_eq!(short_sess("abc"), "abc");
}

#[test]
fn ages_humanize() {
    assert_eq!(age_label(10, 20), "<1h");
    assert_eq!(age_label(3_599_999, 0), "<1h");
    assert_eq!(age_label(7 * 3_600_000, 0), "7h");
    assert_eq!(age_label(33 * 86_400_000 + 5, 0), "33d");
}

#[test]
fn filters_match_prefix_kind_and_age() {
    let f = Filter { session: Some("b575".into()), kind: Some("obs".into()), since: Some(2) };
    let now = 10 * 86_400_000;
    assert_eq!(f.cutoff_ms(now), Some(8 * 86_400_000));
    assert!(f.matches(now, "b575bd9d", "obs", 9 * 86_400_000));
    assert!(!f.matches(now, "a575bd9d", "obs", 9 * 86_400_000));
    assert!(!f.matches(now, "b575bd9d", "user", 9 * 86_400_000));
    assert!(!f.matches(now, "b575bd9d", "obs", 7 * 86_400_000));
    let all = Filter { session: None, kind: None, since: None };
    assert_eq!(all.cutoff_ms(now), None);
    assert!(all.matches(now, "x", "y", 0));
    let far = Filter { session: None, kind: None, since: Some(100) };
    assert_eq!(far.cutoff_ms(now), Some(0));
}

#[test]
fn band_budget_prefers_flag_then_env() {
    assert_eq!(band_budget(Some(3), Some("5")), 3);
    assert_eq!(band_budget(None, Some("5")), 5);
    assert_eq!(band_budget(None, Some("+12")), 12);
    assert_eq!(band_budget(None, Some("five")), 8);
    assert_eq!(band_budget(None, None), 8);
    assert_eq!(parse_usize(""), None);
    assert_eq!(parse_usize("99999999999999999999999"), None);
    assert!(starts_with("abc", "ab"));
    assert!(!starts_with("ab", "abc"));
}
