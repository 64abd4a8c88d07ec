//! Small decisions: init's per-file outcome, the explain header, the
//! pre-fetch filter, and the config sections' defaults.

use scout::explain::sanitize_inline;
use scout::infer::is_copilot_login;
use scout::took::frame_ledger_line;
use scout::{
    AgeFilter, Auth, IssueMeta, Output, PullRequestRef, UserRef, WriteOutcome, issues_to_fetch,
    write_outcome,
};

#[test]
fn write_outcome_covers_all_cases() {
    assert_eq!(write_outcome(false, false), WriteOutcome::Created);
    assert_eq!(write_outcome(false, true), WriteOutcome::Created);
    assert_eq!(write_outcome(true, false), WriteOutcome::Preserved);
    assert_eq!(write_outcome(true, true), WriteOutcome::Overwritten);
}

#[test]
fn sanitize_inline_flattens_line_breaks_only() {
    assert_eq!(sanitize_inline("a\r\nb|c"), "a  b|c");
    assert_eq!(sanitize_inline(""), "");
}

#[test]
fn config_section_defaults() {
    assert_eq!(Auth::default().token_path, None);
    let o = Output::default();
    assert_eq!(o.color, "auto");
    assert_eq!(o.limit, 20);
}

fn row(number: u64, created_at: &str, is_pr: bool) -> IssueMeta {
    IssueMeta {
        number,
        title: "t".into(),
        body: None,
        html_url: format!("https://example.invalid/{number}"),
        state: "open".into(),
        labels: vec![],
        comments: 0,
        created_at: created_at.into(),
        updated_at: created_at.into(),
        user: UserRef { login: "u".into() },
        pull_request: if is_pr {
            Some(PullRequestRef { html_url: "https://example.invalid/pr".into() })
        } else {
            None
        },
    }
}

// 2026-04-23T00:00:00Z
const NOW_UNIX: i64 = 1_776_902_400;

#[test]
fn issues_to_fetch_drops_prs_and_old_issues() {
    let raw = vec![
        row(1, "2026-04-22T00:00:00Z", false),
        row(2, "2026-04-22T00:00:00Z", true),
        row(3, "2026-01-01T00:00:00Z", false),
        row(4, "not a time", false),
        row(5, "2026-03-24T00:00:00Z", false),
    ];
    let kept = issues_to_fetch(raw, AgeFilter { max_age_days: 30, now_unix: NOW_UNIX });
    let numbers: Vec<u64> = kept.iter().map(|i| i.number).collect();
    assert_eq!(numbers, vec![1, 4, 5]);
}

#[test]
fn disabled_age_filter_keeps_every_issue() {
    let f = AgeFilter::disabled();
    assert_eq!((f.max_age_days, f.now_unix), (0, 0));
    let raw = vec![row(1, "1999-01-01T00:00:00Z", false), row(2, "x", true)];
    let kept = issues_to_fetch(raw, f);
    assert_eq!(kept.len(), 1);
    assert_eq!(kept[0].number, 1);
}

#[test]
fn copilot_login_is_exact_after_lowering() {
    assert!(is_copilot_login("copilot"));
    assert!(is_copilot_login("copilot-swe-agent"));
    assert!(!is_copilot_login("Copilot"));
    assert!(!is_copilot_login("copilot-bot"));
}

#[test]
fn ledger_line_frame_around_quoted_fields() {
    assert_eq!(
        frame_ledger_line("\"o/r\"", 12, "\"2026-01-02T03:04:05Z\"", "\"took\""),
        "{\"repo\":\"o/r\",\"number\":12,\"timestamp\":\"2026-01-02T03:04:05Z\",\"event\":\"took\"}\n"
    );
}
