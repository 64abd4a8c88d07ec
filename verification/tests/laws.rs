//! Concrete instances of the library's cross-function laws: canonical
//! watchlists and issue references read back, timestamp texts sort by
//! time, excluding more labels only drops picks, the default files
//! share a directory, and ledger lines escape as serde_json does.

use scout::scan::{FetchedIssue, FetchedRepo, LedgerIndex};
use scout::{
    Filters, IssueMeta, IssueRef, Label, RepoMeta, UserRef, WatchEntry, default_config_path,
    default_ledger_path, default_watchlist_path, format_iso8601_z, ledger_entry_line,
    parse_issue_ref, parse_watchlist, plan,
};

#[test]
fn canonical_watchlist_reads_back() {
    let entries = vec![("rust-lang", "cargo"), ("tokio-rs", "tokio"), ("a", "b.c-d_e")];
    let mut text = String::from("repos:\n");
    for (o, r) in &entries {
        text.push_str(&format!("  - {o}/{r}\n"));
    }
    let w = parse_watchlist(&text).unwrap();
    let got: Vec<(&str, &str)> = w.repos.iter().map(|e| (e.owner.as_str(), e.repo.as_str())).collect();
    assert_eq!(got, entries);
}

#[test]
fn parsed_entries_follow_content_lines() {
    let text = "# header\n\nrepos:  # list\n  - a/b   # first\n\n  -  c/d\n";
    let w = parse_watchlist(text).unwrap();
    assert_eq!(
        w.repos,
        vec![
            WatchEntry { owner: "a".into(), repo: "b".into() },
            WatchEntry { owner: "c".into(), repo: "d".into() },
        ]
    );
}

#[test]
fn issue_reference_reads_back() {
    for (o, r, n) in [("o", "r", 0u32), ("truffle-dev", "scout/x", 7), ("a", "b", u32::MAX)] {
        let parsed = parse_issue_ref(&format!("{o}/{r}#{n}")).unwrap();
        assert_eq!(parsed, IssueRef { owner: o.into(), repo: r.into(), number: n });
    }
}

#[test]
fn timestamp_texts_sort_by_time() {
    let times = [0i64, 59, 60, 3_599, 86_399, 86_400, 951_782_400, 1_777_334_400, 253_402_300_799];
    for w in times.windows(2) {
        let (a, b) = (format_iso8601_z(w[0]), format_iso8601_z(w[1]));
        assert_eq!(a.len(), 20);
        assert!(a < b, "{a} < {b}");
    }
}

fn issue(number: u64, labels: &[&str]) -> IssueMeta {
    IssueMeta {
        number,
        title: "t".into(),
        body: None,
        html_url: format!("https://example.invalid/{number}"),
        state: "open".into(),
        labels: labels.iter().map(|n| Label { name: (*n).into() }).collect(),
        comments: 0,
        created_at: "2026-04-27T00:00:00Z".into(),
        updated_at: "2026-04-27T00:00:00Z".into(),
        user: UserRef { login: "u".into() },
        pull_request: None,
    }
}

#[test]
fn more_excluded_labels_only_drop_picks() {
    let repos = vec![FetchedRepo {
        repo: RepoMeta {
            full_name: "o/r".into(),
            stargazers_count: 0,
            open_issues_count: 0,
            pushed_at: "2026-04-27T00:00:00Z".into(),
            archived: false,
        },
        contributing: None,
        issues: [issue(1, &["bug"]), issue(2, &["question"]), issue(3, &[]), issue(4, &["wontfix"])]
            .into_iter()
            .map(|i| FetchedIssue { issue: i, comments: vec![], timeline: vec![] })
            .collect(),
    }];
    let ledger = LedgerIndex::new();
    let now = 1_777_334_400;
    let f1 = Filters::default();
    let mut f2 = Filters::default();
    f2.exclude_labels.push("question".into());
    let picks = |f: &Filters| -> Vec<u64> {
        plan(&repos, f, &ledger, now).iter().map(|i| i.issue.number).collect()
    };
    assert_eq!(picks(&f1), vec![1, 2, 3]);
    assert_eq!(picks(&f2), vec![1, 3]);
}

#[test]
fn default_files_share_a_directory() {
    for (xdg, home) in [(Some("/x"), Some("/h")), (None, Some("/h")), (Some("rel"), Some("/h/"))] {
        let c = default_config_path(xdg, home).unwrap();
        let w = default_watchlist_path(xdg, home).unwrap();
        let l = default_ledger_path(xdg, home).unwrap();
        let dir = c.strip_suffix("/config.toml").unwrap();
        assert_eq!(w, format!("{dir}/watchlist.yaml"));
        assert_eq!(l, format!("{dir}/ledger.jsonl"));
    }
}

#[test]
fn ledger_strings_escape_like_serde_json() {
    let issue = IssueRef { owner: "o".into(), repo: "r".into(), number: 1 };
    let line = ledger_entry_line(&issue, "a\"b\\c\u{1}\u{1f}\u{8}\u{c}é", "x\ty");
    assert_eq!(
        line,
        "{\"repo\":\"o/r\",\"number\":1,\"timestamp\":\"a\\\"b\\\\c\\u0001\\u001f\\b\\fé\",\"event\":\"x\\ty\"}\n"
    );
    let expected = serde_json::to_string("a\"b\\c\u{1}\u{1f}\u{8}\u{c}é").unwrap();
    assert!(line.contains(&expected));
}
