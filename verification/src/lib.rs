//! scout ranks open-source issues by how likely they are to be worth
//! contributing to. This library holds the parts that decide: the
//! signal classifiers and the factors they add up to, the timestamp,
//! watchlist and ledger readers, the planner's filters, the ranking
//! order, the table renderer, and where scout keeps its files.
//! Fetching, scoring with floating-point weights, and file and network
//! I/O belong to the command-line program built on it.

pub mod config;
pub mod dropped;
pub mod explain;
pub mod fetch;
pub mod fetcher;
pub mod infer;
pub mod init;
pub mod link;
pub mod paths;
pub mod rank;
pub mod score;
pub mod render;
pub mod scan;
pub mod text;
pub mod time;
pub mod took;
pub mod watchlist;

pub use fetch::{
    CommentMeta, IssueMeta, Label, PullRequestRef, RepoMeta, TimelineEvent, TimelineSource,
    TimelineSourceIssue, UserRef,
};
pub use fetcher::{AgeFilter, issues_to_fetch};
pub use infer::{
    assigned_to_copilot_in_timeline, contributing_looks_ok, crosslinked_open_pr_in_timeline,
    days_since, has_effort_label, has_non_effort_label, has_reproducer, has_root_cause,
    maintainer_in_comments, parse_iso8601_z, pending_discussion_in_maintainer_comments,
};
pub use config::{Auth, Output};
pub use init::{
    InitError, InitSummary, WriteOutcome, default_config_path, default_watchlist_path,
    write_outcome,
};
pub use link::{Probe, contributing_path, next_page, parse_next_link, probe_step};
pub use rank::{RankInput, rank_order};
pub use score::{Factors, factors_from};
pub use render::{TableRow, sanitize_cell, table_markdown};
pub use scan::{
    FetchedIssue, FetchedRepo, Filters, LedgerError, LedgerIndex, LedgerLine, expand_tilde,
    index_ledger, ledger_lines, plan, resolve_token, watched_repos,
};
pub use took::{
    DEFAULT_EVENT, IssueRef, ParseError, TookError, default_ledger_path, format_iso8601_z,
    ledger_entry_line, parse_issue_ref,
};
pub use watchlist::{WatchEntry, Watchlist, WatchlistError, parse as parse_watchlist};
