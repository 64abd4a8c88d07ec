//! The observed properties of one issue that the weighted score reads.
//! The weighting itself (floating-point weights, linear decay, the
//! clamped sum) is computed by the command-line program from these
//! values; what each property is, and how it is read off the fetched
//! payloads, is decided here.

use vstd::prelude::*;
use crate::fetch::{CommentMeta, IssueMeta, RepoMeta, TimelineEvent};
use crate::infer::{
    contributing_looks_ok, contributing_ok_in,
    crosslinked_open_pr_in_timeline, days_since, has_effort_label, has_non_effort_label,
    has_reproducer, has_root_cause, is_maintainer, is_open_pr_xref, labels_name_any,
    low_effort_labels, maintainer_in_comments, non_effort_labels, reproducer_in, root_cause_in,
};
use crate::time::iso_secs;

verus! {

/// Days reported for a timestamp that does not parse: far enough in the
/// past that every recency decay has reached zero.
pub const UNPARSEABLE_DAYS: i64 = 365_000;

/// Observed properties of a single GitHub issue and its parent repo.
#[derive(Debug, Clone, Copy, PartialEq, Eq)]
pub struct Factors {
    /// Issue body names a file:line or a cause phrase.
    pub has_root_cause: bool,
    /// No open PR crosslinks the issue via a cross-reference event.
    pub no_crosslinked_pr: bool,
    /// Whole days since the issue was last updated.
    pub updated_days_ago: i64,
    /// CONTRIBUTING.md lacks a CLA gate or "contact maintainers first"
    /// block.
    pub contributing_ok: bool,
    /// Issue body has a fenced code block or a reproduction cue.
    pub has_reproducer: bool,
    /// Issue carries a low-effort label, or no label that marks it as
    /// something other than an actionable bug.
    pub effort_ok: bool,
    /// A maintainer has commented on the thread.
    pub maintainer_touched: bool,
    /// Whole days since the repo was last pushed.
    pub pushed_days_ago: i64,
}

impl Default for Factors {
    fn default() -> (f: Self)
        ensures
            f == (Factors {
                has_root_cause: false,
                no_crosslinked_pr: false,
                updated_days_ago: 0,
                contributing_ok: false,
                has_reproducer: false,
                effort_ok: false,
                maintainer_touched: false,
                pushed_days_ago: 0,
            }),
    {
        Factors {
            has_root_cause: false,
            no_crosslinked_pr: false,
            updated_days_ago: 0,
            contributing_ok: false,
            has_reproducer: false,
            effort_ok: false,
            maintainer_touched: false,
            pushed_days_ago: 0,
        }
    }
}

/// Whole days from the timestamp `iso` to `now`, a future timestamp
/// counting as zero days; `UNPARSEABLE_DAYS` when it does not parse.
pub open spec fn days_ago(iso: Seq<char>, now: int) -> int {
    match iso_secs(iso) {
        Some(t) => if now - t < 0 {
            0
        } else {
            (now - t) / 86400
        },
        None => UNPARSEABLE_DAYS as int,
    }
}

/// `now - iso` fits in an `i64` wherever `iso` parses.
pub open spec fn elapsed_fits(iso: Seq<char>, now: int) -> bool {
    iso_secs(iso) matches Some(t) ==> i64::MIN <= now - t <= i64::MAX
}

/// A body given as an optional string, read by `pred` (absent: false).
pub open spec fn body_has(body: Option<String>, pred: spec_fn(Seq<char>) -> bool) -> bool {
    match body {
        Some(b) => pred(b@),
        None => false,
    }
}

/// The factors of an issue, as `factors_from` reads them.
pub open spec fn factors_spec(
    issue: IssueMeta,
    repo: RepoMeta,
    contributing: Option<Seq<char>>,
    comments: Seq<CommentMeta>,
    timeline: Seq<TimelineEvent>,
    now: int,
) -> Factors {
    Factors {
        has_root_cause: body_has(issue.body, |b: Seq<char>| root_cause_in(b)),
        no_crosslinked_pr: !exists|i: int|
            0 <= i < timeline.len() && #[trigger] is_open_pr_xref(timeline[i]),
        updated_days_ago: days_ago(issue.updated_at@, now) as i64,
        contributing_ok: match contributing {
            Some(t) => contributing_ok_in(t),
            None => true,
        },
        has_reproducer: body_has(issue.body, |b: Seq<char>| reproducer_in(b)),
        effort_ok: labels_name_any(issue.labels@, low_effort_labels()) || !labels_name_any(
            issue.labels@,
            non_effort_labels(),
        ),
        maintainer_touched: exists|i: int|
            0 <= i < comments.len() && #[trigger] is_maintainer(comments[i]),
        pushed_days_ago: days_ago(repo.pushed_at@, now) as i64,
    }
}

fn days_ago_exec(iso: &str, now_unix: i64) -> (d: i64)
    requires
        elapsed_fits(iso@, now_unix as int),
    ensures
        d == days_ago(iso@, now_unix as int),
{
    match days_since(iso, now_unix) {
        Some(d) => if d < 0 {
            0
        } else {
            d
        },
        None => UNPARSEABLE_DAYS,
    }
}

/// Read the scoring factors of one issue off its fetched payloads:
/// the body classifiers, the label classifiers (a low-effort label
/// wins over a non-effort one; no labels at all is effort-ok), the
/// maintainer and cross-reference scans, the CONTRIBUTING check (no
/// CONTRIBUTING is ok), and the day counts from `updated_at` and the
/// repo's `pushed_at` to `now_unix`.
pub fn factors_from(
    issue: &IssueMeta,
    repo: &RepoMeta,
    contributing: Option<&str>,
    comments: &[CommentMeta],
    timeline: &[TimelineEvent],
    now_unix: i64,
) -> (f: Factors)
    requires
        elapsed_fits(issue.updated_at@, now_unix as int),
        elapsed_fits(repo.pushed_at@, now_unix as int),
    ensures
        f == factors_spec(
            *issue,
            *repo,
            match contributing {
                Some(t) => Some(t@),
                None => None,
            },
            comments@,
            timeline@,
            now_unix as int,
        ),
{
    let body: Option<&str> = match &issue.body {
        Some(b) => Some(b.as_str()),
        None => None,
    };
    let effort_ok = has_effort_label(issue.labels.as_slice()) || !has_non_effort_label(
        issue.labels.as_slice(),
    );
    Factors {
        has_root_cause: has_root_cause(body),
        no_crosslinked_pr: !crosslinked_open_pr_in_timeline(timeline),
        updated_days_ago: days_ago_exec(issue.updated_at.as_str(), now_unix),
        contributing_ok: contributing_looks_ok(contributing),
        has_reproducer: has_reproducer(body),
        effort_ok,
        maintainer_touched: maintainer_in_comments(comments),
        pushed_days_ago: days_ago_exec(repo.pushed_at.as_str(), now_unix),
    }
}

} // verus!
