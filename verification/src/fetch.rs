//! Fetch-layer data: the slices of GitHub REST payloads the planner and
//! the signal classifiers read. Decoding JSON into these shapes and the
//! HTTP calls that produce the JSON happen outside this library; these
//! types carry the decoded values.

use vstd::prelude::*;

verus! {

/// Minimal repo metadata sliced out of a `/repos/{owner}/{repo}` response.
#[derive(Debug, Clone, PartialEq, Eq)]
pub struct RepoMeta {
    /// `owner/repo` slug.
    pub full_name: String,
    /// Star count.
    pub stargazers_count: u32,
    /// Open-issue count at fetch time.
    pub open_issues_count: u32,
    /// ISO-8601 timestamp of the last push to the repo.
    pub pushed_at: String,
    /// GitHub marks archived repos as read-only.
    pub archived: bool,
}

/// A GitHub user reference (`user`, `assignee`).
#[derive(Debug, Clone, PartialEq, Eq)]
pub struct UserRef {
    pub login: String,
}

/// One label on an issue.
#[derive(Debug, Clone, PartialEq, Eq)]
pub struct Label {
    pub name: String,
}

/// The `pull_request` sub-object GitHub attaches to PR-shaped items.
#[derive(Debug, Clone, PartialEq, Eq)]
pub struct PullRequestRef {
    pub html_url: String,
}

/// One row of the issues listing. The listing returns issues and pull
/// requests alike; PR-shaped rows carry `pull_request`.
#[derive(Debug, Clone, PartialEq, Eq)]
pub struct IssueMeta {
    pub number: u64,
    pub title: String,
    pub body: Option<String>,
    pub html_url: String,
    pub state: String,
    pub labels: Vec<Label>,
    pub comments: u32,
    pub created_at: String,
    pub updated_at: String,
    pub user: UserRef,
    pub pull_request: Option<PullRequestRef>,
}

impl IssueMeta {
    /// The row is a pull request rather than an issue.
    pub fn is_pull_request(&self) -> (b: bool)
        ensures
            b == self.pull_request.is_some(),
    {
        self.pull_request.is_some()
    }
}

/// One comment on an issue thread.
#[derive(Debug, Clone, PartialEq, Eq)]
pub struct CommentMeta {
    pub user: UserRef,
    /// GitHub `author_association` (`OWNER`, `MEMBER`, `NONE`, ...).
    pub author_association: String,
    /// Comment text; `None` when GitHub returned null.
    pub body: Option<String>,
}

/// The issue (or PR) a cross-reference event points back at.
#[derive(Debug, Clone, PartialEq, Eq)]
pub struct TimelineSourceIssue {
    pub state: String,
    pub pull_request: Option<PullRequestRef>,
}

/// The `source` object of a cross-reference event.
#[derive(Debug, Clone, PartialEq, Eq)]
pub struct TimelineSource {
    pub issue: Option<TimelineSourceIssue>,
}

/// One event of an issue timeline.
#[derive(Debug, Clone, PartialEq, Eq)]
pub struct TimelineEvent {
    pub event: String,
    pub source: Option<TimelineSource>,
    pub assignee: Option<UserRef>,
}

} // verus!
