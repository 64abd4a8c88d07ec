//! The decision the fetch orchestrator makes between listing a repo's
//! issues and fetching each issue's comments and timeline: which rows
//! are worth the two extra requests. The HTTP walk itself belongs to
//! the command-line program.

use vstd::prelude::*;
use crate::fetch::IssueMeta;
use crate::infer::days_since;
use crate::time::iso_secs;

verus! {

/// Pre-fetch issue age filter. `max_age_days = 0` disables it, and then
/// `now_unix` is ignored. The filter compares against
/// `IssueMeta.created_at`, as the planner does.
#[derive(Debug, Clone, Copy)]
pub struct AgeFilter {
    /// Maximum issue age in days. `0` disables the filter.
    pub max_age_days: u32,
    /// Reference timestamp the age check resolves against.
    pub now_unix: i64,
}

impl AgeFilter {
    /// No-op filter: every non-PR issue gets its bundle fetched.
    pub fn disabled() -> (f: Self)
        ensures
            f.max_age_days == 0,
            f.now_unix == 0,
    {
        AgeFilter { max_age_days: 0, now_unix: 0 }
    }
}

/// The age filter is on and the issue was created more than
/// `max_age_days` whole days before `now_unix`.
pub open spec fn too_old_for(issue: IssueMeta, af: AgeFilter) -> bool {
    af.max_age_days != 0 && match iso_secs(issue.created_at@) {
        Some(t) => (af.now_unix - t) / 86400 > af.max_age_days,
        None => false,
    }
}

/// The row gets its comments and timeline fetched: it is not a pull
/// request, and it is not older than the filter allows (an unparseable
/// `created_at` passes).
pub open spec fn worth_fetching(issue: IssueMeta, af: AgeFilter) -> bool {
    &&& issue.pull_request is None
    &&& !too_old_for(issue, af)
}

/// The rows of `raw` worth fetching, in order.
pub open spec fn fetch_selection(raw: Seq<IssueMeta>, af: AgeFilter) -> Seq<IssueMeta>
    decreases raw.len(),
{
    if raw.len() == 0 {
        Seq::empty()
    } else {
        let prev = fetch_selection(raw.drop_last(), af);
        if worth_fetching(raw.last(), af) {
            prev.push(raw.last())
        } else {
            prev
        }
    }
}

/// The age arithmetic on this row stays within `i64`.
pub open spec fn age_arithmetic_fits(issue: IssueMeta, af: AgeFilter) -> bool {
    (issue.pull_request is None && af.max_age_days != 0) ==> (iso_secs(issue.created_at@) matches Some(
        t,
    ) ==> i64::MIN <= af.now_unix - t <= i64::MAX)
}

/// Keep the rows of a repo's issue listing that deserve their
/// per-issue comment and timeline requests: pull-request rows are
/// dropped, and so are issues older than `max_age_days` when the age
/// filter is on. Order is preserved.
pub fn issues_to_fetch(raw: Vec<IssueMeta>, age_filter: AgeFilter) -> (out: Vec<IssueMeta>)
    requires
        forall|i: int| 0 <= i < raw@.len() ==> age_arithmetic_fits(#[trigger] raw@[i], age_filter),
    ensures
        out@ == fetch_selection(raw@, age_filter),
        forall|j: int|
            0 <= j < out@.len() ==> (#[trigger] out@[j]).pull_request is None && (
            age_filter.max_age_days != 0 && iso_secs(out@[j].created_at@) is Some ==> (
            age_filter.now_unix - iso_secs(out@[j].created_at@)->0) / 86400
                <= age_filter.max_age_days),
{
    let ghost all = raw@;
    let mut out: Vec<IssueMeta> = Vec::new();
    for issue in it: raw
        invariant
            all == it.seq(),
            forall|i: int| 0 <= i < all.len() ==> age_arithmetic_fits(#[trigger] all[i], age_filter),
            out@ == fetch_selection(all.take(it.index() as int), age_filter),
    {
        let ghost k = it.index();
        assert(all.take(k + 1).drop_last() =~= all.take(k as int));
        assert(all[k as int] == issue);
        assert(age_arithmetic_fits(all[k as int], age_filter));
        let mut keep = !issue.is_pull_request();
        if keep && age_filter.max_age_days != 0 {
            match days_since(issue.created_at.as_str(), age_filter.now_unix) {
                Some(days) => {
                    if days > age_filter.max_age_days as i64 {
                        keep = false;
                    }
                },
                None => {},
            }
        }
        if keep {
            out.push(issue);
        }
    }
    assert(all.take(all.len() as int) =~= all);
    proof {
        selection_keeps_young_issues(all, age_filter);
    }
    out
}

/// What the pre-fetch filter keeps, read off the rows themselves: only
/// rows of the listing, none of them a pull request, none created more
/// than `max_age_days` whole days before `now_unix` (with the filter
/// on); and every other row, so an issue's `updated_at` plays no part.
pub proof fn selection_keeps_young_issues(raw: Seq<IssueMeta>, af: AgeFilter)
    ensures
        forall|j: int|
            0 <= j < fetch_selection(raw, af).len() ==> {
                let x = #[trigger] fetch_selection(raw, af)[j];
                &&& raw.contains(x)
                &&& x.pull_request is None
                &&& af.max_age_days != 0 && iso_secs(x.created_at@) is Some ==> (af.now_unix
                    - iso_secs(x.created_at@)->0) / 86400 <= af.max_age_days
            },
        forall|i: int|
            0 <= i < raw.len() && (#[trigger] raw[i]).pull_request is None && (af.max_age_days == 0
                || iso_secs(raw[i].created_at@) is None || (af.now_unix - iso_secs(
                raw[i].created_at@,
            )->0) / 86400 <= af.max_age_days) ==> fetch_selection(raw, af).contains(raw[i]),
    decreases raw.len(),
{
    if raw.len() > 0 {
        let prev = raw.drop_last();
        selection_keeps_young_issues(prev, af);
        let sp = fetch_selection(prev, af);
        let sel = fetch_selection(raw, af);
        assert forall|j: int| 0 <= j < sel.len() implies {
            let x = #[trigger] sel[j];
            &&& raw.contains(x)
            &&& x.pull_request is None
            &&& af.max_age_days != 0 && iso_secs(x.created_at@) is Some ==> (af.now_unix
                - iso_secs(x.created_at@)->0) / 86400 <= af.max_age_days
        } by {
            if j < sp.len() {
                assert(sel[j] == sp[j]);
                let w = choose|w: int| 0 <= w < prev.len() && prev[w] == sp[j];
                assert(raw[w] == prev[w]);
            } else {
                assert(sel[j] == raw.last());
                assert(raw[raw.len() - 1] == raw.last());
            }
        }
        assert forall|i: int|
            0 <= i < raw.len() && (#[trigger] raw[i]).pull_request is None && (af.max_age_days == 0
                || iso_secs(raw[i].created_at@) is None || (af.now_unix - iso_secs(
                raw[i].created_at@,
            )->0) / 86400 <= af.max_age_days) implies sel.contains(raw[i]) by {
            if i < prev.len() {
                assert(raw[i] == prev[i]);
                assert(sp.contains(prev[i]));
                let w = choose|w: int| 0 <= w < sp.len() && sp[w] == prev[i];
                assert(sel[w] == sp[w]);
            } else {
                assert(raw[i] == raw.last());
                assert(sel[sel.len() - 1] == raw.last());
            }
        }
    }
}

/// The pre-fetch filter and the planner agree on age: for the same
/// `max_age_days` and reference time, a row is fetched exactly when it
/// is not a pull request and the planner would not drop it as too old.
pub proof fn fetch_filter_agrees_with_planner(issue: IssueMeta, af: AgeFilter, f: crate::scan::Filters)
    requires
        f.max_age_days == af.max_age_days,
    ensures
        worth_fetching(issue, af) == (issue.pull_request is None && !crate::scan::too_old(
            issue,
            f,
            af.now_unix as int,
        )),
{
}

} // verus!
