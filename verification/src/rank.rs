//! The ranking layer's ordering. Scores are floating-point sums built
//! by the command-line program; it hands this module one integer key
//! per row (ordered as the totals are) and gets back the order in which
//! rows are shown: highest key first, ties kept in input order, the way
//! a stable descending sort leaves them.

use vstd::prelude::*;
use crate::fetch::{CommentMeta, IssueMeta, RepoMeta, TimelineEvent};

verus! {

/// A single per-issue input bundle. Borrows the underlying metadata so
/// the orchestrator can keep ownership of its fetch buffers across the
/// rank call.
#[derive(Debug)]
pub struct RankInput<'a> {
    pub issue: &'a IssueMeta,
    pub repo: &'a RepoMeta,
    pub contributing: Option<&'a str>,
    pub comments: &'a [CommentMeta],
    pub timeline: &'a [TimelineEvent],
}

/// Row `a` is shown before row `b`: its key is higher, or the keys tie
/// and `a` came first in the input.
pub open spec fn shown_before(keys: Seq<u64>, a: int, b: int) -> bool {
    keys[a] > keys[b] || (keys[a] == keys[b] && a < b)
}

/// `order` lists row indices of `keys`, each below `keys.len()`, every
/// earlier entry shown before every later one.
pub open spec fn ranked_order(keys: Seq<u64>, order: Seq<usize>) -> bool {
    &&& forall|i: int| 0 <= i < order.len() ==> #[trigger] order[i] < keys.len()
    &&& forall|i: int, j: int|
        0 <= i < j < order.len() ==> shown_before(keys, order[i] as int, order[j] as int)
}

/// The order in which rows with these keys are shown: every index of
/// `keys` exactly once, highest key first, equal keys in input order.
pub fn rank_order(keys: &[u64]) -> (order: Vec<usize>)
    ensures
        order@.len() == keys@.len(),
        forall|m: usize| m < keys@.len() ==> #[trigger] order@.contains(m),
        ranked_order(keys@, order@),
{
    let mut order: Vec<usize> = Vec::new();
    let n = keys.len();
    let mut k: usize = 0;
    while k < n
        invariant
            k <= n,
            n == keys@.len(),
            order@.len() == k,
            forall|i: int| 0 <= i < order@.len() ==> #[trigger] order@[i] < k,
            forall|m: usize| m < k ==> #[trigger] order@.contains(m),
            ranked_order(keys@, order@),
        decreases n - k,
    {
        let key = keys[k];
        // First position whose row has a lower key than row `k`.
        let mut p: usize = 0;
        while p < order.len() && keys[order[p]] >= key
            invariant
                p <= order@.len(),
                order@.len() == k,
                k < n,
                n == keys@.len(),
                key == keys@[k as int],
                forall|i: int| 0 <= i < order@.len() ==> #[trigger] order@[i] < k,
                forall|i: int| 0 <= i < p ==> keys@[#[trigger] order@[i] as int] >= key,
            decreases order@.len() - p,
        {
            p += 1;
        }
        let ghost old_order = order@;
        proof {
            assert forall|i: int| p <= i < old_order.len() implies keys@[#[trigger] old_order[i] as int]
                < key by {
                if p < old_order.len() {
                    assert(keys@[old_order[p as int] as int] < key);
                    if i > p {
                        assert(shown_before(keys@, old_order[p as int] as int, old_order[i] as int));
                    }
                }
            }
        }
        order.insert(p, k);
        assert(order@ == old_order.insert(p as int, k));
        assert forall|i: int, j: int| 0 <= i < j < order@.len() implies shown_before(
            keys@,
            order@[i] as int,
            order@[j] as int,
        ) by {
            if j < p {
                assert(order@[i] == old_order[i] && order@[j] == old_order[j]);
            } else if j == p {
                assert(order@[i] == old_order[i]);
                assert(keys@[old_order[i] as int] >= key);
            } else if i < p {
                assert(order@[i] == old_order[i] && order@[j] == old_order[j - 1]);
            } else if i == p {
                assert(order@[j] == old_order[j - 1]);
                assert(keys@[old_order[j - 1] as int] < key);
            } else {
                assert(order@[i] == old_order[i - 1] && order@[j] == old_order[j - 1]);
            }
        }
        assert forall|i: int| 0 <= i < order@.len() implies #[trigger] order@[i] < k + 1 by {
            if i < p {
                assert(order@[i] == old_order[i]);
            } else if i > p {
                assert(order@[i] == old_order[i - 1]);
            }
        }
        assert forall|m: usize| m < k + 1 implies #[trigger] order@.contains(m) by {
            if m == k {
                assert(order@[p as int] == k);
            } else {
                assert(old_order.contains(m));
                let w = choose|w: int| 0 <= w < old_order.len() && old_order[w] == m;
                if w < p {
                    assert(order@[w] == m);
                } else {
                    assert(order@[w + 1] == m);
                }
            }
        }
        k += 1;
    }
    order
}

} // verus!
