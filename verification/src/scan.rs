//! The pure half of `scout scan`: the cooldown ledger index and the
//! planner that filters fetched payloads into ranker inputs.
//!
//! The ledger is line-delimited JSON, one `{"repo":"o/r","number":N,
//! "timestamp":"…Z"}` object per line. Splitting the file into its
//! non-blank numbered lines and folding the decoded lines into a
//! `LedgerIndex` happen here; decoding one line's JSON is serde's work
//! and happens in the program around this library.

use vstd::prelude::*;
use vstd::string::StringExecFns;
use crate::fetch::{CommentMeta, IssueMeta, Label, RepoMeta, TimelineEvent};
use crate::infer::{
    assigned_to_copilot_in_timeline, crosslinked_open_pr_in_timeline, days_since,
    is_copilot_assigned, is_open_pr_xref, is_pending_discussion, parse_iso8601_z,
    pending_discussion_in_maintainer_comments,
};
use crate::watchlist::{WatchEntry, Watchlist};
use crate::rank::RankInput;
use crate::text::{
    chars_of, find_char, find_in, is_first, lemma_find_char, lemma_first_unique, line_ranges, lines,
    push_str, spans, str_eq, string_of, string_of_range, sub_vec, trim, trim_bounds,
};
use crate::time::{iso_max, iso_min, iso_secs, iso_text, iso_text_round_trips, lemma_iso_secs_bounds};
use crate::paths::{join_path, opt_view, path_join};

verus! {

/// `serde_json::Error`, the failure of decoding one ledger line.
#[verifier::external_type_specification]
#[verifier::external_body]
pub struct ExJsonError(serde_json::Error);

/// Errors surfaced by the JSONL ledger reader. Each variant carries the
/// 1-based line number of the offending line.
#[derive(Debug)]
pub enum LedgerError {
    /// The line is not a JSON object of the ledger's shape.
    Json { line: usize, source: serde_json::Error },
    /// The `repo` field is not `OWNER/REPO` with both parts non-empty.
    MalformedRepo { line: usize, repo: String },
    /// The `timestamp` field is not `YYYY-MM-DDTHH:MM:SSZ`.
    Timestamp { line: usize, timestamp: String },
}

/// `LedgerError` with its text as character sequences.
pub enum LedgerErrorView {
    Json { line: int },
    MalformedRepo { line: int, repo: Seq<char> },
    Timestamp { line: int, timestamp: Seq<char> },
}

impl View for LedgerError {
    type V = LedgerErrorView;

    open spec fn view(&self) -> LedgerErrorView {
        match self {
            LedgerError::Json { line, .. } => LedgerErrorView::Json { line: *line as int },
            LedgerError::MalformedRepo { line, repo } => LedgerErrorView::MalformedRepo {
                line: *line as int,
                repo: repo@,
            },
            LedgerError::Timestamp { line, timestamp } => LedgerErrorView::Timestamp {
                line: *line as int,
                timestamp: timestamp@,
            },
        }
    }
}

/// One decoded ledger line and its 1-based line number in the file.
#[derive(Debug, Clone, PartialEq, Eq)]
pub struct LedgerLine {
    pub line: usize,
    pub repo: String,
    pub number: u32,
    pub timestamp: String,
}

/// An issue key: `(owner, repo, number)`.
pub type LedgerKey = (Seq<char>, Seq<char>, u32);

/// What one ledger line contributes: its key and the unix seconds of
/// its timestamp; or why it is refused.
pub open spec fn line_spec(l: LedgerLine) -> Result<(LedgerKey, int), LedgerErrorView> {
    match find_char(l.repo@, '/') {
        None => Err(LedgerErrorView::MalformedRepo { line: l.line as int, repo: l.repo@ }),
        Some(p) => {
            let owner = l.repo@.take(p);
            let repo = l.repo@.skip(p + 1);
            if owner.len() == 0 || repo.len() == 0 {
                Err(LedgerErrorView::MalformedRepo { line: l.line as int, repo: l.repo@ })
            } else {
                match iso_secs(l.timestamp@) {
                    None => Err(
                        LedgerErrorView::Timestamp { line: l.line as int, timestamp: l.timestamp@ },
                    ),
                    Some(t) => Ok(((owner, repo, l.number), t)),
                }
            }
        },
    }
}

/// Record a take of `k` at `t`: the most recent take per issue wins.
pub open spec fn take_later(m: Map<LedgerKey, int>, k: LedgerKey, t: int) -> Map<LedgerKey, int> {
    if m.contains_key(k) && m[k] >= t {
        m
    } else {
        m.insert(k, t)
    }
}

/// The index the ledger lines `ls` fold into, or the first refused line.
pub open spec fn index_spec(ls: Seq<LedgerLine>) -> Result<Map<LedgerKey, int>, LedgerErrorView>
    decreases ls.len(),
{
    if ls.len() == 0 {
        Ok(Map::empty())
    } else {
        match index_spec(ls.drop_last()) {
            Err(e) => Err(e),
            Ok(m) => match line_spec(ls.last()) {
                Err(e) => Err(e),
                Ok((k, t)) => Ok(take_later(m, k, t)),
            },
        }
    }
}

/// The most recent take per issue wins: a readable ledger's index
/// holds every issue some line records, at the latest time any line
/// records for it, and nothing else.
pub proof fn ledger_keeps_latest_take(ls: Seq<LedgerLine>)
    requires
        index_spec(ls) is Ok,
    ensures
        ({
            let m = index_spec(ls)->Ok_0;
            &&& forall|j: int|
                0 <= j < ls.len() ==> (#[trigger] line_spec(ls[j]) matches Ok((k, t)) && m.contains_key(k)
                    && m[k] >= t)
            &&& forall|k: LedgerKey|
                #[trigger] m.contains_key(k) ==> exists|j: int|
                    0 <= j < ls.len() && line_spec(ls[j]) == Ok::<(LedgerKey, int), LedgerErrorView>(
                        (k, m[k]),
                    )
        }),
    decreases ls.len(),
{
    if ls.len() > 0 {
        let prev = ls.drop_last();
        ledger_keeps_latest_take(prev);
        let mp = index_spec(prev)->Ok_0;
        let m = index_spec(ls)->Ok_0;
        let (k0, t0) = line_spec(ls.last())->Ok_0;
        assert forall|j: int| 0 <= j < ls.len() implies (#[trigger] line_spec(ls[j]) matches Ok((k, t))
            && m.contains_key(k) && m[k] >= t) by {
            if j < ls.len() - 1 {
                assert(ls[j] == prev[j]);
            }
        }
        assert forall|k: LedgerKey| #[trigger] m.contains_key(k) implies exists|j: int|
            0 <= j < ls.len() && line_spec(ls[j]) == Ok::<(LedgerKey, int), LedgerErrorView>(
                (k, m[k]),
            ) by {
            if k == k0 && m[k] == t0 {
                assert(line_spec(ls[ls.len() - 1]) == Ok::<(LedgerKey, int), LedgerErrorView>(
                    (k, m[k]),
                ));
            } else {
                assert(mp.contains_key(k) && m[k] == mp[k]);
                let j = choose|j: int|
                    0 <= j < prev.len() && line_spec(prev[j]) == Ok::<(LedgerKey, int), LedgerErrorView>(
                        (k, mp[k]),
                    );
                assert(ls[j] == prev[j]);
            }
        }
    }
}

/// Line numbers only label errors: two ledgers whose lines agree in
/// everything but their numbers are both readable or both refused, and
/// readable ones index the same takes.
pub proof fn index_ignores_line_numbers(ls: Seq<LedgerLine>, ms: Seq<LedgerLine>)
    requires
        ls.len() == ms.len(),
        forall|i: int|
            0 <= i < ls.len() ==> (#[trigger] ls[i]).repo@ == ms[i].repo@ && ls[i].number
                == ms[i].number && ls[i].timestamp@ == ms[i].timestamp@,
    ensures
        index_spec(ls) is Ok <==> index_spec(ms) is Ok,
        index_spec(ls) matches Ok(m) ==> index_spec(ms) == Ok::<Map<LedgerKey, int>, LedgerErrorView>(
            m,
        ),
    decreases ls.len(),
{
    if ls.len() > 0 {
        let l0 = ls.drop_last();
        let m0 = ms.drop_last();
        assert forall|i: int| 0 <= i < l0.len() implies (#[trigger] l0[i]).repo@ == m0[i].repo@
            && l0[i].number == m0[i].number && l0[i].timestamp@ == m0[i].timestamp@ by {
            assert(l0[i] == ls[i] && m0[i] == ms[i]);
        }
        index_ignores_line_numbers(l0, m0);
        assert(ls.last() == ls[ls.len() - 1]);
        assert(ms.last() == ms[ms.len() - 1]);
    }
}

/// Per issue, the later of the two takes.
pub open spec fn merge_later(a: Map<LedgerKey, int>, b: Map<LedgerKey, int>) -> Map<
    LedgerKey,
    int,
> {
    Map::new(
        |k: LedgerKey| a.contains_key(k) || b.contains_key(k),
        |k: LedgerKey|
            if a.contains_key(k) && b.contains_key(k) {
                if a[k] >= b[k] {
                    a[k]
                } else {
                    b[k]
                }
            } else if a.contains_key(k) {
                a[k]
            } else {
                b[k]
            },
    )
}

/// Tail-merging two ledgers (`cat a b > c`) gives the same index as
/// reading each alone and keeping the later take per issue; the merged
/// file is refused exactly when one of the two is.
pub proof fn ledger_concat_merges(a: Seq<LedgerLine>, b: Seq<LedgerLine>)
    ensures
        index_spec(a + b) == (match (index_spec(a), index_spec(b)) {
            (Ok(ma), Ok(mb)) => Ok(merge_later(ma, mb)),
            (Err(e), _) => Err(e),
            (Ok(_), Err(e)) => Err(e),
        }),
    decreases b.len(),
{
    if b.len() == 0 {
        assert(a + b =~= a);
        if let Ok(ma) = index_spec(a) {
            assert(merge_later(ma, Map::empty()) =~= ma);
        }
    } else {
        let b0 = b.drop_last();
        ledger_concat_merges(a, b0);
        assert((a + b).drop_last() =~= a + b0);
        assert((a + b).last() == b.last());
        match (index_spec(a), index_spec(b0)) {
            (Ok(ma), Ok(mb)) => {
                if let Ok((k, t)) = line_spec(b.last()) {
                    let lhs = take_later(merge_later(ma, mb), k, t);
                    let rhs = merge_later(ma, take_later(mb, k, t));
                    assert(lhs =~= rhs);
                }
            },
            _ => {},
        }
    }
}

/// Since the later take wins, the order of two ledgers does not matter.
pub proof fn ledger_concat_commutes(a: Seq<LedgerLine>, b: Seq<LedgerLine>)
    requires
        index_spec(a) is Ok,
        index_spec(b) is Ok,
    ensures
        index_spec(a + b) == index_spec(b + a),
{
    ledger_concat_merges(a, b);
    ledger_concat_merges(b, a);
    let ma = index_spec(a)->Ok_0;
    let mb = index_spec(b)->Ok_0;
    assert(merge_later(ma, mb) =~= merge_later(mb, ma));
}

/// A take recorded by `scout took` is read back as that take. The
/// ledger line it writes carries `repo` = `OWNER/REPO` and `timestamp`
/// = the ISO text of the take time `t`; decoded into `l` and appended
/// to any readable ledger, it keys the issue by `(owner, repo, number)`
/// at `t` (an owner never holds a `/`), the index then holds the issue
/// at `t` or later, and the issue is in cooldown at every `now` less
/// than `cooldown_days` days after `t`.
pub proof fn recorded_take_reads_back(
    ls: Seq<LedgerLine>,
    l: LedgerLine,
    owner: Seq<char>,
    repo: Seq<char>,
    t: int,
    cooldown_days: u32,
    now: int,
)
    requires
        index_spec(ls) is Ok,
        owner.len() > 0,
        !owner.contains('/'),
        repo.len() > 0,
        l.repo@ == owner + seq!['/'] + repo,
        -93_692_592_000 <= t <= 253_402_300_799,
        l.timestamp@ == iso_text(t),
    ensures
        line_spec(l) == Ok::<(LedgerKey, int), LedgerErrorView>(((owner, repo, l.number), t)),
        index_spec(ls.push(l)) matches Ok(m) && m.contains_key((owner, repo, l.number)) && m[(
            owner,
            repo,
            l.number,
        )] >= t && (cooldown_days != 0 && now - t < cooldown_days * 86400 ==> in_cooldown_spec(
            m,
            (owner, repo, l.number),
            cooldown_days,
            now,
        )),
{
    iso_text_round_trips(t);
    let s = l.repo@;
    assert(is_first(s, '/', owner.len() as int)) by {
        assert forall|j: int| 0 <= j < owner.len() implies s[j] != '/' by {
            assert(s[j] == owner[j]);
            if owner[j] == '/' {
                assert(owner.contains('/'));
            }
        }
    }
    lemma_find_char(s, '/');
    lemma_first_unique(s, '/', owner.len() as int, find_char(s, '/')->0);
    assert(s.take(owner.len() as int) =~= owner);
    assert(s.skip(owner.len() as int + 1) =~= repo);
    assert(ls.push(l).drop_last() =~= ls);
}

/// Every take an index holds came from a parsed timestamp.
pub proof fn lemma_index_values_bounded(ls: Seq<LedgerLine>)
    ensures
        index_spec(ls) matches Ok(m) ==> forall|k: LedgerKey|
            #[trigger] m.contains_key(k) ==> iso_min() <= m[k] <= iso_max(),
    decreases ls.len(),
{
    if ls.len() > 0 {
        lemma_index_values_bounded(ls.drop_last());
        if let Ok((k, t)) = line_spec(ls.last()) {
            lemma_iso_secs_bounds(ls.last().timestamp@);
        }
    }
}

#[derive(Debug)]
struct LedgerEntry {
    owner: String,
    repo: String,
    number: u32,
    taken_at: i64,
}

spec fn entry_key(e: LedgerEntry) -> LedgerKey {
    (e.owner@, e.repo@, e.number)
}

spec fn entries_map(es: Seq<LedgerEntry>) -> Map<LedgerKey, int>
    decreases es.len(),
{
    if es.len() == 0 {
        Map::empty()
    } else {
        entries_map(es.drop_last()).insert(entry_key(es.last()), es.last().taken_at as int)
    }
}

/// A read-only view of the JSONL ledger, keyed by `(owner, repo,
/// number)` to the unix-seconds timestamp of the most recent take.
#[derive(Debug)]
pub struct LedgerIndex {
    entries: Vec<LedgerEntry>,
}

impl View for LedgerIndex {
    type V = Map<LedgerKey, int>;

    closed spec fn view(&self) -> Map<LedgerKey, int> {
        entries_map(self.entries@)
    }
}

proof fn lemma_entries_map(es: Seq<LedgerEntry>)
    requires
        forall|i: int, j: int|
            0 <= i < j < es.len() ==> entry_key(#[trigger] es[i]) != entry_key(#[trigger] es[j]),
    ensures
        entries_map(es).dom().finite(),
        entries_map(es).len() == es.len(),
        forall|i: int|
            0 <= i < es.len() ==> #[trigger] entries_map(es).contains_key(entry_key(es[i]))
                && entries_map(es)[entry_key(es[i])] == es[i].taken_at,
        forall|k: LedgerKey|
            #[trigger] entries_map(es).contains_key(k) ==> exists|i: int|
                0 <= i < es.len() && entry_key(es[i]) == k,
    decreases es.len(),
{
    if es.len() > 0 {
        let init = es.drop_last();
        lemma_entries_map(init);
        let k = entry_key(es.last());
        assert(!entries_map(init).contains_key(k)) by {
            if entries_map(init).contains_key(k) {
                let i = choose|i: int| 0 <= i < init.len() && entry_key(init[i]) == k;
                assert(entry_key(es[i]) == entry_key(es[es.len() - 1]));
            }
        }
        assert forall|k2: LedgerKey| #[trigger] entries_map(es).contains_key(k2) implies exists|
            i: int,
        | 0 <= i < es.len() && entry_key(es[i]) == k2 by {
            if k2 != k {
                let i = choose|i: int| 0 <= i < init.len() && entry_key(init[i]) == k2;
                assert(es[i] == init[i]);
            } else {
                assert(entry_key(es[es.len() - 1]) == k2);
            }
        }
        assert forall|i: int| 0 <= i < es.len() implies #[trigger] entries_map(es).contains_key(
            entry_key(es[i]),
        ) && entries_map(es)[entry_key(es[i])] == es[i].taken_at by {
            if i < es.len() - 1 {
                assert(es[i] == init[i]);
            }
        }
    }
}

impl LedgerIndex {
    #[verifier::type_invariant]
    spec fn inv(&self) -> bool {
        &&& forall|i: int, j: int|
            0 <= i < j < self.entries@.len() ==> entry_key(#[trigger] self.entries@[i])
                != entry_key(#[trigger] self.entries@[j])
        &&& forall|i: int|
            0 <= i < self.entries@.len() ==> iso_min() <= (#[trigger] self.entries@[i]).taken_at
                <= iso_max()
    }

    /// The index with no issues recorded.
    pub fn new() -> (idx: Self)
        ensures
            idx@ == Map::<LedgerKey, int>::empty(),
    {
        LedgerIndex { entries: Vec::new() }
    }

    /// Number of distinct issues recorded. Multiple ledger lines for
    /// the same issue collapse to one entry.
    pub fn len(&self) -> (n: usize)
        ensures
            n == self@.len(),
    {
        proof {
            use_type_invariant(self);
            lemma_entries_map(self.entries@);
        }
        self.entries.len()
    }

    /// True if no issues are recorded.
    pub fn is_empty(&self) -> (b: bool)
        ensures
            b == (self@.len() == 0),
    {
        proof {
            use_type_invariant(self);
            lemma_entries_map(self.entries@);
        }
        self.entries.len() == 0
    }

    fn find(&self, owner: &str, repo: &str, number: u32) -> (r: Option<usize>)
        ensures
            match r {
                Some(i) => i < self.entries@.len() && entry_key(self.entries@[i as int]) == (
                    owner@,
                    repo@,
                    number,
                ),
                None => !self@.contains_key((owner@, repo@, number)),
            },
    {
        proof {
            use_type_invariant(self);
            lemma_entries_map(self.entries@);
        }
        let mut i: usize = 0;
        while i < self.entries.len()
            invariant
                i <= self.entries@.len(),
                forall|j: int|
                    0 <= j < i ==> entry_key(#[trigger] self.entries@[j]) != (
                        owner@,
                        repo@,
                        number,
                    ),
            decreases self.entries.len() - i,
        {
            let e = &self.entries[i];
            if e.number == number && crate::text::str_eq(e.owner.as_str(), owner)
                && crate::text::str_eq(e.repo.as_str(), repo) {
                return Some(i);
            }
            i += 1;
        }
        None
    }

    /// Unix-seconds timestamp of the most recent take for the issue
    /// identified by `owner`, `repo`, and `number`. `None` if the issue
    /// is not in the ledger.
    pub fn last_taken(&self, owner: &str, repo: &str, number: u32) -> (r: Option<i64>)
        ensures
            r == (if self@.contains_key((owner@, repo@, number)) {
                Some(self@[(owner@, repo@, number)] as i64)
            } else {
                None
            }),
            r matches Some(t) ==> t == self@[(owner@, repo@, number)],
    {
        proof {
            use_type_invariant(self);
            lemma_entries_map(self.entries@);
        }
        match self.find(owner, repo, number) {
            Some(i) => Some(self.entries[i].taken_at),
            None => None,
        }
    }

    /// True if the issue is in the cooldown window: it appears in the
    /// ledger and the most recent take is less than `cooldown_days`
    /// days before `now_unix`. An issue taken exactly `cooldown_days`
    /// ago is no longer in cooldown; a future-dated take is; an issue
    /// not in the ledger never is; `cooldown_days == 0` disables it.
    pub fn in_cooldown(
        &self,
        owner: &str,
        repo: &str,
        number: u32,
        cooldown_days: u32,
        now_unix: i64,
    ) -> (b: bool)
        requires
            cooldown_days != 0 && self@.contains_key((owner@, repo@, number)) ==> i64::MIN
                <= now_unix - self@[(owner@, repo@, number)] <= i64::MAX,
        ensures
            b == in_cooldown_spec(self@, (owner@, repo@, number), cooldown_days, now_unix as int),
    {
        if cooldown_days == 0 {
            return false;
        }
        let taken_at = match self.last_taken(owner, repo, number) {
            Some(t) => t,
            None => return false,
        };
        let elapsed = now_unix - taken_at;
        let cooldown_secs = (cooldown_days as i64) * 86_400;
        elapsed < cooldown_secs
    }

    /// Record a take at `secs`, keeping the most recent take per issue.
    fn record(&mut self, owner: String, repo: String, number: u32, secs: i64)
        requires
            iso_min() <= secs <= iso_max(),
        ensures
            final(self)@ == take_later(old(self)@, (owner@, repo@, number), secs as int),
    {
        proof {
            use_type_invariant(&*self);
            lemma_entries_map(self.entries@);
        }
        let ghost k = (owner@, repo@, number);
        match self.find(owner.as_str(), repo.as_str(), number) {
            Some(i) => {
                if secs > self.entries[i].taken_at {
                    let ghost old_es = self.entries@;
                    let mut entries = Vec::new();
                    std::mem::swap(&mut entries, &mut self.entries);
                    let mut e = entries.remove(i);
                    e.taken_at = secs;
                    let ghost removed = entries@;
                    entries.push(e);
                    proof {
                        assert(removed =~= old_es.remove(i as int));
                        lemma_entries_map_replace(old_es, i as int, secs as int);
                    }
                    self.entries = entries;
                }
            },
            None => {
                let ghost old_es = self.entries@;
                let mut entries = Vec::new();
                std::mem::swap(&mut entries, &mut self.entries);
                entries.push(LedgerEntry { owner, repo, number, taken_at: secs });
                assert(entries@.drop_last() =~= old_es);
                self.entries = entries;
            },
        }
    }
}

/// Replacing the take of one entry (moved to the end) updates the map at
/// that key only.
proof fn lemma_entries_map_replace(es: Seq<LedgerEntry>, i: int, t: int)
    requires
        0 <= i < es.len(),
        forall|a: int, b: int|
            0 <= a < b < es.len() ==> entry_key(#[trigger] es[a]) != entry_key(#[trigger] es[b]),
        i64::MIN <= t <= i64::MAX,
    ensures
        entries_map(
            es.remove(i).push(LedgerEntry { taken_at: t as i64, ..es[i] }),
        ) == entries_map(es).insert(entry_key(es[i]), t),
{
    let e2 = LedgerEntry { taken_at: t as i64, ..es[i] };
    let es2 = es.remove(i).push(e2);
    lemma_entries_map(es);
    assert forall|a: int, b: int| 0 <= a < b < es2.len() implies entry_key(#[trigger] es2[a])
        != entry_key(#[trigger] es2[b]) by {
        if b == es2.len() - 1 {
            let a0 = if a < i {
                a
            } else {
                a + 1
            };
            assert(es2[a] == es[a0]);
        } else {
            let a0 = if a < i {
                a
            } else {
                a + 1
            };
            let b0 = if b < i {
                b
            } else {
                b + 1
            };
            assert(es2[a] == es[a0]);
            assert(es2[b] == es[b0]);
        }
    }
    lemma_entries_map(es2);
    let m1 = entries_map(es2);
    let m2 = entries_map(es).insert(entry_key(es[i]), t);
    assert forall|k: LedgerKey| m1.contains_key(k) <==> m2.contains_key(k) by {
        if m1.contains_key(k) {
            let a = choose|a: int| 0 <= a < es2.len() && entry_key(es2[a]) == k;
            if a < es2.len() - 1 {
                let a0 = if a < i {
                    a
                } else {
                    a + 1
                };
                assert(es2[a] == es[a0]);
            }
        }
        if m2.contains_key(k) && k != entry_key(es[i]) {
            let a = choose|a: int| 0 <= a < es.len() && entry_key(es[a]) == k;
            let a2 = if a < i {
                a
            } else {
                a - 1
            };
            assert(es2[a2] == es[a]);
        }
        if k == entry_key(es[i]) {
            assert(es2[es2.len() - 1] == e2);
        }
    }
    assert forall|k: LedgerKey| m1.contains_key(k) implies m1[k] == m2[k] by {
        let a = choose|a: int| 0 <= a < es2.len() && entry_key(es2[a]) == k;
        if a < es2.len() - 1 {
            let a0 = if a < i {
                a
            } else {
                a + 1
            };
            assert(es2[a] == es[a0]);
        }
    }
    assert(m1 =~= m2);
}

impl Default for LedgerIndex {
    fn default() -> (idx: Self)
        ensures
            idx@ == Map::<LedgerKey, int>::empty(),
    {
        LedgerIndex::new()
    }
}

/// The issue `k` is in cooldown: the ledger has it and its most recent
/// take is less than `cooldown_days` days before `now`.
pub open spec fn in_cooldown_spec(
    m: Map<LedgerKey, int>,
    k: LedgerKey,
    cooldown_days: u32,
    now: int,
) -> bool {
    &&& cooldown_days != 0
    &&& m.contains_key(k)
    &&& now - m[k] < cooldown_days * 86400
}

// ---------------------------------------------------------------------
// Reading the ledger
// ---------------------------------------------------------------------

/// The non-blank lines of `ls` among the first `k`, each with its
/// 1-based line number.
pub open spec fn numbered_nonblank(ls: Seq<Seq<char>>, k: nat) -> Seq<(int, Seq<char>)>
    decreases k,
{
    if k == 0 {
        Seq::empty()
    } else {
        let prev = numbered_nonblank(ls, (k - 1) as nat);
        if trim(ls[k - 1]).len() == 0 {
            prev
        } else {
            prev.push((k as int, ls[k - 1]))
        }
    }
}

proof fn lemma_numbered_concat(x: Seq<Seq<char>>, y: Seq<Seq<char>>, k: nat)
    requires
        k <= y.len(),
    ensures
        numbered_nonblank(x + y, x.len() + k) == numbered_nonblank(x, x.len()) + numbered_nonblank(
            y,
            k,
        ).map_values(|p: (int, Seq<char>)| (p.0 + x.len(), p.1)),
    decreases k,
{
    if k == 0 {
        assert forall|j: nat| j <= x.len() implies numbered_nonblank(x + y, j) == numbered_nonblank(
            x,
            j,
        ) by {
            lemma_numbered_prefix(x, y, j);
        }
        assert(numbered_nonblank(x, x.len()) + Seq::<(int, Seq<char>)>::empty() =~= numbered_nonblank(
            x,
            x.len(),
        ));
    } else {
        lemma_numbered_concat(x, y, (k - 1) as nat);
        assert((x + y)[x.len() + k - 1] == y[k - 1]);
        let prev = numbered_nonblank(y, (k - 1) as nat);
        let f = |p: (int, Seq<char>)| (p.0 + x.len(), p.1);
        if trim(y[k - 1]).len() != 0 {
            assert(prev.push((k as int, y[k - 1])).map_values(f) =~= prev.map_values(f).push(
                ((x.len() + k) as int, y[k - 1]),
            ));
        }
    }
}

proof fn lemma_numbered_prefix(x: Seq<Seq<char>>, y: Seq<Seq<char>>, j: nat)
    requires
        j <= x.len(),
    ensures
        numbered_nonblank(x + y, j) == numbered_nonblank(x, j),
    decreases j,
{
    if j > 0 {
        lemma_numbered_prefix(x, y, (j - 1) as nat);
        assert((x + y)[j - 1] == x[j - 1]);
    }
}

/// Tail-merging ledger files (`cat a b > c`) splits into the lines of
/// each: when `a` is empty or ends in a line break, the entry lines of
/// `a + b` are those of `a`, then those of `b` with their line numbers
/// moved past `a`'s lines. (A ledger line's key and take do not depend
/// on its line number, so `ledger_concat_merges` then gives the merged
/// index.)
pub proof fn ledger_text_concat(a: Seq<char>, b: Seq<char>)
    requires
        a.len() == 0 || a.last() == '\n',
    ensures
        numbered_nonblank(lines(a + b), lines(a + b).len()) == numbered_nonblank(
            lines(a),
            lines(a).len(),
        ) + numbered_nonblank(lines(b), lines(b).len()).map_values(
            |p: (int, Seq<char>)| (p.0 + lines(a).len(), p.1),
        ),
{
    crate::text::lemma_lines_concat(a, b);
    lemma_numbered_concat(lines(a), lines(b), lines(b).len());
}

/// The lines of `body` that carry a ledger entry: every non-blank line
/// (`str::lines`, blank meaning whitespace only), with its 1-based line
/// number, in file order.
pub fn ledger_lines(body: &str) -> (r: Vec<(usize, String)>)
    ensures
        r@.len() == numbered_nonblank(lines(body@), lines(body@).len()).len(),
        forall|i: int|
            0 <= i < r@.len() ==> (#[trigger] r@[i]).0 as int == numbered_nonblank(
                lines(body@),
                lines(body@).len(),
            )[i].0 && r@[i].1@ == numbered_nonblank(lines(body@), lines(body@).len())[i].1,
{
    let v = chars_of(body);
    let ranges = line_ranges(&v);
    let ghost ls = lines(v@);
    let mut out: Vec<(usize, String)> = Vec::new();
    let mut idx: usize = 0;
    while idx < ranges.len()
        invariant
            idx <= ranges.len(),
            v@ == body@,
            ls == lines(v@),
            spans(v@, ranges@, ls),
            out@.len() == numbered_nonblank(ls, idx as nat).len(),
            forall|i: int|
                0 <= i < out@.len() ==> (#[trigger] out@[i]).0 as int == numbered_nonblank(
                    ls,
                    idx as nat,
                )[i].0 && out@[i].1@ == numbered_nonblank(ls, idx as nat)[i].1,
        decreases ranges.len() - idx,
    {
        let (a, b) = ranges[idx];
        let raw = sub_vec(&v, a, b);
        let (ta, tb) = trim_bounds(&raw);
        if ta < tb {
            let ghost before = out@;
            out.push((idx + 1, string_of(&raw)));
            assert forall|i: int| 0 <= i < out@.len() implies (#[trigger] out@[i]).0 as int
                == numbered_nonblank(ls, (idx + 1) as nat)[i].0 && out@[i].1@ == numbered_nonblank(
                ls,
                (idx + 1) as nat,
            )[i].1 by {
                if i < before.len() {
                    assert(out@[i] == before[i]);
                }
            }
        }
        idx += 1;
    }
    out
}

/// Fold decoded ledger lines, in file order, into a `LedgerIndex`.
/// Every line must name its repo as `OWNER/REPO` (both parts non-empty)
/// and carry a `YYYY-MM-DDTHH:MM:SSZ` timestamp, or the fold stops at
/// the first line that does not. When the same issue appears on several
/// lines, the most recent timestamp wins.
pub fn index_ledger(ledger_lines: &[LedgerLine]) -> (r: Result<LedgerIndex, LedgerError>)
    ensures
        match index_spec(ledger_lines@) {
            Ok(m) => r matches Ok(idx) && idx@ == m,
            Err(ev) => r matches Err(e) && e@ == ev,
        },
{
    let mut idx = LedgerIndex::new();
    let mut i: usize = 0;
    while i < ledger_lines.len()
        invariant
            i <= ledger_lines@.len(),
            index_spec(ledger_lines@.take(i as int)) == Ok::<Map<LedgerKey, int>, LedgerErrorView>(
                idx@,
            ),
        decreases ledger_lines.len() - i,
    {
        let l = &ledger_lines[i];
        let ghost pre = ledger_lines@.take(i as int);
        let ghost nxt = ledger_lines@.take(i + 1);
        assert(nxt.drop_last() =~= pre);
        assert(nxt.last() == *l);
        let v = chars_of(l.repo.as_str());
        let p = match find_in(&v, '/') {
            Some(p) => p,
            None => {
                proof {
                    lemma_index_error_sticks(ledger_lines@, (i + 1) as nat);
                }
                return Err(LedgerError::MalformedRepo { line: l.line, repo: l.repo.clone() });
            },
        };
        if p == 0 || p == v.len() - 1 {
            assert(v@.take(p as int).len() == 0 || v@.skip(p + 1).len() == 0);
            proof {
                lemma_index_error_sticks(ledger_lines@, (i + 1) as nat);
            }
            return Err(LedgerError::MalformedRepo { line: l.line, repo: l.repo.clone() });
        }
        let secs = match parse_iso8601_z(l.timestamp.as_str()) {
            Some(t) => t,
            None => {
                proof {
                    lemma_index_error_sticks(ledger_lines@, (i + 1) as nat);
                }
                return Err(
                    LedgerError::Timestamp { line: l.line, timestamp: l.timestamp.clone() },
                );
            },
        };
        proof {
            lemma_iso_secs_bounds(l.timestamp@);
        }
        let owner = string_of_range(&v, 0, p);
        let repo = string_of_range(&v, p + 1, v.len());
        assert(owner@ =~= v@.take(p as int));
        assert(repo@ =~= v@.skip(p + 1));
        idx.record(owner, repo, l.number, secs);
        i += 1;
    }
    assert(ledger_lines@.take(ledger_lines@.len() as int) =~= ledger_lines@);
    Ok(idx)
}

/// Once a line is refused, the refusal is the fold's answer.
proof fn lemma_index_error_sticks(ls: Seq<LedgerLine>, k: nat)
    requires
        k <= ls.len(),
        index_spec(ls.take(k as int)) is Err,
    ensures
        index_spec(ls) == index_spec(ls.take(k as int)),
    decreases ls.len() - k,
{
    if k == ls.len() {
        assert(ls.take(k as int) =~= ls);
    } else {
        let nxt = ls.take(k + 1 as int);
        assert(nxt.drop_last() =~= ls.take(k as int));
        lemma_index_error_sticks(ls, k + 1);
    }
}

// ---------------------------------------------------------------------
// Planning
// ---------------------------------------------------------------------

/// One repo's worth of fetched data, owned by the orchestrator and
/// borrowed into `RankInput` values by `plan`.
#[derive(Debug, Clone, PartialEq, Eq)]
pub struct FetchedRepo {
    pub repo: RepoMeta,
    pub contributing: Option<String>,
    pub issues: Vec<FetchedIssue>,
}

/// One issue's worth of fetched data inside a `FetchedRepo`.
#[derive(Debug, Clone, PartialEq, Eq)]
pub struct FetchedIssue {
    pub issue: IssueMeta,
    pub comments: Vec<CommentMeta>,
    pub timeline: Vec<TimelineEvent>,
}

/// The filter settings the planner applies. `exclude_labels` is
/// case-sensitive; `max_age_days` and `cooldown_days` of `0` disable
/// their filter. The three `drop_if_*` switches turn on the hard
/// filters that drop an issue with a cross-referenced open PR, a
/// maintainer's discuss-first comment, or a Copilot assignment.
/// `exclude_repos` lists watchlist entries not to scan at all:
/// `OWNER/REPO`, or `OWNER/*` for every repo of an owner. (The score
/// floor `min_score` is a floating-point setting applied to the
/// ranker's output and lives with the rest of the configuration.)
#[derive(Debug, Clone, PartialEq, Eq)]
pub struct Filters {
    pub max_age_days: u32,
    pub cooldown_days: u32,
    pub exclude_labels: Vec<String>,
    pub drop_if_open_pr: bool,
    pub drop_if_pending_discussion: bool,
    pub drop_if_copilot_assigned: bool,
    pub exclude_repos: Vec<String>,
}

impl Default for Filters {
    /// 30 days of age, 14 days of cooldown, the `wontfix`, `invalid`
    /// and `duplicate` labels excluded, all three hard filters on, and
    /// no repo excluded.
    fn default() -> (f: Self)
        ensures
            f.max_age_days == 30,
            f.cooldown_days == 14,
            f.exclude_labels@.len() == 3,
            f.exclude_labels@[0]@ == "wontfix"@,
            f.exclude_labels@[1]@ == "invalid"@,
            f.exclude_labels@[2]@ == "duplicate"@,
            f.drop_if_open_pr,
            f.drop_if_pending_discussion,
            f.drop_if_copilot_assigned,
            f.exclude_repos@.len() == 0,
    {
        let mut exclude_labels: Vec<String> = Vec::new();
        exclude_labels.push(String::from_str("wontfix"));
        exclude_labels.push(String::from_str("invalid"));
        exclude_labels.push(String::from_str("duplicate"));
        Filters {
            max_age_days: 30,
            cooldown_days: 14,
            exclude_labels,
            drop_if_open_pr: true,
            drop_if_pending_discussion: true,
            drop_if_copilot_assigned: true,
            exclude_repos: Vec::new(),
        }
    }
}

/// Some label of the issue is, character for character, one of the
/// excluded labels.
pub open spec fn excluded(issue: IssueMeta, f: Filters) -> bool {
    exists|i: int, x: int|
        0 <= i < issue.labels@.len() && 0 <= x < f.exclude_labels@.len()
            && #[trigger] issue.labels@[i].name@ == #[trigger] f.exclude_labels@[x]@
}

/// The age filter applies to the issue: it is on, and `created_at`
/// parses.
pub open spec fn age_checked(issue: IssueMeta, f: Filters) -> bool {
    f.max_age_days != 0 && iso_secs(issue.created_at@) is Some
}

/// The issue was created more than `max_age_days` whole days before
/// `now` (an unparseable `created_at` is never too old).
pub open spec fn too_old(issue: IssueMeta, f: Filters, now: int) -> bool {
    age_checked(issue, f) && (now - iso_secs(issue.created_at@)->0) / 86400 > f.max_age_days
}

/// The ledger key of an issue of the repo `full_name`: owner and repo
/// split at the first `/`; `None` when there is no `/` or the issue
/// number exceeds `u32`.
pub open spec fn issue_key(full_name: Seq<char>, number: u64) -> Option<LedgerKey> {
    match find_char(full_name, '/') {
        Some(p) => if number <= u32::MAX {
            Some((full_name.take(p), full_name.skip(p + 1), number as u32))
        } else {
            None
        },
        None => None,
    }
}

/// The issue is in its cooldown window.
pub open spec fn cooled(
    repo: RepoMeta,
    issue: IssueMeta,
    f: Filters,
    ledger: Map<LedgerKey, int>,
    now: int,
) -> bool {
    issue_key(repo.full_name@, issue.number) matches Some(k) && in_cooldown_spec(
        ledger,
        k,
        f.cooldown_days,
        now,
    )
}

/// A switched-on hard filter drops the issue: its timeline
/// cross-references an open pull request, a maintainer's comment asks
/// for discussion first, or its timeline assigns it to Copilot.
pub open spec fn hard_dropped(fi: FetchedIssue, f: Filters) -> bool {
    ||| f.drop_if_open_pr && exists|i: int|
        0 <= i < fi.timeline@.len() && #[trigger] is_open_pr_xref(fi.timeline@[i])
    ||| f.drop_if_pending_discussion && exists|i: int|
        0 <= i < fi.comments@.len() && #[trigger] is_pending_discussion(fi.comments@[i])
    ||| f.drop_if_copilot_assigned && exists|i: int|
        0 <= i < fi.timeline@.len() && #[trigger] is_copilot_assigned(fi.timeline@[i])
}

/// The issue survives the planner's filters, in order: not a pull
/// request, no excluded label, not too old, not in cooldown, and no
/// switched-on hard filter drops it.
pub open spec fn eligible(
    repo: RepoMeta,
    fi: FetchedIssue,
    f: Filters,
    ledger: Map<LedgerKey, int>,
    now: int,
) -> bool {
    let issue = fi.issue;
    &&& issue.pull_request is None
    &&& !excluded(issue, f)
    &&& !too_old(issue, f, now)
    &&& !cooled(repo, issue, f, ledger, now)
    &&& !hard_dropped(fi, f)
}

/// Switching a hard filter off never hides an issue: with the same
/// settings otherwise, an issue the planner keeps under `f1` it keeps
/// under any `f2` whose switches are each on only where `f1`'s are.
pub proof fn hard_filter_switches_only_drop(
    repo: RepoMeta,
    fi: FetchedIssue,
    f1: Filters,
    f2: Filters,
    ledger: Map<LedgerKey, int>,
    now: int,
)
    requires
        f2.max_age_days == f1.max_age_days,
        f2.cooldown_days == f1.cooldown_days,
        f2.exclude_labels@ == f1.exclude_labels@,
        f2.drop_if_open_pr ==> f1.drop_if_open_pr,
        f2.drop_if_pending_discussion ==> f1.drop_if_pending_discussion,
        f2.drop_if_copilot_assigned ==> f1.drop_if_copilot_assigned,
        eligible(repo, fi, f1, ledger, now),
    ensures
        eligible(repo, fi, f2, ledger, now),
{
}

/// The date arithmetic the filters perform on this issue stays within
/// `i64`.
pub open spec fn arithmetic_fits(
    repo: RepoMeta,
    issue: IssueMeta,
    f: Filters,
    ledger: Map<LedgerKey, int>,
    now: int,
) -> bool {
    &&& (issue.pull_request is None && !excluded(issue, f) && age_checked(issue, f)) ==> i64::MIN
        <= now - iso_secs(issue.created_at@)->0 <= i64::MAX
    &&& (issue.pull_request is None && !excluded(issue, f) && !too_old(issue, f, now)
        && f.cooldown_days != 0) ==> match issue_key(repo.full_name@, issue.number) {
        Some(k) => ledger.contains_key(k) ==> i64::MIN <= now - ledger[k] <= i64::MAX,
        None => true,
    }
}

/// Indices of the eligible issues among the first `k` of `fr`.
pub open spec fn picks_in(
    fr: FetchedRepo,
    f: Filters,
    ledger: Map<LedgerKey, int>,
    now: int,
    k: nat,
) -> Seq<int>
    decreases k,
{
    if k == 0 {
        Seq::empty()
    } else {
        let prev = picks_in(fr, f, ledger, now, (k - 1) as nat);
        if eligible(fr.repo, fr.issues@[k - 1], f, ledger, now) {
            prev.push(k - 1)
        } else {
            prev
        }
    }
}

/// `(repo index, issue index)` of every eligible issue among the first
/// `r` repos, in repo order and, within a repo, in issue order.
pub open spec fn plan_picks(
    repos: Seq<FetchedRepo>,
    f: Filters,
    ledger: Map<LedgerKey, int>,
    now: int,
    r: nat,
) -> Seq<(int, int)>
    decreases r,
{
    if r == 0 {
        Seq::empty()
    } else {
        let fr = repos[r - 1];
        plan_picks(repos, f, ledger, now, (r - 1) as nat) + picks_in(
            fr,
            f,
            ledger,
            now,
            fr.issues@.len(),
        ).map_values(|i: int| (r - 1, i))
    }
}

/// `input` borrows exactly the payloads of issue `i` of `fr`.
pub open spec fn input_of(input: RankInput, fr: FetchedRepo, i: int) -> bool {
    &&& *input.issue == fr.issues@[i].issue
    &&& *input.repo == fr.repo
    &&& match (input.contributing, fr.contributing) {
        (Some(a), Some(b)) => a@ == b@,
        (None, None) => true,
        _ => false,
    }
    &&& input.comments@ == fr.issues@[i].comments@
    &&& input.timeline@ == fr.issues@[i].timeline@
}

/// `f2` is `f1` with the labels of `extra` also excluded.
pub open spec fn more_labels_excluded(f1: Filters, f2: Filters, extra: Seq<String>) -> bool {
    &&& f2.max_age_days == f1.max_age_days
    &&& f2.cooldown_days == f1.cooldown_days
    &&& f2.exclude_labels@ == f1.exclude_labels@ + extra
    &&& f2.drop_if_open_pr == f1.drop_if_open_pr
    &&& f2.drop_if_pending_discussion == f1.drop_if_pending_discussion
    &&& f2.drop_if_copilot_assigned == f1.drop_if_copilot_assigned
}

proof fn lemma_more_labels_eligible(
    repo: RepoMeta,
    fi: FetchedIssue,
    f1: Filters,
    f2: Filters,
    extra: Seq<String>,
    l: Map<LedgerKey, int>,
    now: int,
)
    requires
        more_labels_excluded(f1, f2, extra),
    ensures
        eligible(repo, fi, f2, l, now) ==> eligible(repo, fi, f1, l, now),
        extra.len() == 0 ==> eligible(repo, fi, f2, l, now) == eligible(repo, fi, f1, l, now),
{
    if excluded(fi.issue, f1) {
        let (i, x) = choose|i: int, x: int|
            0 <= i < fi.issue.labels@.len() && 0 <= x < f1.exclude_labels@.len()
                && #[trigger] fi.issue.labels@[i].name@ == #[trigger] f1.exclude_labels@[x]@;
        assert(f2.exclude_labels@[x] == f1.exclude_labels@[x]);
        assert(excluded(fi.issue, f2));
    }
    if extra.len() == 0 {
        assert(f2.exclude_labels@ =~= f1.exclude_labels@);
    }
}

proof fn lemma_picks_in_more_labels(
    fr: FetchedRepo,
    f1: Filters,
    f2: Filters,
    extra: Seq<String>,
    l: Map<LedgerKey, int>,
    now: int,
    k: nat,
)
    requires
        more_labels_excluded(f1, f2, extra),
        k <= fr.issues@.len(),
    ensures
        picks_in(fr, f2, l, now, k) == picks_in(fr, f1, l, now, k).filter(
            |i: int| eligible(fr.repo, fr.issues@[i], f2, l, now),
        ),
        extra.len() == 0 ==> picks_in(fr, f2, l, now, k) == picks_in(fr, f1, l, now, k),
    decreases k,
{
    reveal(Seq::filter);
    if k > 0 {
        lemma_picks_in_more_labels(fr, f1, f2, extra, l, now, (k - 1) as nat);
        lemma_more_labels_eligible(fr.repo, fr.issues@[k - 1], f1, f2, extra, l, now);
        let p1 = picks_in(fr, f1, l, now, (k - 1) as nat);
        if eligible(fr.repo, fr.issues@[k - 1], f1, l, now) {
            assert(p1.push(k - 1).drop_last() =~= p1);
        }
    }
}

proof fn lemma_filter_tagged(a: Seq<int>, r: int, q: spec_fn((int, int)) -> bool)
    ensures
        a.map_values(|i: int| (r, i)).filter(q) == a.filter(|i: int| q((r, i))).map_values(
            |i: int| (r, i),
        ),
    decreases a.len(),
{
    reveal(Seq::filter);
    if a.len() > 0 {
        lemma_filter_tagged(a.drop_last(), r, q);
        assert(a.map_values(|i: int| (r, i)).drop_last() =~= a.drop_last().map_values(
            |i: int| (r, i),
        ));
        let fa = a.drop_last().filter(|i: int| q((r, i)));
        if q((r, a.last())) {
            assert(fa.push(a.last()).map_values(|i: int| (r, i)) =~= fa.map_values(
                |i: int| (r, i),
            ).push((r, a.last())));
        }
    }
}

/// Excluding more labels only removes picks: with the same settings
/// otherwise, the planner's picks under `f2` are exactly those of its
/// picks under `f1` that are still eligible under `f2`, in the same
/// order; with nothing added they are the same picks.
pub proof fn more_excluded_labels_only_drop(
    repos: Seq<FetchedRepo>,
    f1: Filters,
    f2: Filters,
    extra: Seq<String>,
    l: Map<LedgerKey, int>,
    now: int,
    r: nat,
)
    requires
        more_labels_excluded(f1, f2, extra),
        r <= repos.len(),
    ensures
        plan_picks(repos, f2, l, now, r) == plan_picks(repos, f1, l, now, r).filter(
            |p: (int, int)| eligible(repos[p.0].repo, repos[p.0].issues@[p.1], f2, l, now),
        ),
        extra.len() == 0 ==> plan_picks(repos, f2, l, now, r) == plan_picks(repos, f1, l, now, r),
    decreases r,
{
    reveal(Seq::filter);
    if r > 0 {
        more_excluded_labels_only_drop(repos, f1, f2, extra, l, now, (r - 1) as nat);
        let fr = repos[r - 1];
        lemma_picks_in_more_labels(fr, f1, f2, extra, l, now, fr.issues@.len());
        let q = |p: (int, int)| eligible(repos[p.0].repo, repos[p.0].issues@[p.1], f2, l, now);
        let a1 = picks_in(fr, f1, l, now, fr.issues@.len());
        let prev1 = plan_picks(repos, f1, l, now, (r - 1) as nat);
        Seq::filter_distributes_over_add(prev1, a1.map_values(|i: int| (r - 1, i)), q);
        lemma_filter_tagged(a1, r - 1, q);
        let qa = |i: int| q((r - 1, i));
        let qb = |i: int| eligible(fr.repo, fr.issues@[i], f2, l, now);
        assert(qa =~= qb);
        assert(a1.filter(qa) == a1.filter(qb));
    }
}

proof fn lemma_picks_in_bounds(fr: FetchedRepo, f: Filters, l: Map<LedgerKey, int>, now: int, k: nat)
    requires
        k <= fr.issues@.len(),
    ensures
        forall|m: int|
            0 <= m < picks_in(fr, f, l, now, k).len() ==> 0 <= #[trigger] picks_in(
                fr,
                f,
                l,
                now,
                k,
            )[m] < k,
    decreases k,
{
    if k > 0 {
        lemma_picks_in_bounds(fr, f, l, now, (k - 1) as nat);
        let prev = picks_in(fr, f, l, now, (k - 1) as nat);
        let cur = picks_in(fr, f, l, now, k);
        assert forall|m: int| 0 <= m < cur.len() implies 0 <= #[trigger] cur[m] < k by {
            if m < prev.len() {
                assert(cur[m] == prev[m]);
            }
        }
    }
}

proof fn lemma_picks_in_eligible(fr: FetchedRepo, f: Filters, l: Map<LedgerKey, int>, now: int, k: nat)
    requires
        k <= fr.issues@.len(),
    ensures
        forall|m: int|
            0 <= m < picks_in(fr, f, l, now, k).len() ==> {
                let p = #[trigger] picks_in(fr, f, l, now, k)[m];
                &&& 0 <= p < k
                &&& eligible(fr.repo, fr.issues@[p], f, l, now)
            },
    decreases k,
{
    if k > 0 {
        lemma_picks_in_eligible(fr, f, l, now, (k - 1) as nat);
        let prev = picks_in(fr, f, l, now, (k - 1) as nat);
        let cur = picks_in(fr, f, l, now, k);
        assert forall|m: int| 0 <= m < cur.len() implies {
            let p = #[trigger] cur[m];
            &&& 0 <= p < k
            &&& eligible(fr.repo, fr.issues@[p], f, l, now)
        } by {
            if m < prev.len() {
                assert(cur[m] == prev[m]);
            }
        }
    }
}

/// Every pick of the planner names an issue of the given repos that is
/// eligible.
proof fn lemma_plan_picks_eligible(
    repos: Seq<FetchedRepo>,
    f: Filters,
    l: Map<LedgerKey, int>,
    now: int,
    r: nat,
)
    requires
        r <= repos.len(),
    ensures
        forall|m: int|
            0 <= m < plan_picks(repos, f, l, now, r).len() ==> {
                let p = #[trigger] plan_picks(repos, f, l, now, r)[m];
                &&& 0 <= p.0 < r
                &&& 0 <= p.1 < repos[p.0].issues@.len()
                &&& eligible(repos[p.0].repo, repos[p.0].issues@[p.1], f, l, now)
            },
    decreases r,
{
    if r > 0 {
        lemma_plan_picks_eligible(repos, f, l, now, (r - 1) as nat);
        let fr = repos[r - 1];
        lemma_picks_in_eligible(fr, f, l, now, fr.issues@.len());
        let prev = plan_picks(repos, f, l, now, (r - 1) as nat);
        let mine = picks_in(fr, f, l, now, fr.issues@.len());
        let cur = plan_picks(repos, f, l, now, r);
        assert forall|m: int| 0 <= m < cur.len() implies {
            let p = #[trigger] cur[m];
            &&& 0 <= p.0 < r
            &&& 0 <= p.1 < repos[p.0].issues@.len()
            &&& eligible(repos[p.0].repo, repos[p.0].issues@[p.1], f, l, now)
        } by {
            if m < prev.len() {
                assert(cur[m] == prev[m]);
            } else {
                assert(cur[m] == (r - 1, mine[m - prev.len()]));
            }
        }
    }
}

/// The age filter reads the issue's `created_at`: with it on, no issue
/// the planner keeps was created more than `max_age_days` whole days
/// before `now`, however recently it was updated.
pub proof fn plan_keeps_only_young_issues(
    repos: Seq<FetchedRepo>,
    f: Filters,
    l: Map<LedgerKey, int>,
    now: int,
)
    ensures
        forall|m: int|
            0 <= m < plan_picks(repos, f, l, now, repos.len()).len() ==> {
                let p = #[trigger] plan_picks(repos, f, l, now, repos.len())[m];
                let created = repos[p.0].issues@[p.1].issue.created_at@;
                f.max_age_days != 0 && iso_secs(created) is Some ==> (now - iso_secs(created)->0)
                    / 86400 <= f.max_age_days
            },
{
    lemma_plan_picks_eligible(repos, f, l, now, repos.len());
}

/// With a hard filter on, no issue the planner keeps carries what it
/// filters: a maintainer's pending-discussion comment, a
/// cross-referenced open pull request, or a Copilot assignment.
pub proof fn plan_keeps_no_hard_filtered_issue(
    repos: Seq<FetchedRepo>,
    f: Filters,
    l: Map<LedgerKey, int>,
    now: int,
)
    ensures
        forall|m: int|
            0 <= m < plan_picks(repos, f, l, now, repos.len()).len() ==> {
                let p = #[trigger] plan_picks(repos, f, l, now, repos.len())[m];
                let fi = repos[p.0].issues@[p.1];
                &&& f.drop_if_pending_discussion ==> forall|c: int|
                    0 <= c < fi.comments@.len() ==> !is_pending_discussion(#[trigger] fi.comments@[c])
                &&& f.drop_if_open_pr ==> forall|e: int|
                    0 <= e < fi.timeline@.len() ==> !is_open_pr_xref(#[trigger] fi.timeline@[e])
                &&& f.drop_if_copilot_assigned ==> forall|e: int|
                    0 <= e < fi.timeline@.len() ==> !is_copilot_assigned(#[trigger] fi.timeline@[e])
            },
{
    lemma_plan_picks_eligible(repos, f, l, now, repos.len());
}

/// Whether the planner keeps an issue does not depend on its activity:
/// two issues that agree on their number, labels, `created_at`,
/// pull-request marker, comments and timeline are kept or dropped
/// alike, whatever their `updated_at`, title or body.
pub proof fn eligibility_ignores_activity(
    repo: RepoMeta,
    fi: FetchedIssue,
    fj: FetchedIssue,
    f: Filters,
    l: Map<LedgerKey, int>,
    now: int,
)
    requires
        fi.issue.number == fj.issue.number,
        fi.issue.labels@ == fj.issue.labels@,
        fi.issue.created_at@ == fj.issue.created_at@,
        fi.issue.pull_request == fj.issue.pull_request,
        fi.comments@ == fj.comments@,
        fi.timeline@ == fj.timeline@,
    ensures
        eligible(repo, fi, f, l, now) == eligible(repo, fj, f, l, now),
{
}

/// Filter pre-fetched payloads against the filters and the cooldown
/// ledger, returning the per-issue inputs ready for the ranking layer.
/// Dropped, in order: pull-request rows, issues with an excluded label,
/// issues older than `max_age_days` (an unparseable `created_at` passes),
/// issues in cooldown (an issue number beyond `u32`, or a repo name
/// without `/`, passes), and issues a switched-on hard filter drops.
/// The result keeps repo order and issue order.
pub fn plan<'a>(
    repos: &'a [FetchedRepo],
    filters: &Filters,
    ledger: &LedgerIndex,
    now_unix: i64,
) -> (out: Vec<RankInput<'a>>)
    requires
        forall|r: int, i: int|
            0 <= r < repos@.len() && 0 <= i < repos@[r].issues@.len() ==> arithmetic_fits(
                repos@[r].repo,
                #[trigger] repos@[r].issues@[i].issue,
                *filters,
                ledger@,
                now_unix as int,
            ),
    ensures
        out@.len() == plan_picks(repos@, *filters, ledger@, now_unix as int, repos@.len()).len(),
        forall|m: int|
            0 <= m < out@.len() ==> {
                let p = plan_picks(repos@, *filters, ledger@, now_unix as int, repos@.len())[m];
                input_of(#[trigger] out@[m], repos@[p.0], p.1)
            },
        forall|m: int|
            0 <= m < out@.len() ==> (filters.max_age_days != 0 && iso_secs(
                (#[trigger] out@[m]).issue.created_at@,
            ) is Some ==> (now_unix - iso_secs(out@[m].issue.created_at@)->0) / 86400
                <= filters.max_age_days),
{
    let ghost f = *filters;
    let ghost lm = ledger@;
    let ghost now = now_unix as int;
    let mut out: Vec<RankInput<'a>> = Vec::new();
    let mut r: usize = 0;
    while r < repos.len()
        invariant
            r <= repos@.len(),
            f == *filters,
            lm == ledger@,
            now == now_unix as int,
            forall|r2: int, i: int|
                0 <= r2 < repos@.len() && 0 <= i < repos@[r2].issues@.len() ==> arithmetic_fits(
                    repos@[r2].repo,
                    #[trigger] repos@[r2].issues@[i].issue,
                    f,
                    lm,
                    now,
                ),
            out@.len() == plan_picks(repos@, f, lm, now, r as nat).len(),
            forall|m: int|
                0 <= m < out@.len() ==> {
                    let p = plan_picks(repos@, f, lm, now, r as nat)[m];
                    input_of(#[trigger] out@[m], repos@[p.0], p.1)
                },
        decreases repos.len() - r,
    {
        let fr = &repos[r];
        let name = chars_of(fr.repo.full_name.as_str());
        let split = find_in(&name, '/');
        let contributing: Option<&'a str> = match &fr.contributing {
            Some(c) => Some(c.as_str()),
            None => None,
        };
        let ghost base = out@;
        let ghost base_picks = plan_picks(repos@, f, lm, now, r as nat);
        let mut i: usize = 0;
        while i < fr.issues.len()
            invariant
                r < repos@.len(),
                *fr == repos@[r as int],
                i <= fr.issues@.len(),
                f == *filters,
                lm == ledger@,
                now == now_unix as int,
                name@ == fr.repo.full_name@,
                split == (match find_char(name@, '/') {
                    Some(p) => Some(p as usize),
                    None => None,
                }),
                match (contributing, fr.contributing) {
                    (Some(a), Some(b)) => a@ == b@,
                    (None, None) => true,
                    _ => false,
                },
                forall|i2: int|
                    0 <= i2 < fr.issues@.len() ==> arithmetic_fits(
                        fr.repo,
                        #[trigger] fr.issues@[i2].issue,
                        f,
                        lm,
                        now,
                    ),
                base_picks == plan_picks(repos@, f, lm, now, r as nat),
                base.len() == base_picks.len(),
                out@.len() == base.len() + picks_in(*fr, f, lm, now, i as nat).len(),
                forall|m: int| 0 <= m < base.len() ==> #[trigger] out@[m] == base[m],
                forall|m: int|
                    0 <= m < base.len() ==> input_of(
                        #[trigger] base[m],
                        repos@[base_picks[m].0],
                        base_picks[m].1,
                    ),
                forall|m: int|
                    0 <= m < picks_in(*fr, f, lm, now, i as nat).len() ==> input_of(
                        #[trigger] out@[base.len() + m],
                        *fr,
                        picks_in(*fr, f, lm, now, i as nat)[m],
                    ),
            decreases fr.issues.len() - i,
        {
            let fi = &fr.issues[i];
            let ghost issue = fi.issue;
            assert(arithmetic_fits(fr.repo, issue, f, lm, now));
            let keep = issue_passes(&fr.repo, fi, filters, ledger, now_unix, &name, split);
            if keep {
                let ghost before = out@;
                out.push(
                    RankInput {
                        issue: &fi.issue,
                        repo: &fr.repo,
                        contributing: contributing,
                        comments: fi.comments.as_slice(),
                        timeline: fi.timeline.as_slice(),
                    },
                );
                assert forall|m: int| 0 <= m < base.len() implies #[trigger] out@[m] == base[m] by {
                    assert(out@[m] == before[m]);
                }
                assert forall|m: int|
                    0 <= m < picks_in(*fr, f, lm, now, (i + 1) as nat).len() implies input_of(
                    #[trigger] out@[base.len() + m],
                    *fr,
                    picks_in(*fr, f, lm, now, (i + 1) as nat)[m],
                ) by {
                    if m < picks_in(*fr, f, lm, now, i as nat).len() {
                        assert(out@[base.len() + m] == before[base.len() + m]);
                    }
                }
            }
            i += 1;
        }
        let ghost mine = picks_in(*fr, f, lm, now, fr.issues@.len());
        proof {
            lemma_picks_in_bounds(*fr, f, lm, now, fr.issues@.len());
            let nxt = plan_picks(repos@, f, lm, now, (r + 1) as nat);
            assert(nxt == base_picks + mine.map_values(|i: int| (r as int, i)));
            assert forall|m: int| 0 <= m < out@.len() implies {
                let p = nxt[m];
                input_of(#[trigger] out@[m], repos@[p.0], p.1)
            } by {
                if m >= base.len() {
                    let m2 = m - base.len();
                    assert(nxt[m] == (r as int, mine[m2]));
                    assert(input_of(out@[base.len() + m2], *fr, mine[m2]));
                } else {
                    assert(nxt[m] == base_picks[m]);
                }
            }
        }
        r += 1;
    }
    proof {
        plan_keeps_only_young_issues(repos@, f, lm, now);
        assert forall|m: int| 0 <= m < out@.len() implies (filters.max_age_days != 0 && iso_secs(
            (#[trigger] out@[m]).issue.created_at@,
        ) is Some ==> (now_unix - iso_secs(out@[m].issue.created_at@)->0) / 86400
            <= filters.max_age_days) by {
            let p = plan_picks(repos@, f, lm, now, repos@.len())[m];
            assert(input_of(out@[m], repos@[p.0], p.1));
        }
    }
    out
}

/// Some label of `labels` equals some entry of `ex`.
fn any_label_excluded(labels: &Vec<Label>, ex: &Vec<String>) -> (b: bool)
    ensures
        b == exists|i: int, x: int|
            0 <= i < labels@.len() && 0 <= x < ex@.len() && #[trigger] labels@[i].name@
                == #[trigger] ex@[x]@,
{
    let mut i: usize = 0;
    while i < labels.len()
        invariant
            i <= labels@.len(),
            forall|i2: int, x: int|
                0 <= i2 < i && 0 <= x < ex@.len() ==> #[trigger] labels@[i2].name@ != #[trigger] ex@[x]@,
        decreases labels.len() - i,
    {
        let mut x: usize = 0;
        while x < ex.len()
            invariant
                i < labels@.len(),
                x <= ex@.len(),
                forall|i2: int, x2: int|
                    0 <= i2 < i && 0 <= x2 < ex@.len() ==> #[trigger] labels@[i2].name@
                        != #[trigger] ex@[x2]@,
                forall|x2: int| 0 <= x2 < x ==> labels@[i as int].name@ != #[trigger] ex@[x2]@,
            decreases ex.len() - x,
        {
            if ex[x] == labels[i].name {
                return true;
            }
            x += 1;
        }
        i += 1;
    }
    false
}

/// Whether one issue of `repo` survives the planner's filters.
fn issue_passes(
    repo: &RepoMeta,
    fi: &FetchedIssue,
    filters: &Filters,
    ledger: &LedgerIndex,
    now_unix: i64,
    name: &Vec<char>,
    split: Option<usize>,
) -> (b: bool)
    requires
        name@ == repo.full_name@,
        split == (match find_char(name@, '/') {
            Some(p) => Some(p as usize),
            None => None,
        }),
        arithmetic_fits(*repo, fi.issue, *filters, ledger@, now_unix as int),
    ensures
        b == eligible(*repo, *fi, *filters, ledger@, now_unix as int),
{
    proof {
        crate::text::lemma_find_char(name@, '/');
    }
    if fi.issue.is_pull_request() {
        return false;
    }
    if any_label_excluded(&fi.issue.labels, &filters.exclude_labels) {
        return false;
    }
    if filters.max_age_days != 0 {
        match days_since(fi.issue.created_at.as_str(), now_unix) {
            Some(days) => {
                if days > filters.max_age_days as i64 {
                    return false;
                }
            },
            None => {},
        }
    }
    match split {
        Some(p) => {
            assert(crate::text::is_first(name@, '/', find_char(name@, '/')->0));
            assert(p < name.len());
            if fi.issue.number <= 4_294_967_295u64 {
                let owner = string_of_range(name, 0, p);
                let repo_name = string_of_range(name, p + 1, name.len());
                assert(owner@ =~= name@.take(p as int));
                assert(repo_name@ =~= name@.skip(p + 1));
                let number = fi.issue.number as u32;
                if ledger.in_cooldown(
                    owner.as_str(),
                    repo_name.as_str(),
                    number,
                    filters.cooldown_days,
                    now_unix,
                ) {
                    return false;
                }
            }
        },
        None => {},
    }
    if filters.drop_if_open_pr && crosslinked_open_pr_in_timeline(fi.timeline.as_slice()) {
        return false;
    }
    if filters.drop_if_pending_discussion && pending_discussion_in_maintainer_comments(
        fi.comments.as_slice(),
    ) {
        return false;
    }
    if filters.drop_if_copilot_assigned && assigned_to_copilot_in_timeline(fi.timeline.as_slice()) {
        return false;
    }
    true
}

// ---------------------------------------------------------------------
// Excluded repos
// ---------------------------------------------------------------------

/// The `exclude_repos` pattern `p` names the watchlist entry `e`:
/// `OWNER/REPO` exactly, or `OWNER/*`.
pub open spec fn pattern_names(p: Seq<char>, e: WatchEntry) -> bool {
    p == e.owner@ + "/*"@ || p == e.owner@ + "/"@ + e.repo@
}

/// Some pattern of `ex` names `e`.
pub open spec fn repo_excluded(e: WatchEntry, ex: Seq<String>) -> bool {
    exists|x: int| 0 <= x < ex.len() && pattern_names(#[trigger] ex[x]@, e)
}

/// The entries of `es` no pattern of `ex` names, in order.
pub open spec fn kept_entries(es: Seq<WatchEntry>, ex: Seq<String>) -> Seq<WatchEntry>
    decreases es.len(),
{
    if es.len() == 0 {
        Seq::empty()
    } else {
        let prev = kept_entries(es.drop_last(), ex);
        if repo_excluded(es.last(), ex) {
            prev
        } else {
            prev.push(es.last())
        }
    }
}

fn excluded_by(e: &WatchEntry, ex: &Vec<String>) -> (b: bool)
    ensures
        b == repo_excluded(*e, ex@),
{
    let mut owner_all = String::new();
    push_str(&mut owner_all, e.owner.as_str());
    push_str(&mut owner_all, "/*");
    let mut slug = String::new();
    push_str(&mut slug, e.owner.as_str());
    push_str(&mut slug, "/");
    push_str(&mut slug, e.repo.as_str());
    let mut x: usize = 0;
    while x < ex.len()
        invariant
            x <= ex@.len(),
            owner_all@ == e.owner@ + "/*"@,
            slug@ == e.owner@ + "/"@ + e.repo@,
            forall|x2: int| 0 <= x2 < x ==> !pattern_names(#[trigger] ex@[x2]@, *e),
        decreases ex.len() - x,
    {
        let p = ex[x].as_str();
        if str_eq(p, owner_all.as_str()) || str_eq(p, slug.as_str()) {
            return true;
        }
        x += 1;
    }
    false
}

/// The watchlist without the entries `exclude_repos` names: a pattern
/// `OWNER/REPO` drops that entry, `OWNER/*` every entry of the owner
/// (both case-sensitive). Order is preserved.
pub fn watched_repos(watchlist: &Watchlist, exclude_repos: &Vec<String>) -> (w: Watchlist)
    ensures
        w.repos@ == kept_entries(watchlist.repos@, exclude_repos@),
{
    let mut repos: Vec<WatchEntry> = Vec::new();
    let mut i: usize = 0;
    while i < watchlist.repos.len()
        invariant
            i <= watchlist.repos@.len(),
            repos@ == kept_entries(watchlist.repos@.take(i as int), exclude_repos@),
        decreases watchlist.repos.len() - i,
    {
        let e = &watchlist.repos[i];
        assert(watchlist.repos@.take(i + 1).drop_last() =~= watchlist.repos@.take(i as int));
        if !excluded_by(e, exclude_repos) {
            repos.push(WatchEntry { owner: e.owner.clone(), repo: e.repo.clone() });
        }
        i += 1;
    }
    assert(watchlist.repos@.take(watchlist.repos@.len() as int) =~= watchlist.repos@);
    Watchlist { repos }
}

// ---------------------------------------------------------------------
// Auth token
// ---------------------------------------------------------------------

/// `s` with surrounding whitespace removed, unless nothing is left.
pub open spec fn nonblank_token(s: Seq<char>) -> Option<Seq<char>> {
    if trim(s).len() == 0 {
        None
    } else {
        Some(trim(s))
    }
}

/// The token a scan authenticates with: when a token file is
/// configured, its trimmed contents (nothing if blank, whatever
/// `$GITHUB_TOKEN` holds); otherwise the trimmed `$GITHUB_TOKEN`, if set
/// and not blank.
pub open spec fn token_spec(file_text: Option<Seq<char>>, env_token: Option<Seq<char>>) -> Option<
    Seq<char>,
> {
    match file_text {
        Some(raw) => nonblank_token(raw),
        None => match env_token {
            Some(e) => nonblank_token(e),
            None => None,
        },
    }
}

fn nonblank(s: &str) -> (t: Option<String>)
    ensures
        match nonblank_token(s@) {
            Some(x) => t matches Some(r) && r@ == x,
            None => t is None,
        },
{
    let v = chars_of(s);
    let (a, b) = trim_bounds(&v);
    if a == b {
        None
    } else {
        Some(string_of_range(&v, a, b))
    }
}

/// Pick the auth token from the contents of the configured token file
/// (`None` when no `token_path` is configured) and the value of
/// `$GITHUB_TOKEN` (`None` when unset). Reading the file and the
/// environment is the caller's side.
pub fn resolve_token(file_text: Option<&str>, env_token: Option<&str>) -> (t: Option<String>)
    ensures
        match token_spec(opt_view(file_text), opt_view(env_token)) {
            Some(x) => t matches Some(r) && r@ == x,
            None => t is None,
        },
{
    match file_text {
        Some(raw) => nonblank(raw),
        None => match env_token {
            Some(e) => nonblank(e),
            None => None,
        },
    }
}

/// A leading `~/` expanded against `$HOME` (when set); anything else
/// passes through verbatim.
pub open spec fn expand_tilde_spec(path: Seq<char>, home: Option<Seq<char>>) -> Seq<char> {
    match home {
        Some(h) => if path.len() >= 2 && path[0] == '~' && path[1] == '/' {
            path_join(h, path.skip(2))
        } else {
            path
        },
        None => path,
    }
}

/// Expand a leading `~/` against the value of `$HOME`, the shell
/// convention. Anything else passes through verbatim.
pub fn expand_tilde(path: &str, home: Option<&str>) -> (p: String)
    ensures
        p@ == expand_tilde_spec(path@, opt_view(home)),
{
    let v = chars_of(path);
    if let Some(h) = home {
        if v.len() >= 2 && v[0] == '~' && v[1] == '/' {
            let rest = string_of_range(&v, 2, v.len());
            assert(rest@ =~= path@.skip(2));
            return join_path(h, rest.as_str());
        }
    }
    string_of(&v)
}

} // verus!
