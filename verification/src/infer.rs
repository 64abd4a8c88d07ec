//! Signal inference from issue content: pure pattern-match predicates
//! over an issue's body, labels, comments and timeline, plus the
//! timestamp reading behind the time-delta signals.

use vstd::prelude::*;
use crate::fetch::{CommentMeta, Label, TimelineEvent};
use crate::text::{
    contains_str, all_digits, ascii_lower, chars_of, contains_chars, contains_seq, digits_value, is_digit,
    lemma_digits_value_bound, lower_chars, lower_of, matches_at, occurs_at, parse_signed, pow10,
    seq_eq, str_eq,
};
use crate::time::{iso_secs, lemma_iso_secs_bounds, lemma_signed_field_bounds};

verus! {

// ---------------------------------------------------------------------
// Timestamps
// ---------------------------------------------------------------------

/// `i32::from_str` on the characters `v[from..to]`, for fields of at
/// most four characters (whose values always fit).
fn parse_field(v: &Vec<char>, from: usize, to: usize) -> (r: Option<i32>)
    requires
        from < to <= v.len(),
        to - from <= 4,
    ensures
        match parse_signed(v@.subrange(from as int, to as int)) {
            Some(x) => r == Some(x as i32) && -9999 <= x <= 9999,
            None => r is None,
        },
{
    let ghost s = v@.subrange(from as int, to as int);
    let first = v[from];
    let signed = first == '+' || first == '-';
    let start = if signed {
        from + 1
    } else {
        from
    };
    if start == to {
        return None;
    }
    let ghost ds = v@.subrange(start as int, to as int);
    assert(signed ==> ds =~= s.drop_first());
    assert(!signed ==> ds =~= s);
    let mut acc: i32 = 0;
    let mut i: usize = start;
    while i < to
        invariant
            from <= start <= i <= to <= v.len(),
            to - from <= 4,
            start < to,
            ds == v@.subrange(start as int, to as int),
            s == v@.subrange(from as int, to as int),
            first == s[0],
            signed == (s[0] == '+' || s[0] == '-'),
            signed ==> ds == s.drop_first(),
            !signed ==> ds == s,
            all_digits(ds.take(i - start)),
            acc == digits_value(ds.take(i - start)),
            0 <= acc < pow10((i - start) as nat),
        decreases to - i,
    {
        let c = v[i];
        if !('0' <= c && c <= '9') {
            assert(!is_digit(ds[i - start]));
            assert(!all_digits(ds));
            return None;
        }
        let d: i32 = (c as u32 - '0' as u32) as i32;
        let ghost pre = ds.take(i - start);
        let ghost nxt = ds.take(i - start + 1);
        assert(nxt.drop_last() =~= pre);
        assert(all_digits(nxt));
        proof {
            lemma_digits_value_bound(nxt);
            assert(pow10(0) == 1);
            assert(pow10(1) == 10);
            assert(pow10(2) == 100);
            assert(pow10(3) == 1000);
            assert(pow10(4) == 10000);
        }
        acc = acc * 10 + d;
        i += 1;
    }
    assert(ds.take(to - start) =~= ds);
    proof {
        assert(pow10(0) == 1);
        assert(pow10(1) == 10);
        assert(pow10(2) == 100);
        assert(pow10(3) == 1000);
        assert(pow10(4) == 10000);
    }
    if first == '-' {
        Some(-acc)
    } else {
        Some(acc)
    }
}

/// Parse an ISO-8601 timestamp in the narrow shape GitHub returns,
/// `YYYY-MM-DDTHH:MM:SSZ` (20 characters, trailing `Z`, no fractional
/// seconds, no offset), into unix seconds.
///
/// The text is compared character by character; because every one of
/// the twenty positions must be an ASCII separator or a numeric field,
/// this agrees with a byte-wise reading of the same text.
pub fn parse_iso8601_z(s: &str) -> (r: Option<i64>)
    ensures
        match iso_secs(s@) {
            Some(t) => r == Some(t as i64),
            None => r is None,
        },
{
    let v = chars_of(s);
    if v.len() != 20 || v[19] != 'Z' {
        return None;
    }
    if v[4] != '-' || v[7] != '-' || v[10] != 'T' {
        return None;
    }
    if v[13] != ':' || v[16] != ':' {
        return None;
    }
    let y = match parse_field(&v, 0, 4) {
        Some(x) => x,
        None => return None,
    };
    let mo = match parse_field(&v, 5, 7) {
        Some(x) => x,
        None => return None,
    };
    let d = match parse_field(&v, 8, 10) {
        Some(x) => x,
        None => return None,
    };
    let h = match parse_field(&v, 11, 13) {
        Some(x) => x,
        None => return None,
    };
    let mi = match parse_field(&v, 14, 16) {
        Some(x) => x,
        None => return None,
    };
    let se = match parse_field(&v, 17, 19) {
        Some(x) => x,
        None => return None,
    };
    if !(1 <= mo && mo <= 12) || !(1 <= d && d <= 31) {
        return None;
    }
    if !(0 <= h && h <= 23) || !(0 <= mi && mi <= 59) || !(0 <= se && se <= 60) {
        return None;
    }
    proof {
        lemma_signed_field_bounds(v@.subrange(0, 4));
    }
    let a = (14 - mo) / 12;
    let yy = y + 4800 - a;
    let mm = mo + 12 * a - 3;
    let jdn = d + (153 * mm + 2) / 5 + 365 * yy + yy / 4 - yy / 100 + yy / 400 - 32_045;
    let days_since_epoch = (jdn - 2_440_588) as i64;
    let r = days_since_epoch * 86_400 + (h as i64) * 3_600 + (mi as i64) * 60 + (se as i64);
    proof {
        lemma_iso_secs_bounds(s@);
    }
    Some(r)
}

/// Whole days between the timestamp `iso` and the reference unix-seconds
/// `now_unix`, rounded toward negative infinity (`div_euclid`), so a
/// timestamp in the future gives a negative count. `None` when `iso`
/// does not parse.
pub fn days_since(iso: &str, now_unix: i64) -> (r: Option<i64>)
    requires
        iso_secs(iso@) matches Some(t) ==> i64::MIN <= now_unix - t <= i64::MAX,
    ensures
        match iso_secs(iso@) {
            Some(t) => r == Some(((now_unix - t) / 86400) as i64),
            None => r is None,
        },
{
    proof {
        if iso_secs(iso@) is Some {
            lemma_iso_secs_bounds(iso@);
        }
    }
    let then = match parse_iso8601_z(iso) {
        Some(t) => t,
        None => return None,
    };
    let x = now_unix - then;
    Some(div_euclid_day(x))
}

/// `i64::div_euclid(x, 86_400)`.
fn div_euclid_day(x: i64) -> (q: i64)
    ensures
        q == x / 86400,
{
    let q = x / 86_400;
    let rm = x % 86_400;
    if rm < 0 {
        q - 1
    } else {
        q
    }
}


// ---------------------------------------------------------------------
// Pattern helpers
// ---------------------------------------------------------------------

/// Some marker of `markers` occurs in `hay`.
pub open spec fn contains_any(hay: Seq<char>, markers: Seq<&'static str>) -> bool {
    exists|k: int| 0 <= k < markers.len() && #[trigger] contains_seq(hay, markers[k]@)
}

fn contains_any_of(hay: &Vec<char>, markers: &Vec<&'static str>) -> (b: bool)
    ensures
        b == contains_any(hay@, markers@),
{
    let mut k: usize = 0;
    while k < markers.len()
        invariant
            k <= markers.len(),
            forall|j: int| 0 <= j < k ==> !#[trigger] contains_seq(hay@, markers@[j]@),
        decreases markers.len() - k,
    {
        let p = chars_of(markers[k]);
        if contains_chars(hay, &p) {
            return true;
        }
        k += 1;
    }
    false
}

/// `str::eq_ignore_ascii_case`.
pub open spec fn eq_ignore_case(a: Seq<char>, b: Seq<char>) -> bool {
    ascii_lower(a) == ascii_lower(b)
}

/// `name` equals some marker of `markers`, ignoring ASCII case.
pub open spec fn names_any(name: Seq<char>, markers: Seq<&'static str>) -> bool {
    exists|k: int| 0 <= k < markers.len() && #[trigger] eq_ignore_case(name, markers[k]@)
}

fn names_any_of(name: &str, markers: &Vec<&'static str>) -> (b: bool)
    ensures
        b == names_any(name@, markers@),
{
    let lname = lower_of(name);
    let mut k: usize = 0;
    while k < markers.len()
        invariant
            k <= markers.len(),
            lname@ == ascii_lower(name@),
            forall|j: int| 0 <= j < k ==> !#[trigger] eq_ignore_case(name@, markers@[j]@),
        decreases markers.len() - k,
    {
        let lm = lower_of(markers[k]);
        if seq_eq(&lname, &lm) {
            assert(eq_ignore_case(name@, markers@[k as int]@));
            return true;
        }
        k += 1;
    }
    false
}

/// `p` occurs in `s` and the character right after the occurrence is an
/// ASCII digit.
pub open spec fn occurs_before_digit(s: Seq<char>, p: Seq<char>) -> bool {
    exists|i: int|
        #[trigger] occurs_at(s, p, i) && i + p.len() < s.len() && is_digit(s[i + p.len()])
}

fn occurs_before_digit_exec(s: &Vec<char>, p: &Vec<char>) -> (b: bool)
    ensures
        b == occurs_before_digit(s@, p@),
{
    let mut i: usize = 0;
    while i < s.len()
        invariant
            i <= s.len(),
            forall|j: int|
                0 <= j < i ==> !(#[trigger] occurs_at(s@, p@, j) && j + p@.len() < s@.len()
                    && is_digit(s@[j + p@.len()])),
        decreases s.len() - i,
    {
        if matches_at(s, p, i) && p.len() < s.len() - i {
            let c = s[i + p.len()];
            if '0' <= c && c <= '9' {
                return true;
            }
        }
        i += 1;
    }
    assert forall|j: int|
        !(#[trigger] occurs_at(s@, p@, j) && j + p@.len() < s@.len() && is_digit(
            s@[j + p@.len()],
        )) by {
        if j >= s@.len() {
            assert(!(j + p@.len() < s@.len()));
        }
    }
    false
}

// ---------------------------------------------------------------------
// Body signals
// ---------------------------------------------------------------------

/// The body carries a reproducer: a fenced code block, or a
/// reproduction cue in its lower-cased text.
pub open spec fn reproducer_in(body: Seq<char>) -> bool {
    contains_seq(body, "```"@) || contains_any(ascii_lower(body), reproducer_cues())
}

/// Body contains something that looks like a reproducer: a fenced
/// code block, or an explicit "reproduce" cue. `None` body (issue with
/// no description) is always false.
pub fn has_reproducer(body: Option<&str>) -> (b: bool)
    ensures
        b == match body {
            Some(t) => reproducer_in(t@),
            None => false,
        },
{
    let body = match body {
        Some(t) => t,
        None => return false,
    };
    let v = chars_of(body);
    if contains_str(&v, "```") {
        return true;
    }
    let lower = lower_chars(&v);
    let cues = reproducer_cues_list();
    contains_any_of(&lower, &cues)
}

/// Some `path.ext:` pointer of `source_extensions` is followed by a digit.
pub open spec fn file_line_pointer_in(body: Seq<char>) -> bool {
    exists|k: int|
        0 <= k < source_extensions().len() && #[trigger] occurs_before_digit(
            body,
            source_extensions()[k]@,
        )
}

/// Scan for a `path.ext:lineno` pointer in the body.
fn has_file_line_pointer(body: &Vec<char>) -> (b: bool)
    ensures
        b == file_line_pointer_in(body@),
{
    let exts = source_extensions_list();
    let mut k: usize = 0;
    while k < exts.len()
        invariant
            k <= exts.len(),
            exts@ == source_extensions(),
            forall|j: int| 0 <= j < k ==> !#[trigger] occurs_before_digit(body@, exts@[j]@),
        decreases exts.len() - k,
    {
        let p = chars_of(exts[k]);
        if occurs_before_digit_exec(body, &p) {
            return true;
        }
        k += 1;
    }
    false
}

/// The body names a cause: a cause phrase in its lower-cased text, or a
/// `path.ext:lineno` pointer.
pub open spec fn root_cause_in(body: Seq<char>) -> bool {
    contains_any(ascii_lower(body), root_cause_phrases()) || file_line_pointer_in(body)
}

/// Body contains a pinpoint that suggests the reporter has narrowed
/// the cause: a `path.ext:lineno` reference, a "root cause" phrase,
/// or a "caused by" phrase. `None` body is always false.
pub fn has_root_cause(body: Option<&str>) -> (b: bool)
    ensures
        b == match body {
            Some(t) => root_cause_in(t@),
            None => false,
        },
{
    let body = match body {
        Some(t) => t,
        None => return false,
    };
    let v = chars_of(body);
    let lower = lower_chars(&v);
    let phrases = root_cause_phrases_list();
    if contains_any_of(&lower, &phrases) {
        return true;
    }
    has_file_line_pointer(&v)
}

// ---------------------------------------------------------------------
// Label signals
// ---------------------------------------------------------------------

/// Some label's name equals some marker, ignoring ASCII case.
pub open spec fn labels_name_any(labels: Seq<Label>, markers: Seq<&'static str>) -> bool {
    exists|i: int| 0 <= i < labels.len() && #[trigger] names_any(labels[i].name@, markers)
}

fn labels_name_any_of(labels: &[Label], markers: &Vec<&'static str>) -> (b: bool)
    ensures
        b == labels_name_any(labels@, markers@),
{
    let mut i: usize = 0;
    while i < labels.len()
        invariant
            i <= labels.len(),
            forall|j: int| 0 <= j < i ==> !#[trigger] names_any(labels@[j].name@, markers@),
        decreases labels.len() - i,
    {
        if names_any_of(labels[i].name.as_str(), markers) {
            return true;
        }
        i += 1;
    }
    false
}

/// Label set contains a low-effort marker (exact name match, ignoring
/// ASCII case).
pub fn has_effort_label(labels: &[Label]) -> (b: bool)
    ensures
        b == labels_name_any(labels@, low_effort_labels()),
{
    let markers = low_effort_labels_list();
    labels_name_any_of(labels, &markers)
}

/// Label set contains a marker that says "this isn't an actionable
/// bug" (exact name match, ignoring ASCII case).
pub fn has_non_effort_label(labels: &[Label]) -> (b: bool)
    ensures
        b == labels_name_any(labels@, non_effort_labels()),
{
    let markers = non_effort_labels_list();
    labels_name_any_of(labels, &markers)
}

// ---------------------------------------------------------------------
// CONTRIBUTING
// ---------------------------------------------------------------------

/// The lower-cased CONTRIBUTING text carries none of the blocking markers.
pub open spec fn contributing_ok_in(body: Seq<char>) -> bool {
    let lower = ascii_lower(body);
    &&& !contains_any(lower, cla_markers())
    &&& !contains_any(lower, gate_markers())
    &&& !contains_any(lower, ai_ban_markers())
    &&& !contains_any(lower, label_gate_markers())
}

/// CONTRIBUTING body looks contribution-friendly: no Contributor
/// License Agreement gate, no "please discuss / email / contact
/// before" gate, no categorical ban on AI-implemented contributions,
/// no label-gate. `None` (repo has no CONTRIBUTING) is treated as ok.
pub fn contributing_looks_ok(body: Option<&str>) -> (b: bool)
    ensures
        b == match body {
            Some(t) => contributing_ok_in(t@),
            None => true,
        },
{
    let body = match body {
        Some(t) => t,
        None => return true,
    };
    let lower = lower_of(body);
    let cla = cla_markers_list();
    if contains_any_of(&lower, &cla) {
        return false;
    }
    let gate = gate_markers_list();
    if contains_any_of(&lower, &gate) {
        return false;
    }
    let ai = ai_ban_markers_list();
    if contains_any_of(&lower, &ai) {
        return false;
    }
    let label_gate = label_gate_markers_list();
    !contains_any_of(&lower, &label_gate)
}

// ---------------------------------------------------------------------
// Comment signals
// ---------------------------------------------------------------------

/// The comment's `author_association` is `OWNER`, `MEMBER` or
/// `COLLABORATOR`.
pub open spec fn is_maintainer(c: CommentMeta) -> bool {
    ||| c.author_association@ == "OWNER"@
    ||| c.author_association@ == "MEMBER"@
    ||| c.author_association@ == "COLLABORATOR"@
}

fn is_maintainer_comment(c: &CommentMeta) -> (b: bool)
    ensures
        b == is_maintainer(*c),
{
    let a = c.author_association.as_str();
    str_eq(a, "OWNER") || str_eq(a, "MEMBER") || str_eq(a, "COLLABORATOR")
}

/// Any comment in the slice was authored by a maintainer (`OWNER`,
/// `MEMBER` or `COLLABORATOR`). Empty slice returns `false`.
pub fn maintainer_in_comments(comments: &[CommentMeta]) -> (b: bool)
    ensures
        b == exists|i: int| 0 <= i < comments@.len() && #[trigger] is_maintainer(comments@[i]),
{
    let mut i: usize = 0;
    while i < comments.len()
        invariant
            i <= comments.len(),
            forall|j: int| 0 <= j < i ==> !#[trigger] is_maintainer(comments@[j]),
        decreases comments.len() - i,
    {
        if is_maintainer_comment(&comments[i]) {
            return true;
        }
        i += 1;
    }
    false
}

/// The comment body, lower-cased, carries a pending-discussion marker.
pub open spec fn signals_pending_discussion(body: Seq<char>) -> bool {
    contains_any(ascii_lower(body), pending_discussion_markers())
}

/// The comment is a maintainer's and its body signals that the issue
/// still awaits a decision.
pub open spec fn is_pending_discussion(c: CommentMeta) -> bool {
    &&& is_maintainer(c)
    &&& c.body matches Some(b)
    &&& signals_pending_discussion(b@)
}

fn comment_signals_pending_discussion(body: &str) -> (b: bool)
    ensures
        b == signals_pending_discussion(body@),
{
    let lower = lower_of(body);
    let markers = pending_discussion_markers_list();
    contains_any_of(&lower, &markers)
}

/// Any maintainer comment on the issue carries a "discuss-first /
/// needs-proposal / not-yet-decided" signal. Only maintainer-authored
/// comments count; comments with no body don't match.
pub fn pending_discussion_in_maintainer_comments(comments: &[CommentMeta]) -> (b: bool)
    ensures
        b == exists|i: int|
            0 <= i < comments@.len() && #[trigger] is_pending_discussion(comments@[i]),
{
    let mut i: usize = 0;
    while i < comments.len()
        invariant
            i <= comments.len(),
            forall|j: int| 0 <= j < i ==> !#[trigger] is_pending_discussion(comments@[j]),
        decreases comments.len() - i,
    {
        let c = &comments[i];
        if is_maintainer_comment(c) {
            match &c.body {
                Some(body) => {
                    if comment_signals_pending_discussion(body.as_str()) {
                        assert(is_pending_discussion(comments@[i as int]));
                        return true;
                    }
                },
                None => {},
            }
        }
        i += 1;
    }
    false
}

// ---------------------------------------------------------------------
// Timeline signals
// ---------------------------------------------------------------------

/// A `cross-referenced` event whose source is an open pull request.
pub open spec fn is_open_pr_xref(e: TimelineEvent) -> bool {
    &&& e.event@ == "cross-referenced"@
    &&& e.source matches Some(src)
    &&& src.issue matches Some(issue)
    &&& issue.pull_request is Some
    &&& issue.state@ == "open"@
}

fn is_open_pr_cross_reference(e: &TimelineEvent) -> (b: bool)
    ensures
        b == is_open_pr_xref(*e),
{
    if !str_eq(e.event.as_str(), "cross-referenced") {
        return false;
    }
    let source = match &e.source {
        Some(s) => s,
        None => return false,
    };
    let issue = match &source.issue {
        Some(i) => i,
        None => return false,
    };
    issue.pull_request.is_some() && str_eq(issue.state.as_str(), "open")
}

/// Whether any timeline event cross-references an open pull request.
/// Empty slice returns `false`.
pub fn crosslinked_open_pr_in_timeline(events: &[TimelineEvent]) -> (b: bool)
    ensures
        b == exists|i: int| 0 <= i < events@.len() && #[trigger] is_open_pr_xref(events@[i]),
{
    let mut i: usize = 0;
    while i < events.len()
        invariant
            i <= events.len(),
            forall|j: int| 0 <= j < i ==> !#[trigger] is_open_pr_xref(events@[j]),
        decreases events.len() - i,
    {
        if is_open_pr_cross_reference(&events[i]) {
            return true;
        }
        i += 1;
    }
    false
}

/// What `str::to_lowercase` returns: the Unicode lower-case mapping of
/// every character (context-dependent for final sigma).
pub uninterp spec fn unicode_lowercase(s: Seq<char>) -> Seq<char>;

/// `str::to_lowercase`. The contract says the result is the Unicode
/// lower-case mapping of the argument, named by `unicode_lowercase`;
/// what that mapping does to each character (std's Unicode tables) is
/// left unstated.
#[verifier::external_body]
fn to_lowercase(s: &str) -> (r: String)
    ensures
        r@ == unicode_lowercase(s@),
{
    s.to_lowercase()
}

/// A lower-cased login names GitHub's Copilot agent.
pub open spec fn copilot_login(lowered: Seq<char>) -> bool {
    lowered == "copilot"@ || lowered == "copilot-swe-agent"@
}

/// Whether an already lower-cased assignee login is `copilot` or
/// `copilot-swe-agent`.
pub fn is_copilot_login(lowered: &str) -> (b: bool)
    ensures
        b == copilot_login(lowered@),
{
    str_eq(lowered, "copilot") || str_eq(lowered, "copilot-swe-agent")
}

/// An `assigned` event whose assignee login, lower-cased, is `copilot`
/// or `copilot-swe-agent`.
pub open spec fn is_copilot_assigned(e: TimelineEvent) -> bool {
    &&& e.event@ == "assigned"@
    &&& e.assignee matches Some(a)
    &&& copilot_login(unicode_lowercase(a.login@))
}

fn is_copilot_assignment(e: &TimelineEvent) -> (b: bool)
    ensures
        b == is_copilot_assigned(*e),
{
    if !str_eq(e.event.as_str(), "assigned") {
        return false;
    }
    let assignee = match &e.assignee {
        Some(a) => a,
        None => return false,
    };
    let login = to_lowercase(assignee.login.as_str());
    is_copilot_login(login.as_str())
}

/// Whether any timeline event records an assignment to GitHub's
/// Copilot agent (`Copilot` or `copilot-swe-agent`, case-insensitive).
/// Empty slice returns `false`.
pub fn assigned_to_copilot_in_timeline(events: &[TimelineEvent]) -> (b: bool)
    ensures
        b == exists|i: int| 0 <= i < events@.len() && #[trigger] is_copilot_assigned(events@[i]),
{
    let mut i: usize = 0;
    while i < events.len()
        invariant
            i <= events.len(),
            forall|j: int| 0 <= j < i ==> !#[trigger] is_copilot_assigned(events@[j]),
        decreases events.len() - i,
    {
        if is_copilot_assignment(&events[i]) {
            return true;
        }
        i += 1;
    }
    false
}

/// A maintainer comment that signals pending discussion is, in
/// particular, a maintainer comment: whenever
/// `pending_discussion_in_maintainer_comments` holds of a thread,
/// `maintainer_in_comments` holds of it too.
pub proof fn pending_discussion_implies_maintainer(comments: Seq<CommentMeta>)
    requires
        exists|i: int| 0 <= i < comments.len() && #[trigger] is_pending_discussion(comments[i]),
    ensures
        exists|i: int| 0 <= i < comments.len() && #[trigger] is_maintainer(comments[i]),
{
    let i = choose|i: int| 0 <= i < comments.len() && #[trigger] is_pending_discussion(comments[i]);
    assert(is_maintainer(comments[i]));
}

// ---------------------------------------------------------------------
// Position independence of the text signals
// ---------------------------------------------------------------------

/// Lower-casing works character by character.
proof fn lemma_lower_concat(a: Seq<char>, x: Seq<char>, b: Seq<char>)
    ensures
        ascii_lower(a + x + b) == ascii_lower(a) + ascii_lower(x) + ascii_lower(b),
{
    assert(ascii_lower(a + x + b) =~= ascii_lower(a) + ascii_lower(x) + ascii_lower(b));
}

/// A pattern occurs where it is put.
proof fn lemma_contains_middle(a: Seq<char>, p: Seq<char>, b: Seq<char>)
    ensures
        contains_seq(a + p + b, p),
{
    assert((a + p + b).subrange(a.len() as int, a.len() + p.len() as int) =~= p);
    assert(occurs_at(a + p + b, p, a.len() as int));
}

/// An occurrence stays an occurrence with text added on either side.
proof fn lemma_contains_extend(s: Seq<char>, p: Seq<char>, a: Seq<char>, b: Seq<char>)
    requires
        contains_seq(s, p),
    ensures
        contains_seq(a + s + b, p),
{
    let i = choose|i: int| #[trigger] occurs_at(s, p, i);
    assert((a + s + b).subrange(a.len() + i, a.len() + i + p.len()) =~= s.subrange(i, i + p.len()));
    assert(occurs_at(a + s + b, p, a.len() + i));
}

/// Some marker of `markers` stays present with text added on either
/// side of the lower-cased body.
proof fn lemma_any_extend(body: Seq<char>, markers: Seq<&'static str>, a: Seq<char>, b: Seq<char>)
    requires
        contains_any(ascii_lower(body), markers),
    ensures
        contains_any(ascii_lower(a + body + b), markers),
{
    let k = choose|k: int| 0 <= k < markers.len() && #[trigger] contains_seq(ascii_lower(body), markers[k]@);
    lemma_lower_concat(a, body, b);
    lemma_contains_extend(ascii_lower(body), markers[k]@, ascii_lower(a), ascii_lower(b));
}

/// Text whose lower-cased form is a marker, anywhere in a body, makes
/// the lower-cased body contain that marker.
proof fn lemma_any_middle(a: Seq<char>, x: Seq<char>, b: Seq<char>, markers: Seq<&'static str>, k: int)
    requires
        0 <= k < markers.len(),
        ascii_lower(x) == markers[k]@,
    ensures
        contains_any(ascii_lower(a + x + b), markers),
{
    lemma_lower_concat(a, x, b);
    lemma_contains_middle(ascii_lower(a), markers[k]@, ascii_lower(b));
}

/// A fenced code block anywhere in the body is a reproducer.
pub proof fn fence_anywhere_is_reproducer(a: Seq<char>, b: Seq<char>)
    ensures
        reproducer_in(a + "```"@ + b),
{
    lemma_contains_middle(a, "```"@, b);
}

/// A reproduction cue anywhere in the body, in any ASCII case, is a
/// reproducer: `x` lower-cases to the `k`-th cue, and text of any
/// length may stand before and after it.
pub proof fn cue_anywhere_is_reproducer(a: Seq<char>, x: Seq<char>, b: Seq<char>, k: int)
    requires
        0 <= k < reproducer_cues().len(),
        ascii_lower(x) == reproducer_cues()[k]@,
    ensures
        reproducer_in(a + x + b),
{
    lemma_any_middle(a, x, b, reproducer_cues(), k);
}

/// Adding text before or after a body never loses its reproducer.
pub proof fn reproducer_survives_more_text(body: Seq<char>, a: Seq<char>, b: Seq<char>)
    requires
        reproducer_in(body),
    ensures
        reproducer_in(a + body + b),
{
    if contains_seq(body, "```"@) {
        lemma_contains_extend(body, "```"@, a, b);
    } else {
        lemma_any_extend(body, reproducer_cues(), a, b);
    }
}

/// A cause phrase anywhere in the body, in any ASCII case, names a
/// root cause.
pub proof fn phrase_anywhere_is_root_cause(a: Seq<char>, x: Seq<char>, b: Seq<char>, k: int)
    requires
        0 <= k < root_cause_phrases().len(),
        ascii_lower(x) == root_cause_phrases()[k]@,
    ensures
        root_cause_in(a + x + b),
{
    lemma_any_middle(a, x, b, root_cause_phrases(), k);
}

/// A pending-discussion marker anywhere in a maintainer's comment, in
/// any ASCII case, makes the comment a pending-discussion signal, and
/// so the thread holding it.
pub proof fn marker_anywhere_signals_pending(
    comments: Seq<CommentMeta>,
    i: int,
    a: Seq<char>,
    x: Seq<char>,
    b: Seq<char>,
    k: int,
)
    requires
        0 <= i < comments.len(),
        is_maintainer(comments[i]),
        comments[i].body matches Some(t) && t@ == a + x + b,
        0 <= k < pending_discussion_markers().len(),
        ascii_lower(x) == pending_discussion_markers()[k]@,
    ensures
        signals_pending_discussion(a + x + b),
        is_pending_discussion(comments[i]),
        exists|j: int| 0 <= j < comments.len() && #[trigger] is_pending_discussion(comments[j]),
{
    lemma_any_middle(a, x, b, pending_discussion_markers(), k);
    assert(is_pending_discussion(comments[i]));
}

/// Adding text before or after a comment body never loses its
/// pending-discussion signal.
pub proof fn pending_survives_more_text(body: Seq<char>, a: Seq<char>, b: Seq<char>)
    requires
        signals_pending_discussion(body),
    ensures
        signals_pending_discussion(a + body + b),
{
    lemma_any_extend(body, pending_discussion_markers(), a, b);
}

/// `m` is one of the CONTRIBUTING blockers: a CLA, discuss-first,
/// AI-ban or label-gate marker.
pub open spec fn blocking_marker(m: Seq<char>) -> bool {
    ||| exists|k: int| 0 <= k < cla_markers().len() && m == #[trigger] cla_markers()[k]@
    ||| exists|k: int| 0 <= k < gate_markers().len() && m == #[trigger] gate_markers()[k]@
    ||| exists|k: int| 0 <= k < ai_ban_markers().len() && m == #[trigger] ai_ban_markers()[k]@
    ||| exists|k: int| 0 <= k < label_gate_markers().len() && m == #[trigger] label_gate_markers()[k]@
}

/// A blocker anywhere in a CONTRIBUTING text, in any ASCII case and
/// however long the text around it, makes the text not ok.
pub proof fn blocker_anywhere_not_ok(a: Seq<char>, x: Seq<char>, b: Seq<char>)
    requires
        blocking_marker(ascii_lower(x)),
    ensures
        !contributing_ok_in(a + x + b),
{
    let m = ascii_lower(x);
    if exists|k: int| 0 <= k < cla_markers().len() && m == #[trigger] cla_markers()[k]@ {
        let k = choose|k: int| 0 <= k < cla_markers().len() && m == #[trigger] cla_markers()[k]@;
        lemma_any_middle(a, x, b, cla_markers(), k);
    } else if exists|k: int| 0 <= k < gate_markers().len() && m == #[trigger] gate_markers()[k]@ {
        let k = choose|k: int| 0 <= k < gate_markers().len() && m == #[trigger] gate_markers()[k]@;
        lemma_any_middle(a, x, b, gate_markers(), k);
    } else if exists|k: int| 0 <= k < ai_ban_markers().len() && m == #[trigger] ai_ban_markers()[k]@ {
        let k = choose|k: int| 0 <= k < ai_ban_markers().len() && m == #[trigger] ai_ban_markers()[k]@;
        lemma_any_middle(a, x, b, ai_ban_markers(), k);
    } else {
        let k = choose|k: int|
            0 <= k < label_gate_markers().len() && m == #[trigger] label_gate_markers()[k]@;
        lemma_any_middle(a, x, b, label_gate_markers(), k);
    }
}

/// Adding text before or after a CONTRIBUTING text that is not ok
/// never makes it ok.
pub proof fn not_ok_survives_more_text(body: Seq<char>, a: Seq<char>, b: Seq<char>)
    requires
        !contributing_ok_in(body),
    ensures
        !contributing_ok_in(a + body + b),
{
    let lower = ascii_lower(body);
    if contains_any(lower, cla_markers()) {
        lemma_any_extend(body, cla_markers(), a, b);
    } else if contains_any(lower, gate_markers()) {
        lemma_any_extend(body, gate_markers(), a, b);
    } else if contains_any(lower, ai_ban_markers()) {
        lemma_any_extend(body, ai_ban_markers(), a, b);
    } else {
        lemma_any_extend(body, label_gate_markers(), a, b);
    }
}

// ---------------------------------------------------------------------
// Vocabulary
// ---------------------------------------------------------------------

/// Prose cues (matched against the lower-cased body) that the reporter
/// wrote out reproduction steps.
pub open spec fn reproducer_cues() -> Seq<&'static str> {
    seq![
        "reproduce",
        "minimal example",
        "to repro",
    ]
}

fn reproducer_cues_list() -> (v: Vec<&'static str>)
    ensures
        v@ == reproducer_cues(),
{
    let mut v: Vec<&'static str> = Vec::new();
    v.push("reproduce");
    v.push("minimal example");
    v.push("to repro");
    assert(v@ =~= reproducer_cues());
    v
}

/// Phrases (matched against the lower-cased body) that name a cause.
pub open spec fn root_cause_phrases() -> Seq<&'static str> {
    seq![
        "root cause",
        "caused by",
    ]
}

fn root_cause_phrases_list() -> (v: Vec<&'static str>)
    ensures
        v@ == root_cause_phrases(),
{
    let mut v: Vec<&'static str> = Vec::new();
    v.push("root cause");
    v.push("caused by");
    assert(v@ =~= root_cause_phrases());
    v
}

/// Source-file extensions, each followed by the `:` of a `path.ext:line`
/// pointer.
pub open spec fn source_extensions() -> Seq<&'static str> {
    seq![
        ".rs:",
        ".py:",
        ".ts:",
        ".tsx:",
        ".js:",
        ".jsx:",
        ".go:",
        ".java:",
        ".c:",
        ".cc:",
        ".cpp:",
        ".cxx:",
        ".h:",
        ".hpp:",
        ".rb:",
        ".kt:",
        ".swift:",
        ".mjs:",
        ".cjs:",
    ]
}

fn source_extensions_list() -> (v: Vec<&'static str>)
    ensures
        v@ == source_extensions(),
{
    let mut v: Vec<&'static str> = Vec::new();
    v.push(".rs:");
    v.push(".py:");
    v.push(".ts:");
    v.push(".tsx:");
    v.push(".js:");
    v.push(".jsx:");
    v.push(".go:");
    v.push(".java:");
    v.push(".c:");
    v.push(".cc:");
    v.push(".cpp:");
    v.push(".cxx:");
    v.push(".h:");
    v.push(".hpp:");
    v.push(".rb:");
    v.push(".kt:");
    v.push(".swift:");
    v.push(".mjs:");
    v.push(".cjs:");
    assert(v@ =~= source_extensions());
    v
}

/// Labels that mark an issue as low effort.
pub open spec fn low_effort_labels() -> Seq<&'static str> {
    seq![
        "good first issue",
        "help wanted",
        "effort/low",
        "effort/medium",
        "easy",
        "beginner",
        "beginner-friendly",
        "low-hanging-fruit",
    ]
}

fn low_effort_labels_list() -> (v: Vec<&'static str>)
    ensures
        v@ == low_effort_labels(),
{
    let mut v: Vec<&'static str> = Vec::new();
    v.push("good first issue");
    v.push("help wanted");
    v.push("effort/low");
    v.push("effort/medium");
    v.push("easy");
    v.push("beginner");
    v.push("beginner-friendly");
    v.push("low-hanging-fruit");
    assert(v@ =~= low_effort_labels());
    v
}

/// Labels that say the issue is not an actionable bug.
pub open spec fn non_effort_labels() -> Seq<&'static str> {
    seq![
        "enhancement",
        "question",
        "design",
        "rfc",
        "discussion",
    ]
}

fn non_effort_labels_list() -> (v: Vec<&'static str>)
    ensures
        v@ == non_effort_labels(),
{
    let mut v: Vec<&'static str> = Vec::new();
    v.push("enhancement");
    v.push("question");
    v.push("design");
    v.push("rfc");
    v.push("discussion");
    assert(v@ =~= non_effort_labels());
    v
}

/// Contributor License Agreement vocabulary.
pub open spec fn cla_markers() -> Seq<&'static str> {
    seq![
        "contributor license agreement",
        "contributor licence agreement",
        "cla-assistant",
        "cla assistant",
        "easycla",
        "eclipse contributor agreement",
        "individual contributor license",
        "sign a cla",
        "sign our cla",
        "sign the cla",
        "accept our cla",
    ]
}

fn cla_markers_list() -> (v: Vec<&'static str>)
    ensures
        v@ == cla_markers(),
{
    let mut v: Vec<&'static str> = Vec::new();
    v.push("contributor license agreement");
    v.push("contributor licence agreement");
    v.push("cla-assistant");
    v.push("cla assistant");
    v.push("easycla");
    v.push("eclipse contributor agreement");
    v.push("individual contributor license");
    v.push("sign a cla");
    v.push("sign our cla");
    v.push("sign the cla");
    v.push("accept our cla");
    assert(v@ =~= cla_markers());
    v
}

/// "Talk to us before you send a PR" gates.
pub open spec fn gate_markers() -> Seq<&'static str> {
    seq![
        "please open an issue first",
        "please open an issue before",
        "please discuss first",
        "please discuss before",
        "please contact us first",
        "please contact us before",
        "please email us first",
        "please email us before",
        "please reach out first",
        "please reach out before",
    ]
}

fn gate_markers_list() -> (v: Vec<&'static str>)
    ensures
        v@ == gate_markers(),
{
    let mut v: Vec<&'static str> = Vec::new();
    v.push("please open an issue first");
    v.push("please open an issue before");
    v.push("please discuss first");
    v.push("please discuss before");
    v.push("please contact us first");
    v.push("please contact us before");
    v.push("please email us first");
    v.push("please email us before");
    v.push("please reach out first");
    v.push("please reach out before");
    assert(v@ =~= gate_markers());
    v
}

/// Categorical refusals of AI-implemented or autonomous-agent
/// contributions.
pub open spec fn ai_ban_markers() -> Seq<&'static str> {
    seq![
        "implemented by an ai",
        "implemented by ai",
        "generated by an ai",
        "generated by ai",
        "written by an ai",
        "written by ai",
        "do not vibecode",
        "do not allow autonomous agents",
        "no autonomous agents",
        "no ai-generated",
        "no ai generated",
        "ai-generated content will not",
        "ai generated content will not",
        "ai-generated contributions will not",
        "ai generated contributions will not",
        "will close any pull requests that we believe were created autonomously",
    ]
}

fn ai_ban_markers_list() -> (v: Vec<&'static str>)
    ensures
        v@ == ai_ban_markers(),
{
    let mut v: Vec<&'static str> = Vec::new();
    v.push("implemented by an ai");
    v.push("implemented by ai");
    v.push("generated by an ai");
    v.push("generated by ai");
    v.push("written by an ai");
    v.push("written by ai");
    v.push("do not vibecode");
    v.push("do not allow autonomous agents");
    v.push("no autonomous agents");
    v.push("no ai-generated");
    v.push("no ai generated");
    v.push("ai-generated content will not");
    v.push("ai generated content will not");
    v.push("ai-generated contributions will not");
    v.push("ai generated contributions will not");
    v.push("will close any pull requests that we believe were created autonomously");
    assert(v@ =~= ai_ban_markers());
    v
}

/// Declarations that pull requests are accepted only for issues that
/// carry a specific label.
pub open spec fn label_gate_markers() -> Seq<&'static str> {
    seq![
        "we accept pull requests for issues labelled",
        "we accept pull requests for issues labeled",
        "we only accept pull requests for issues labelled",
        "we only accept pull requests for issues labeled",
        "pull request for issues without the",
        "pull requests for issues without the",
        "open a pull request for any issue without",
        "open pull requests for any issue without",
        "external pull requests will not be accepted",
    ]
}

fn label_gate_markers_list() -> (v: Vec<&'static str>)
    ensures
        v@ == label_gate_markers(),
{
    let mut v: Vec<&'static str> = Vec::new();
    v.push("we accept pull requests for issues labelled");
    v.push("we accept pull requests for issues labeled");
    v.push("we only accept pull requests for issues labelled");
    v.push("we only accept pull requests for issues labeled");
    v.push("pull request for issues without the");
    v.push("pull requests for issues without the");
    v.push("open a pull request for any issue without");
    v.push("open pull requests for any issue without");
    v.push("external pull requests will not be accepted");
    assert(v@ =~= label_gate_markers());
    v
}

/// Maintainer phrasings that say the issue is not ready for a PR yet.
pub open spec fn pending_discussion_markers() -> Seq<&'static str> {
    seq![
        "this should be an issue",
        "this should be a proposal",
        "this should be an rfc",
        "let's discuss this first",
        "let's discuss this before",
        "let us discuss this first",
        "needs an rfc",
        "needs a proposal first",
        "needs design discussion",
        "needs a design discussion",
        "open a proposal first",
        "open a proposal before",
        "before opening a pr",
        "before opening a pull request",
        "before implementing",
        "we need to decide",
        "we haven't decided",
        "we have not decided",
        "we haven't figured out",
        "we have not figured out",
        "haven't decided yet",
        "have not decided yet",
        "i'd want a proposal",
        "i would want a proposal",
        "i'd like a proposal",
        "i would like a proposal",
        "i'd want an rfc",
        "i would want an rfc",
    ]
}

fn pending_discussion_markers_list() -> (v: Vec<&'static str>)
    ensures
        v@ == pending_discussion_markers(),
{
    let mut v: Vec<&'static str> = Vec::new();
    v.push("this should be an issue");
    v.push("this should be a proposal");
    v.push("this should be an rfc");
    v.push("let's discuss this first");
    v.push("let's discuss this before");
    v.push("let us discuss this first");
    v.push("needs an rfc");
    v.push("needs a proposal first");
    v.push("needs design discussion");
    v.push("needs a design discussion");
    v.push("open a proposal first");
    v.push("open a proposal before");
    v.push("before opening a pr");
    v.push("before opening a pull request");
    v.push("before implementing");
    v.push("we need to decide");
    v.push("we haven't decided");
    v.push("we have not decided");
    v.push("we haven't figured out");
    v.push("we have not figured out");
    v.push("haven't decided yet");
    v.push("have not decided yet");
    v.push("i'd want a proposal");
    v.push("i would want a proposal");
    v.push("i'd like a proposal");
    v.push("i would like a proposal");
    v.push("i'd want an rfc");
    v.push("i would want an rfc");
    assert(v@ =~= pending_discussion_markers());
    v
}

} // verus!
