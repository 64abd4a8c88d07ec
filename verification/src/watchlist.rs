//! Watchlist parser. The watchlist is a YAML-shaped list of GitHub
//! repositories scout scans for issues. The format is intentionally
//! narrow:
//!
//! ```yaml
//! repos:
//!   - owner1/repo1
//!   - owner2/repo2
//! ```
//!
//! Plus `# comment` lines and blank lines, both ignored. Inline
//! comments (`- owner/repo  # main repo`) are also stripped.
//!
//! Strict-by-default: unknown top-level keys, missing leading `-`,
//! whitespace inside an entry, and duplicates are all errors. Empty
//! files and comments-only files parse as an empty watchlist.

use vstd::prelude::*;
use crate::text::{
    chars_of, find_char, find_in, has_ws, any_whitespace, line_ranges, lines, push_chars,
    seq_eq, spans, string_of, sub_vec, trim, trimmed,
};

verus! {

/// A parsed `OWNER/REPO` entry from the watchlist.
#[derive(Debug, Clone, PartialEq, Eq)]
pub struct WatchEntry {
    pub owner: String,
    pub repo: String,
}

/// A fully-parsed watchlist. Order matches the source order; duplicates
/// are rejected at parse time so this vector is unique.
#[derive(Debug, Clone, PartialEq, Eq)]
pub struct Watchlist {
    pub repos: Vec<WatchEntry>,
}

impl Default for Watchlist {
    fn default() -> (w: Self)
        ensures
            w.repos@.len() == 0,
    {
        Watchlist { repos: Vec::new() }
    }
}

/// Errors surfaced by the watchlist parser. Each variant carries the
/// 1-indexed line number where the problem was detected.
#[derive(Debug, Clone, PartialEq, Eq)]
pub enum WatchlistError {
    /// A non-blank line before `repos:` that is not `repos:`.
    UnexpectedTopLevel { line: usize, content: String },
    /// An entry line after `repos:` without the leading `-`.
    ExpectedDash { line: usize, content: String },
    /// An entry that is not exactly one `owner/repo` pair.
    MalformedEntry { line: usize, entry: String },
    /// `/repo` or `owner/`.
    EmptySegment { line: usize, entry: String },
    /// Whitespace inside an entry.
    InvalidChar { line: usize, entry: String },
    /// The same `owner/repo` a second time.
    Duplicate { line: usize, slug: String },
}

/// `WatchlistError` with its text fields as character sequences.
pub enum ErrorView {
    UnexpectedTopLevel { line: int, content: Seq<char> },
    ExpectedDash { line: int, content: Seq<char> },
    MalformedEntry { line: int, entry: Seq<char> },
    EmptySegment { line: int, entry: Seq<char> },
    InvalidChar { line: int, entry: Seq<char> },
    Duplicate { line: int, slug: Seq<char> },
}

impl View for WatchlistError {
    type V = ErrorView;

    open spec fn view(&self) -> ErrorView {
        match self {
            WatchlistError::UnexpectedTopLevel { line, content } => ErrorView::UnexpectedTopLevel {
                line: *line as int,
                content: content@,
            },
            WatchlistError::ExpectedDash { line, content } => ErrorView::ExpectedDash {
                line: *line as int,
                content: content@,
            },
            WatchlistError::MalformedEntry { line, entry } => ErrorView::MalformedEntry {
                line: *line as int,
                entry: entry@,
            },
            WatchlistError::EmptySegment { line, entry } => ErrorView::EmptySegment {
                line: *line as int,
                entry: entry@,
            },
            WatchlistError::InvalidChar { line, entry } => ErrorView::InvalidChar {
                line: *line as int,
                entry: entry@,
            },
            WatchlistError::Duplicate { line, slug } => ErrorView::Duplicate {
                line: *line as int,
                slug: slug@,
            },
        }
    }
}

/// An entry as `(owner, repo)` character sequences.
pub type EntryView = (Seq<char>, Seq<char>);

pub open spec fn entry_view(e: WatchEntry) -> EntryView {
    (e.owner@, e.repo@)
}

pub open spec fn entries_view(es: Seq<WatchEntry>) -> Seq<EntryView> {
    es.map_values(|e: WatchEntry| entry_view(e))
}

/// Anything from the first `#` to the end of the line is dropped.
pub open spec fn strip_comment(l: Seq<char>) -> Seq<char> {
    match find_char(l, '#') {
        Some(i) => l.take(i),
        None => l,
    }
}

/// What one trimmed, non-empty line after `repos:` denotes: the leading
/// `-` is required; the rest, trimmed, must be exactly `owner/repo` with
/// no whitespace, one slash, and two non-empty segments.
pub open spec fn entry_spec(t: Seq<char>, line: int) -> Result<EntryView, ErrorView> {
    if t.len() == 0 || t[0] != '-' {
        Err(ErrorView::ExpectedDash { line, content: t })
    } else {
        let body = trim(t.drop_first());
        if body.len() == 0 {
            Err(ErrorView::MalformedEntry { line, entry: body })
        } else if has_ws(body) {
            Err(ErrorView::InvalidChar { line, entry: body })
        } else {
            match find_char(body, '/') {
                None => Err(ErrorView::MalformedEntry { line, entry: body }),
                Some(i) => {
                    let owner = body.take(i);
                    let repo = body.skip(i + 1);
                    if find_char(repo, '/') is Some {
                        Err(ErrorView::MalformedEntry { line, entry: body })
                    } else if owner.len() == 0 || repo.len() == 0 {
                        Err(ErrorView::EmptySegment { line, entry: body })
                    } else {
                        Ok((owner, repo))
                    }
                },
            }
        }
    }
}

/// The parser's state after the first `k` lines of `ls`: whether
/// `repos:` has been seen, and the entries so far; or the first error.
pub open spec fn parse_lines(ls: Seq<Seq<char>>, k: nat) -> Result<(bool, Seq<EntryView>), ErrorView>
    decreases k,
{
    if k == 0 {
        Ok((false, Seq::empty()))
    } else {
        match parse_lines(ls, (k - 1) as nat) {
            Err(e) => Err(e),
            Ok((seen, entries)) => {
                let t = trim(strip_comment(ls[k - 1]));
                if t.len() == 0 {
                    Ok((seen, entries))
                } else if !seen {
                    if t == "repos:"@ {
                        Ok((true, entries))
                    } else {
                        Err(ErrorView::UnexpectedTopLevel { line: k as int, content: t })
                    }
                } else {
                    match entry_spec(t, k as int) {
                        Err(e) => Err(e),
                        Ok(e) => if entries.contains(e) {
                            Err(ErrorView::Duplicate { line: k as int, slug: e.0 + seq!['/'] + e.1 })
                        } else {
                            Ok((true, entries.push(e)))
                        },
                    }
                }
            },
        }
    }
}

/// What parsing `s` yields: the entries in source order, or the first
/// error.
pub open spec fn parse_spec(s: Seq<char>) -> Result<Seq<EntryView>, ErrorView> {
    let ls = lines(s);
    match parse_lines(ls, ls.len()) {
        Ok((_, entries)) => Ok(entries),
        Err(e) => Err(e),
    }
}

/// Once a line fails, the failure is the parser's answer.
proof fn lemma_error_sticks(ls: Seq<Seq<char>>, k: nat, m: nat)
    requires
        k <= m,
        parse_lines(ls, k) is Err,
    ensures
        parse_lines(ls, m) == parse_lines(ls, k),
    decreases m - k,
{
    if k < m {
        lemma_error_sticks(ls, k, (m - 1) as nat);
    }
}

/// No entry appears twice.
pub open spec fn unique(es: Seq<EntryView>) -> bool {
    forall|i: int, j: int| 0 <= i < j < es.len() ==> es[i] != es[j]
}

/// The parser never accepts the same `owner/repo` twice: every
/// intermediate state, and so every parsed watchlist, is duplicate-free.
pub proof fn parse_lines_unique(ls: Seq<Seq<char>>, k: nat)
    ensures
        parse_lines(ls, k) matches Ok((_, es)) ==> unique(es),
    decreases k,
{
    if k > 0 {
        parse_lines_unique(ls, (k - 1) as nat);
        if let Ok((seen, entries)) = parse_lines(ls, (k - 1) as nat) {
            let t = trim(strip_comment(ls[k - 1]));
            if t.len() != 0 && seen {
                if let Ok(e) = entry_spec(t, k as int) {
                    if !entries.contains(e) {
                        let es = entries.push(e);
                        assert forall|i: int, j: int| 0 <= i < j < es.len() implies es[i]
                            != es[j] by {
                            if j == es.len() - 1 {
                                assert(entries[i] == es[i]);
                            }
                        }
                    }
                }
            }
        }
    }
}

/// Parsed watchlists hold each `owner/repo` at most once.
pub proof fn parsed_watchlist_is_unique(s: Seq<char>)
    ensures
        parse_spec(s) matches Ok(es) ==> unique(es),
{
    parse_lines_unique(lines(s), lines(s).len());
}

/// An owner or repo as the parser accepts it: non-empty, with no `/`,
/// no `#` and no whitespace.
pub open spec fn plain_part(p: Seq<char>) -> bool {
    &&& p.len() > 0
    &&& !p.contains('/')
    &&& !p.contains('#')
    &&& !has_ws(p)
}

/// The non-blank contents of the first `k` lines: each line with its
/// comment removed and trimmed, blank ones left out.
pub open spec fn contents(ls: Seq<Seq<char>>, k: nat) -> Seq<Seq<char>>
    decreases k,
{
    if k == 0 {
        Seq::empty()
    } else {
        let t = trim(strip_comment(ls[k - 1]));
        if t.len() == 0 {
            contents(ls, (k - 1) as nat)
        } else {
            contents(ls, (k - 1) as nat).push(t)
        }
    }
}

proof fn lemma_no_char_of_first(s: Seq<char>, c: char, d: char, i: int)
    requires
        crate::text::is_first(s, c, i),
    ensures
        s.take(i).contains(d) ==> s.contains(d),
        !s.take(i).contains(c),
{
    if s.take(i).contains(d) {
        let j = choose|j: int| 0 <= j < s.take(i).len() && s.take(i)[j] == d;
        assert(s[j] == d);
    }
    if s.take(i).contains(c) {
        let j = choose|j: int| 0 <= j < s.take(i).len() && s.take(i)[j] == c;
        assert(s[j] == c);
    }
}

/// A line's content holds no `#`: the comment starts at the first one.
proof fn lemma_content_no_hash(l: Seq<char>)
    ensures
        !trim(strip_comment(l)).contains('#'),
{
    crate::text::lemma_find_char(l, '#');
    crate::text::lemma_trim_chars(strip_comment(l), '#');
    if let Some(i) = find_char(l, '#') {
        lemma_no_char_of_first(l, '#', '#', i);
    } else {
        if l.contains('#') {
            let j = choose|j: int| 0 <= j < l.len() && l[j] == '#';
        }
    }
}

/// An accepted entry line yields an owner and a repo of the accepted
/// shape, whatever its line number.
proof fn lemma_entry_shape(t: Seq<char>, line: int)
    requires
        !t.contains('#'),
        entry_spec(t, line) is Ok,
    ensures
        entry_spec(t, 0) == entry_spec(t, line),
        plain_part(entry_spec(t, line)->Ok_0.0),
        plain_part(entry_spec(t, line)->Ok_0.1),
{
    let body = trim(t.drop_first());
    crate::text::lemma_trim_chars(t.drop_first(), '#');
    if t.drop_first().contains('#') {
        let j = choose|j: int| 0 <= j < t.drop_first().len() && t.drop_first()[j] == '#';
        assert(t[j + 1] == '#');
    }
    crate::text::lemma_find_char(body, '/');
    let i = find_char(body, '/')->0;
    let owner = body.take(i);
    let repo = body.skip(i + 1);
    crate::text::lemma_find_char(repo, '/');
    assert forall|c: char| #[trigger] owner.contains(c) implies body.contains(c) by {
        let j = choose|j: int| 0 <= j < owner.len() && owner[j] == c;
        assert(body[j] == c);
    }
    assert forall|c: char| #[trigger] repo.contains(c) implies body.contains(c) by {
        let j = choose|j: int| 0 <= j < repo.len() && repo[j] == c;
        assert(body[i + 1 + j] == c);
    }
    lemma_no_char_of_first(body, '/', '/', i);
    if has_ws(owner) {
        let j = choose|j: int| 0 <= j < owner.len() && crate::text::is_ws(#[trigger] owner[j]);
        assert(body[j] == owner[j]);
    }
    if has_ws(repo) {
        let j = choose|j: int| 0 <= j < repo.len() && crate::text::is_ws(#[trigger] repo[j]);
        assert(body[i + 1 + j] == repo[j]);
    }
    if repo.contains('/') {
        let j = choose|j: int| 0 <= j < repo.len() && repo[j] == '/';
    }
}

/// What the parser keeps after `k` lines: before `repos:` no entries;
/// after it, the first content line is `repos:` and each later content
/// line is one entry, in order, of the accepted shape.
proof fn lemma_parse_lines_shape(ls: Seq<Seq<char>>, k: nat)
    requires
        k <= ls.len(),
    ensures
        parse_lines(ls, k) matches Ok((seen, es)) ==> {
            let c = contents(ls, k);
            &&& seen == (c.len() > 0)
            &&& !seen ==> es.len() == 0
            &&& seen ==> c[0] == "repos:"@ && es.len() + 1 == c.len()
            &&& forall|j: int| 0 <= j < es.len() ==> entry_spec(#[trigger] c[j + 1], 0) == Ok::<
                EntryView,
                ErrorView,
            >(es[j])
            &&& forall|j: int| 0 <= j < es.len() ==> plain_part(#[trigger] es[j].0) && plain_part(es[j].1)
        },
    decreases k,
{
    if k > 0 {
        lemma_parse_lines_shape(ls, (k - 1) as nat);
        let t = trim(strip_comment(ls[k - 1]));
        lemma_content_no_hash(ls[k - 1]);
        if let Ok((seen, es)) = parse_lines(ls, (k - 1) as nat) {
            let c0 = contents(ls, (k - 1) as nat);
            if t.len() != 0 && seen {
                if let Ok(e) = entry_spec(t, k as int) {
                    lemma_entry_shape(t, k as int);
                    let c = contents(ls, k);
                    assert(c == c0.push(t));
                    assert forall|j: int| 0 <= j < es.len() + 1 implies entry_spec(
                        #[trigger] c[j + 1],
                        0,
                    ) == Ok::<EntryView, ErrorView>(es.push(e)[j]) by {
                        if j < es.len() {
                            assert(c[j + 1] == c0[j + 1]);
                        }
                    }
                }
            }
        }
    }
}

/// What a parsed watchlist holds: every entry's owner and repo are
/// non-empty and free of `/`, `#` and whitespace; and, taking each line
/// with its comment removed and trimmed and leaving out blank ones,
/// either there is no such line and no entry, or the first is `repos:`
/// and each later one is one entry, in source order.
pub proof fn parsed_entries_follow_lines(s: Seq<char>)
    requires
        parse_spec(s) is Ok,
    ensures
        ({
            let es = parse_spec(s)->Ok_0;
            let c = contents(lines(s), lines(s).len());
            &&& forall|j: int| 0 <= j < es.len() ==> plain_part(#[trigger] es[j].0) && plain_part(es[j].1)
            &&& (c.len() == 0 && es.len() == 0) || (c[0] == "repos:"@ && es.len() + 1 == c.len())
            &&& forall|j: int| 0 <= j < es.len() ==> entry_spec(#[trigger] c[j + 1], 0) == Ok::<
                EntryView,
                ErrorView,
            >(es[j])
        }),
{
    lemma_parse_lines_shape(lines(s), lines(s).len());
}

/// One watchlist line as written canonically: `  - owner/repo`.
pub open spec fn listed_line(e: EntryView) -> Seq<char> {
    seq![' ', ' ', '-', ' '] + e.0 + seq!['/'] + e.1
}

/// The canonical lines for `es`, each ended by `\n`.
pub open spec fn listed_body(es: Seq<EntryView>) -> Seq<char>
    decreases es.len(),
{
    if es.len() == 0 {
        Seq::empty()
    } else {
        listed_body(es.drop_last()) + listed_line(es.last()) + seq!['\n']
    }
}

/// A watchlist written canonically: `repos:` and one `  - owner/repo`
/// line per entry.
pub open spec fn listed_watchlist(es: Seq<EntryView>) -> Seq<char> {
    "repos:"@ + seq!['\n'] + listed_body(es)
}

proof fn lemma_plain_not(p: Seq<char>, j: int)
    requires
        plain_part(p),
        0 <= j < p.len(),
    ensures
        p[j] != '/' && p[j] != '#' && !crate::text::is_ws(p[j]),
{
    if p[j] == '/' {
        assert(p.contains('/'));
    }
    if p[j] == '#' {
        assert(p.contains('#'));
    }
}

proof fn lemma_listed_lines(es: Seq<EntryView>)
    requires
        forall|j: int| 0 <= j < es.len() ==> plain_part(#[trigger] es[j].0) && plain_part(es[j].1),
    ensures
        crate::text::line_split(listed_watchlist(es)) == (seq!["repos:"@] + es.map_values(
            |e: EntryView| listed_line(e),
        ), Seq::<char>::empty()),
    decreases es.len(),
{
    reveal_strlit("repos:");
    if es.len() == 0 {
        crate::text::lemma_line_split_line(Seq::empty(), "repos:"@);
        assert(listed_watchlist(es) =~= Seq::<char>::empty() + "repos:"@ + seq!['\n']);
        assert(seq!["repos:"@] + es.map_values(|e: EntryView| listed_line(e)) =~= Seq::<
            Seq<char>,
        >::empty().push("repos:"@));
    } else {
        let prev = es.drop_last();
        lemma_listed_lines(prev);
        let e = es.last();
        let l = listed_line(e);
        assert forall|j: int| 0 <= j < l.len() implies #[trigger] l[j] != '\n' by {
            if 4 <= j < 4 + e.0.len() {
                lemma_plain_not(e.0, j - 4);
            } else if j > 4 + e.0.len() {
                lemma_plain_not(e.1, j - 5 - e.0.len());
            }
        }
        crate::text::lemma_line_split_line(listed_watchlist(prev), l);
        assert(listed_watchlist(es) =~= listed_watchlist(prev) + l + seq!['\n']);
        lemma_plain_not(e.1, e.1.len() - 1);
        assert(l.last() == e.1.last());
        assert(crate::text::strip_cr(l) == l);
        assert(es.map_values(|e: EntryView| listed_line(e)) =~= prev.map_values(
            |e: EntryView| listed_line(e),
        ).push(l));
    }
}

/// The content of a canonical entry line, and the entry it denotes.
proof fn lemma_listed_entry(e: EntryView, line: int)
    requires
        plain_part(e.0),
        plain_part(e.1),
    ensures
        trim(strip_comment(listed_line(e))) == seq!['-', ' '] + e.0 + seq!['/'] + e.1,
        entry_spec(seq!['-', ' '] + e.0 + seq!['/'] + e.1, line) == Ok::<EntryView, ErrorView>(e),
{
    let l = listed_line(e);
    let x = seq!['-', ' '] + e.0 + seq!['/'] + e.1;
    let body = e.0 + seq!['/'] + e.1;
    assert forall|j: int| 0 <= j < l.len() implies #[trigger] l[j] != '#' by {
        if 4 <= j < 4 + e.0.len() {
            lemma_plain_not(e.0, j - 4);
        } else if j > 4 + e.0.len() {
            lemma_plain_not(e.1, j - 5 - e.0.len());
        }
    }
    crate::text::lemma_find_char(l, '#');
    assert(strip_comment(l) == l);
    lemma_plain_not(e.1, e.1.len() - 1);
    lemma_plain_not(e.0, 0);
    assert(l =~= seq![' ', ' '] + x);
    crate::text::lemma_trim_lead(seq![' ', ' '], x);
    assert(x.drop_first() =~= seq![' '] + body);
    crate::text::lemma_trim_lead(seq![' '], body);
    assert forall|j: int| 0 <= j < body.len() implies !crate::text::is_ws(#[trigger] body[j]) by {
        if j < e.0.len() {
            lemma_plain_not(e.0, j);
        } else if j > e.0.len() {
            lemma_plain_not(e.1, j - 1 - e.0.len());
        }
    }
    assert forall|j: int| 0 <= j < e.0.len() implies body[j] != '/' by {
        lemma_plain_not(e.0, j);
    }
    assert(crate::text::is_first(body, '/', e.0.len() as int));
    crate::text::lemma_find_char(body, '/');
    crate::text::lemma_first_unique(body, '/', e.0.len() as int, find_char(body, '/')->0);
    assert(body.take(e.0.len() as int) =~= e.0);
    assert(body.skip(e.0.len() as int + 1) =~= e.1);
    crate::text::lemma_find_char(e.1, '/');
    if find_char(e.1, '/') is Some {
        lemma_plain_not(e.1, find_char(e.1, '/')->0);
    }
}

proof fn lemma_listed_parse(es: Seq<EntryView>, m: nat)
    requires
        m <= es.len(),
        unique(es),
        forall|j: int| 0 <= j < es.len() ==> plain_part(#[trigger] es[j].0) && plain_part(es[j].1),
    ensures
        parse_lines(seq!["repos:"@] + es.map_values(|e: EntryView| listed_line(e)), m + 1) == Ok::<
            (bool, Seq<EntryView>),
            ErrorView,
        >((true, es.take(m as int))),
    decreases m,
{
    reveal_strlit("repos:");
    let ls = seq!["repos:"@] + es.map_values(|e: EntryView| listed_line(e));
    if m == 0 {
        assert(ls[0] == "repos:"@);
        crate::text::lemma_find_char("repos:"@, '#');
        assert(strip_comment("repos:"@) == "repos:"@);
        crate::text::lemma_trim_lead(Seq::empty(), "repos:"@);
        assert(Seq::<char>::empty() + "repos:"@ =~= "repos:"@);
        assert(es.take(0) =~= Seq::<EntryView>::empty());
    } else {
        lemma_listed_parse(es, (m - 1) as nat);
        let e = es[m - 1];
        assert(ls[m as int] == listed_line(e));
        lemma_listed_entry(e, (m + 1) as int);
        let prev = es.take(m - 1);
        if prev.contains(e) {
            let j = choose|j: int| 0 <= j < prev.len() && prev[j] == e;
            assert(es[j] == es[m - 1]);
        }
        assert(es.take(m as int) =~= prev.push(e));
    }
}

/// A watchlist written canonically parses back to its entries: for
/// distinct entries whose owners and repos are non-empty and free of
/// `/`, `#` and whitespace, `repos:` followed by one `  - owner/repo`
/// line per entry parses to exactly those entries, in order.
pub proof fn listed_watchlist_parses_back(es: Seq<EntryView>)
    requires
        unique(es),
        forall|j: int| 0 <= j < es.len() ==> plain_part(#[trigger] es[j].0) && plain_part(es[j].1),
    ensures
        parse_spec(listed_watchlist(es)) == Ok::<Seq<EntryView>, ErrorView>(es),
{
    lemma_listed_lines(es);
    let ls = seq!["repos:"@] + es.map_values(|e: EntryView| listed_line(e));
    assert(lines(listed_watchlist(es)) == ls);
    lemma_listed_parse(es, es.len());
    assert(es.take(es.len() as int) =~= es);
}

fn line_error_entry(line: usize, kind: u8, entry: &Vec<char>) -> (e: WatchlistError)
    requires
        kind < 3,
    ensures
        kind == 0 ==> e@ == (ErrorView::MalformedEntry { line: line as int, entry: entry@ }),
        kind == 1 ==> e@ == (ErrorView::EmptySegment { line: line as int, entry: entry@ }),
        kind == 2 ==> e@ == (ErrorView::InvalidChar { line: line as int, entry: entry@ }),
{
    let text = string_of(entry);
    if kind == 0 {
        WatchlistError::MalformedEntry { line, entry: text }
    } else if kind == 1 {
        WatchlistError::EmptySegment { line, entry: text }
    } else {
        WatchlistError::InvalidChar { line, entry: text }
    }
}

/// Parse a single `- owner/repo` entry. The line is already trimmed
/// and known non-empty.
fn parse_entry(trimmed_line: &Vec<char>, line: usize) -> (r: Result<WatchEntry, WatchlistError>)
    requires
        trimmed_line@.len() > 0,
    ensures
        match entry_spec(trimmed_line@, line as int) {
            Ok(ev) => r matches Ok(e) && entry_view(e) == ev,
            Err(ev) => r matches Err(e) && e@ == ev,
        },
{
    if trimmed_line[0] != '-' {
        return Err(WatchlistError::ExpectedDash { line, content: string_of(trimmed_line) });
    }
    let rest = sub_vec(trimmed_line, 1, trimmed_line.len());
    assert(rest@ =~= trimmed_line@.drop_first());
    let body = trimmed(&rest);
    if body.len() == 0 {
        return Err(line_error_entry(line, 0, &body));
    }
    if any_whitespace(&body) {
        return Err(line_error_entry(line, 2, &body));
    }
    match find_in(&body, '/') {
        None => Err(line_error_entry(line, 0, &body)),
        Some(i) => {
            let owner = sub_vec(&body, 0, i);
            let repo = sub_vec(&body, i + 1, body.len());
            assert(owner@ =~= body@.take(i as int));
            assert(repo@ =~= body@.skip(i + 1));
            if find_in(&repo, '/').is_some() {
                Err(line_error_entry(line, 0, &body))
            } else if owner.len() == 0 || repo.len() == 0 {
                Err(line_error_entry(line, 1, &body))
            } else {
                Ok(WatchEntry { owner: string_of(&owner), repo: string_of(&repo) })
            }
        },
    }
}

fn contains_entry(repos: &Vec<WatchEntry>, e: &WatchEntry) -> (b: bool)
    ensures
        b == entries_view(repos@).contains(entry_view(*e)),
{
    let mut i: usize = 0;
    while i < repos.len()
        invariant
            i <= repos.len(),
            forall|j: int| 0 <= j < i ==> entry_view(#[trigger] repos@[j]) != entry_view(*e),
        decreases repos.len() - i,
    {
        if repos[i].owner == e.owner && repos[i].repo == e.repo {
            assert(entries_view(repos@)[i as int] == entry_view(*e));
            return true;
        }
        i += 1;
    }
    assert forall|j: int| 0 <= j < entries_view(repos@).len() implies entries_view(repos@)[j]
        != entry_view(*e) by {
        assert(entries_view(repos@)[j] == entry_view(repos@[j]));
    }
    false
}

/// Parse a watchlist string into a `Watchlist`. Empty input and
/// comments-only input both produce an empty watchlist.
pub fn parse(s: &str) -> (r: Result<Watchlist, WatchlistError>)
    ensures
        match parse_spec(s@) {
            Ok(es) => r matches Ok(wl) && entries_view(wl.repos@) == es,
            Err(ev) => r matches Err(e) && e@ == ev,
        },
        r matches Ok(wl) ==> unique(entries_view(wl.repos@)),
{
    proof {
        parsed_watchlist_is_unique(s@);
    }
    let v = chars_of(s);
    let ranges = line_ranges(&v);
    let ghost ls = lines(v@);
    let repos_key = chars_of("repos:");
    let mut repos: Vec<WatchEntry> = Vec::new();
    let mut seen = false;
    let mut idx: usize = 0;
    assert(entries_view(repos@) =~= Seq::<EntryView>::empty());
    while idx < ranges.len()
        invariant
            idx <= ranges.len(),
            v@ == s@,
            ls == lines(v@),
            repos_key@ == "repos:"@,
            spans(v@, ranges@, ls),
            parse_lines(ls, idx as nat) == Ok::<(bool, Seq<EntryView>), ErrorView>(
                (seen, entries_view(repos@)),
            ),
        decreases ranges.len() - idx,
    {
        let line_no = idx + 1;
        let (a, b) = ranges[idx];
        let raw = sub_vec(&v, a, b);
        let uncommented = match find_in(&raw, '#') {
            Some(p) => sub_vec(&raw, 0, p),
            None => raw,
        };
        assert(uncommented@ == strip_comment(ls[idx as int]));
        let t = trimmed(&uncommented);
        if t.len() == 0 {
            idx += 1;
            continue;
        }
        if !seen {
            if seq_eq(&t, &repos_key) {
                seen = true;
            } else {
                proof {
                    lemma_error_sticks(ls, (idx + 1) as nat, ls.len());
                }
                return Err(WatchlistError::UnexpectedTopLevel { line: line_no, content: string_of(&t) });
            }
        } else {
            let entry = match parse_entry(&t, line_no) {
                Ok(e) => e,
                Err(e) => {
                    proof {
                        lemma_error_sticks(ls, (idx + 1) as nat, ls.len());
                    }
                    return Err(e);
                },
            };
            if contains_entry(&repos, &entry) {
                let mut slug = String::new();
                push_chars(&mut slug, &chars_of(entry.owner.as_str()));
                crate::text::push_char(&mut slug, '/');
                push_chars(&mut slug, &chars_of(entry.repo.as_str()));
                assert(slug@ =~= entry.owner@ + seq!['/'] + entry.repo@);
                proof {
                    lemma_error_sticks(ls, (idx + 1) as nat, ls.len());
                }
                return Err(WatchlistError::Duplicate { line: line_no, slug });
            }
            let ghost before = repos@;
            repos.push(entry);
            assert(entries_view(repos@) =~= entries_view(before).push(entry_view(entry)));
        }
        idx += 1;
    }
    Ok(Watchlist { repos })
}

} // verus!
