//! `scout took` records a contribution in the local JSONL ledger so the
//! cooldown filter skips the issue on subsequent scans. This module
//! holds the parts of that command that compute: reading an
//! `OWNER/REPO#N` reference, rendering unix seconds as the ledger's
//! timestamp text, and framing one ledger line.

use vstd::prelude::*;
use crate::text::{
    chars_of, decimal, find_char, find_in, parse_u32_range, parse_u32_spec, push_char, push_chars,
    push_decimal, push_signed_padded, push_str, string_of, string_of_range,
};
use crate::time::{civil_from_days, iso_text, tdiv};
use crate::paths::{config_file, config_file_spec, opt_view};
use std::path::PathBuf;

verus! {

/// `std::time::SystemTimeError`, carried opaquely in error values.
#[verifier::external_type_specification]
#[verifier::external_body]
pub struct ExSystemTimeError(std::time::SystemTimeError);

/// Default `event` value for ledger lines written by `scout took`, and
/// the reading of legacy lines that pre-date the field.
pub const DEFAULT_EVENT: &'static str = "took";

/// A parsed `OWNER/REPO#N` reference.
#[derive(Debug, Clone, PartialEq, Eq)]
pub struct IssueRef {
    pub owner: String,
    pub repo: String,
    pub number: u32,
}

/// Issue-reference parse failures. The argument carries the offending
/// text so error messages can quote it back to the user.
#[derive(Debug, Clone, PartialEq, Eq)]
pub enum ParseError {
    /// No `#` anywhere in the reference (carries the whole reference).
    MissingHash(String),
    /// No `/` before the `#` (carries the whole reference).
    MissingSlash(String),
    /// The text after the `#` is not a `u32` (carries that text).
    BadNumber(String),
    /// Owner or repo is empty (carries the whole reference).
    EmptySegment(String),
}

/// `ParseError` with its text as a character sequence.
pub enum ParseErrorView {
    MissingHash(Seq<char>),
    MissingSlash(Seq<char>),
    BadNumber(Seq<char>),
    EmptySegment(Seq<char>),
}

impl View for ParseError {
    type V = ParseErrorView;

    open spec fn view(&self) -> ParseErrorView {
        match self {
            ParseError::MissingHash(s) => ParseErrorView::MissingHash(s@),
            ParseError::MissingSlash(s) => ParseErrorView::MissingSlash(s@),
            ParseError::BadNumber(s) => ParseErrorView::BadNumber(s@),
            ParseError::EmptySegment(s) => ParseErrorView::EmptySegment(s@),
        }
    }
}

/// What `OWNER/REPO#N` text denotes: the reference splits at its first
/// `#`; the part before splits at its first `/` into owner and repo,
/// both non-empty; the part after must read as a `u32`.
pub open spec fn issue_ref_spec(s: Seq<char>) -> Result<(Seq<char>, Seq<char>, u32), ParseErrorView> {
    match find_char(s, '#') {
        None => Err(ParseErrorView::MissingHash(s)),
        Some(h) => {
            let slug = s.take(h);
            let num = s.skip(h + 1);
            match find_char(slug, '/') {
                None => Err(ParseErrorView::MissingSlash(s)),
                Some(p) => {
                    let owner = slug.take(p);
                    let repo = slug.skip(p + 1);
                    if owner.len() == 0 || repo.len() == 0 {
                        Err(ParseErrorView::EmptySegment(s))
                    } else {
                        match parse_u32_spec(num) {
                            None => Err(ParseErrorView::BadNumber(num)),
                            Some(n) => Ok((owner, repo, n)),
                        }
                    }
                },
            }
        },
    }
}

/// The owner and repo of a parsed reference are non-empty and the
/// owner holds no `/`: the `OWNER/REPO` slug a take is recorded under
/// splits back into the same two parts.
pub proof fn parsed_ref_parts(s: Seq<char>)
    requires
        issue_ref_spec(s) is Ok,
    ensures
        ({
            let (owner, repo, n) = issue_ref_spec(s)->Ok_0;
            &&& owner.len() > 0
            &&& repo.len() > 0
            &&& !owner.contains('/')
        }),
{
    let h = find_char(s, '#')->0;
    let slug = s.take(h);
    crate::text::lemma_find_char(slug, '/');
    let p = find_char(slug, '/')->0;
    let owner = slug.take(p);
    assert forall|j: int| 0 <= j < owner.len() implies owner[j] != '/' by {
        assert(owner[j] == slug[j]);
    }
}

/// An `OWNER/REPO#N` reference written from its parts parses back to
/// them, when the owner holds no `/` or `#` and the repo no `#`.
pub proof fn issue_ref_round_trips(owner: Seq<char>, repo: Seq<char>, n: u32)
    requires
        owner.len() > 0,
        repo.len() > 0,
        !owner.contains('/'),
        !owner.contains('#'),
        !repo.contains('#'),
    ensures
        issue_ref_spec(owner + seq!['/'] + repo + seq!['#'] + decimal(n as nat)) == Ok::<
            (Seq<char>, Seq<char>, u32),
            ParseErrorView,
        >((owner, repo, n)),
{
    let d = decimal(n as nat);
    let slug = owner + seq!['/'] + repo;
    let s = slug + seq!['#'] + d;
    let h = slug.len() as int;
    assert forall|j: int| 0 <= j < h implies s[j] != '#' by {
        assert(s[j] == slug[j]);
        if j < owner.len() {
            assert(slug[j] == owner[j]);
            if owner[j] == '#' {
                assert(owner.contains('#'));
            }
        } else if j > owner.len() {
            assert(slug[j] == repo[j - owner.len() - 1]);
            if repo[j - owner.len() - 1] == '#' {
                assert(repo.contains('#'));
            }
        }
    }
    assert(crate::text::is_first(s, '#', h));
    crate::text::lemma_find_char(s, '#');
    crate::text::lemma_first_unique(s, '#', h, find_char(s, '#')->0);
    assert(s.take(h) =~= slug);
    assert(s.skip(h + 1) =~= d);
    assert forall|j: int| 0 <= j < owner.len() implies slug[j] != '/' by {
        assert(slug[j] == owner[j]);
        if owner[j] == '/' {
            assert(owner.contains('/'));
        }
    }
    assert(crate::text::is_first(slug, '/', owner.len() as int));
    crate::text::lemma_find_char(slug, '/');
    crate::text::lemma_first_unique(slug, '/', owner.len() as int, find_char(slug, '/')->0);
    assert(slug.take(owner.len() as int) =~= owner);
    assert(slug.skip(owner.len() as int + 1) =~= repo);
    crate::text::lemma_decimal_value(n as nat);
    assert(crate::text::is_digit(d[0]));
}

/// Parse a reference of the form `OWNER/REPO#N`. Owner and repo segments
/// must be non-empty; the number must be a `u32`.
pub fn parse_issue_ref(s: &str) -> (r: Result<IssueRef, ParseError>)
    ensures
        match issue_ref_spec(s@) {
            Ok((owner, repo, n)) => r matches Ok(i) && i.owner@ == owner && i.repo@ == repo
                && i.number == n,
            Err(ev) => r matches Err(e) && e@ == ev,
        },
{
    let v = chars_of(s);
    let h = match find_in(&v, '#') {
        Some(h) => h,
        None => return Err(ParseError::MissingHash(string_of(&v))),
    };
    let ghost slug = v@.take(h as int);
    let p = match find_in(&v, '/') {
        Some(p) => {
            if p < h {
                p
            } else {
                assert forall|j: int| 0 <= j < slug.len() implies slug[j] != '/' by {}
                proof {
                    crate::text::lemma_find_char(slug, '/');
                }
                return Err(ParseError::MissingSlash(string_of(&v)));
            }
        },
        None => {
            proof {
                crate::text::lemma_find_char(slug, '/');
            }
            return Err(ParseError::MissingSlash(string_of(&v)));
        },
    };
    proof {
        crate::text::lemma_find_char(slug, '/');
        assert(crate::text::is_first(slug, '/', p as int));
        crate::text::lemma_first_unique(slug, '/', p as int, find_char(slug, '/')->0);
    }
    if p == 0 || p + 1 == h {
        assert(slug.take(p as int).len() == 0 || slug.skip(p + 1).len() == 0);
        return Err(ParseError::EmptySegment(string_of(&v)));
    }
    let number = match parse_u32_range(&v, h + 1, v.len()) {
        Some(n) => n,
        None => {
            assert(v@.subrange(h + 1, v@.len() as int) =~= v@.skip(h + 1));
            return Err(ParseError::BadNumber(string_of_range(&v, h + 1, v.len())));
        },
    };
    assert(v@.subrange(h + 1, v@.len() as int) =~= v@.skip(h + 1));
    let owner = string_of_range(&v, 0, p);
    let repo = string_of_range(&v, p + 1, h);
    assert(owner@ =~= slug.take(p as int));
    assert(repo@ =~= slug.skip(p + 1));
    Ok(IssueRef { owner, repo, number })
}

// ---------------------------------------------------------------------
// Timestamps
// ---------------------------------------------------------------------

/// `i64::div_euclid(x, 86_400)` and `i64::rem_euclid(x, 86_400)`.
fn day_and_second(x: i64) -> (r: (i64, i64))
    ensures
        r.0 == x / 86400,
        r.1 == x % 86400,
{
    let q = x / 86_400;
    let rm = x % 86_400;
    if rm < 0 {
        (q - 1, rm + 86_400)
    } else {
        (q, rm)
    }
}

/// `(year, month, day)` of the day `day` after 1970-01-01, computed as
/// `civil_from_days` states, in `i64`.
fn civil_parts(day: i64) -> (r: (i64, i64, i64))
    requires
        -106_751_991_167_301 <= day <= 106_751_991_167_300,
    ensures
        (r.0 as int, r.1 as int, r.2 as int) == civil_from_days(day as int),
        r.0 > i64::MIN,
{
    let jdn = day + 2_440_588;
    let l0 = jdn + 68_569;
    let n = (4 * l0) / 146_097;
    let l1 = l0 - (146_097 * n + 3) / 4;
    assert(-40_000 <= l1 <= 40_000);
    let i = (4_000 * (l1 + 1)) / 1_461_001;
    let l2 = l1 - (1_461 * i) / 4 + 31;
    let j = (80 * l2) / 2_447;
    let d = l2 - (2_447 * j) / 80;
    let l3 = j / 11;
    let mo = j + 2 - 12 * l3;
    let y = 100 * (n - 49) + i + l3;
    (y, mo, d)
}

/// Format unix-seconds as `YYYY-MM-DDTHH:MM:SSZ`, the inverse of
/// `infer::parse_iso8601_z` (see `time::iso_text_round_trips`). The
/// date uses the inverse-Julian-Day formula; the time of day is integer
/// arithmetic on the seconds of the day.
pub fn format_iso8601_z(unix_secs: i64) -> (s: String)
    ensures
        s@ == iso_text(unix_secs as int),
{
    let (day, secs_in_day) = day_and_second(unix_secs);
    let h = secs_in_day / 3_600;
    let mi = (secs_in_day % 3_600) / 60;
    let se = secs_in_day % 60;
    let (y, mo, d) = civil_parts(day);
    let mut out = String::new();
    push_signed_padded(&mut out, y, 4);
    push_char(&mut out, '-');
    push_signed_padded(&mut out, mo, 2);
    push_char(&mut out, '-');
    push_signed_padded(&mut out, d, 2);
    push_char(&mut out, 'T');
    push_signed_padded(&mut out, h, 2);
    push_char(&mut out, ':');
    push_signed_padded(&mut out, mi, 2);
    push_char(&mut out, ':');
    push_signed_padded(&mut out, se, 2);
    push_char(&mut out, 'Z');
    assert(out@ =~= iso_text(unix_secs as int));
    out
}

// ---------------------------------------------------------------------
// Ledger lines
// ---------------------------------------------------------------------

/// A lower-case hexadecimal digit.
pub open spec fn hex_digit(n: int) -> char {
    if n < 10 {
        (('0' as int) + n) as char
    } else {
        (('a' as int) + n - 10) as char
    }
}

/// How serde_json writes one character inside a JSON string: `"` and
/// `\` get a backslash; backspace, tab, line feed, form feed and
/// carriage return become `\b \t \n \f \r`; every other character
/// below U+0020 becomes `\u00` and two lower-case hex digits; every
/// other character is copied.
pub open spec fn json_escape_char(c: char) -> Seq<char> {
    if c == '"' {
        seq!['\\', '"']
    } else if c == '\\' {
        seq!['\\', '\\']
    } else if c == '\u{8}' {
        seq!['\\', 'b']
    } else if c == '\t' {
        seq!['\\', 't']
    } else if c == '\n' {
        seq!['\\', 'n']
    } else if c == '\u{c}' {
        seq!['\\', 'f']
    } else if c == '\r' {
        seq!['\\', 'r']
    } else if (c as int) < 0x20 {
        seq!['\\', 'u', '0', '0', hex_digit((c as int) / 16), hex_digit((c as int) % 16)]
    } else {
        seq![c]
    }
}

/// The characters of `s`, each escaped as serde_json escapes it.
pub open spec fn json_escape(s: Seq<char>) -> Seq<char>
    decreases s.len(),
{
    if s.len() == 0 {
        Seq::empty()
    } else {
        json_escape(s.drop_last()) + json_escape_char(s.last())
    }
}

/// What `serde_json::to_string` writes for a string: the escaped
/// characters between double quotes.
pub open spec fn json_string(s: Seq<char>) -> Seq<char> {
    seq!['"'] + json_escape(s) + seq!['"']
}

/// `serde_json::to_string` on a `&str`. The contract says that it
/// succeeds (serde_json writes a string into a growing byte vector,
/// which cannot fail) and that the result is `json_string` of the
/// argument: serde_json's escape table, which escapes only `"`, `\`
/// and the characters below U+0020 (bytes of multi-byte characters are
/// all 0x80 or above and pass through).
#[verifier::external_body]
fn json_quoted(s: &str) -> (r: Result<String, serde_json::Error>)
    ensures
        r is Ok,
        r matches Ok(j) ==> j@ == json_string(s@),
{
    serde_json::to_string(s)
}

/// The ledger line for one take: a compact JSON object with the fields
/// `repo`, `number`, `timestamp` and `event`, in that order, and a
/// trailing newline.
pub open spec fn ledger_line_spec(repo: Seq<char>, number: u32, timestamp: Seq<char>, event: Seq<
    char,
>) -> Seq<char> {
    framed_line(json_string(repo), number, json_string(timestamp), json_string(event))
}

/// Frame the JSONL ledger line recording `issue` at `timestamp_iso`,
/// tagged with `event` (e.g. `"took"`, `"dropped"`): the line shape is
/// `{"repo":"o/r","number":N,"timestamp":"…Z","event":"…"}` plus `\n`,
/// the JSON string literals written by serde_json.
pub fn ledger_entry_line(issue: &IssueRef, timestamp_iso: &str, event: &str) -> (line: String)
    ensures
        line@ == ledger_line_spec(
            issue.owner@ + seq!['/'] + issue.repo@,
            issue.number,
            timestamp_iso@,
            event@,
        ),
{
    let mut slug = String::new();
    push_str(&mut slug, issue.owner.as_str());
    push_char(&mut slug, '/');
    push_str(&mut slug, issue.repo.as_str());
    let repo_json = unwrap_json(json_quoted(slug.as_str()));
    let ts_json = unwrap_json(json_quoted(timestamp_iso));
    let event_json = unwrap_json(json_quoted(event));
    assert(slug@ =~= issue.owner@ + seq!['/'] + issue.repo@);
    frame_ledger_line(repo_json.as_str(), issue.number, ts_json.as_str(), event_json.as_str())
}

/// The ledger line around already-quoted JSON string literals.
pub open spec fn framed_line(repo_json: Seq<char>, number: u32, ts_json: Seq<char>, event_json: Seq<
    char,
>) -> Seq<char> {
    "{\"repo\":"@ + repo_json + ",\"number\":"@ + decimal(number as nat) + ",\"timestamp\":"@
        + ts_json + ",\"event\":"@ + event_json + "}\n"@
}

/// Assemble one ledger line from the JSON string literals of its
/// `repo`, `timestamp` and `event` fields and its issue number.
pub fn frame_ledger_line(repo_json: &str, number: u32, ts_json: &str, event_json: &str) -> (line:
    String)
    ensures
        line@ == framed_line(repo_json@, number, ts_json@, event_json@),
{
    let mut line = String::new();
    push_str(&mut line, "{\"repo\":");
    push_str(&mut line, repo_json);
    push_str(&mut line, ",\"number\":");
    push_decimal(&mut line, number as u64);
    push_str(&mut line, ",\"timestamp\":");
    push_str(&mut line, ts_json);
    push_str(&mut line, ",\"event\":");
    push_str(&mut line, event_json);
    push_str(&mut line, "}\n");
    assert(line@ =~= framed_line(repo_json@, number, ts_json@, event_json@));
    line
}

/// The text of a serialization that succeeded.
fn unwrap_json(r: Result<String, serde_json::Error>) -> (s: String)
    requires
        r is Ok,
    ensures
        r matches Ok(t) && s == t,
{
    match r {
        Ok(t) => t,
        Err(_) => {
            assert(false);
            String::new()
        },
    }
}

// ---------------------------------------------------------------------
// Default ledger path and errors
// ---------------------------------------------------------------------

/// Errors surfaced by `scout took` and `scout dropped`.
#[derive(Debug)]
pub enum TookError {
    /// Neither `$XDG_CONFIG_HOME` nor `$HOME` was set, so there is no
    /// canonical default path to write the ledger to.
    NoConfigDir,
    /// The user-supplied issue reference did not parse.
    Parse(ParseError),
    /// Creating a directory or writing the ledger failed at `path`.
    Io { path: PathBuf, source: std::io::Error },
    /// The system clock reads before the unix epoch.
    Clock(std::time::SystemTimeError),
}

/// Default path for the JSONL ledger, given `$XDG_CONFIG_HOME` and
/// `$HOME`: `$XDG_CONFIG_HOME/scout/ledger.jsonl`, falling back to
/// `$HOME/.config/scout/ledger.jsonl`; `NoConfigDir` when neither
/// applies.
pub fn default_ledger_path(xdg: Option<&str>, home: Option<&str>) -> (r: Result<String, TookError>)
    ensures
        match config_file_spec(opt_view(xdg), opt_view(home), "ledger.jsonl"@) {
            Some(p) => r matches Ok(s) && s@ == p,
            None => r matches Err(TookError::NoConfigDir),
        },
{
    match config_file(xdg, home, "ledger.jsonl") {
        Some(p) => Ok(p),
        None => Err(TookError::NoConfigDir),
    }
}

} // verus!
