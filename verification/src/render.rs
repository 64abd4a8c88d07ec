//! Rendering of `scout scan` output as a GitHub-flavoured markdown
//! table: `score | issue | title`, one row per ranked issue. The score
//! column arrives already rendered (two decimals of a floating-point
//! total, which the program around this library formats); everything
//! else about the table is built here.

use vstd::prelude::*;
use crate::text::{chars_of, decimal, push_char, push_chars, push_decimal, push_str};

verus! {

/// What one table row shows.
#[derive(Debug, Clone, PartialEq, Eq)]
pub struct TableRow {
    /// The clamped total, already rendered (e.g. `0.85`).
    pub score: String,
    /// `owner/repo`.
    pub full_name: String,
    /// Issue number.
    pub number: u64,
    /// Browser URL of the issue.
    pub html_url: String,
    /// Issue title, raw.
    pub title: String,
}

/// What `sanitize_cell` writes for one character.
pub open spec fn cell_char(c: char) -> Seq<char> {
    if c == '|' {
        seq!['\\', '|']
    } else if c == '\r' || c == '\n' {
        seq![' ']
    } else {
        seq![c]
    }
}

/// A title made safe for one table cell: each `|` becomes `\|`, each CR
/// or LF becomes a space, every other character stays.
pub open spec fn cell_text(s: Seq<char>) -> Seq<char>
    decreases s.len(),
{
    if s.len() == 0 {
        Seq::empty()
    } else {
        cell_text(s.drop_last()) + cell_char(s.last())
    }
}

/// A cell never carries a line break, so a row never spans two lines.
pub proof fn cell_text_has_no_line_break(s: Seq<char>)
    ensures
        forall|i: int|
            0 <= i < cell_text(s).len() ==> #[trigger] cell_text(s)[i] != '\n' && cell_text(s)[i]
                != '\r',
    decreases s.len(),
{
    if s.len() > 0 {
        cell_text_has_no_line_break(s.drop_last());
        let prev = cell_text(s.drop_last());
        let cur = cell_text(s);
        assert forall|i: int| 0 <= i < cur.len() implies #[trigger] cur[i] != '\n' && cur[i]
            != '\r' by {
            if i < prev.len() {
                assert(cur[i] == prev[i]);
            } else {
                assert(cur[i] == cell_char(s.last())[i - prev.len()]);
            }
        }
    }
}

/// Replace pipe and newline characters with safe substitutes so a
/// single title cell never breaks a markdown row.
pub fn sanitize_cell(s: &str) -> (out: String)
    ensures
        out@ == cell_text(s@),
{
    let v = chars_of(s);
    let mut out = String::new();
    let mut i: usize = 0;
    while i < v.len()
        invariant
            i <= v.len(),
            v@ == s@,
            out@ == cell_text(v@.take(i as int)),
        decreases v.len() - i,
    {
        let c = v[i];
        assert(v@.take(i + 1).drop_last() =~= v@.take(i as int));
        if c == '|' {
            push_char(&mut out, '\\');
            push_char(&mut out, '|');
        } else if c == '\r' || c == '\n' {
            push_char(&mut out, ' ');
        } else {
            push_char(&mut out, c);
        }
        assert(out@ =~= cell_text(v@.take(i + 1)));
        i += 1;
    }
    assert(v@.take(v.len() as int) =~= v@);
    out
}

/// The two header lines of the table.
pub open spec fn table_header() -> Seq<char> {
    "| score | issue | title |\n"@ + "| ----: | :---- | :---- |\n"@
}

/// One table line: `| score | [owner/repo#N](url) | title |`.
pub open spec fn table_line(r: TableRow) -> Seq<char> {
    "| "@ + r.score@ + " | "@ + seq!['['] + r.full_name@ + seq!['#'] + decimal(r.number as nat)
        + "]("@ + r.html_url@ + seq![')'] + " | "@ + cell_text(r.title@) + " |\n"@
}

/// The lines of the first `k` rows.
pub open spec fn table_body(rows: Seq<TableRow>, k: nat) -> Seq<char>
    decreases k,
{
    if k == 0 {
        Seq::empty()
    } else {
        table_body(rows, (k - 1) as nat) + table_line(rows[k - 1])
    }
}

/// How many rows a `limit` keeps: all of them for `None`, else at most
/// `limit`, counted from the top.
pub open spec fn rows_kept(len: nat, limit: Option<usize>) -> nat {
    match limit {
        Some(n) => if (n as nat) < len {
            n as nat
        } else {
            len
        },
        None => len,
    }
}

/// Render rows as a GFM markdown table with three columns:
/// `score | issue | title`. The `issue` cell is a markdown link to the
/// GitHub browser URL labeled `OWNER/REPO#N`; titles go through
/// `sanitize_cell`. `limit` truncates from the top; `None` keeps all
/// rows.
pub fn table_markdown(rows: &[TableRow], limit: Option<usize>) -> (out: String)
    ensures
        out@ == table_header() + table_body(rows@, rows_kept(rows@.len(), limit)),
{
    let mut out = String::new();
    push_str(&mut out, "| score | issue | title |\n");
    push_str(&mut out, "| ----: | :---- | :---- |\n");
    let take = match limit {
        Some(n) => if n < rows.len() {
            n
        } else {
            rows.len()
        },
        None => rows.len(),
    };
    let mut i: usize = 0;
    while i < take
        invariant
            i <= take,
            take <= rows@.len(),
            take == rows_kept(rows@.len(), limit),
            out@ == table_header() + table_body(rows@, i as nat),
        decreases take - i,
    {
        let row = &rows[i];
        let ghost before = out@;
        push_str(&mut out, "| ");
        push_str(&mut out, row.score.as_str());
        push_str(&mut out, " | ");
        push_char(&mut out, '[');
        push_str(&mut out, row.full_name.as_str());
        push_char(&mut out, '#');
        push_decimal(&mut out, row.number);
        push_str(&mut out, "](");
        push_str(&mut out, row.html_url.as_str());
        push_char(&mut out, ')');
        push_str(&mut out, " | ");
        let title = sanitize_cell(row.title.as_str());
        push_str(&mut out, title.as_str());
        push_str(&mut out, " |\n");
        assert(out@ =~= before + table_line(rows@[i as int]));
        i += 1;
    }
    out
}

} // verus!
