//! The decisions of the fetch walks. GitHub paginates its listings
//! with a `Link` response header whose `rel="next"` entry names the
//! next page; the issue-listing walk follows it up to a page cap. The
//! CONTRIBUTING probe tries three paths in turn, moving on only past a
//! 404. The HTTP requests themselves are the program's side; it asks
//! these functions what to do after each response.

use vstd::prelude::*;
use crate::text::{chars_of, find_char, find_in, seq_eq, string_of_range, sub_vec, trim, trimmed};

verus! {

// ---------------------------------------------------------------------
// Splitting (`str::split` on one character)
// ---------------------------------------------------------------------

/// `s` split at every `c`, as `str::split(c)` does: always at least
/// one piece, an empty one where two separators meet or at either end.
pub open spec fn split_at(s: Seq<char>, c: char) -> Seq<Seq<char>>
    decreases s.len(),
{
    if s.len() == 0 {
        seq![Seq::empty()]
    } else {
        let p = split_at(s.drop_last(), c);
        if s.last() == c {
            p.push(Seq::empty())
        } else {
            p.update(p.len() - 1, p.last().push(s.last()))
        }
    }
}

proof fn lemma_split_nonempty(s: Seq<char>, c: char)
    ensures
        split_at(s, c).len() >= 1,
    decreases s.len(),
{
    if s.len() > 0 {
        lemma_split_nonempty(s.drop_last(), c);
    }
}

/// The pieces of `v` between occurrences of `c`.
fn split_vec(v: &Vec<char>, c: char) -> (r: Vec<Vec<char>>)
    ensures
        r@.len() == split_at(v@, c).len(),
        forall|k: int| 0 <= k < r@.len() ==> #[trigger] r@[k]@ == split_at(v@, c)[k],
{
    let mut done: Vec<Vec<char>> = Vec::new();
    let mut cur: Vec<char> = Vec::new();
    let mut i: usize = 0;
    while i < v.len()
        invariant
            i <= v.len(),
            done@.len() + 1 == split_at(v@.take(i as int), c).len(),
            forall|k: int| 0 <= k < done@.len() ==> #[trigger] done@[k]@ == split_at(v@.take(i as int), c)[k],
            cur@ == split_at(v@.take(i as int), c).last(),
        decreases v.len() - i,
    {
        proof {
            lemma_split_nonempty(v@.take(i as int), c);
        }
        assert(v@.take(i + 1).drop_last() =~= v@.take(i as int));
        let ch = v[i];
        if ch == c {
            let piece = cur;
            done.push(piece);
            cur = Vec::new();
        } else {
            cur.push(ch);
        }
        i += 1;
        proof {
            let prev = split_at(v@.take(i - 1), c);
            let now = split_at(v@.take(i as int), c);
            assert(now.len() == done@.len() + 1);
            assert forall|k: int| 0 <= k < done@.len() implies #[trigger] done@[k]@ == now[k] by {
                if ch != c {
                    assert(now[k] == prev[k]);
                }
            }
            assert(cur@ =~= now.last());
        }
    }
    assert(v@.take(v.len() as int) =~= v@);
    done.push(cur);
    proof {
        lemma_split_nonempty(v@, c);
    }
    done
}

// ---------------------------------------------------------------------
// The `Link` header
// ---------------------------------------------------------------------

/// The entry's parameters include `rel="next"` (surrounding whitespace
/// aside).
pub open spec fn has_rel_next(params: Seq<Seq<char>>) -> bool {
    exists|k: int| 0 <= k < params.len() && trim(#[trigger] params[k]) == "rel=\"next\""@
}

/// One comma-separated entry of a `Link` header, `<URL>; param; ...`:
/// its URL when the entry is well formed and one of its parameters is
/// `rel="next"`.
pub open spec fn next_target(entry: Seq<char>) -> Option<Seq<char>> {
    let t = trim(entry);
    if t.len() > 0 && t[0] == '<' {
        match find_char(t, '>') {
            Some(j) => if has_rel_next(split_at(t.skip(j + 1), ';')) {
                Some(t.subrange(1, j))
            } else {
                None
            },
            None => None,
        }
    } else {
        None
    }
}

/// The URL of the first entry that is a `rel="next"` link.
pub open spec fn first_next(entries: Seq<Seq<char>>) -> Option<Seq<char>>
    decreases entries.len(),
{
    if entries.len() == 0 {
        None
    } else {
        match next_target(entries[0]) {
            Some(u) => Some(u),
            None => first_next(entries.skip(1)),
        }
    }
}

/// The `rel="next"` URL a `Link` header names, if any.
pub open spec fn next_link_spec(header: Seq<char>) -> Option<Seq<char>> {
    first_next(split_at(header, ','))
}

fn is_rel_next(piece: &Vec<char>) -> (b: bool)
    ensures
        b == (trim(piece@) == "rel=\"next\""@),
{
    let t = trimmed(piece);
    let pat = chars_of("rel=\"next\"");
    seq_eq(&t, &pat)
}

fn next_target_exec(entry: &Vec<char>) -> (r: Option<String>)
    ensures
        match next_target(entry@) {
            Some(u) => r matches Some(s) && s@ == u,
            None => r is None,
        },
{
    let t = trimmed(entry);
    if t.len() == 0 || t[0] != '<' {
        return None;
    }
    let j = match find_in(&t, '>') {
        Some(j) => j,
        None => return None,
    };
    let rest = sub_vec(&t, j + 1, t.len());
    assert(rest@ =~= t@.skip(j + 1));
    let params = split_vec(&rest, ';');
    let mut k: usize = 0;
    while k < params.len()
        invariant
            k <= params@.len(),
            t@ == trim(entry@),
            t@.len() > 0,
            t@[0] == '<',
            1 <= j < t@.len(),
            find_char(t@, '>') == Some(j as int),
            rest@ == t@.skip(j + 1),
            params@.len() == split_at(rest@, ';').len(),
            forall|m: int| 0 <= m < params@.len() ==> #[trigger] params@[m]@ == split_at(rest@, ';')[m],
            forall|m: int| 0 <= m < k ==> trim(#[trigger] split_at(rest@, ';')[m]) != "rel=\"next\""@,
        decreases params@.len() - k,
    {
        if is_rel_next(&params[k]) {
            assert(params@[k as int]@ == split_at(rest@, ';')[k as int]);
            assert(trim(split_at(rest@, ';')[k as int]) == "rel=\"next\""@);
            assert(has_rel_next(split_at(t@.skip(j + 1), ';')));
            let url = string_of_range(&t, 1, j);
            return Some(url);
        }
        assert(params@[k as int]@ == split_at(rest@, ';')[k as int]);
        k += 1;
    }
    None
}

/// Parse a `Link` response header and return the `rel="next"` URL,
/// if any. The header is a comma-separated list of `<URL>; rel="..."`
/// entries; the first entry carrying `rel="next"` wins. A missing or
/// malformed entry contributes nothing.
pub fn parse_next_link(header: &str) -> (r: Option<String>)
    ensures
        match next_link_spec(header@) {
            Some(u) => r matches Some(s) && s@ == u,
            None => r is None,
        },
{
    let v = chars_of(header);
    let entries = split_vec(&v, ',');
    let ghost es = split_at(header@, ',');
    assert(es.skip(0) =~= es);
    let mut i: usize = 0;
    while i < entries.len()
        invariant
            i <= entries@.len(),
            v@ == header@,
            es == split_at(header@, ','),
            entries@.len() == es.len(),
            forall|m: int| 0 <= m < entries@.len() ==> #[trigger] entries@[m]@ == es[m],
            first_next(es) == first_next(es.skip(i as int)),
        decreases entries@.len() - i,
    {
        assert(entries@[i as int]@ == es[i as int]);
        assert(es.skip(i as int)[0] == es[i as int]);
        assert(es.skip(i as int).skip(1) =~= es.skip(i + 1));
        match next_target_exec(&entries[i]) {
            Some(u) => return Some(u),
            None => {},
        }
        i += 1;
    }
    assert(es.skip(i as int).len() == 0);
    None
}

// ---------------------------------------------------------------------
// Walk decisions
// ---------------------------------------------------------------------

/// After `pages_done` pages of an issue listing (at least one), the
/// next page to request: the `rel="next"` URL of the last response's
/// `Link` header, unless the walk has reached `max_pages` or the
/// header names no next page.
pub fn next_page(pages_done: usize, max_pages: usize, link_header: Option<&str>) -> (r: Option<String>)
    ensures
        pages_done >= max_pages ==> r is None,
        pages_done < max_pages ==> match link_header {
            Some(h) => match next_link_spec(h@) {
                Some(u) => r matches Some(s) && s@ == u,
                None => r is None,
            },
            None => r is None,
        },
{
    if pages_done >= max_pages {
        return None;
    }
    match link_header {
        Some(h) => parse_next_link(h),
        None => None,
    }
}

/// Where a CONTRIBUTING file is looked for, in order, relative to the
/// repo's contents root.
pub open spec fn contributing_paths() -> Seq<Seq<char>> {
    seq!["CONTRIBUTING.md"@, ".github/CONTRIBUTING.md"@, "docs/CONTRIBUTING.md"@]
}

/// The `i`-th CONTRIBUTING path, if there is one.
pub fn contributing_path(i: usize) -> (p: Option<&'static str>)
    ensures
        i < 3 ==> (p matches Some(s) && s@ == contributing_paths()[i as int]),
        i >= 3 ==> p is None,
{
    if i == 0 {
        Some("CONTRIBUTING.md")
    } else if i == 1 {
        Some(".github/CONTRIBUTING.md")
    } else if i == 2 {
        Some("docs/CONTRIBUTING.md")
    } else {
        None
    }
}

/// What the CONTRIBUTING probe does after a response.
#[derive(Debug, Clone, Copy, PartialEq, Eq)]
pub enum Probe {
    /// The response body is the CONTRIBUTING text.
    Use,
    /// Request the path with this index next.
    Next(usize),
    /// No CONTRIBUTING file at any path.
    Absent,
    /// Abort the walk with this response's status.
    Fail,
}

/// After the response with `status` to the request for path `index`:
/// a success status (`200..=299`) ends the walk with that body; a 404
/// moves to the next path, or ends with no CONTRIBUTING after the
/// last; any other status aborts.
pub fn probe_step(index: usize, status: u16) -> (p: Probe)
    requires
        index < 3,
    ensures
        p == (if 200 <= status <= 299 {
            Probe::Use
        } else if status == 404 {
            if index + 1 < 3 {
                Probe::Next((index + 1) as usize)
            } else {
                Probe::Absent
            }
        } else {
            Probe::Fail
        }),
{
    if 200 <= status && status <= 299 {
        Probe::Use
    } else if status == 404 {
        if index + 1 < 3 {
            Probe::Next(index + 1)
        } else {
            Probe::Absent
        }
    } else {
        Probe::Fail
    }
}

} // verus!
