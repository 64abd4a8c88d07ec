//! Character-level building blocks shared by the parsers and the signal
//! classifiers: the `char` / `str` behaviours of std that the rest of the
//! crate relies on, each stated over `Seq<char>` and implemented here.

use vstd::prelude::*;

verus! {

// ---------------------------------------------------------------------
// Characters
// ---------------------------------------------------------------------

/// `char::is_whitespace`: the Unicode `White_Space` property.
pub open spec fn is_ws(c: char) -> bool {
    ||| ('\u{9}' <= c && c <= '\u{d}')
    ||| c == ' '
    ||| c == '\u{85}'
    ||| c == '\u{a0}'
    ||| c == '\u{1680}'
    ||| ('\u{2000}' <= c && c <= '\u{200a}')
    ||| c == '\u{2028}'
    ||| c == '\u{2029}'
    ||| c == '\u{202f}'
    ||| c == '\u{205f}'
    ||| c == '\u{3000}'
}

pub fn is_whitespace(c: char) -> (b: bool)
    ensures
        b == is_ws(c),
{
    ('\u{9}' <= c && c <= '\u{d}') || c == ' ' || c == '\u{85}' || c == '\u{a0}' || c
        == '\u{1680}' || ('\u{2000}' <= c && c <= '\u{200a}') || c == '\u{2028}' || c
        == '\u{2029}' || c == '\u{202f}' || c == '\u{205f}' || c == '\u{3000}'
}

/// `char::to_ascii_lowercase`: `A`..=`Z` map to `a`..=`z`, every other
/// character is unchanged.
pub open spec fn lower_char(c: char) -> char {
    if 'A' <= c && c <= 'Z' {
        ((c as int) + 32) as char
    } else {
        c
    }
}

pub fn to_ascii_lower(c: char) -> (r: char)
    ensures
        r == lower_char(c),
{
    if 'A' <= c && c <= 'Z' {
        let b: u8 = c as u8;
        assert(b as int == c as int);
        (b + 32) as char
    } else {
        c
    }
}

/// `str::to_ascii_lowercase` on the character view.
pub open spec fn ascii_lower(s: Seq<char>) -> Seq<char> {
    Seq::new(s.len(), |i: int| lower_char(s[i]))
}

pub open spec fn is_digit(c: char) -> bool {
    '0' <= c && c <= '9'
}

pub open spec fn digit_value(c: char) -> int {
    (c as int) - ('0' as int)
}

pub open spec fn digit_char(d: int) -> char {
    (('0' as int) + d) as char
}

// ---------------------------------------------------------------------
// Strings as character sequences
// ---------------------------------------------------------------------

/// The characters of `s`, in order.
pub fn chars_of(s: &str) -> (v: Vec<char>)
    ensures
        v@ == s@,
{
    let mut v: Vec<char> = Vec::new();
    for c in it: s.chars()
        invariant
            v@ == it.seq().take(it.index() as int),
    {
        v.push(c);
    }
    v
}

/// `String::push`. The contract claims that afterwards the string holds
/// its old characters followed by `c`.
#[verifier::external_body]
pub(crate) fn push_char(s: &mut String, c: char)
    ensures
        final(s)@ == old(s)@.push(c),
{
    s.push(c);
}

/// Appends every character of `v` to `out`.
pub fn push_chars(out: &mut String, v: &Vec<char>)
    ensures
        final(out)@ == old(out)@ + v@,
{
    let ghost start = out@;
    let mut i: usize = 0;
    while i < v.len()
        invariant
            i <= v.len(),
            out@ == start + v@.take(i as int),
        decreases v.len() - i,
    {
        push_char(out, v[i]);
        assert(v@.take(i + 1) =~= v@.take(i as int).push(v@[i as int]));
        i += 1;
    }
    assert(v@.take(v.len() as int) =~= v@);
}

/// Appends every character of `t` to `out`.
pub fn push_str(out: &mut String, t: &str)
    ensures
        final(out)@ == old(out)@ + t@,
{
    let v = chars_of(t);
    push_chars(out, &v);
}

/// A `String` holding exactly the characters of `v`.
pub fn string_of(v: &Vec<char>) -> (s: String)
    ensures
        s@ == v@,
{
    let mut s = String::new();
    push_chars(&mut s, v);
    assert(s@ =~= v@);
    s
}

/// A `String` holding `t[from..to]` (character positions).
pub fn string_of_range(t: &Vec<char>, from: usize, to: usize) -> (s: String)
    requires
        from <= to <= t.len(),
    ensures
        s@ == t@.subrange(from as int, to as int),
{
    let ghost start = Seq::<char>::empty();
    let mut s = String::new();
    let mut i: usize = from;
    while i < to
        invariant
            from <= i <= to,
            to <= t.len(),
            s@ == t@.subrange(from as int, i as int),
        decreases to - i,
    {
        push_char(&mut s, t[i]);
        assert(t@.subrange(from as int, i + 1) =~= t@.subrange(from as int, i as int).push(
            t@[i as int],
        ));
        i += 1;
    }
    s
}

/// Sequence equality, element by element.
pub fn seq_eq(a: &Vec<char>, b: &Vec<char>) -> (r: bool)
    ensures
        r == (a@ == b@),
{
    if a.len() != b.len() {
        return false;
    }
    let mut i: usize = 0;
    while i < a.len()
        invariant
            i <= a.len(),
            a.len() == b.len(),
            forall|k: int| 0 <= k < i ==> a@[k] == b@[k],
        decreases a.len() - i,
    {
        if a[i] != b[i] {
            return false;
        }
        i += 1;
    }
    assert(a@ =~= b@);
    true
}

/// `str == str`.
pub fn str_eq(a: &str, b: &str) -> (r: bool)
    ensures
        r == (a@ == b@),
{
    let va = chars_of(a);
    let vb = chars_of(b);
    seq_eq(&va, &vb)
}

/// ASCII lower-casing of a character vector.
pub fn lower_chars(v: &Vec<char>) -> (r: Vec<char>)
    ensures
        r@ == ascii_lower(v@),
{
    let mut r: Vec<char> = Vec::new();
    let mut i: usize = 0;
    while i < v.len()
        invariant
            i <= v.len(),
            r@ == ascii_lower(v@.take(i as int)),
        decreases v.len() - i,
    {
        let c = to_ascii_lower(v[i]);
        r.push(c);
        assert(ascii_lower(v@.take(i + 1)) =~= ascii_lower(v@.take(i as int)).push(
            lower_char(v@[i as int]),
        ));
        i += 1;
    }
    assert(v@.take(v.len() as int) =~= v@);
    r
}

/// The ASCII-lowercased characters of `s` (`str::to_ascii_lowercase`).
pub fn lower_of(s: &str) -> (r: Vec<char>)
    ensures
        r@ == ascii_lower(s@),
{
    let v = chars_of(s);
    lower_chars(&v)
}

// ---------------------------------------------------------------------
// Substring search (`str::contains`)
// ---------------------------------------------------------------------

/// `p` occurs in `s` starting at character position `i`.
pub open spec fn occurs_at(s: Seq<char>, p: Seq<char>, i: int) -> bool {
    0 <= i && i + p.len() <= s.len() && s.subrange(i, i + p.len()) == p
}

/// `str::contains` with a string pattern: `p` matches a sub-slice of `s`.
pub open spec fn contains_seq(s: Seq<char>, p: Seq<char>) -> bool {
    exists|i: int| #[trigger] occurs_at(s, p, i)
}

pub fn matches_at(s: &Vec<char>, p: &Vec<char>, i: usize) -> (b: bool)
    ensures
        b == occurs_at(s@, p@, i as int),
{
    if i > s.len() || p.len() > s.len() - i {
        return false;
    }
    let mut k: usize = 0;
    while k < p.len()
        invariant
            k <= p.len(),
            i + p.len() <= s.len(),
            forall|m: int| 0 <= m < k ==> s@[i + m] == p@[m],
        decreases p.len() - k,
    {
        if s[i + k] != p[k] {
            assert(s@.subrange(i as int, i + p.len())[k as int] != p@[k as int]);
            return false;
        }
        k += 1;
    }
    assert(s@.subrange(i as int, i + p.len()) =~= p@);
    true
}

pub fn contains_chars(s: &Vec<char>, p: &Vec<char>) -> (b: bool)
    ensures
        b == contains_seq(s@, p@),
{
    if p.len() > s.len() {
        assert forall|j: int| !occurs_at(s@, p@, j) by {}
        return false;
    }
    let last = s.len() - p.len();
    let mut i: usize = 0;
    while i < last
        invariant
            last == s.len() - p.len(),
            p.len() <= s.len(),
            i <= last,
            forall|j: int| 0 <= j < i ==> !occurs_at(s@, p@, j),
        decreases last - i,
    {
        if matches_at(s, p, i) {
            return true;
        }
        i += 1;
    }
    if matches_at(s, p, last) {
        return true;
    }
    assert forall|j: int| !occurs_at(s@, p@, j) by {}
    false
}

/// `hay.contains(pat)` where `pat` is given as a `&str`.
pub fn contains_str(hay: &Vec<char>, pat: &str) -> (b: bool)
    ensures
        b == contains_seq(hay@, pat@),
{
    let p = chars_of(pat);
    contains_chars(hay, &p)
}

// ---------------------------------------------------------------------
// First occurrence of a character (`str::find`, `str::split_once`)
// ---------------------------------------------------------------------

/// `i` is the position of the first `c` in `s`.
pub open spec fn is_first(s: Seq<char>, c: char, i: int) -> bool {
    0 <= i < s.len() && s[i] == c && forall|j: int| 0 <= j < i ==> s[j] != c
}

/// Position of the first `c` in `s`, if any.
pub open spec fn find_char(s: Seq<char>, c: char) -> Option<int> {
    if exists|i: int| 0 <= i < s.len() && s[i] == c {
        Some(choose|i: int| is_first(s, c, i))
    } else {
        None
    }
}

pub proof fn lemma_first_unique(s: Seq<char>, c: char, i: int, j: int)
    requires
        is_first(s, c, i),
        is_first(s, c, j),
    ensures
        i == j,
{
    if i < j {
        assert(s[i] != c);
    } else if j < i {
        assert(s[j] != c);
    }
}

proof fn lemma_first_exists(s: Seq<char>, c: char, w: int)
    requires
        0 <= w < s.len(),
        s[w] == c,
    ensures
        exists|i: int| is_first(s, c, i),
    decreases w,
{
    if exists|j: int| 0 <= j < w && s[j] == c {
        let j = choose|j: int| 0 <= j < w && s[j] == c;
        lemma_first_exists(s, c, j);
    } else {
        assert(is_first(s, c, w));
    }
}

/// The first `c` in `s` exists exactly when some position holds `c`.
pub proof fn lemma_find_char(s: Seq<char>, c: char)
    ensures
        match find_char(s, c) {
            Some(i) => is_first(s, c, i),
            None => forall|j: int| 0 <= j < s.len() ==> s[j] != c,
        },
{
    if exists|i: int| 0 <= i < s.len() && s[i] == c {
        let w = choose|i: int| 0 <= i < s.len() && s[i] == c;
        lemma_first_exists(s, c, w);
    }
}

pub fn find_in(v: &Vec<char>, c: char) -> (r: Option<usize>)
    ensures
        r == (match find_char(v@, c) {
            Some(i) => Some(i as usize),
            None => None,
        }),
        match r {
            Some(i) => is_first(v@, c, i as int),
            None => forall|j: int| 0 <= j < v@.len() ==> v@[j] != c,
        },
{
    proof {
        lemma_find_char(v@, c);
    }
    let mut i: usize = 0;
    while i < v.len()
        invariant
            i <= v.len(),
            forall|j: int| 0 <= j < i ==> v@[j] != c,
        decreases v.len() - i,
    {
        if v[i] == c {
            proof {
                assert(is_first(v@, c, i as int));
                lemma_first_unique(v@, c, i as int, find_char(v@, c)->0);
            }
            return Some(i);
        }
        i += 1;
    }
    None
}

// ---------------------------------------------------------------------
// `str::trim`
// ---------------------------------------------------------------------

pub open spec fn trim_start(s: Seq<char>) -> Seq<char>
    decreases s.len(),
{
    if s.len() > 0 && is_ws(s[0]) {
        trim_start(s.drop_first())
    } else {
        s
    }
}

pub open spec fn trim_end(s: Seq<char>) -> Seq<char>
    decreases s.len(),
{
    if s.len() > 0 && is_ws(s.last()) {
        trim_end(s.drop_last())
    } else {
        s
    }
}

/// `str::trim`: leading and trailing whitespace removed.
pub open spec fn trim(s: Seq<char>) -> Seq<char> {
    trim_end(trim_start(s))
}

proof fn lemma_trim_start_step(s: Seq<char>, i: int)
    requires
        0 <= i < s.len(),
        is_ws(s[i]),
    ensures
        trim_start(s.subrange(i, s.len() as int)) == trim_start(s.subrange(i + 1, s.len() as int)),
{
    assert(s.subrange(i, s.len() as int).drop_first() =~= s.subrange(i + 1, s.len() as int));
}

proof fn lemma_trim_end_step(s: Seq<char>, a: int, j: int)
    requires
        0 <= a < j <= s.len(),
        is_ws(s[j - 1]),
    ensures
        trim_end(s.subrange(a, j)) == trim_end(s.subrange(a, j - 1)),
{
    assert(s.subrange(a, j).drop_last() =~= s.subrange(a, j - 1));
}

/// `trim_start(s)` drops a prefix of `s`.
pub proof fn lemma_trim_start_skip(s: Seq<char>) -> (k: int)
    ensures
        0 <= k <= s.len(),
        trim_start(s) == s.skip(k),
    decreases s.len(),
{
    if s.len() > 0 && is_ws(s[0]) {
        let k0 = lemma_trim_start_skip(s.drop_first());
        assert(s.drop_first().skip(k0) =~= s.skip(k0 + 1));
        k0 + 1
    } else {
        assert(s.skip(0) =~= s);
        0
    }
}

/// `trim_end(s)` keeps a prefix of `s`.
pub proof fn lemma_trim_end_take(s: Seq<char>) -> (k: int)
    ensures
        0 <= k <= s.len(),
        trim_end(s) == s.take(k),
    decreases s.len(),
{
    if s.len() > 0 && is_ws(s.last()) {
        let k0 = lemma_trim_end_take(s.drop_last());
        assert(s.drop_last().take(k0) =~= s.take(k0));
        k0
    } else {
        assert(s.take(s.len() as int) =~= s);
        s.len() as int
    }
}

/// Every character of `trim(s)` is a character of `s`.
pub proof fn lemma_trim_chars(s: Seq<char>, c: char)
    ensures
        trim(s).contains(c) ==> s.contains(c),
{
    let a = lemma_trim_start_skip(s);
    let b = lemma_trim_end_take(trim_start(s));
    if trim(s).contains(c) {
        let i = choose|i: int| 0 <= i < trim(s).len() && trim(s)[i] == c;
        assert(s[a + i] == c);
    }
}

/// Whitespace in front of a run that starts and ends with
/// non-whitespace is all that `trim` removes.
pub proof fn lemma_trim_lead(p: Seq<char>, x: Seq<char>)
    requires
        forall|i: int| 0 <= i < p.len() ==> is_ws(#[trigger] p[i]),
        x.len() > 0,
        !is_ws(x[0]),
        !is_ws(x.last()),
    ensures
        trim(p + x) == x,
    decreases p.len(),
{
    if p.len() > 0 {
        assert((p + x)[0] == p[0]);
        assert((p + x).drop_first() =~= p.drop_first() + x);
        lemma_trim_lead(p.drop_first(), x);
        assert(trim_start(p + x) == trim_start(p.drop_first() + x));
    } else {
        assert(p + x =~= x);
    }
}

/// Splitting lines: characters other than `\n` extend the current line.
pub proof fn lemma_line_split_extend(s: Seq<char>, t: Seq<char>)
    requires
        forall|j: int| 0 <= j < t.len() ==> #[trigger] t[j] != '\n',
    ensures
        line_split(s + t) == (line_split(s).0, line_split(s).1 + t),
    decreases t.len(),
{
    if t.len() == 0 {
        assert(s + t =~= s);
        assert(line_split(s).1 + t =~= line_split(s).1);
    } else {
        let t0 = t.drop_last();
        lemma_line_split_extend(s, t0);
        assert((s + t).drop_last() =~= s + t0);
        assert((s + t).last() == t.last());
        assert(line_split(s).1 + t0.push(t.last()) =~= line_split(s).1 + t);
        assert((line_split(s).1 + t0).push(t.last()) =~= line_split(s).1 + t);
    }
}

/// A line without `\n`, ended by `\n`, after text ending in a line
/// break (or nothing) is one more finished line.
pub proof fn lemma_line_split_line(s: Seq<char>, t: Seq<char>)
    requires
        forall|j: int| 0 <= j < t.len() ==> #[trigger] t[j] != '\n',
        line_split(s).1.len() == 0,
    ensures
        line_split(s + t + seq!['\n']) == (line_split(s).0.push(strip_cr(t)), Seq::<char>::empty()),
{
    lemma_line_split_extend(s, t);
    assert((s + t + seq!['\n']).drop_last() =~= s + t);
    assert(line_split(s).1 + t =~= t);
}

/// Bounds `[a, b)` such that `trim(v) == v[a..b]`.
pub fn trim_bounds(v: &Vec<char>) -> (r: (usize, usize))
    ensures
        r.0 <= r.1 <= v.len(),
        trim(v@) == v@.subrange(r.0 as int, r.1 as int),
{
    let n = v.len();
    let mut a: usize = 0;
    assert(v@.subrange(0, n as int) =~= v@);
    while a < n && is_whitespace(v[a])
        invariant
            a <= n,
            n == v.len(),
            trim_start(v@) == trim_start(v@.subrange(a as int, n as int)),
        decreases n - a,
    {
        proof {
            lemma_trim_start_step(v@, a as int);
        }
        a += 1;
    }
    let ghost ts = v@.subrange(a as int, n as int);
    assert(trim_start(ts) == ts);
    let mut b: usize = n;
    while b > a && is_whitespace(v[b - 1])
        invariant
            a <= b <= n,
            n == v.len(),
            trim_end(ts) == trim_end(v@.subrange(a as int, b as int)),
        decreases b - a,
    {
        proof {
            lemma_trim_end_step(v@, a as int, b as int);
        }
        b -= 1;
    }
    assert(trim_end(v@.subrange(a as int, b as int)) == v@.subrange(a as int, b as int));
    (a, b)
}

/// `trim(v)` as a new vector.
pub fn trimmed(v: &Vec<char>) -> (r: Vec<char>)
    ensures
        r@ == trim(v@),
{
    let (a, b) = trim_bounds(v);
    sub_vec(v, a, b)
}

/// `v[from..to]` as a new vector.
pub fn sub_vec(v: &Vec<char>, from: usize, to: usize) -> (r: Vec<char>)
    requires
        from <= to <= v.len(),
    ensures
        r@ == v@.subrange(from as int, to as int),
{
    let mut r: Vec<char> = Vec::new();
    let mut i: usize = from;
    while i < to
        invariant
            from <= i <= to,
            to <= v.len(),
            r@ == v@.subrange(from as int, i as int),
        decreases to - i,
    {
        r.push(v[i]);
        assert(v@.subrange(from as int, i + 1) =~= v@.subrange(from as int, i as int).push(
            v@[i as int],
        ));
        i += 1;
    }
    r
}

/// No character of `s` is whitespace.
pub open spec fn has_ws(s: Seq<char>) -> bool {
    exists|i: int| 0 <= i < s.len() && is_ws(#[trigger] s[i])
}

pub fn any_whitespace(v: &Vec<char>) -> (b: bool)
    ensures
        b == has_ws(v@),
{
    let mut i: usize = 0;
    while i < v.len()
        invariant
            i <= v.len(),
            forall|j: int| 0 <= j < i ==> !is_ws(#[trigger] v@[j]),
        decreases v.len() - i,
    {
        if is_whitespace(v[i]) {
            return true;
        }
        i += 1;
    }
    false
}


// ---------------------------------------------------------------------
// Decimal integers (`FromStr` for the integer types, `{}` / `{:0N}`)
// ---------------------------------------------------------------------

pub open spec fn all_digits(s: Seq<char>) -> bool {
    forall|i: int| 0 <= i < s.len() ==> is_digit(#[trigger] s[i])
}

/// Value of a run of ASCII digits, most significant first.
pub open spec fn digits_value(s: Seq<char>) -> int
    decreases s.len(),
{
    if s.len() == 0 {
        0
    } else {
        digits_value(s.drop_last()) * 10 + digit_value(s.last())
    }
}

/// `FromStr` for a signed integer type, before the range check: an
/// optional `+` or `-`, then one or more ASCII digits.
pub open spec fn parse_signed(s: Seq<char>) -> Option<int> {
    if s.len() > 0 && (s[0] == '+' || s[0] == '-') {
        let rest = s.drop_first();
        if rest.len() > 0 && all_digits(rest) {
            if s[0] == '-' {
                Some(-digits_value(rest))
            } else {
                Some(digits_value(rest))
            }
        } else {
            None
        }
    } else if s.len() > 0 && all_digits(s) {
        Some(digits_value(s))
    } else {
        None
    }
}

/// `FromStr` for an unsigned integer type, before the range check: an
/// optional `+`, then one or more ASCII digits.
pub open spec fn parse_unsigned(s: Seq<char>) -> Option<int> {
    if s.len() > 0 && s[0] == '+' {
        let rest = s.drop_first();
        if rest.len() > 0 && all_digits(rest) {
            Some(digits_value(rest))
        } else {
            None
        }
    } else if s.len() > 0 && all_digits(s) {
        Some(digits_value(s))
    } else {
        None
    }
}

/// `u32::from_str`.
pub open spec fn parse_u32_spec(s: Seq<char>) -> Option<u32> {
    match parse_unsigned(s) {
        Some(v) => if v <= u32::MAX {
            Some(v as u32)
        } else {
            None
        },
        None => None,
    }
}

pub proof fn lemma_digits_value_nonneg(s: Seq<char>)
    requires
        all_digits(s),
    ensures
        digits_value(s) >= 0,
    decreases s.len(),
{
    if s.len() > 0 {
        assert(all_digits(s.drop_last()));
        lemma_digits_value_nonneg(s.drop_last());
        assert(is_digit(s[s.len() - 1]));
    }
}

pub open spec fn pow10(n: nat) -> nat
    decreases n,
{
    if n == 0 {
        1
    } else {
        10 * pow10((n - 1) as nat)
    }
}

pub proof fn lemma_digits_value_bound(s: Seq<char>)
    requires
        all_digits(s),
    ensures
        0 <= digits_value(s) < pow10(s.len()),
    decreases s.len(),
{
    if s.len() > 0 {
        assert(all_digits(s.drop_last()));
        lemma_digits_value_bound(s.drop_last());
        assert(is_digit(s[s.len() - 1]));
    }
}

/// Extending a digit run never lowers its value.
pub proof fn lemma_digits_value_prefix(s: Seq<char>, k: int)
    requires
        all_digits(s),
        0 <= k <= s.len(),
    ensures
        digits_value(s.take(k)) <= digits_value(s),
    decreases s.len() - k,
{
    if k < s.len() {
        lemma_digits_value_prefix(s, k + 1);
        let t = s.take(k + 1);
        assert(t.drop_last() =~= s.take(k));
        assert(all_digits(t));
        lemma_digits_value_nonneg(s.take(k));
        assert(is_digit(t.last()));
    } else {
        assert(s.take(k) =~= s);
    }
}

/// `FromStr` for `u32` on the characters `v[from..to]`.
pub fn parse_u32_range(v: &Vec<char>, from: usize, to: usize) -> (r: Option<u32>)
    requires
        from <= to <= v.len(),
    ensures
        r == parse_u32_spec(v@.subrange(from as int, to as int)),
{
    let ghost s = v@.subrange(from as int, to as int);
    if from == to {
        return None;
    }
    let mut start = from;
    if v[from] == '+' {
        start = from + 1;
        if start == to {
            return None;
        }
    }
    let ghost ds = v@.subrange(start as int, to as int);
    assert(start > from ==> ds =~= s.drop_first());
    assert(start == from ==> ds =~= s);
    let mut acc: u32 = 0;
    let mut i: usize = start;
    let mut overflow = false;
    while i < to
        invariant
            from <= start <= i <= to <= v.len(),
            ds == v@.subrange(start as int, to as int),
            s == v@.subrange(from as int, to as int),
            s.len() > 0,
            start > from ==> (s[0] == '+' && ds == s.drop_first()),
            start == from ==> (ds == s && s[0] != '+'),
            all_digits(ds.take(i - start)),
            !overflow ==> acc == digits_value(ds.take(i - start)),
            overflow ==> digits_value(ds.take(i - start)) > u32::MAX,
        decreases to - i,
    {
        let c = v[i];
        if !('0' <= c && c <= '9') {
            assert(!is_digit(ds[i - start]));
            assert(!all_digits(ds));
            return None;
        }
        let d: u32 = (c as u32) - ('0' as u32);
        let ghost pre = ds.take(i - start);
        let ghost nxt = ds.take(i - start + 1);
        assert(nxt.drop_last() =~= pre);
        assert(nxt.last() == c);
        assert(all_digits(nxt));
        if !overflow {
            if acc > (u32::MAX - d) / 10 {
                overflow = true;
                assert(digits_value(nxt) == acc * 10 + d);
                assert(acc * 10 + d > u32::MAX) by (nonlinear_arith)
                    requires
                        acc > (u32::MAX - d) / 10,
                        d <= 9,
                ;
            } else {
                assert(acc * 10 + d <= u32::MAX) by (nonlinear_arith)
                    requires
                        acc <= (u32::MAX - d) / 10,
                        d <= 9,
                ;
                acc = acc * 10 + d;
            }
        } else {
            proof {
                lemma_digits_value_nonneg(pre);
                assert(digits_value(nxt) == digits_value(pre) * 10 + digit_value(c));
            }
        }
        i += 1;
    }
    assert(ds.take(to - start) =~= ds);
    if overflow {
        None
    } else {
        Some(acc)
    }
}

/// The decimal digits of `n` (`{}` on an unsigned integer).
pub open spec fn decimal(n: nat) -> Seq<char>
    decreases n,
{
    if n < 10 {
        seq![digit_char(n as int)]
    } else {
        decimal(n / 10).push(digit_char((n % 10) as int))
    }
}

/// `n` in decimal, left-padded with `0` to at least `width` characters.
pub open spec fn zero_padded(n: nat, width: nat) -> Seq<char> {
    let d = decimal(n);
    if d.len() >= width {
        d
    } else {
        Seq::new((width - d.len()) as nat, |i: int| '0') + d
    }
}

/// `format!("{:0w$}", v)` for a signed integer: sign-aware zero padding,
/// the `-` counting toward the width.
pub open spec fn signed_padded(v: int, width: nat) -> Seq<char> {
    if v >= 0 {
        zero_padded(v as nat, width)
    } else {
        seq!['-'] + zero_padded((-v) as nat, if width >= 1 {
            (width - 1) as nat
        } else {
            0
        })
    }
}

fn digit_to_char(d: u64) -> (c: char)
    requires
        d < 10,
    ensures
        c == digit_char(d as int),
{
    let b: u8 = d as u8;
    (b + 48) as char
}

pub proof fn lemma_decimal_len(n: nat)
    ensures
        decimal(n).len() >= 1,
    decreases n,
{
    if n >= 10 {
        lemma_decimal_len(n / 10);
    }
}

/// Appends the decimal digits of `n`.
pub fn push_decimal(out: &mut String, n: u64)
    ensures
        final(out)@ == old(out)@ + decimal(n as nat),
    decreases n,
{
    if n >= 10 {
        push_decimal(out, n / 10);
        push_char(out, digit_to_char(n % 10));
        assert(decimal(n as nat) == decimal((n / 10) as nat).push(digit_char((n % 10) as int)));
    } else {
        push_char(out, digit_to_char(n));
    }
}

/// The decimal digits of `n` as a vector.
pub fn decimal_chars(n: u64) -> (v: Vec<char>)
    ensures
        v@ == decimal(n as nat),
    decreases n,
{
    if n >= 10 {
        let mut v = decimal_chars(n / 10);
        v.push(digit_to_char(n % 10));
        v
    } else {
        let mut v: Vec<char> = Vec::new();
        v.push(digit_to_char(n));
        assert(v@ =~= seq![digit_char(n as int)]);
        v
    }
}

/// Appends `n` zero-padded to at least `width` characters.
pub fn push_zero_padded(out: &mut String, n: u64, width: usize)
    ensures
        final(out)@ == old(out)@ + zero_padded(n as nat, width as nat),
{
    let ghost start = out@;
    let digits = decimal_chars(n);
    let len = digits.len();
    if len < width {
        let pad = width - len;
        let mut k: usize = 0;
        while k < pad
            invariant
                k <= pad,
                out@ == start + Seq::new(k as nat, |i: int| '0'),
            decreases pad - k,
        {
            push_char(out, '0');
            assert(Seq::new((k + 1) as nat, |i: int| '0') =~= Seq::new(k as nat, |i: int| '0').push(
                '0',
            ));
            k += 1;
        }
        push_chars(out, &digits);
        assert(out@ =~= start + (Seq::new(pad as nat, |i: int| '0') + decimal(n as nat)));
    } else {
        push_chars(out, &digits);
    }
}

/// Appends `v` with sign-aware zero padding to `width` (`{:0width$}`).
pub fn push_signed_padded(out: &mut String, v: i64, width: usize)
    requires
        v > i64::MIN,
        width >= 1,
    ensures
        final(out)@ == old(out)@ + signed_padded(v as int, width as nat),
{
    if v >= 0 {
        push_zero_padded(out, v as u64, width);
    } else {
        let ghost start = out@;
        push_char(out, '-');
        push_zero_padded(out, (-v) as u64, width - 1);
        assert(out@ =~= start + signed_padded(v as int, width as nat));
    }
}

// ---------------------------------------------------------------------
// `str::lines`
// ---------------------------------------------------------------------

/// A `\r` right before the `\n` that ends a line is part of the line
/// ending, not of the line.
pub open spec fn strip_cr(l: Seq<char>) -> Seq<char> {
    if l.len() > 0 && l.last() == '\r' {
        l.drop_last()
    } else {
        l
    }
}

/// Scanning `s` left to right: the lines already ended by `\n` (line
/// endings removed) and the characters after the last `\n`.
pub open spec fn line_split(s: Seq<char>) -> (Seq<Seq<char>>, Seq<char>)
    decreases s.len(),
{
    if s.len() == 0 {
        (Seq::empty(), Seq::empty())
    } else {
        let (done, cur) = line_split(s.drop_last());
        if s.last() == '\n' {
            (done.push(strip_cr(cur)), Seq::empty())
        } else {
            (done, cur.push(s.last()))
        }
    }
}

/// `str::lines`: lines split at `\n` or `\r\n`, endings removed; the
/// final line ending is optional, and an empty string has no lines.
pub open spec fn lines(s: Seq<char>) -> Seq<Seq<char>> {
    let (done, cur) = line_split(s);
    if cur.len() == 0 {
        done
    } else {
        done.push(cur)
    }
}

/// Splitting after text that ends in a line break (or is empty) goes
/// on from a clean line.
pub proof fn lemma_line_split_concat(a: Seq<char>, b: Seq<char>)
    requires
        line_split(a).1.len() == 0,
    ensures
        line_split(a + b) == (line_split(a).0 + line_split(b).0, line_split(b).1),
    decreases b.len(),
{
    if b.len() == 0 {
        assert(a + b =~= a);
        assert(line_split(a).0 + Seq::<Seq<char>>::empty() =~= line_split(a).0);
    } else {
        lemma_line_split_concat(a, b.drop_last());
        assert((a + b).drop_last() =~= a + b.drop_last());
        assert((a + b).last() == b.last());
        let (da, _) = line_split(a);
        let (db, cb) = line_split(b.drop_last());
        if b.last() == '\n' {
            assert((da + db).push(strip_cr(cb)) =~= da + db.push(strip_cr(cb)));
        }
    }
}

/// `str::lines` of two texts, the first empty or ending in a line
/// break, is the lines of the first followed by those of the second.
pub proof fn lemma_lines_concat(a: Seq<char>, b: Seq<char>)
    requires
        a.len() == 0 || a.last() == '\n',
    ensures
        lines(a + b) == lines(a) + lines(b),
{
    if a.len() > 0 {
        assert(line_split(a).1.len() == 0);
    }
    lemma_line_split_concat(a, b);
    let (da, _) = line_split(a);
    let (db, cb) = line_split(b);
    assert(lines(a) == da);
    if cb.len() != 0 {
        assert((da + db).push(cb) =~= da + db.push(cb));
    }
}

/// Each range of `r` lies inside `v`, and the characters it spans are
/// the matching element of `ls`.
pub open spec fn spans(v: Seq<char>, r: Seq<(usize, usize)>, ls: Seq<Seq<char>>) -> bool {
    &&& r.len() == ls.len()
    &&& forall|k: int|
        0 <= k < r.len() ==> {
            &&& (#[trigger] r[k]).0 <= r[k].1
            &&& r[k].1 <= v.len()
            &&& v.subrange(r[k].0 as int, r[k].1 as int) == ls[k]
        }
}

/// Character ranges `[start, end)` of `v` holding `lines(v)`, in order.
pub fn line_ranges(v: &Vec<char>) -> (r: Vec<(usize, usize)>)
    ensures
        spans(v@, r@, lines(v@)),
{
    let n = v.len();
    let mut r: Vec<(usize, usize)> = Vec::new();
    let mut cs: usize = 0;
    let mut i: usize = 0;
    while i < n
        invariant
            n == v.len(),
            cs <= i <= n,
            spans(v@, r@, line_split(v@.take(i as int)).0),
            line_split(v@.take(i as int)).1 == v@.subrange(cs as int, i as int),
        decreases n - i,
    {
        let ghost pre = v@.take(i as int);
        let ghost nxt = v@.take(i + 1);
        assert(nxt.drop_last() =~= pre);
        assert(nxt.last() == v@[i as int]);
        if v[i] == '\n' {
            let mut end = i;
            if i > cs && v[i - 1] == '\r' {
                end = i - 1;
            }
            assert(v@.subrange(cs as int, end as int) =~= strip_cr(v@.subrange(cs as int, i as int)));
            let ghost old_r = r@;
            r.push((cs, end));
            assert(line_split(nxt).0 == line_split(pre).0.push(strip_cr(line_split(pre).1)));
            assert(spans(v@, r@, line_split(nxt).0)) by {
                assert forall|k: int| 0 <= k < r@.len() implies {
                    &&& (#[trigger] r@[k]).0 <= r@[k].1
                    &&& r@[k].1 <= v@.len()
                    &&& v@.subrange(r@[k].0 as int, r@[k].1 as int) == line_split(nxt).0[k]
                } by {
                    if k < old_r.len() {
                        assert(r@[k] == old_r[k]);
                    }
                }
            }
            cs = i + 1;
        } else {
            assert(v@.subrange(cs as int, i + 1) =~= v@.subrange(cs as int, i as int).push(v@[i as int]));
            assert(line_split(nxt).0 == line_split(pre).0);
        }
        i += 1;
    }
    assert(v@.take(n as int) =~= v@);
    if cs < n {
        let ghost old_r = r@;
        r.push((cs, n));
        assert(spans(v@, r@, lines(v@))) by {
            assert forall|k: int| 0 <= k < r@.len() implies {
                &&& (#[trigger] r@[k]).0 <= r@[k].1
                &&& r@[k].1 <= v@.len()
                &&& v@.subrange(r@[k].0 as int, r@[k].1 as int) == lines(v@)[k]
            } by {
                if k < old_r.len() {
                    assert(r@[k] == old_r[k]);
                }
            }
        }
    }
    r
}

// ---------------------------------------------------------------------
// Reading back what the decimal renderers write
// ---------------------------------------------------------------------

pub proof fn lemma_decimal_value(n: nat)
    ensures
        all_digits(decimal(n)),
        digits_value(decimal(n)) == n,
        decimal(n).len() >= 1,
    decreases n,
{
    if n < 10 {
        assert(decimal(n).drop_last() =~= Seq::<char>::empty());
        assert(digit_value(digit_char(n as int)) == n);
        assert(digits_value(decimal(n)) == digits_value(decimal(n).drop_last()) * 10 + digit_value(decimal(n).last()));
    } else {
        lemma_decimal_value(n / 10);
        let d = decimal(n);
        assert(digit_value(digit_char((n % 10) as int)) == n % 10);
        assert(d.last() == digit_char((n % 10) as int));
        assert(d.drop_last() =~= decimal(n / 10));
        assert(digits_value(d) == digits_value(d.drop_last()) * 10 + digit_value(d.last()));
        assert((n / 10) * 10 + n % 10 == n);
        assert(d.drop_last() =~= decimal(n / 10));
        assert forall|i: int| 0 <= i < d.len() implies is_digit(#[trigger] d[i]) by {
            if i < d.len() - 1 {
                assert(d[i] == decimal(n / 10)[i]);
            }
        }
    }
}

pub proof fn lemma_decimal_len_bound(n: nat, k: nat)
    requires
        k >= 1,
        n < pow10(k),
    ensures
        decimal(n).len() <= k,
    decreases n,
{
    if n >= 10 {
        assert(k >= 2) by {
            if k == 1 {
                assert(pow10(1) == 10 * pow10(0));
            }
        }
        assert(pow10(k) == 10 * pow10((k - 1) as nat));
        lemma_decimal_len_bound(n / 10, (k - 1) as nat);
    }
}

/// Leading zeros do not change the value of a digit run.
pub proof fn lemma_leading_zeros(k: nat, s: Seq<char>)
    requires
        all_digits(s),
    ensures
        all_digits(Seq::new(k, |i: int| '0') + s),
        digits_value(Seq::new(k, |i: int| '0') + s) == digits_value(s),
    decreases s.len(),
{
    let z = Seq::new(k, |i: int| '0');
    let t = z + s;
    assert forall|i: int| 0 <= i < t.len() implies is_digit(#[trigger] t[i]) by {
        if i >= k {
            assert(t[i] == s[i - k]);
        }
    }
    if s.len() == 0 {
        assert(t =~= z);
        lemma_zeros_value(k);
    } else {
        assert(t.drop_last() =~= z + s.drop_last());
        assert(all_digits(s.drop_last()));
        lemma_leading_zeros(k, s.drop_last());
    }
}

proof fn lemma_zeros_value(k: nat)
    ensures
        digits_value(Seq::new(k, |i: int| '0')) == 0,
    decreases k,
{
    if k > 0 {
        assert(Seq::new(k, |i: int| '0').drop_last() =~= Seq::new((k - 1) as nat, |i: int| '0'));
        lemma_zeros_value((k - 1) as nat);
    }
}

/// `zero_padded(n, w)` is a run of digits worth `n`, exactly `w` long
/// when `n` has at most `w` digits.
pub proof fn lemma_zero_padded(n: nat, w: nat)
    requires
        w >= 1,
        n < pow10(w),
    ensures
        all_digits(zero_padded(n, w)),
        digits_value(zero_padded(n, w)) == n,
        zero_padded(n, w).len() == w,
{
    lemma_decimal_value(n);
    lemma_decimal_len_bound(n, w);
    let d = decimal(n);
    if d.len() < w {
        lemma_leading_zeros((w - d.len()) as nat, d);
    }
}

/// What `{:04}` writes for a year in `-999..=9999` reads back as that
/// year, in exactly four characters.
pub proof fn lemma_signed_padded_4(v: int)
    requires
        -999 <= v <= 9999,
    ensures
        signed_padded(v, 4).len() == 4,
        parse_signed(signed_padded(v, 4)) == Some(v),
{
    assert(pow10(4) == 10000) by {
        assert(pow10(0) == 1);
        assert(pow10(1) == 10);
        assert(pow10(2) == 100);
        assert(pow10(3) == 1000);
    }
    if v >= 0 {
        lemma_zero_padded(v as nat, 4);
        let s = zero_padded(v as nat, 4);
        assert(is_digit(s[0]));
    } else {
        lemma_zero_padded((-v) as nat, 3);
        let s = signed_padded(v, 4);
        assert(s.drop_first() =~= zero_padded((-v) as nat, 3));
    }
}

/// What `{:02}` writes for a value in `0..=99` reads back as that value,
/// in exactly two characters.
pub proof fn lemma_signed_padded_2(v: int)
    requires
        0 <= v <= 99,
    ensures
        signed_padded(v, 2).len() == 2,
        parse_signed(signed_padded(v, 2)) == Some(v),
{
    assert(pow10(2) == 100) by {
        assert(pow10(0) == 1);
        assert(pow10(1) == 10);
    }
    lemma_zero_padded(v as nat, 2);
    let s = zero_padded(v as nat, 2);
    assert(is_digit(s[0]));
}

} // verus!
