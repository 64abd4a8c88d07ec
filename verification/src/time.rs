//! The narrow ISO-8601 shape GitHub and the ledger use,
//! `YYYY-MM-DDTHH:MM:SSZ`, as mathematics: the Julian-Day-Number date
//! arithmetic both directions share, the reading of the text into
//! unix seconds, and the rendering of unix seconds back into text.

use vstd::prelude::*;
use crate::text::{
    all_digits, digit_value, digits_value, is_digit, lemma_digits_value_bound,
    lemma_digits_value_nonneg, lemma_signed_padded_2, lemma_signed_padded_4, parse_signed, pow10,
    signed_padded,
};

verus! {

/// Day number relative to 1970-01-01 of the proleptic Gregorian date
/// `y-m-d`, by the Fliegel & Van Flandern Julian Day Number formula
/// (the unix epoch is JDN 2440588).
pub open spec fn days_from_civil(y: int, m: int, d: int) -> int {
    let a = (14 - m) / 12;
    let yy = y + 4800 - a;
    let mm = m + 12 * a - 3;
    d + (153 * mm + 2) / 5 + 365 * yy + yy / 4 - yy / 100 + yy / 400 - 32045 - 2440588
}

/// One numeric field of the timestamp: `FromStr` for `i32` on
/// `s[a..b]`.
pub open spec fn iso_field(s: Seq<char>, a: int, b: int) -> Option<int> {
    parse_signed(s.subrange(a, b))
}

/// The separators of `YYYY-MM-DDTHH:MM:SSZ` sit where they belong.
pub open spec fn iso_shape(s: Seq<char>) -> bool {
    &&& s.len() == 20
    &&& s[19] == 'Z'
    &&& s[4] == '-'
    &&& s[7] == '-'
    &&& s[10] == 'T'
    &&& s[13] == ':'
    &&& s[16] == ':'
}

/// Unix seconds denoted by the timestamp `s`, or `None` when `s` is not
/// exactly `YYYY-MM-DDTHH:MM:SSZ` with in-range fields (month 1..=12,
/// day 1..=31, hour 0..=23, minute 0..=59, second 0..=60). Each field
/// is read the way `i32::from_str` reads it, so a leading `+` or `-`
/// inside a field is accepted.
pub open spec fn iso_secs(s: Seq<char>) -> Option<int> {
    if iso_shape(s) {
        match (
            iso_field(s, 0, 4),
            iso_field(s, 5, 7),
            iso_field(s, 8, 10),
            iso_field(s, 11, 13),
            iso_field(s, 14, 16),
            iso_field(s, 17, 19),
        ) {
            (Some(y), Some(mo), Some(d), Some(h), Some(mi), Some(se)) => {
                if 1 <= mo <= 12 && 1 <= d <= 31 && 0 <= h <= 23 && 0 <= mi <= 59 && 0 <= se
                    <= 60 {
                    Some(days_from_civil(y, mo, d) * 86400 + h * 3600 + mi * 60 + se)
                } else {
                    None
                }
            },
            _ => None,
        }
    } else {
        None
    }
}

/// Smallest value `iso_secs` can produce (year -999).
pub open spec fn iso_min() -> int {
    -100_000_000_000
}

/// Largest value `iso_secs` can produce (year 9999).
pub open spec fn iso_max() -> int {
    300_000_000_000
}

pub proof fn lemma_signed_field_bounds(s: Seq<char>)
    requires
        s.len() <= 4,
        parse_signed(s) is Some,
    ensures
        -999 <= parse_signed(s)->0 <= 9999,
        s.len() == 2 ==> -9 <= parse_signed(s)->0 <= 99,
{
    if s.len() > 0 && (s[0] == '+' || s[0] == '-') {
        lemma_digits_value_bound(s.drop_first());
        assert(pow10(0) == 1);
        assert(pow10(1) == 10);
        assert(pow10(2) == 100);
        assert(pow10(3) == 1000);
    } else {
        lemma_digits_value_bound(s);
        assert(pow10(0) == 1);
        assert(pow10(1) == 10);
        assert(pow10(2) == 100);
        assert(pow10(3) == 1000);
        assert(pow10(4) == 10000);
    }
}

pub proof fn lemma_days_from_civil_bounds(y: int, m: int, d: int)
    requires
        -999 <= y <= 9999,
        1 <= m <= 12,
        1 <= d <= 31,
    ensures
        -1_100_000 <= days_from_civil(y, m, d) <= 2_940_000,
{
}

/// Every value `iso_secs` produces lies in `[iso_min(), iso_max()]`.
pub proof fn lemma_iso_secs_bounds(s: Seq<char>)
    requires
        iso_secs(s) is Some,
    ensures
        iso_min() <= iso_secs(s)->0 <= iso_max(),
{
    lemma_signed_field_bounds(s.subrange(0, 4));
    lemma_signed_field_bounds(s.subrange(5, 7));
    lemma_signed_field_bounds(s.subrange(8, 10));
    let y = iso_field(s, 0, 4)->0;
    let mo = iso_field(s, 5, 7)->0;
    let d = iso_field(s, 8, 10)->0;
    lemma_days_from_civil_bounds(y, mo, d);
}

/// Division rounding toward zero (Rust's `/` on signed integers), for a
/// positive divisor.
pub open spec fn tdiv(a: int, b: int) -> int {
    if a >= 0 {
        a / b
    } else {
        -((-a) / b)
    }
}

/// `(year, month, day)` of the day `days` after 1970-01-01, by the
/// Fliegel & Van Flandern inverse Julian Day Number formula, evaluated
/// with Rust's truncating division.
pub open spec fn civil_from_days(days: int) -> (int, int, int) {
    let jdn = days + 2440588;
    let l0 = jdn + 68569;
    let n = tdiv(4 * l0, 146097);
    let l1 = l0 - tdiv(146097 * n + 3, 4);
    let i = tdiv(4000 * (l1 + 1), 1461001);
    let l2 = l1 - tdiv(1461 * i, 4) + 31;
    let j = tdiv(80 * l2, 2447);
    let d = l2 - tdiv(2447 * j, 80);
    let l3 = tdiv(j, 11);
    let mo = j + 2 - 12 * l3;
    let y = 100 * (n - 49) + i + l3;
    (y, mo, d)
}

/// The text `format_iso8601_z` renders for unix seconds `t`:
/// `{y:04}-{mo:02}-{d:02}T{h:02}:{mi:02}:{se:02}Z`.
pub open spec fn iso_text(t: int) -> Seq<char> {
    let day = t / 86400;
    let sid = t % 86400;
    let (y, mo, d) = civil_from_days(day);
    signed_padded(y, 4) + seq!['-'] + signed_padded(mo, 2) + seq!['-'] + signed_padded(d, 2)
        + seq!['T'] + signed_padded(sid / 3600, 2) + seq![':'] + signed_padded((sid % 3600) / 60, 2)
        + seq![':'] + signed_padded(sid % 60, 2) + seq!['Z']
}

/// Month arithmetic of the inverse formula, for a day-of-March-year
/// value `l2` in `31..=396`: the month index `j`, the day `d`, the
/// January/February carry `l3` and the month `mo` are in range, and the
/// forward formula's month term recovers `l2`.
proof fn lemma_month_step(l2: int)
    requires
        31 <= l2 <= 396,
    ensures
        ({
            let j = (80 * l2) / 2447;
            let d = l2 - (2447 * j) / 80;
            let l3 = j / 11;
            let mo = j + 2 - 12 * l3;
            let a = (14 - mo) / 12;
            let mm = mo + 12 * a - 3;
            &&& 1 <= j <= 12
            &&& 1 <= d <= 31
            &&& 0 <= l3 <= 1
            &&& 1 <= mo <= 12
            &&& a == l3
            &&& mm == j - 1
            &&& d + (153 * mm + 2) / 5 == l2 - 30
        }),
{
    let j = (80 * l2) / 2447;
    assert(2447 * j <= 80 * l2 < 2447 * j + 2447);
    assert(1 <= j <= 12);
    if j == 1 {
        assert((2447 * j) / 80 == 30);
    } else if j == 2 {
        assert((2447 * j) / 80 == 61);
    } else if j == 3 {
        assert((2447 * j) / 80 == 91);
    } else if j == 4 {
        assert((2447 * j) / 80 == 122);
    } else if j == 5 {
        assert((2447 * j) / 80 == 152);
    } else if j == 6 {
        assert((2447 * j) / 80 == 183);
    } else if j == 7 {
        assert((2447 * j) / 80 == 214);
    } else if j == 8 {
        assert((2447 * j) / 80 == 244);
    } else if j == 9 {
        assert((2447 * j) / 80 == 275);
    } else if j == 10 {
        assert((2447 * j) / 80 == 305);
    } else if j == 11 {
        assert((2447 * j) / 80 == 336);
    } else {
        assert((2447 * j) / 80 == 367);
    }
}

/// The inverse formula lands on a real `(year, month, day)` in the
/// years -999..=9999 that the forward formula maps back to the same day.
pub proof fn lemma_civil_from_days(day: int)
    requires
        -1_084_405 <= day <= 2_932_896,
    ensures
        ({
            let (y, mo, d) = civil_from_days(day);
            &&& -999 <= y <= 9999
            &&& 1 <= mo <= 12
            &&& 1 <= d <= 31
            &&& days_from_civil(y, mo, d) == day
        }),
{
    let jdn = day + 2440588;
    let l0 = jdn + 68569;
    let n = (4 * l0) / 146097;
    assert(146097 * n <= 4 * l0 < 146097 * n + 146097);
    assert(39 <= n <= 148);
    let q = (146097 * n + 3) / 4;
    assert(4 * q <= 146097 * n + 3 < 4 * q + 4);
    let l1 = l0 - q;
    assert(0 <= l1 <= 36524);
    let i = (4000 * (l1 + 1)) / 1461001;
    assert(1461001 * i <= 4000 * (l1 + 1) < 1461001 * i + 1461001);
    assert(0 <= i <= 99);
    let k = (1461 * i) / 4;
    assert(4 * k <= 1461 * i < 4 * k + 4);
    let l2 = l1 - k + 31;
    assert(31 <= l2 <= 396);
    lemma_month_step(l2);
    let j = (80 * l2) / 2447;
    let d = l2 - (2447 * j) / 80;
    let l3 = j / 11;
    let mo = j + 2 - 12 * l3;
    let y = 100 * (n - 49) + i + l3;
    assert(tdiv(4 * l0, 146097) == n);
    assert(tdiv(146097 * n + 3, 4) == q);
    assert(tdiv(4000 * (l1 + 1), 1461001) == i);
    assert(tdiv(1461 * i, 4) == k);
    assert(tdiv(80 * l2, 2447) == j);
    assert(tdiv(2447 * j, 80) == (2447 * j) / 80);
    assert(tdiv(j, 11) == l3);
    assert(civil_from_days(day) == (y, mo, d));
    // Year range: the first and last March-based years of the span.
    assert(-999 <= y <= 9999);
    // Forward formula, term by term.
    let a = (14 - mo) / 12;
    let yy = y + 4800 - a;
    assert(yy == 100 * (n - 1) + i);
    let m1 = n - 1;
    assert(yy / 4 == 25 * m1 + i / 4);
    assert(yy / 100 == m1);
    assert(yy / 400 == m1 / 4);
    assert(k == 365 * i + i / 4);
    assert(q == 36524 * n + (n + 3) / 4);
    assert((n + 3) / 4 == m1 / 4 + 1);
}

/// Rendering then reading gives back the same instant: for every unix
/// second from `-999-01-01T00:00:00Z` to `9999-12-31T23:59:59Z`, the
/// text `format_iso8601_z` writes is text `parse_iso8601_z` reads as
/// that same second.
pub proof fn iso_text_round_trips(t: int)
    requires
        -93_692_592_000 <= t <= 253_402_300_799,
    ensures
        iso_secs(iso_text(t)) == Some(t),
{
    let day = t / 86400;
    let sid = t % 86400;
    assert(-1_084_405 <= day <= 2_932_896);
    lemma_civil_from_days(day);
    let (y, mo, d) = civil_from_days(day);
    let h = sid / 3600;
    let mi = (sid % 3600) / 60;
    let se = sid % 60;
    lemma_signed_padded_4(y);
    lemma_signed_padded_2(mo);
    lemma_signed_padded_2(d);
    lemma_signed_padded_2(h);
    lemma_signed_padded_2(mi);
    lemma_signed_padded_2(se);
    let s = iso_text(t);
    let ys = signed_padded(y, 4);
    let mos = signed_padded(mo, 2);
    let ds = signed_padded(d, 2);
    let hs = signed_padded(h, 2);
    let mis = signed_padded(mi, 2);
    let ses = signed_padded(se, 2);
    assert(s =~= ys + seq!['-'] + mos + seq!['-'] + ds + seq!['T'] + hs + seq![':'] + mis + seq![
        ':',
    ] + ses + seq!['Z']);
    assert(s.len() == 20);
    assert(s.subrange(0, 4) =~= ys);
    assert(s.subrange(5, 7) =~= mos);
    assert(s.subrange(8, 10) =~= ds);
    assert(s.subrange(11, 13) =~= hs);
    assert(s.subrange(14, 16) =~= mis);
    assert(s.subrange(17, 19) =~= ses);
    assert(s[4] == '-' && s[7] == '-' && s[10] == 'T' && s[13] == ':' && s[16] == ':' && s[19]
        == 'Z');
    assert(iso_shape(s));
    assert(day * 86400 + h * 3600 + mi * 60 + se == t);
}

/// The quantities of the inverse formula for `day`, with floor division
/// (every dividend is non-negative in the supported range).
pub open spec fn civil_steps(day: int) -> (int, int, int, int) {
    let l0 = day + 2440588 + 68569;
    let n = (4 * l0) / 146097;
    let l1 = l0 - (146097 * n + 3) / 4;
    let i = (4000 * (l1 + 1)) / 1461001;
    let l2 = l1 - (1461 * i) / 4 + 31;
    (n, l1, i, l2)
}

proof fn lemma_civil_steps(day: int)
    requires
        -1_084_405 <= day <= 2_932_896,
    ensures
        ({
            let (n, l1, i, l2) = civil_steps(day);
            let j = (80 * l2) / 2447;
            let d = l2 - (2447 * j) / 80;
            let l3 = j / 11;
            let mo = j + 2 - 12 * l3;
            &&& 39 <= n <= 148
            &&& 0 <= l1 <= 36524
            &&& 0 <= i <= 99
            &&& 31 <= l2 <= 396
            &&& 1 <= j <= 12
            &&& 1 <= d <= 31
            &&& civil_from_days(day) == (100 * (n - 49) + i + l3, mo, d)
        }),
{
    let l0 = day + 2440588 + 68569;
    let n = (4 * l0) / 146097;
    assert(146097 * n <= 4 * l0 < 146097 * n + 146097);
    let q = (146097 * n + 3) / 4;
    assert(4 * q <= 146097 * n + 3 < 4 * q + 4);
    let l1 = l0 - q;
    let i = (4000 * (l1 + 1)) / 1461001;
    assert(1461001 * i <= 4000 * (l1 + 1) < 1461001 * i + 1461001);
    let k = (1461 * i) / 4;
    assert(4 * k <= 1461 * i < 4 * k + 4);
    let l2 = l1 - k + 31;
    lemma_month_step(l2);
    let j = (80 * l2) / 2447;
    let l3 = j / 11;
    assert(tdiv(4 * l0, 146097) == n);
    assert(tdiv(146097 * n + 3, 4) == q);
    assert(tdiv(4000 * (l1 + 1), 1461001) == i);
    assert(tdiv(1461 * i, 4) == k);
    assert(tdiv(80 * l2, 2447) == j);
    assert(tdiv(2447 * j, 80) == (2447 * j) / 80);
    assert(tdiv(j, 11) == l3);
}

/// `(y, m, d)` comes before `(y2, m2, d2)` in calendar order.
pub open spec fn date_before(a: (int, int, int), b: (int, int, int)) -> bool {
    a.0 < b.0 || (a.0 == b.0 && (a.1 < b.1 || (a.1 == b.1 && a.2 < b.2)))
}

/// The month index of a day-of-March-year value past the last 31st of
/// January (`l2` of 395 or 396) is February's.
proof fn lemma_late_february(l2: int)
    requires
        395 <= l2 <= 396,
    ensures
        (80 * l2) / 2447 == 12,
{
}

/// The next day's date comes after this day's.
proof fn lemma_civil_step(day: int)
    requires
        -1_084_405 <= day,
        day + 1 <= 2_932_896,
    ensures
        date_before(civil_from_days(day), civil_from_days(day + 1)),
{
    lemma_civil_steps(day);
    lemma_civil_steps(day + 1);
    let (na, l1a, ia, l2a) = civil_steps(day);
    let (nb, l1b, ib, l2b) = civil_steps(day + 1);
    let l0a = day + 2440588 + 68569;
    assert(146097 * na <= 4 * l0a < 146097 * na + 146097);
    assert(146097 * nb <= 4 * l0a + 4 < 146097 * nb + 146097);
    let qa = (146097 * na + 3) / 4;
    let qb = (146097 * nb + 3) / 4;
    assert(4 * qa <= 146097 * na + 3 < 4 * qa + 4);
    assert(4 * qb <= 146097 * nb + 3 < 4 * qb + 4);
    let ka = (1461 * ia) / 4;
    let kb = (1461 * ib) / 4;
    assert(4 * ka <= 1461 * ia < 4 * ka + 4);
    assert(4 * kb <= 1461 * ib < 4 * kb + 4);
    assert(1461001 * ia <= 4000 * (l1a + 1) < 1461001 * ia + 1461001);
    assert(1461001 * ib <= 4000 * (l1b + 1) < 1461001 * ib + 1461001);
    let ja = (80 * l2a) / 2447;
    let jb = (80 * l2b) / 2447;
    assert(2447 * ja <= 80 * l2a < 2447 * ja + 2447);
    assert(2447 * jb <= 80 * l2b < 2447 * jb + 2447);
    if nb == na {
        assert(l1b == l1a + 1);
        if ib == ia {
            assert(l2b == l2a + 1);
            if jb == ja {
            } else {
                assert(jb == ja + 1);
                assert(l2b - (2447 * jb) / 80 == 1);
            }
        } else {
            assert(ib == ia + 1);
            assert(l1a + 1 <= kb);
            assert(l2b == 31);
            assert(365 <= kb - ka <= 366);
            lemma_late_february(l2a);
            assert(jb == 1);
        }
    } else {
        assert(nb == na + 1);
        assert(l1b == 0);
        assert(ib == 0);
        assert(l2b == 31);
        assert(jb == 1);
        assert(36524 <= qb - qa <= 36525);
        assert(36523 <= l1a <= 36524);
        assert(ia == 99);
        assert(ka == 36159);
        lemma_late_february(l2a);
    }
}

/// Dates move forward with the day number.
proof fn lemma_civil_monotone(d1: int, d2: int)
    requires
        -1_084_405 <= d1 < d2 <= 2_932_896,
    ensures
        date_before(civil_from_days(d1), civil_from_days(d2)),
    decreases d2 - d1,
{
    lemma_civil_step(d2 - 1);
    if d1 < d2 - 1 {
        lemma_civil_monotone(d1, d2 - 1);
    }
}

/// `a` sorts before `b` as strings do: at the first position where
/// they differ, `a` has the smaller character.
pub open spec fn text_before(a: Seq<char>, b: Seq<char>) -> bool {
    exists|i: int|
        0 <= i < a.len() && i < b.len() && #[trigger] a.take(i) == b.take(i) && (a[i] as int) < (
        b[i] as int)
}

/// Equal-length digit runs sort as their values do.
proof fn lemma_digits_order(a: Seq<char>, b: Seq<char>)
    requires
        all_digits(a),
        all_digits(b),
        a.len() == b.len(),
    ensures
        digits_value(a) < digits_value(b) ==> text_before(a, b),
        digits_value(a) == digits_value(b) ==> a == b,
    decreases a.len(),
{
    if a.len() == 0 {
        assert(a =~= b);
    } else {
        let a0 = a.drop_last();
        let b0 = b.drop_last();
        let n = a.len() - 1;
        assert(all_digits(a0) && all_digits(b0)) by {
            assert forall|i: int| 0 <= i < a0.len() implies is_digit(#[trigger] a0[i]) by {
                assert(a0[i] == a[i]);
            }
            assert forall|i: int| 0 <= i < b0.len() implies is_digit(#[trigger] b0[i]) by {
                assert(b0[i] == b[i]);
            }
        }
        lemma_digits_order(a0, b0);
        lemma_digits_value_nonneg(a0);
        lemma_digits_value_nonneg(b0);
        assert(is_digit(a[n]) && is_digit(b[n]));
        let la = digit_value(a.last());
        let lb = digit_value(b.last());
        assert(digits_value(a) == digits_value(a0) * 10 + la);
        assert(digits_value(b) == digits_value(b0) * 10 + lb);
        if digits_value(a0) < digits_value(b0) {
            let i = choose|i: int|
                0 <= i < a0.len() && i < b0.len() && #[trigger] a0.take(i) == b0.take(i) && (
                a0[i] as int) < (b0[i] as int);
            assert(a.take(i) =~= a0.take(i));
            assert(b.take(i) =~= b0.take(i));
        } else if digits_value(a0) == digits_value(b0) {
            assert(a.take(n) =~= a0);
            assert(b.take(n) =~= b0);
            if la == lb {
                assert(a.last() == b.last());
                assert(a =~= a0.push(a.last()));
                assert(b =~= b0.push(b.last()));
            }
        }
    }
}

proof fn lemma_before_extend(p1: Seq<char>, p2: Seq<char>, x1: Seq<char>, x2: Seq<char>)
    requires
        text_before(p1, p2),
    ensures
        text_before(p1 + x1, p2 + x2),
{
    let i = choose|i: int|
        0 <= i < p1.len() && i < p2.len() && #[trigger] p1.take(i) == p2.take(i) && (p1[i] as int)
            < (p2[i] as int);
    assert((p1 + x1).take(i) =~= p1.take(i));
    assert((p2 + x2).take(i) =~= p2.take(i));
}

proof fn lemma_before_after(p: Seq<char>, x1: Seq<char>, x2: Seq<char>)
    requires
        text_before(x1, x2),
    ensures
        text_before(p + x1, p + x2),
{
    let i = choose|i: int|
        0 <= i < x1.len() && i < x2.len() && #[trigger] x1.take(i) == x2.take(i) && (x1[i] as int)
            < (x2[i] as int);
    let k = p.len() + i;
    assert((p + x1).take(k) =~= p + x1.take(i));
    assert((p + x2).take(k) =~= p + x2.take(i));
}

/// A zero-padded field of width `w` holding `v1 < v2` sorts first.
proof fn lemma_padded_order(v1: int, v2: int, w: nat)
    requires
        w == 2 || w == 4,
        0 <= v1 < v2,
        v2 < pow10(w),
    ensures
        text_before(signed_padded(v1, w), signed_padded(v2, w)),
{
    crate::text::lemma_zero_padded(v1 as nat, w);
    crate::text::lemma_zero_padded(v2 as nat, w);
    lemma_digits_order(signed_padded(v1, w), signed_padded(v2, w));
}

/// The six fields of the text of `t`: year, month, day, hour, minute,
/// second.
pub open spec fn iso_fields(t: int) -> (int, int, int, int, int, int) {
    let day = t / 86400;
    let sid = t % 86400;
    let (y, mo, d) = civil_from_days(day);
    (y, mo, d, sid / 3600, (sid % 3600) / 60, sid % 60)
}

/// The ISO text of six fields.
pub open spec fn fields_text(f: (int, int, int, int, int, int)) -> Seq<char> {
    signed_padded(f.0, 4) + seq!['-'] + signed_padded(f.1, 2) + seq!['-'] + signed_padded(f.2, 2)
        + seq!['T'] + signed_padded(f.3, 2) + seq![':'] + signed_padded(f.4, 2) + seq![':']
        + signed_padded(f.5, 2) + seq!['Z']
}

/// Six fields in calendar-and-clock order.
pub open spec fn fields_before(a: (int, int, int, int, int, int), b: (int, int, int, int, int, int)) -> bool {
    ||| a.0 < b.0
    ||| a.0 == b.0 && a.1 < b.1
    ||| a.0 == b.0 && a.1 == b.1 && a.2 < b.2
    ||| a.0 == b.0 && a.1 == b.1 && a.2 == b.2 && a.3 < b.3
    ||| a.0 == b.0 && a.1 == b.1 && a.2 == b.2 && a.3 == b.3 && a.4 < b.4
    ||| a.0 == b.0 && a.1 == b.1 && a.2 == b.2 && a.3 == b.3 && a.4 == b.4 && a.5 < b.5
}

/// Fields in the ranges a text from 1970 on can hold.
pub open spec fn fields_in_range(f: (int, int, int, int, int, int)) -> bool {
    &&& 0 <= f.0 <= 9999
    &&& 0 <= f.1 <= 99
    &&& 0 <= f.2 <= 99
    &&& 0 <= f.3 <= 99
    &&& 0 <= f.4 <= 99
    &&& 0 <= f.5 <= 99
}

proof fn lemma_year_from_1970(day: int)
    requires
        0 <= day <= 2_932_896,
    ensures
        civil_from_days(day).0 >= 1970,
{
    lemma_civil_steps(0);
    assert(civil_from_days(0).0 == 1970);
    if 0 < day {
        lemma_civil_monotone(0, day);
    }
}

proof fn lemma_clock_order(s1: int, s2: int)
    requires
        0 <= s1 < s2 < 86400,
    ensures
        ({
            let (h1, m1, c1) = (s1 / 3600, (s1 % 3600) / 60, s1 % 60);
            let (h2, m2, c2) = (s2 / 3600, (s2 % 3600) / 60, s2 % 60);
            &&& 0 <= h1 <= 23 && 0 <= m1 <= 59 && 0 <= c1 <= 59
            &&& 0 <= h2 <= 23 && 0 <= m2 <= 59 && 0 <= c2 <= 59
            &&& h1 < h2 || (h1 == h2 && (m1 < m2 || (m1 == m2 && c1 < c2)))
        }),
{
    assert(s1 == 3600 * (s1 / 3600) + 60 * ((s1 % 3600) / 60) + s1 % 60);
    assert(s2 == 3600 * (s2 / 3600) + 60 * ((s2 % 3600) / 60) + s2 % 60);
}

proof fn lemma_clock_range(s: int)
    requires
        0 <= s < 86400,
    ensures
        0 <= s / 3600 <= 23 && 0 <= (s % 3600) / 60 <= 59 && 0 <= s % 60 <= 59,
{
}

#[verifier::rlimit(60)]
proof fn lemma_fields_order(t1: int, t2: int)
    requires
        0 <= t1 < t2 <= 253_402_300_799,
    ensures
        fields_in_range(iso_fields(t1)),
        fields_in_range(iso_fields(t2)),
        fields_before(iso_fields(t1), iso_fields(t2)),
{
    let day1 = t1 / 86400;
    let day2 = t2 / 86400;
    assert(0 <= day1 <= day2 <= 2_932_896);
    lemma_civil_from_days(day1);
    lemma_civil_from_days(day2);
    lemma_year_from_1970(day1);
    lemma_year_from_1970(day2);
    if day1 < day2 {
        lemma_civil_monotone(day1, day2);
        lemma_clock_range(t1 % 86400);
        lemma_clock_range(t2 % 86400);
    } else {
        lemma_clock_order(t1 % 86400, t2 % 86400);
    }
}

proof fn lemma_fields_len(f: (int, int, int, int, int, int))
    requires
        fields_in_range(f),
    ensures
        signed_padded(f.0, 4).len() == 4,
        signed_padded(f.1, 2).len() == 2,
        signed_padded(f.2, 2).len() == 2,
        signed_padded(f.3, 2).len() == 2,
        signed_padded(f.4, 2).len() == 2,
        signed_padded(f.5, 2).len() == 2,
        fields_text(f).len() == 20,
{
    assert(pow10(2) == 100 && pow10(4) == 10000) by {
        assert(pow10(0) == 1);
        assert(pow10(1) == 10);
        assert(pow10(2) == 100);
        assert(pow10(3) == 1000);
    }
    crate::text::lemma_zero_padded(f.0 as nat, 4);
    crate::text::lemma_zero_padded(f.1 as nat, 2);
    crate::text::lemma_zero_padded(f.2 as nat, 2);
    crate::text::lemma_zero_padded(f.3 as nat, 2);
    crate::text::lemma_zero_padded(f.4 as nat, 2);
    crate::text::lemma_zero_padded(f.5 as nat, 2);
}

#[verifier::rlimit(40)]
proof fn lemma_fields_text_order(f: (int, int, int, int, int, int), g: (int, int, int, int, int, int))
    requires
        fields_in_range(f),
        fields_in_range(g),
        fields_before(f, g),
    ensures
        text_before(fields_text(f), fields_text(g)),
{
    assert(pow10(2) == 100 && pow10(4) == 10000) by {
        assert(pow10(0) == 1);
        assert(pow10(1) == 10);
        assert(pow10(2) == 100);
        assert(pow10(3) == 1000);
    }
    lemma_fields_len(f);
    lemma_fields_len(g);
    let dash = seq!['-'];
    let tee = seq!['T'];
    let col = seq![':'];
    let zed = seq!['Z'];
    let f0 = signed_padded(f.0, 4);
    let g0 = signed_padded(g.0, 4);
    let f1 = signed_padded(f.1, 2);
    let g1 = signed_padded(g.1, 2);
    let f2 = signed_padded(f.2, 2);
    let g2 = signed_padded(g.2, 2);
    let f3 = signed_padded(f.3, 2);
    let g3 = signed_padded(g.3, 2);
    let f4 = signed_padded(f.4, 2);
    let g4 = signed_padded(g.4, 2);
    let f5 = signed_padded(f.5, 2);
    let g5 = signed_padded(g.5, 2);
    // The texts, built up left to right.
    let a1 = f0 + dash;
    let b1 = g0 + dash;
    let a2 = a1 + f1;
    let b2 = b1 + g1;
    let a3 = a2 + dash;
    let b3 = b2 + dash;
    let a4 = a3 + f2;
    let b4 = b3 + g2;
    let a5 = a4 + tee;
    let b5 = b4 + tee;
    let a6 = a5 + f3;
    let b6 = b5 + g3;
    let a7 = a6 + col;
    let b7 = b6 + col;
    let a8 = a7 + f4;
    let b8 = b7 + g4;
    let a9 = a8 + col;
    let b9 = b8 + col;
    let a10 = a9 + f5;
    let b10 = b9 + g5;
    assert(fields_text(f) == a10 + zed);
    assert(fields_text(g) == b10 + zed);
    if f.0 < g.0 {
        lemma_padded_order(f.0, g.0, 4);
        lemma_before_extend(f0, g0, dash, dash);
        lemma_before_extend(a1, b1, f1, g1);
        lemma_before_extend(a2, b2, dash, dash);
        lemma_before_extend(a3, b3, f2, g2);
        lemma_before_extend(a4, b4, tee, tee);
        lemma_before_extend(a5, b5, f3, g3);
        lemma_before_extend(a6, b6, col, col);
        lemma_before_extend(a7, b7, f4, g4);
        lemma_before_extend(a8, b8, col, col);
        lemma_before_extend(a9, b9, f5, g5);
        lemma_before_extend(a10, b10, zed, zed);
    } else if f.1 < g.1 {
        lemma_padded_order(f.1, g.1, 2);
        assert(a1 == b1);
        lemma_before_after(a1, f1, g1);
        lemma_before_extend(a2, b2, dash, dash);
        lemma_before_extend(a3, b3, f2, g2);
        lemma_before_extend(a4, b4, tee, tee);
        lemma_before_extend(a5, b5, f3, g3);
        lemma_before_extend(a6, b6, col, col);
        lemma_before_extend(a7, b7, f4, g4);
        lemma_before_extend(a8, b8, col, col);
        lemma_before_extend(a9, b9, f5, g5);
        lemma_before_extend(a10, b10, zed, zed);
    } else if f.2 < g.2 {
        lemma_padded_order(f.2, g.2, 2);
        assert(a3 == b3);
        lemma_before_after(a3, f2, g2);
        lemma_before_extend(a4, b4, tee, tee);
        lemma_before_extend(a5, b5, f3, g3);
        lemma_before_extend(a6, b6, col, col);
        lemma_before_extend(a7, b7, f4, g4);
        lemma_before_extend(a8, b8, col, col);
        lemma_before_extend(a9, b9, f5, g5);
        lemma_before_extend(a10, b10, zed, zed);
    } else if f.3 < g.3 {
        lemma_padded_order(f.3, g.3, 2);
        assert(a5 == b5);
        lemma_before_after(a5, f3, g3);
        lemma_before_extend(a6, b6, col, col);
        lemma_before_extend(a7, b7, f4, g4);
        lemma_before_extend(a8, b8, col, col);
        lemma_before_extend(a9, b9, f5, g5);
        lemma_before_extend(a10, b10, zed, zed);
    } else if f.4 < g.4 {
        lemma_padded_order(f.4, g.4, 2);
        assert(a7 == b7);
        lemma_before_after(a7, f4, g4);
        lemma_before_extend(a8, b8, col, col);
        lemma_before_extend(a9, b9, f5, g5);
        lemma_before_extend(a10, b10, zed, zed);
    } else {
        lemma_padded_order(f.5, g.5, 2);
        assert(a9 == b9);
        lemma_before_after(a9, f5, g5);
        lemma_before_extend(a10, b10, zed, zed);
    }
}

/// Between 1970 and the end of 9999, later instants have later ISO
/// texts: for `0 <= t1 < t2 <= 253_402_300_799` the text of `t1` is 20
/// characters long and sorts before the text of `t2`.
pub proof fn iso_text_sorts_by_time(t1: int, t2: int)
    requires
        0 <= t1 < t2 <= 253_402_300_799,
    ensures
        iso_text(t1).len() == 20,
        iso_text(t2).len() == 20,
        text_before(iso_text(t1), iso_text(t2)),
{
    lemma_fields_order(t1, t2);
    lemma_fields_len(iso_fields(t1));
    lemma_fields_len(iso_fields(t2));
    assert(iso_text(t1) == fields_text(iso_fields(t1)));
    assert(iso_text(t2) == fields_text(iso_fields(t2)));
    lemma_fields_text_order(iso_fields(t1), iso_fields(t2));
}

} // verus!
