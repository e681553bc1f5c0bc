//! The decisions of the benchmark bridge: session dates as monotonic
//! minutes, session transcripts, date-ordering rules and the dated edge
//! history appended to a retrieved context.
use vstd::prelude::*;
use vstd::utf8::encode_utf8;
use std::collections::BTreeMap;
use vstd::std_specs::btree::{increasing_seq, key_obeys_cmp_spec};
use vstd::std_specs::iter::IteratorSpec;
use vstd::std_specs::cmp::OrdSpec;
use crate::number::{digit_value, digits_value, is_digit, signed_decimal, signed_decimal_string, all_digits, decimal, decimal_string, lemma_decimal_digits, lemma_parse_usize_decimal, unsigned_part, parse_i64, parse_usize, push_decimal, spec_parse_i64, spec_parse_usize};
use crate::semantics::{distinct_names, lemma_name_index, lemma_register_profile, has_name, name_index, spec_register};
use crate::json::{get, get_str, json_get, json_str, Json};
use crate::text::{lemma_pieces_join, lemma_pieces_of_piece, lemma_words_join, lemma_words_of_word, no_space, whitespace, chars_of, pieces, pieces_of, string_of, words, words_of};

verus! {

/// The date word of a session date: its first word, `0/0/0` when it has none.
pub open spec fn date_word(s: Seq<char>) -> Seq<char> {
    if words(s).len() > 0 {
        words(s)[0]
    } else {
        seq!['0', '/', '0', '/', '0']
    }
}

/// The time word of a session date: the word after the weekday in the
/// three-word form `2023/04/10 (Mon) 17:50`, the fourth word when there are
/// more, `0:0` when there are fewer than three.
pub open spec fn time_word(s: Seq<char>) -> Seq<char> {
    if words(s).len() > 3 {
        words(s)[3]
    } else if words(s).len() == 3 {
        words(s)[2]
    } else {
        seq!['0', ':', '0']
    }
}

/// The pieces that parse as `i64`, in order, the others dropped.
pub open spec fn parsed_ints(ps: Seq<Seq<char>>) -> Seq<i64>
    decreases ps.len(),
{
    if ps.len() == 0 {
        Seq::empty()
    } else {
        let prev = parsed_ints(ps.drop_last());
        match spec_parse_i64(ps.last()) {
            Some(v) => prev.push(v),
            None => prev,
        }
    }
}

/// The `k`-th number of `v`, 0 when there is none.
pub open spec fn field(v: Seq<i64>, k: int) -> int {
    if 0 <= k < v.len() {
        v[k] as int
    } else {
        0
    }
}

/// The numbers of the date word, split at `/`.
pub open spec fn date_fields(s: Seq<char>) -> Seq<i64> {
    parsed_ints(pieces(date_word(s), '/'))
}

/// The numbers of the time word, split at `:`.
pub open spec fn time_fields(s: Seq<char>) -> Seq<i64> {
    parsed_ints(pieces(time_word(s), ':'))
}

/// Minutes of year `y`, month `m`, day `d`, hour `h`, minute `mi`, with
/// 366-day years and 31-day months.
pub open spec fn minutes_of(y: int, m: int, d: int, h: int, mi: int) -> int {
    ((y * 366 + m * 31 + d) * 24 + h) * 60 + mi
}

pub open spec fn fits_i64(x: int) -> bool {
    i64::MIN <= x <= i64::MAX
}

/// Every intermediate value of `minutes_of`, in the order in which it is
/// computed, fits in an `i64`.
pub open spec fn minutes_fit(y: int, m: int, d: int, h: int, mi: int) -> bool {
    &&& fits_i64(y * 366)
    &&& fits_i64(m * 31)
    &&& fits_i64(y * 366 + m * 31)
    &&& fits_i64(y * 366 + m * 31 + d)
    &&& fits_i64((y * 366 + m * 31 + d) * 24)
    &&& fits_i64((y * 366 + m * 31 + d) * 24 + h)
    &&& fits_i64(((y * 366 + m * 31 + d) * 24 + h) * 60)
    &&& fits_i64(((y * 366 + m * 31 + d) * 24 + h) * 60 + mi)
}

/// A session date such as `2023/04/10 (Mon) 17:50` as monotonic minutes:
/// the first three numbers of the date word and the first two of the time
/// word, a missing one counting as 0.
pub open spec fn date_minutes(s: Seq<char>) -> int {
    let dp = date_fields(s);
    let tp = time_fields(s);
    minutes_of(field(dp, 0), field(dp, 1), field(dp, 2), field(tp, 0), field(tp, 1))
}

/// The computation of `date_minutes(s)` stays within `i64`.
pub open spec fn date_fits(s: Seq<char>) -> bool {
    let dp = date_fields(s);
    let tp = time_fields(s);
    minutes_fit(field(dp, 0), field(dp, 1), field(dp, 2), field(tp, 0), field(tp, 1))
}

/// The year, month, day, hour and minute read from a session date, a
/// missing one counting as 0.
pub open spec fn date_key(s: Seq<char>) -> (int, int, int, int, int) {
    let dp = date_fields(s);
    let tp = time_fields(s);
    (field(dp, 0), field(dp, 1), field(dp, 2), field(tp, 0), field(tp, 1))
}

/// A calendar month 1..=12, day 1..=31, hour 0..24 and minute 0..60.
pub open spec fn calendar_valid(k: (int, int, int, int, int)) -> bool {
    1 <= k.1 <= 12 && 1 <= k.2 <= 31 && 0 <= k.3 < 24 && 0 <= k.4 < 60
}

/// `a` comes strictly before `b` in (year, month, day, hour, minute)
/// order.
pub open spec fn lex_before(a: (int, int, int, int, int), b: (int, int, int, int, int)) -> bool {
    ||| a.0 < b.0
    ||| a.0 == b.0 && a.1 < b.1
    ||| a.0 == b.0 && a.1 == b.1 && a.2 < b.2
    ||| a.0 == b.0 && a.1 == b.1 && a.2 == b.2 && a.3 < b.3
    ||| a.0 == b.0 && a.1 == b.1 && a.2 == b.2 && a.3 == b.3 && a.4 < b.4
}

/// Session dates as minutes are monotonic: a strictly later calendar date
/// and time gives strictly more minutes, within a year and across years,
/// except that a day after 25 December can reach the minutes of early
/// January of the next year (years count 366 days, months 31).
pub proof fn lemma_date_minutes_monotonic(s1: Seq<char>, s2: Seq<char>)
    requires
        calendar_valid(date_key(s1)),
        calendar_valid(date_key(s2)),
        lex_before(date_key(s1), date_key(s2)),
        date_key(s1).0 < date_key(s2).0 ==> !(date_key(s1).1 == 12 && date_key(s1).2 > 25),
    ensures
        date_minutes(s1) < date_minutes(s2),
{
    let a = date_key(s1);
    let b = date_key(s2);
    let da = a.0 * 366 + a.1 * 31 + a.2;
    let db = b.0 * 366 + b.1 * 31 + b.2;
    if a.0 < b.0 {
        assert(a.1 * 31 + a.2 <= 397);
        assert(da < db);
    } else if a.0 == b.0 && a.1 < b.1 {
        assert(da < db);
    }
    assert(date_minutes(s1) == (da * 24 + a.3) * 60 + a.4);
    assert(date_minutes(s2) == (db * 24 + b.3) * 60 + b.4);
}

/// The time of day adds its minutes to those of midnight of the date.
pub proof fn lemma_time_of_day_adds(s: Seq<char>)
    ensures
        date_minutes(s) == minutes_of(date_key(s).0, date_key(s).1, date_key(s).2, 0, 0)
            + date_key(s).3 * 60 + date_key(s).4,
{
}

/// A non-empty string of decimal digits whose value fits in `i64`.
pub open spec fn digit_word(d: Seq<char>) -> bool {
    d.len() > 0 && all_digits(d) && digits_value(d) <= i64::MAX
}

/// A session date in its documented form `Y/M/D (W) h:m`: digit strings
/// for the year, month, day, hour and minute, and the weekday word `w`.
pub open spec fn documented_date(
    y: Seq<char>,
    m: Seq<char>,
    d: Seq<char>,
    w: Seq<char>,
    h: Seq<char>,
    mi: Seq<char>,
) -> Seq<char> {
    y + seq!['/'] + m + seq!['/'] + d + seq![' '] + w + seq![' '] + h + seq![':'] + mi
}

proof fn lemma_digits_exclude(d: Seq<char>, c: char)
    requires
        all_digits(d),
        !is_digit(c),
    ensures
        !d.contains(c),
{
    if d.contains(c) {
        let i = choose|i: int| 0 <= i < d.len() && d[i] == c;
        assert(is_digit(d[i]));
    }
}

proof fn lemma_no_space_concat(a: Seq<char>, b: Seq<char>)
    requires
        no_space(a),
        no_space(b),
    ensures
        no_space(a + b),
{
    assert forall|i: int| 0 <= i < (a + b).len() implies !whitespace(#[trigger] (a + b)[i]) by {
        if i < a.len() {
            assert((a + b)[i] == a[i]);
        } else {
            assert((a + b)[i] == b[i - a.len()]);
        }
    }
}

proof fn lemma_digits_no_space(d: Seq<char>)
    requires
        all_digits(d),
    ensures
        no_space(d),
{
    assert forall|i: int| 0 <= i < d.len() implies !whitespace(#[trigger] d[i]) by {
        assert(is_digit(d[i]));
    }
}

proof fn lemma_parse_digit_word(d: Seq<char>)
    requires
        digit_word(d),
    ensures
        spec_parse_i64(d) == Some(digits_value(d) as i64),
{
    assert(is_digit(d[0]));
    assert(unsigned_part(d, true) == d);
}

/// A session date in the documented form reads as its year, month, day,
/// hour and minute.
pub proof fn lemma_documented_date_key(
    y: Seq<char>,
    m: Seq<char>,
    d: Seq<char>,
    w: Seq<char>,
    h: Seq<char>,
    mi: Seq<char>,
)
    requires
        digit_word(y),
        digit_word(m),
        digit_word(d),
        digit_word(h),
        digit_word(mi),
        w.len() > 0,
        no_space(w),
    ensures
        date_key(documented_date(y, m, d, w, h, mi)) == (
            digits_value(y) as int,
            digits_value(m) as int,
            digits_value(d) as int,
            digits_value(h) as int,
            digits_value(mi) as int,
        ),
{
    let s = documented_date(y, m, d, w, h, mi);
    let dw = y + seq!['/'] + m + seq!['/'] + d;
    let tw = h + seq![':'] + mi;
    assert(s =~= dw + seq![' '] + (w + seq![' '] + tw));
    assert(whitespace(' ') && !whitespace('/') && !whitespace(':'));
    assert(!is_digit('/') && !is_digit(':'));
    lemma_digits_no_space(y);
    lemma_digits_no_space(m);
    lemma_digits_no_space(d);
    lemma_digits_no_space(h);
    lemma_digits_no_space(mi);
    assert(no_space(seq!['/']));
    assert(no_space(seq![':']));
    lemma_no_space_concat(y, seq!['/']);
    lemma_no_space_concat(y + seq!['/'], m);
    lemma_no_space_concat(y + seq!['/'] + m, seq!['/']);
    lemma_no_space_concat(y + seq!['/'] + m + seq!['/'], d);
    lemma_no_space_concat(h, seq![':']);
    lemma_no_space_concat(h + seq![':'], mi);
    lemma_words_join(dw, w + seq![' '] + tw);
    lemma_words_join(w, tw);
    lemma_words_of_word(tw);
    let ws = words(s);
    assert(ws =~= seq![dw, w, tw]);
    assert(date_word(s) == dw);
    assert(time_word(s) == tw);
    lemma_digits_exclude(y, '/');
    lemma_digits_exclude(m, '/');
    lemma_digits_exclude(d, '/');
    lemma_digits_exclude(h, ':');
    lemma_digits_exclude(mi, ':');
    assert(dw =~= y + seq!['/'] + (m + seq!['/'] + d));
    lemma_pieces_join(y, '/', m + seq!['/'] + d);
    lemma_pieces_join(m, '/', d);
    lemma_pieces_of_piece(d, '/');
    let dps = seq![y, m, d];
    assert(pieces(dw, '/') =~= dps);
    lemma_pieces_join(h, ':', mi);
    lemma_pieces_of_piece(mi, ':');
    let tps = seq![h, mi];
    assert(pieces(tw, ':') =~= tps);
    lemma_parse_digit_word(y);
    lemma_parse_digit_word(m);
    lemma_parse_digit_word(d);
    lemma_parse_digit_word(h);
    lemma_parse_digit_word(mi);
    assert(dps.drop_last() =~= seq![y, m]);
    assert(seq![y, m].drop_last() =~= seq![y]);
    assert(seq![y].drop_last() =~= Seq::<Seq<char>>::empty());
    assert(tps.drop_last() =~= seq![h]);
    assert(seq![h].drop_last() =~= Seq::<Seq<char>>::empty());
    let (vy, vm, vd) = (digits_value(y) as i64, digits_value(m) as i64, digits_value(d) as i64);
    let (vh, vmi) = (digits_value(h) as i64, digits_value(mi) as i64);
    assert(parsed_ints(Seq::<Seq<char>>::empty()) =~= Seq::<i64>::empty());
    assert(seq![y].last() == y);
    assert(parsed_ints(seq![y]) =~= seq![vy]);
    assert(seq![y, m].last() == m);
    assert(parsed_ints(seq![y, m]) =~= seq![vy, vm]);
    assert(dps.last() == d);
    assert(seq![h].last() == h);
    assert(parsed_ints(seq![h]) =~= seq![vh]);
    assert(tps.last() == mi);
    let dv = parsed_ints(dps);
    let tv = parsed_ints(tps);
    assert(dv =~= seq![digits_value(y) as i64, digits_value(m) as i64, digits_value(d) as i64]);
    assert(tv =~= seq![digits_value(h) as i64, digits_value(mi) as i64]);
}

/// Documented session dates as minutes are monotonic: a strictly later
/// calendar date and time gives strictly more minutes, except that a day
/// after 25 December can reach the minutes of early January of the next
/// year.
pub proof fn lemma_documented_dates_monotonic(
    y1: Seq<char>,
    m1: Seq<char>,
    d1: Seq<char>,
    w1: Seq<char>,
    h1: Seq<char>,
    mi1: Seq<char>,
    y2: Seq<char>,
    m2: Seq<char>,
    d2: Seq<char>,
    w2: Seq<char>,
    h2: Seq<char>,
    mi2: Seq<char>,
)
    requires
        digit_word(y1) && digit_word(m1) && digit_word(d1) && digit_word(h1) && digit_word(mi1),
        digit_word(y2) && digit_word(m2) && digit_word(d2) && digit_word(h2) && digit_word(mi2),
        w1.len() > 0 && no_space(w1),
        w2.len() > 0 && no_space(w2),
        calendar_valid((digits_value(y1) as int, digits_value(m1) as int, digits_value(d1) as int, digits_value(h1) as int, digits_value(mi1) as int)),
        calendar_valid((digits_value(y2) as int, digits_value(m2) as int, digits_value(d2) as int, digits_value(h2) as int, digits_value(mi2) as int)),
        lex_before(
            (digits_value(y1) as int, digits_value(m1) as int, digits_value(d1) as int, digits_value(h1) as int, digits_value(mi1) as int),
            (digits_value(y2) as int, digits_value(m2) as int, digits_value(d2) as int, digits_value(h2) as int, digits_value(mi2) as int),
        ),
        digits_value(y1) < digits_value(y2) ==> !(digits_value(m1) == 12 && digits_value(d1) > 25),
    ensures
        date_minutes(documented_date(y1, m1, d1, w1, h1, mi1)) < date_minutes(documented_date(y2, m2, d2, w2, h2, mi2)),
{
    lemma_documented_date_key(y1, m1, d1, w1, h1, mi1);
    lemma_documented_date_key(y2, m2, d2, w2, h2, mi2);
    lemma_date_minutes_monotonic(documented_date(y1, m1, d1, w1, h1, mi1), documented_date(y2, m2, d2, w2, h2, mi2));
}

/// In a documented session date the time of day adds its minutes to those
/// of `0:0` of the same date.
pub proof fn lemma_documented_time_adds(
    y: Seq<char>,
    m: Seq<char>,
    d: Seq<char>,
    w: Seq<char>,
    h: Seq<char>,
    mi: Seq<char>,
)
    requires
        digit_word(y),
        digit_word(m),
        digit_word(d),
        digit_word(h),
        digit_word(mi),
        w.len() > 0,
        no_space(w),
    ensures
        date_minutes(documented_date(y, m, d, w, h, mi)) == date_minutes(documented_date(y, m, d, w, seq!['0'], seq!['0']))
            + digits_value(h) * 60 + digits_value(mi),
{
    let z = seq!['0'];
    assert(z.drop_last() =~= Seq::<char>::empty());
    assert(z.last() == '0');
    assert(digits_value(Seq::<char>::empty()) == 0);
    assert(digit_value('0') == 0);
    assert(digits_value(z) == 0);
    assert(all_digits(z));
    lemma_documented_date_key(y, m, d, w, h, mi);
    lemma_documented_date_key(y, m, d, w, z, z);
}

/// The numbers among the pieces of `s` split at `sep`.
fn parse_fields(s: &str, sep: char) -> (v: Vec<i64>)
    ensures
        v@ == parsed_ints(pieces(s@, sep)),
{
    let ps = pieces_of(s, sep);
    let ghost pv = ps.deep_view();
    let mut v: Vec<i64> = Vec::new();
    let mut i: usize = 0;
    while i < ps.len()
        invariant
            i <= ps.len(),
            pv == ps.deep_view(),
            pv == pieces(s@, sep),
            v@ == parsed_ints(pv.take(i as int)),
        decreases ps.len() - i,
    {
        proof {
            assert(pv.take(i + 1).drop_last() =~= pv.take(i as int));
            assert(pv[i as int] == ps@[i as int]@);
        }
        match parse_i64(ps[i].as_str()) {
            Some(x) => v.push(x),
            None => {},
        }
        i = i + 1;
    }
    proof {
        assert(pv.take(pv.len() as int) =~= pv);
    }
    v
}

fn field_at(v: &Vec<i64>, k: usize) -> (x: i64)
    ensures
        x as int == field(v@, k as int),
{
    if k < v.len() {
        v[k]
    } else {
        0
    }
}

/// `"2023/04/10 (Mon) 17:50"` as monotonic minutes, or `None` when the
/// computation leaves `i64`.
pub fn parse_date_checked(s: &str) -> (r: Option<i64>)
    ensures
        r is Some <==> date_fits(s@),
        r matches Some(x) ==> x == date_minutes(s@),
{
    let ws = words_of(s);
    proof {
        reveal_strlit("0/0/0");
        reveal_strlit("0:0");
        assert(ws.deep_view().len() == ws@.len());
        if ws@.len() > 0 {
            assert(ws.deep_view()[0] == ws@[0]@);
        }
        if ws@.len() > 3 {
            assert(ws.deep_view()[3] == ws@[3]@);
        }
        if ws@.len() == 3 {
            assert(ws.deep_view()[2] == ws@[2]@);
        }
        assert("0/0/0"@ =~= seq!['0', '/', '0', '/', '0']);
        assert("0:0"@ =~= seq!['0', ':', '0']);
    }
    let d: &str = if ws.len() > 0 {
        ws[0].as_str()
    } else {
        "0/0/0"
    };
    let t: &str = if ws.len() > 3 {
        ws[3].as_str()
    } else if ws.len() == 3 {
        ws[2].as_str()
    } else {
        "0:0"
    };
    let dp = parse_fields(d, '/');
    let tp = parse_fields(t, ':');
    let y = field_at(&dp, 0);
    let m = field_at(&dp, 1);
    let dd = field_at(&dp, 2);
    let h = field_at(&tp, 0);
    let mi = field_at(&tp, 1);
    let a = y.checked_mul(366)?;
    let b = m.checked_mul(31)?;
    let c = a.checked_add(b)?;
    let e = c.checked_add(dd)?;
    let f = e.checked_mul(24)?;
    let g = f.checked_add(h)?;
    let k = g.checked_mul(60)?;
    let r = k.checked_add(mi)?;
    Some(r)
}

/// `"2023/04/10 (Mon) 17:50"` as monotonic minutes: (((year * 366 +
/// month * 31 + day) * 24 + hour) * 60) + minute.
pub fn parse_date(s: &str) -> (x: i64)
    requires
        date_fits(s@),
    ensures
        x == date_minutes(s@),
{
    match parse_date_checked(s) {
        Some(x) => x,
        None => 0,
    }
}

/// `session_`.
pub open spec fn session_prefix() -> Seq<char> {
    seq!['s', 'e', 's', 's', 'i', 'o', 'n', '_']
}

/// The number of a conversation key `session_N`: `N` parsed as a `usize`;
/// `None` for any other key.
pub open spec fn spec_session_number(key: Seq<char>) -> Option<usize> {
    if key.len() >= 8 && key.take(8) == session_prefix() {
        spec_parse_usize(key.skip(8))
    } else {
        None
    }
}

/// The session number of a conversation key such as `session_12`.
pub fn session_number(key: &str) -> (r: Option<usize>)
    ensures
        r == spec_session_number(key@),
{
    let cs = chars_of(key);
    let prefix = chars_of("session_");
    proof {
        reveal_strlit("session_");
        assert(prefix@ =~= session_prefix());
    }
    if cs.len() < 8 {
        return None;
    }
    let mut i: usize = 0;
    while i < 8
        invariant
            i <= 8,
            cs.len() >= 8,
            cs@ == key@,
            prefix@ == session_prefix(),
            cs@.take(i as int) == prefix@.take(i as int),
        decreases 8 - i,
    {
        if cs[i] != prefix[i] {
            proof {
                assert(cs@.take(8)[i as int] != session_prefix()[i as int]);
                assert(key@.take(8)[i as int] != session_prefix()[i as int]);
            }
            return None;
        }
        proof {
            assert(cs@.take(i + 1) =~= cs@.take(i as int).push(cs@[i as int]));
            assert(prefix@.take(i + 1) =~= prefix@.take(i as int).push(prefix@[i as int]));
        }
        i = i + 1;
    }
    proof {
        assert(prefix@.take(8) =~= prefix@);
    }
    let rest = string_of(&cs, 8, cs.len());
    proof {
        assert(rest@ =~= key@.skip(8));
    }
    parse_usize(rest.as_str())
}

/// The conversation key of the date of session `num`:
/// `session_{num}_date_time`.
pub open spec fn spec_session_date_key(num: nat) -> Seq<char> {
    "session_"@ + decimal(num) + "_date_time"@
}

/// Reading a session key back: `session_N` has session number `N`.
pub proof fn lemma_session_key_number(n: usize)
    ensures
        spec_session_number(session_prefix() + decimal(n as nat)) == Some(n),
{
    let k = session_prefix() + decimal(n as nat);
    assert(k.take(8) =~= session_prefix());
    assert(k.skip(8) =~= decimal(n as nat));
    lemma_parse_usize_decimal(n);
}

/// The key of a session's date is not itself taken for a session.
pub proof fn lemma_date_key_not_session(n: usize)
    ensures
        spec_session_number(spec_session_date_key(n as nat)) is None,
{
    reveal_strlit("session_");
    reveal_strlit("_date_time");
    lemma_decimal_digits(n as nat);
    let k = spec_session_date_key(n as nat);
    let d = decimal(n as nat);
    assert("session_"@ =~= session_prefix());
    assert(k.take(8) =~= session_prefix());
    let rest = k.skip(8);
    assert(rest =~= d + "_date_time"@);
    assert(rest[0] == d[0]);
    assert(unsigned_part(rest, false) == rest);
    assert(rest[d.len() as int] == '_');
    assert(!all_digits(rest));
}

/// The conversation key of the date of session `num`.
pub fn session_date_key(num: usize) -> (k: String)
    ensures
        k@ == spec_session_date_key(num as nat),
{
    let mut k = String::from_str("session_");
    push_decimal(&mut k, num as u64);
    k.append("_date_time");
    k
}

/// One turn of a conversation: who spoke, and what was said; either may be
/// absent from the record.
pub struct Turn {
    pub speaker: Option<String>,
    pub text: Option<String>,
}

/// The transcript line of a turn: `speaker: text`, the speaker `user` and
/// the text empty where the record lacks them.
pub open spec fn turn_line(t: Turn) -> Seq<char> {
    let speaker = match t.speaker {
        Some(s) => s@,
        None => "user"@,
    };
    let body = match t.text {
        Some(b) => b@,
        None => ""@,
    };
    speaker + ": "@ + body + "\n"@
}

/// The lines of the turns, in order.
pub open spec fn turn_lines(ts: Seq<Turn>) -> Seq<char>
    decreases ts.len(),
{
    if ts.len() == 0 {
        Seq::empty()
    } else {
        turn_lines(ts.drop_last()) + turn_line(ts.last())
    }
}

/// The transcript of session `num` held on `date`: a header line, then one
/// line per turn.
pub open spec fn spec_session_transcript(num: nat, date: Seq<char>, turns: Seq<Turn>) -> Seq<char> {
    "Session "@ + decimal(num) + " on "@ + date + ":\n"@ + turn_lines(turns)
}

/// The transcript of session `num` held on `date`.
pub fn session_transcript(num: usize, date: &str, turns: &Vec<Turn>) -> (s: String)
    ensures
        s@ == spec_session_transcript(num as nat, date@, turns@),
{
    let mut s = String::from_str("Session ");
    push_decimal(&mut s, num as u64);
    s.append(" on ");
    s.append(date);
    s.append(":\n");
    let ghost head = s@;
    proof {
        assert(turns@.take(0) =~= Seq::<Turn>::empty());
        assert(head + turn_lines(turns@.take(0)) =~= head);
    }
    let mut i: usize = 0;
    while i < turns.len()
        invariant
            i <= turns.len(),
            s@ == head + turn_lines(turns@.take(i as int)),
        decreases turns.len() - i,
    {
        let t = &turns[i];
        match &t.speaker {
            Some(sp) => s.append(sp.as_str()),
            None => s.append("user"),
        }
        s.append(": ");
        match &t.text {
            Some(b) => s.append(b.as_str()),
            None => s.append(""),
        }
        s.append("\n");
        proof {
            assert(turns@.take(i + 1).drop_last() =~= turns@.take(i as int));
            assert(turns@.take(i + 1).last() == turns@[i as int]);
            assert(s@ =~= head + turn_lines(turns@.take(i + 1)));
        }
        i = i + 1;
    }
    proof {
        assert(turns@.take(turns@.len() as int) =~= turns@);
        assert(s@ =~= spec_session_transcript(num as nat, date@, turns@));
    }
    s
}

/// Numbers strictly increasing along `s`.
pub open spec fn ascending(s: Seq<(usize, Seq<char>, Seq<char>)>) -> bool {
    forall|i: int, j: int| 0 <= i < j < s.len() ==> s[i].0 < s[j].0
}

/// The sessions of a conversation, by number, each with its date and
/// transcript; listed in ascending order of number.
pub struct Sessions {
    map: BTreeMap<usize, (String, String)>,
}

impl View for Sessions {
    type V = Map<usize, (Seq<char>, Seq<char>)>;

    closed spec fn view(&self) -> Self::V {
        self.map@.map_values(|e: (String, String)| (e.0@, e.1@))
    }
}

proof fn lemma_increasing_keys(s: Seq<usize>)
    requires
        increasing_seq(s),
    ensures
        forall|i: int, j: int| 0 <= i < j < s.len() ==> s[i] < s[j],
{
    assert forall|i: int, j: int| 0 <= i < j < s.len() implies s[i] < s[j] by {
        assert(s[i].cmp_spec(&s[j]) is Less);
    }
}

impl Sessions {
    /// No sessions.
    pub fn new() -> (r: Self)
        ensures
            r@ == Map::<usize, (Seq<char>, Seq<char>)>::empty(),
    {
        let r = Sessions { map: BTreeMap::new() };
        proof {
            assert(r@ =~= Map::<usize, (Seq<char>, Seq<char>)>::empty());
        }
        r
    }

    /// The number of sessions.
    pub fn len(&self) -> (n: usize)
        ensures
            n == self@.dom().len(),
    {
        proof {
            assert(self@.dom() =~= self.map@.dom());
        }
        self.map.len()
    }

    /// Records session `num` with its date and transcript, in place of what
    /// was recorded for it before.
    pub fn insert(&mut self, num: usize, date: String, text: String)
        ensures
            final(self)@ == old(self)@.insert(num, (date@, text@)),
    {
        let ghost d = date@;
        let ghost t = text@;
        self.map.insert(num, (date, text));
        proof {
            assert(self@ =~= old(self)@.insert(num, (d, t)));
        }
    }

    /// The sessions in ascending order of number, each with its date and
    /// transcript.
    pub fn entries(&self) -> (r: Vec<(usize, String, String)>)
        ensures
            ascending(r.deep_view()),
            r.len() == self@.dom().len(),
            forall|i: int|
                0 <= i < r.len() ==> #[trigger] self@.contains_key(r@[i].0) && self@[r@[i].0] == (
                    r@[i].1@,
                    r@[i].2@,
                ),
            forall|k: usize| #[trigger] self@.contains_key(k) ==> exists|i: int| 0 <= i < r.len() && r@[i].0 == k,
    {
        let mut r: Vec<(usize, String, String)> = Vec::new();
        let iter = self.map.iter();
        let ghost items = iter.remaining();
        proof {
            assert(key_obeys_cmp_spec::<usize>());
            assert(items.len() == self.map@.dom().len());
            assert(increasing_seq(items.map_values(|kv: (&usize, &(String, String))| *kv.0)));
        }
        for e in it: iter
            invariant
                it.seq() == items,
                r.len() == it.index(),
                forall|i: int| 0 <= i < r.len() ==> #[trigger] r@[i].0 == *items[i].0 && r@[i].1 == items[i].1.0 && r@[i].2 == items[i].1.1,
        {
            r.push((*e.0, e.1.0.clone(), e.1.1.clone()));
        }
        proof {
            let keys = items.map_values(|kv: (&usize, &(String, String))| *kv.0);
            assert(self@.dom() =~= self.map@.dom());
            lemma_increasing_keys(keys);
            assert forall|i: int, j: int| 0 <= i < j < r.len() implies r.deep_view()[i].0 < r.deep_view()[j].0 by {
                assert(keys[i] == r@[i].0);
                assert(keys[j] == r@[j].0);
            }
            assert forall|i: int| 0 <= i < r.len() implies #[trigger] self@.contains_key(r@[i].0) && self@[r@[i].0] == (
                r@[i].1@,
                r@[i].2@,
            ) by {
                assert(self.map@.contains_key(*items[i].0));
                assert(self.map@[*items[i].0] == *items[i].1);
            }
            assert forall|k: usize| #[trigger] self@.contains_key(k) implies exists|i: int| 0 <= i < r.len() && r@[i].0 == k by {
                assert(self.map@.contains_key(k));
                assert(items.contains((&k, &self.map@[k])));
                let i = choose|i: int| 0 <= i < items.len() && items[i] == (&k, &self.map@[k]);
                assert(r@[i].0 == k);
            }
        }
        r
    }
}

/// An object shaped like an ISO date `YYYY-MM-DD`: ten bytes of UTF-8 with
/// a `-` at byte 4 and at byte 7.
pub open spec fn spec_date_shaped(obj: Seq<char>) -> bool {
    let b = encode_utf8(obj);
    b.len() == 10 && b[4] == 45u8 && b[7] == 45u8
}

/// Whether `obj` is shaped like an ISO date `YYYY-MM-DD`.
pub fn is_date_shaped(obj: &str) -> (r: bool)
    ensures
        r == spec_date_shaped(obj@),
{
    let b = obj.as_bytes();
    b.len() == 10 && b[4] == 45u8 && b[7] == 45u8
}

/// The rule that dates the subjects of relation `r` by its object:
/// `dated(S, D) :- current(S, "r", D).`
pub open spec fn dated_rule(r: Seq<char>) -> Seq<char> {
    "dated(S, D) :- current(S, \""@ + r + "\", D).\n"@
}

/// The scan over the displayed keys of `current`: the dating rules so far,
/// and the relations already looked at. Only keys of three parts count;
/// a relation is judged by the object of its first such key.
pub open spec fn order_rules_scan(keys: Seq<Seq<Seq<char>>>) -> (Seq<char>, Seq<Seq<char>>)
    decreases keys.len(),
{
    if keys.len() == 0 {
        (Seq::empty(), Seq::empty())
    } else {
        let prev = order_rules_scan(keys.drop_last());
        let k = keys.last();
        if k.len() != 3 || prev.1.contains(k[1]) {
            prev
        } else if spec_date_shaped(k[2]) {
            (prev.0 + dated_rule(k[1]), prev.1.push(k[1]))
        } else {
            (prev.0, prev.1.push(k[1]))
        }
    }
}

/// Each relation is judged once: the relations looked at never repeat, so
/// no relation gets two dating rules.
pub proof fn lemma_order_rules_once(keys: Seq<Seq<Seq<char>>>)
    ensures
        order_rules_scan(keys).1.no_duplicates(),
    decreases keys.len(),
{
    if keys.len() > 0 {
        lemma_order_rules_once(keys.drop_last());
        let prev = order_rules_scan(keys.drop_last());
        let k = keys.last();
        if !(k.len() != 3 || prev.1.contains(k[1])) {
            let c = prev.1.push(k[1]);
            assert forall|i: int, j: int| 0 <= i < c.len() && 0 <= j < c.len() && i != j implies c[i]
                != c[j] by {
                if i < prev.1.len() && j < prev.1.len() {
                } else if i == prev.1.len() {
                    assert(c[j] == prev.1[j]);
                } else {
                    assert(c[i] == prev.1[i]);
                }
            }
        }
    }
}

/// The dating rules for the date-shaped relations among `keys`, each
/// relation once, in the order of first appearance.
pub open spec fn spec_date_order_rules(keys: Seq<Seq<Seq<char>>>) -> Seq<char> {
    order_rules_scan(keys).0
}

fn contains_string(v: &Vec<String>, x: &String) -> (r: bool)
    ensures
        r == v.deep_view().contains(x@),
{
    let mut i: usize = 0;
    while i < v.len()
        invariant
            i <= v.len(),
            forall|j: int| 0 <= j < i ==> v.deep_view()[j] != x@,
        decreases v.len() - i,
    {
        if v[i] == *x {
            proof {
                assert(v.deep_view()[i as int] == x@);
            }
            return true;
        }
        i = i + 1;
    }
    false
}

/// The dating rules for the displayed keys of `current`: for each relation
/// whose first three-part key has a date-shaped object,
/// `dated(S, D) :- current(S, "relation", D).`
pub fn date_order_rules(keys: &Vec<Vec<String>>) -> (rules: String)
    ensures
        rules@ == spec_date_order_rules(keys.deep_view()),
{
    let ghost kv = keys.deep_view();
    let mut rules = String::new();
    let mut checked: Vec<String> = Vec::new();
    let mut i: usize = 0;
    while i < keys.len()
        invariant
            i <= keys.len(),
            kv == keys.deep_view(),
            rules@ == order_rules_scan(kv.take(i as int)).0,
            checked.deep_view() == order_rules_scan(kv.take(i as int)).1,
        decreases keys.len() - i,
    {
        let key = &keys[i];
        proof {
            assert(kv.take(i + 1).drop_last() =~= kv.take(i as int));
            assert(kv.take(i + 1).last() == key.deep_view());
        }
        if key.len() == 3 {
            proof {
                assert(key.deep_view()[1] == key@[1]@);
                assert(key.deep_view()[2] == key@[2]@);
            }
            let r = &key[1];
            if !contains_string(&checked, r) {
                if is_date_shaped(key[2].as_str()) {
                    rules.append("dated(S, D) :- current(S, \"");
                    rules.append(r.as_str());
                    rules.append("\", D).\n");
                    proof {
                        assert(rules@ =~= order_rules_scan(kv.take(i as int)).0 + dated_rule(r@));
                    }
                }
                let rc = r.clone();
                proof {
                    assert(checked.deep_view().push(rc@) =~= checked@.push(rc).map_values(|x: String| x@));
                }
                checked.push(rc);
            }
        }
        i = i + 1;
    }
    proof {
        assert(kv.take(kv.len() as int) =~= kv);
    }
    rules
}

/// The latest of the session dates as minutes, 0 when there are none.
pub open spec fn latest_minutes(ds: Seq<Seq<char>>) -> int
    decreases ds.len(),
{
    if ds.len() == 0 {
        0
    } else if ds.len() == 1 {
        date_minutes(ds[0])
    } else {
        let m = latest_minutes(ds.drop_last());
        let x = date_minutes(ds.last());
        if x > m {
            x
        } else {
            m
        }
    }
}

/// The latest of the session dates, as minutes; 0 when there are none.
pub fn latest_timestamp(dates: &Vec<String>) -> (t: i64)
    requires
        forall|i: int| 0 <= i < dates.len() ==> date_fits(#[trigger] dates@[i]@),
    ensures
        t == latest_minutes(dates.deep_view()),
{
    let ghost dv = dates.deep_view();
    let mut best: i64 = 0;
    let mut i: usize = 0;
    while i < dates.len()
        invariant
            i <= dates.len(),
            dv == dates.deep_view(),
            forall|j: int| 0 <= j < dates.len() ==> date_fits(#[trigger] dates@[j]@),
            best == latest_minutes(dv.take(i as int)),
        decreases dates.len() - i,
    {
        proof {
            assert(dv.take(i + 1).drop_last() =~= dv.take(i as int));
            assert(dv.take(i + 1).last() == dates@[i as int]@);
            assert(dv.take(i + 1)[0] == dv[0]);
        }
        let x = parse_date(dates[i].as_str());
        if i == 0 || x > best {
            best = x;
        }
        i = i + 1;
    }
    proof {
        assert(dv.take(dv.len() as int) =~= dv);
    }
    best
}

/// The length in bytes of the UTF-8 encoding of `s`, as `str::len` counts.
pub open spec fn byte_len(s: Seq<char>) -> nat {
    encode_utf8(s).len()
}

/// Some token of the subject, three bytes long or more, is among the
/// question's tokens.
pub open spec fn subject_matches(toks: Seq<Seq<char>>, q: Seq<Seq<char>>) -> bool {
    exists|i: int, j: int|
        0 <= i < toks.len() && 0 <= j < q.len() && byte_len(toks[i]) >= 3 && #[trigger] toks[i]
            == #[trigger] q[j]
}

/// The date recorded under key `k`, the first such entry if several.
pub open spec fn lookup_date(dates: Seq<(Seq<char>, Seq<char>)>, k: Seq<char>) -> Option<Seq<char>>
    decreases dates.len(),
{
    if dates.len() == 0 {
        None
    } else if dates[0].0 == k {
        Some(dates[0].1)
    } else {
        lookup_date(dates.drop_first(), k)
    }
}

/// How a timestamp of an edge reads: `open` unless it is a positive
/// integer below `i64::MAX`; then the session date recorded for it, or
/// else its decimal digits.
pub open spec fn spec_date_label(v: Option<i64>, dates: Seq<(Seq<char>, Seq<char>)>) -> Seq<char> {
    match v {
        Some(ts) => if ts > 0 && ts != i64::MAX {
            match lookup_date(dates, decimal(ts as nat)) {
                Some(d) => d,
                None => decimal(ts as nat),
            }
        } else {
            "open"@
        },
        None => "open"@,
    }
}

/// One edge of the temporal store, as the history shows it: the displayed
/// subject, relation and object, the tokens of the subject, and the
/// integer values of its valid-from, valid-to and assertion times where
/// they are integers.
pub struct EdgeRow {
    pub subject: String,
    pub subject_tokens: Vec<String>,
    pub relation: String,
    pub object: String,
    pub valid_from: Option<i64>,
    pub valid_to: Option<i64>,
    pub asserted: Option<i64>,
}

/// `subject --relation--> object, from .. to (asserted at)`.
pub open spec fn history_line(e: EdgeRow, dates: Seq<(Seq<char>, Seq<char>)>) -> Seq<char> {
    e.subject@ + " --"@ + e.relation@ + "--> "@ + e.object@ + ", "@ + spec_date_label(
        e.valid_from,
        dates,
    ) + " .. "@ + spec_date_label(e.valid_to, dates) + " (asserted "@ + spec_date_label(
        e.asserted,
        dates,
    ) + ")\n"@
}

/// The history budget in bytes: once the history is longer, no more edges
/// are added.
pub open spec fn history_budget() -> nat {
    2800
}

/// The dated history of the edges whose subject matches the question,
/// in order, until it exceeds the budget.
pub open spec fn spec_edge_history(
    rows: Seq<EdgeRow>,
    q: Seq<Seq<char>>,
    dates: Seq<(Seq<char>, Seq<char>)>,
) -> Seq<char>
    decreases rows.len(),
{
    if rows.len() == 0 {
        Seq::empty()
    } else {
        let prev = spec_edge_history(rows.drop_last(), q, dates);
        let e = rows.last();
        if byte_len(prev) > history_budget() || !subject_matches(e.subject_tokens.deep_view(), q) {
            prev
        } else {
            prev + history_line(e, dates)
        }
    }
}

/// The retrieved context with the edge history appended under its header,
/// or unchanged when the history is empty.
pub open spec fn spec_context_with_history(base: Seq<char>, hist: Seq<char>) -> Seq<char> {
    if hist.len() == 0 {
        base
    } else {
        base + "\nEDGE HISTORY: subject --relation--> object, valid_from .. valid_to (asserted at):\n"@
            + hist
    }
}

/// The budget is checked before each edge: once the history of the first
/// `k` edges exceeds it, the later edges add nothing.
pub proof fn lemma_history_stops(
    rows: Seq<EdgeRow>,
    q: Seq<Seq<char>>,
    dates: Seq<(Seq<char>, Seq<char>)>,
    k: int,
)
    requires
        0 <= k <= rows.len(),
        byte_len(spec_edge_history(rows.take(k), q, dates)) > history_budget(),
    ensures
        spec_edge_history(rows, q, dates) == spec_edge_history(rows.take(k), q, dates),
    decreases rows.len(),
{
    if rows.len() == k {
        assert(rows.take(k) =~= rows);
    } else {
        assert(rows.drop_last().take(k) =~= rows.take(k));
        lemma_history_stops(rows.drop_last(), q, dates, k);
    }
}

/// Whether a subject with tokens `toks` matches a question with tokens `q`.
pub fn subject_matches_question(toks: &Vec<String>, q: &Vec<String>) -> (r: bool)
    ensures
        r == subject_matches(toks.deep_view(), q.deep_view()),
{
    let ghost tv = toks.deep_view();
    let ghost qv = q.deep_view();
    let mut i: usize = 0;
    while i < toks.len()
        invariant
            i <= toks.len(),
            tv == toks.deep_view(),
            qv == q.deep_view(),
            forall|a: int, b: int|
                0 <= a < i && 0 <= b < qv.len() && byte_len(tv[a]) >= 3 ==> tv[a] != qv[b],
        decreases toks.len() - i,
    {
        if toks[i].as_str().as_bytes().len() >= 3 {
            let mut j: usize = 0;
            while j < q.len()
                invariant
                    i < toks.len(),
                    j <= q.len(),
                    tv == toks.deep_view(),
                    qv == q.deep_view(),
                    byte_len(tv[i as int]) >= 3,
                    forall|b: int| 0 <= b < j ==> tv[i as int] != qv[b],
                decreases q.len() - j,
            {
                if toks[i] == q[j] {
                    proof {
                        assert(tv[i as int] == qv[j as int]);
                    }
                    return true;
                }
                j = j + 1;
            }
        }
        i = i + 1;
    }
    false
}

/// How timestamp `v` of an edge reads in the history.
pub fn date_label(v: Option<i64>, dates: &Vec<(String, String)>) -> (s: String)
    ensures
        s@ == spec_date_label(v, dates.deep_view()),
{
    match v {
        Some(ts) => {
            if ts > 0 && ts != i64::MAX {
                let k = decimal_string(ts as u64);
                let ghost dv = dates.deep_view();
                proof {
                    assert(dv.skip(0) =~= dv);
                }
                let mut i: usize = 0;
                while i < dates.len()
                    invariant
                        v == Some(ts),
                        ts > 0,
                        ts != i64::MAX,
                        i <= dates.len(),
                        dv == dates.deep_view(),
                        k@ == decimal(ts as nat),
                        lookup_date(dv, k@) == lookup_date(dv.skip(i as int), k@),
                    decreases dates.len() - i,
                {
                    proof {
                        assert(dv.skip(i as int)[0] == dv[i as int]);
                        assert(dv.skip(i as int).drop_first() =~= dv.skip(i + 1));
                        assert(dv[i as int] == (dates@[i as int].0@, dates@[i as int].1@));
                    }
                    if dates[i].0 == k {
                        let d = dates[i].1.clone();
                        proof {
                            assert(dv.skip(i as int)[0].0 == k@);
                            assert(lookup_date(dv.skip(i as int), k@) == Some(dv[i as int].1));
                            assert(d@ == dv[i as int].1);
                        }
                        return d;
                    }
                    i = i + 1;
                }
                proof {
                    assert(dv.skip(dv.len() as int) =~= Seq::<(Seq<char>, Seq<char>)>::empty());
                }
                k
            } else {
                String::from_str("open")
            }
        },
        None => String::from_str("open"),
    }
}

/// The dated history of the edges whose subject matches the question
/// tokens, one line per edge, until it exceeds the budget.
pub fn edge_history(rows: &Vec<EdgeRow>, question_tokens: &Vec<String>, dates: &Vec<(String, String)>) -> (hist: String)
    ensures
        hist@ == spec_edge_history(rows@, question_tokens.deep_view(), dates.deep_view()),
{
    let ghost qv = question_tokens.deep_view();
    let ghost dv = dates.deep_view();
    let mut hist = String::new();
    let mut i: usize = 0;
    while i < rows.len()
        invariant
            i <= rows.len(),
            qv == question_tokens.deep_view(),
            dv == dates.deep_view(),
            hist@ == spec_edge_history(rows@.take(i as int), qv, dv),
        decreases rows.len() - i,
    {
        let e = &rows[i];
        proof {
            assert(rows@.take(i + 1).drop_last() =~= rows@.take(i as int));
            assert(rows@.take(i + 1).last() == *e);
        }
        if hist.as_str().as_bytes().len() <= 2800 && subject_matches_question(&e.subject_tokens, question_tokens) {
            hist.append(e.subject.as_str());
            hist.append(" --");
            hist.append(e.relation.as_str());
            hist.append("--> ");
            hist.append(e.object.as_str());
            hist.append(", ");
            let from = date_label(e.valid_from, dates);
            hist.append(from.as_str());
            hist.append(" .. ");
            let to = date_label(e.valid_to, dates);
            hist.append(to.as_str());
            hist.append(" (asserted ");
            let at = date_label(e.asserted, dates);
            hist.append(at.as_str());
            hist.append(")\n");
            proof {
                assert(hist@ =~= spec_edge_history(rows@.take(i as int), qv, dv) + history_line(*e, dv));
            }
        }
        i = i + 1;
    }
    proof {
        assert(rows@.take(rows@.len() as int) =~= rows@);
    }
    hist
}

/// The retrieved context `base`, with the edge history `hist` appended
/// under its header when there is any.
pub fn context_with_history(base: String, hist: &str) -> (s: String)
    ensures
        s@ == spec_context_with_history(base@, hist@),
{
    if hist.is_empty() {
        base
    } else {
        let mut s = base;
        s.append("\nEDGE HISTORY: subject --relation--> object, valid_from .. valid_to (asserted at):\n");
        s.append(hist);
        s
    }
}

/// The turn of a turn record: its `speaker` and `text` members where they
/// are strings.
pub open spec fn turn_of(t: Json) -> Turn {
    Turn { speaker: json_str(json_get(t, "speaker"@)), text: json_str(json_get(t, "text"@)) }
}

/// The turns of a session record: one per element when it is an array,
/// none otherwise.
pub open spec fn turns_of(v: Json) -> Seq<Turn> {
    match v {
        Json::Array(ts) => ts@.map_values(|t: Json| turn_of(t)),
        _ => Seq::empty(),
    }
}

/// The date of session `num` in the conversation object `c`: its member
/// `session_{num}_date_time` when that is a string, empty otherwise.
pub open spec fn session_date(c: Json, num: usize) -> Seq<char> {
    match json_str(json_get(c, spec_session_date_key(num as nat))) {
        Some(d) => d@,
        None => Seq::empty(),
    }
}

/// The sessions recorded by the members `es` of the conversation object
/// `c`, in member order, a later member for the same number in place of an
/// earlier one.
pub open spec fn collect_sessions(c: Json, es: Seq<(String, Json)>) -> Map<usize, (Seq<char>, Seq<char>)>
    decreases es.len(),
{
    if es.len() == 0 {
        Map::empty()
    } else {
        let prev = collect_sessions(c, es.drop_last());
        match spec_session_number(es.last().0@) {
            Some(num) => {
                let d = session_date(c, num);
                prev.insert(num, (d, spec_session_transcript(num as nat, d, turns_of(es.last().1))))
            },
            None => prev,
        }
    }
}

/// The sessions of a conversation document: those of its member
/// `conversation` when that is an object, none otherwise.
pub open spec fn spec_conversation_sessions(doc: Json) -> Map<usize, (Seq<char>, Seq<char>)> {
    match json_get(doc, "conversation"@) {
        Some(Json::Object(es)) => collect_sessions(Json::Object(es), es@),
        _ => Map::empty(),
    }
}

fn turn_from(t: &Json) -> (r: Turn)
    ensures
        r == turn_of(*t),
{
    Turn { speaker: get_str(get(t, "speaker")), text: get_str(get(t, "text")) }
}

fn turns_from(v: &Json) -> (r: Vec<Turn>)
    ensures
        r@ == turns_of(*v),
{
    match v {
        Json::Array(ts) => {
            let mut r: Vec<Turn> = Vec::new();
            let mut i: usize = 0;
            while i < ts.len()
                invariant
                    i <= ts.len(),
                    r@ == ts@.take(i as int).map_values(|t: Json| turn_of(t)),
                decreases ts.len() - i,
            {
                r.push(turn_from(&ts[i]));
                proof {
                    assert(r@ =~= ts@.take(i + 1).map_values(|t: Json| turn_of(t)));
                }
                i = i + 1;
            }
            proof {
                assert(ts@.take(ts@.len() as int) =~= ts@);
            }
            r
        },
        _ => Vec::new(),
    }
}

/// The sessions of a conversation document: for each member
/// `session_N` of its object `conversation`, the date under
/// `session_N_date_time` and the transcript of the turns.
pub fn conversation_sessions(doc: &Json) -> (s: Sessions)
    ensures
        s@ == spec_conversation_sessions(*doc),
{
    let mut sessions = Sessions::new();
    match get(doc, "conversation") {
        Some(c) => match c {
            Json::Object(es) => {
                let mut i: usize = 0;
                proof {
                    assert(es@.take(0) =~= Seq::<(String, Json)>::empty());
                }
                while i < es.len()
                    invariant
                        i <= es.len(),
                        sessions@ == collect_sessions(*c, es@.take(i as int)),
                    decreases es.len() - i,
                {
                    proof {
                        assert(es@.take(i + 1).drop_last() =~= es@.take(i as int));
                        assert(es@.take(i + 1).last() == es@[i as int]);
                    }
                    match session_number(es[i].0.as_str()) {
                        Some(num) => {
                            let key = session_date_key(num);
                            let date = match get_str(get(c, key.as_str())) {
                                Some(d) => d,
                                None => String::new(),
                            };
                            let turns = turns_from(&es[i].1);
                            let text = session_transcript(num, date.as_str(), &turns);
                            sessions.insert(num, date, text);
                        },
                        None => {},
                    }
                    i = i + 1;
                }
                proof {
                    assert(es@.take(es@.len() as int) =~= es@);
                }
            },
            _ => {},
        },
        None => {},
    }
    sessions
}

/// The dates sidecar of sessions listed in ascending order of number: the
/// decimal minutes of each date mapped to the date, in the order of first
/// appearance, a later session with the same minutes in place of an
/// earlier one.
pub open spec fn spec_sidecar_dates(entries: Seq<(usize, Seq<char>, Seq<char>)>) -> Seq<(Seq<char>, Seq<char>)>
    decreases entries.len(),
{
    if entries.len() == 0 {
        Seq::empty()
    } else {
        let e = entries.last();
        spec_register(spec_sidecar_dates(entries.drop_last()), signed_decimal(date_minutes(e.1)), e.1)
    }
}

proof fn lemma_sidecar_distinct(entries: Seq<(usize, Seq<char>, Seq<char>)>)
    ensures
        distinct_names(spec_sidecar_dates(entries)),
    decreases entries.len(),
{
    if entries.len() > 0 {
        lemma_sidecar_distinct(entries.drop_last());
        let e = entries.last();
        lemma_register_profile(spec_sidecar_dates(entries.drop_last()), signed_decimal(date_minutes(e.1)), e.1, e.1);
    }
}

/// Sets `k` to `v` in the entries `d`, in place of its old value or at the
/// end.
fn upsert(d: &mut Vec<(String, String)>, k: String, v: String)
    requires
        distinct_names(old(d).deep_view()),
    ensures
        final(d).deep_view() == spec_register(old(d).deep_view(), k@, v@),
{
    let ghost s = d.deep_view();
    let n = d.len();
    let mut i: usize = 0;
    while i < n && !(d[i].0 == k)
        invariant
            n == d.len(),
            s == d.deep_view(),
            i <= n,
            forall|j: int| 0 <= j < i ==> s[j].0 != k@,
        decreases n - i,
    {
        i = i + 1;
    }
    let ghost kv = k@;
    let ghost vv = v@;
    if i < n {
        proof {
            assert(s[i as int].0 == kv);
            lemma_name_index(s, i as int);
        }
        d.set(i, (k, v));
        proof {
            assert(d.deep_view() =~= s.update(i as int, (kv, vv)));
        }
    } else {
        proof {
            assert(!has_name(s, kv));
        }
        d.push((k, v));
        proof {
            assert(d.deep_view() =~= s.push((kv, vv)));
        }
    }
}

/// The dates sidecar of the sessions `entries`, listed in ascending order
/// of number as `Sessions::entries` lists them; `None` when a date's
/// minutes leave `i64`.
pub fn sidecar_dates(entries: &Vec<(usize, String, String)>) -> (r: Option<Vec<(String, String)>>)
    ensures
        r is None <==> exists|i: int| 0 <= i < entries.len() && !date_fits(#[trigger] entries@[i].1@),
        r matches Some(d) ==> d.deep_view() == spec_sidecar_dates(entries.deep_view()),
{
    let ghost ev = entries.deep_view();
    let mut d: Vec<(String, String)> = Vec::new();
    let mut i: usize = 0;
    proof {
        assert(d.deep_view() =~= Seq::<(Seq<char>, Seq<char>)>::empty());
    }
    while i < entries.len()
        invariant
            i <= entries.len(),
            ev == entries.deep_view(),
            forall|j: int| 0 <= j < i ==> date_fits(#[trigger] entries@[j].1@),
            d.deep_view() == spec_sidecar_dates(ev.take(i as int)),
        decreases entries.len() - i,
    {
        proof {
            assert(ev.take(i + 1).drop_last() =~= ev.take(i as int));
            assert(ev.take(i + 1).last() == ev[i as int]);
            assert(ev[i as int].1 == entries@[i as int].1@);
            lemma_sidecar_distinct(ev.take(i as int));
        }
        let date = &entries[i].1;
        match parse_date_checked(date.as_str()) {
            Some(ts) => {
                let key = signed_decimal_string(ts);
                upsert(&mut d, key, date.clone());
            },
            None => {
                return None;
            },
        }
        i = i + 1;
    }
    proof {
        assert(ev.take(ev.len() as int) =~= ev);
    }
    Some(d)
}

/// The latest of the session dates as minutes, 0 when there are none; or
/// `None` when a date's minutes leave `i64`.
pub fn latest_timestamp_checked(dates: &Vec<String>) -> (r: Option<i64>)
    ensures
        r is None <==> exists|i: int| 0 <= i < dates.len() && !date_fits(#[trigger] dates@[i]@),
        r matches Some(t) ==> t == latest_minutes(dates.deep_view()),
{
    let mut i: usize = 0;
    while i < dates.len()
        invariant
            i <= dates.len(),
            forall|j: int| 0 <= j < i ==> date_fits(#[trigger] dates@[j]@),
        decreases dates.len() - i,
    {
        if parse_date_checked(dates[i].as_str()).is_none() {
            return None;
        }
        i = i + 1;
    }
    Some(latest_timestamp(dates))
}

/// The latest timestamp is the minutes of one of the dates, at least those
/// of every date; 0 when there are none.
pub proof fn lemma_latest_is_maximum(ds: Seq<Seq<char>>)
    ensures
        ds.len() == 0 ==> latest_minutes(ds) == 0,
        ds.len() > 0 ==> exists|i: int| 0 <= i < ds.len() && latest_minutes(ds) == date_minutes(#[trigger] ds[i]),
        forall|i: int| 0 <= i < ds.len() ==> latest_minutes(ds) >= date_minutes(#[trigger] ds[i]),
    decreases ds.len(),
{
    if ds.len() == 1 {
        assert(latest_minutes(ds) == date_minutes(ds[0]));
    } else if ds.len() > 1 {
        let p = ds.drop_last();
        lemma_latest_is_maximum(p);
        let n = ds.len() - 1;
        let x = date_minutes(ds[n]);
        assert(ds.last() == ds[n]);
        let i = choose|i: int| 0 <= i < p.len() && latest_minutes(p) == date_minutes(#[trigger] p[i]);
        assert(p[i] == ds[i]);
        if x > latest_minutes(p) {
            assert(latest_minutes(ds) == date_minutes(ds[n]));
        } else {
            assert(latest_minutes(ds) == date_minutes(ds[i]));
        }
        assert forall|j: int| 0 <= j < ds.len() implies latest_minutes(ds) >= date_minutes(#[trigger] ds[j]) by {
            if j < n {
                assert(p[j] == ds[j]);
            }
        }
    }
}

/// A subject matches a question exactly when one of its tokens of at least
/// three bytes, at any position, equals one of the question's tokens.
pub proof fn lemma_subject_matches_any_token(toks: Seq<Seq<char>>, q: Seq<Seq<char>>, i: int, j: int)
    ensures
        0 <= i < toks.len() && 0 <= j < q.len() && byte_len(toks[i]) >= 3 && toks[i] == q[j]
            ==> subject_matches(toks, q),
        subject_matches(toks, q) ==> exists|a: int, b: int|
            0 <= a < toks.len() && 0 <= b < q.len() && encode_utf8(toks[a]).len() >= 3 && toks[a] == q[b],
{
    if 0 <= i < toks.len() && 0 <= j < q.len() && byte_len(toks[i]) >= 3 && toks[i] == q[j] {
        assert(toks[i] == q[j]);
    }
}

proof fn lemma_lookup_first(dates: Seq<(Seq<char>, Seq<char>)>, key: Seq<char>, k: int)
    requires
        0 <= k < dates.len(),
        dates[k].0 == key,
        forall|j: int| 0 <= j < k ==> dates[j].0 != key,
    ensures
        lookup_date(dates, key) == Some(dates[k].1),
    decreases k,
{
    if k > 0 {
        let rest = dates.drop_first();
        assert(dates[0].0 != key);
        assert forall|j: int| 0 <= j < k - 1 implies rest[j].0 != key by {
            assert(rest[j] == dates[j + 1]);
        }
        lemma_lookup_first(rest, key, k - 1);
    }
}

/// A timestamp recorded in the dates sidecar reads as its session date:
/// when the first entry whose key is the decimal digits of a positive `ts`
/// (below `i64::MAX`) holds `d`, the label of `ts` is `d`.
pub proof fn lemma_date_label_reads_sidecar(ts: i64, dates: Seq<(Seq<char>, Seq<char>)>, k: int, d: Seq<char>)
    requires
        0 < ts < i64::MAX,
        0 <= k < dates.len(),
        dates[k] == (decimal(ts as nat), d),
        forall|j: int| 0 <= j < k ==> dates[j].0 != decimal(ts as nat),
    ensures
        spec_date_label(Some(ts), dates) == d,
{
    lemma_lookup_first(dates, decimal(ts as nat), k);
}

/// Each line of the history shows the valid-from, valid-to and asserted
/// times through the same dates sidecar: when an edge is added, its line
/// ends with `label(from) .. label(to) (asserted label(at))`, so an
/// asserted timestamp recorded in the sidecar reads as its session date,
/// as the valid-from one does.
pub proof fn lemma_history_line_dates(rows: Seq<EdgeRow>, q: Seq<Seq<char>>, dates: Seq<(Seq<char>, Seq<char>)>)
    requires
        rows.len() > 0,
        byte_len(spec_edge_history(rows.drop_last(), q, dates)) <= 2800,
        subject_matches(rows.last().subject_tokens.deep_view(), q),
    ensures
        exists|pre: Seq<char>|
            spec_edge_history(rows, q, dates) == pre + spec_date_label(rows.last().valid_from, dates) + " .. "@
                + spec_date_label(rows.last().valid_to, dates) + " (asserted "@ + spec_date_label(
                rows.last().asserted,
                dates,
            ) + ")\n"@,
{
    let e = rows.last();
    let prev = spec_edge_history(rows.drop_last(), q, dates);
    let pre = prev + e.subject@ + " --"@ + e.relation@ + "--> "@ + e.object@ + ", "@;
    assert(spec_edge_history(rows, q, dates) =~= pre + spec_date_label(e.valid_from, dates) + " .. "@
        + spec_date_label(e.valid_to, dates) + " (asserted "@ + spec_date_label(e.asserted, dates)
        + ")\n"@);
}

/// The object of the first three-part key whose relation is `r`.
pub open spec fn first_object(keys: Seq<Seq<Seq<char>>>, r: Seq<char>) -> Option<Seq<char>>
    decreases keys.len(),
{
    if keys.len() == 0 {
        None
    } else {
        match first_object(keys.drop_last(), r) {
            Some(o) => Some(o),
            None => {
                let k = keys.last();
                if k.len() == 3 && k[1] == r {
                    Some(k[2])
                } else {
                    None
                }
            },
        }
    }
}

/// The first three-part key of relation `r` has a date-shaped object.
pub open spec fn dated_first(keys: Seq<Seq<Seq<char>>>, r: Seq<char>) -> bool {
    match first_object(keys, r) {
        Some(o) => spec_date_shaped(o),
        None => false,
    }
}

/// The dating rules of the relations `rs`, in order: one rule for each
/// relation whose first three-part key has a date-shaped object.
pub open spec fn rules_for(rs: Seq<Seq<char>>, keys: Seq<Seq<Seq<char>>>) -> Seq<char>
    decreases rs.len(),
{
    if rs.len() == 0 {
        Seq::empty()
    } else {
        rules_for(rs.drop_last(), keys) + if dated_first(keys, rs.last()) {
            dated_rule(rs.last())
        } else {
            Seq::<char>::empty()
        }
    }
}

proof fn lemma_rules_for_agree(rs: Seq<Seq<char>>, keys: Seq<Seq<Seq<char>>>)
    requires
        keys.len() > 0,
        forall|i: int| 0 <= i < rs.len() ==> first_object(keys.drop_last(), #[trigger] rs[i]) is Some,
    ensures
        rules_for(rs, keys) == rules_for(rs, keys.drop_last()),
    decreases rs.len(),
{
    if rs.len() > 0 {
        assert forall|i: int| 0 <= i < rs.drop_last().len() implies first_object(keys.drop_last(), #[trigger] rs.drop_last()[i]) is Some by {
            assert(rs.drop_last()[i] == rs[i]);
        }
        lemma_rules_for_agree(rs.drop_last(), keys);
        assert(first_object(keys.drop_last(), rs[rs.len() - 1]) is Some);
    }
}

/// One dating rule per relation: the rules text is that of a list of
/// relations without repeats, holding exactly the relations that have a
/// three-part key, each giving its rule once when the object of its first
/// such key is date-shaped.
pub proof fn lemma_order_rules_one_per_relation(keys: Seq<Seq<Seq<char>>>)
    ensures
        order_rules_scan(keys).1.no_duplicates(),
        forall|r: Seq<char>| #[trigger] order_rules_scan(keys).1.contains(r) <==> first_object(keys, r) is Some,
        spec_date_order_rules(keys) == rules_for(order_rules_scan(keys).1, keys),
    decreases keys.len(),
{
    lemma_order_rules_once(keys);
    if keys.len() > 0 {
        let kd = keys.drop_last();
        lemma_order_rules_one_per_relation(kd);
        let prev = order_rules_scan(kd);
        let k = keys.last();
        assert forall|i: int| 0 <= i < prev.1.len() implies first_object(kd, #[trigger] prev.1[i]) is Some by {
            assert(prev.1.contains(prev.1[i]));
        }
        lemma_rules_for_agree(prev.1, keys);
        if k.len() != 3 || prev.1.contains(k[1]) {
            assert forall|r: Seq<char>| #[trigger] order_rules_scan(keys).1.contains(r) <==> first_object(keys, r) is Some by {
                assert(prev.1.contains(r) <==> first_object(kd, r) is Some);
            }
        } else {
            let r0 = k[1];
            let s1 = prev.1.push(r0);
            assert(order_rules_scan(keys).1 == s1);
            assert forall|r: Seq<char>| #[trigger] s1.contains(r) <==> first_object(keys, r) is Some by {
                assert(prev.1.contains(r) <==> first_object(kd, r) is Some);
                if r == r0 {
                    assert(s1[s1.len() - 1] == r0);
                } else {
                    if s1.contains(r) {
                        let i = choose|i: int| 0 <= i < s1.len() && s1[i] == r;
                        assert(prev.1[i] == r);
                    }
                    if prev.1.contains(r) {
                        let i = choose|i: int| 0 <= i < prev.1.len() && prev.1[i] == r;
                        assert(s1[i] == r);
                    }
                }
            }
            assert(s1.drop_last() =~= prev.1);
            assert(s1.last() == r0);
            assert(first_object(keys, r0) == Some(k[2]));
            if spec_date_shaped(k[2]) {
                assert(spec_date_order_rules(keys) == prev.0 + dated_rule(r0));
            } else {
                assert(prev.0 + Seq::<char>::empty() =~= prev.0);
            }
        }
    }
}

} // verus!
