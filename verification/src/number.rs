//! Decimal integers: parsing as `str::parse` does for `i64` and `usize`, and
//! rendering as `to_string` does.
use vstd::prelude::*;
use crate::text::{chars_of, push_char};

verus! {

pub open spec fn is_digit(c: char) -> bool {
    '0' <= c <= '9'
}

pub open spec fn digit_value(c: char) -> nat {
    (c as int - '0' as int) as nat
}

pub open spec fn all_digits(d: Seq<char>) -> bool {
    forall|i: int| 0 <= i < d.len() ==> is_digit(#[trigger] d[i])
}

/// The value of a string of decimal digits, most significant first.
pub open spec fn digits_value(d: Seq<char>) -> nat
    decreases d.len(),
{
    if d.len() == 0 {
        0
    } else {
        digits_value(d.drop_last()) * 10 + digit_value(d.last())
    }
}

/// The digits of `s` after an optional leading sign; `minus_ok` says
/// whether a leading `-` counts as a sign.
pub open spec fn unsigned_part(s: Seq<char>, minus_ok: bool) -> Seq<char> {
    if s.len() > 0 && (s[0] == '+' || (minus_ok && s[0] == '-')) {
        s.drop_first()
    } else {
        s
    }
}

/// What `str::parse::<i64>` gives for `s`: an optional `+` or `-`, then at
/// least one ASCII digit and nothing else, with a value in range.
pub open spec fn spec_parse_i64(s: Seq<char>) -> Option<i64> {
    let d = unsigned_part(s, true);
    let v: int = if s.len() > 0 && s[0] == '-' {
        -(digits_value(d) as int)
    } else {
        digits_value(d) as int
    };
    if d.len() == 0 || !all_digits(d) || v < i64::MIN || v > i64::MAX {
        None
    } else {
        Some(v as i64)
    }
}

/// What `str::parse::<usize>` gives for `s`: an optional `+`, then at least
/// one ASCII digit and nothing else, with a value in range.
pub open spec fn spec_parse_usize(s: Seq<char>) -> Option<usize> {
    let d = unsigned_part(s, false);
    if d.len() == 0 || !all_digits(d) || digits_value(d) > usize::MAX {
        None
    } else {
        Some(digits_value(d) as usize)
    }
}

/// Reads the digits `cs[start..]`: `None` when there are none or a
/// non-digit is among them, `Some(None)` when their value exceeds `u64`.
fn read_digits(cs: &Vec<char>, start: usize) -> (r: Option<Option<u64>>)
    requires
        start <= cs.len(),
    ensures
        r is None <==> (cs@.skip(start as int).len() == 0 || !all_digits(cs@.skip(start as int))),
        r == Some(None::<u64>) ==> digits_value(cs@.skip(start as int)) > u64::MAX,
        forall|v: u64| r == Some(Some(v)) ==> v == digits_value(cs@.skip(start as int)),
{
    let n = cs.len();
    if start == n {
        return None;
    }
    let mut acc: u64 = 0;
    let mut over = false;
    let mut i: usize = start;
    while i < n
        invariant
            start <= i <= n,
            n == cs.len(),
            all_digits(cs@.subrange(start as int, i as int)),
            over ==> digits_value(cs@.subrange(start as int, i as int)) > u64::MAX,
            !over ==> acc == digits_value(cs@.subrange(start as int, i as int)),
        decreases n - i,
    {
        let c = cs[i];
        if !('0' <= c && c <= '9') {
            proof {
                assert(cs@.skip(start as int)[i - start] == c);
            }
            return None;
        }
        let ghost p = cs@.subrange(start as int, i as int);
        proof {
            assert(cs@.subrange(start as int, i + 1).drop_last() =~= p);
        }
        let dv: u64 = ((c as u32) - ('0' as u32)) as u64;
        if !over {
            match acc.checked_mul(10) {
                Some(m) => match m.checked_add(dv) {
                    Some(a) => {
                        acc = a;
                    },
                    None => {
                        over = true;
                    },
                },
                None => {
                    over = true;
                },
            }
        }
        i = i + 1;
    }
    proof {
        assert(cs@.subrange(start as int, n as int) =~= cs@.skip(start as int));
    }
    if over {
        Some(None)
    } else {
        Some(Some(acc))
    }
}

/// Parses `s` as `str::parse::<i64>` does, keeping the value on success.
pub fn parse_i64(s: &str) -> (r: Option<i64>)
    ensures
        r == spec_parse_i64(s@),
{
    let cs = chars_of(s);
    if cs.len() == 0 {
        return None;
    }
    let neg = cs[0] == '-';
    let start: usize = if cs[0] == '-' || cs[0] == '+' {
        1
    } else {
        0
    };
    proof {
        assert(cs@.skip(start as int) =~= unsigned_part(s@, true));
    }
    match read_digits(&cs, start) {
        None => None,
        Some(None) => None,
        Some(Some(m)) => {
            if neg {
                if m <= 9223372036854775808u64 {
                    if m == 9223372036854775808u64 {
                        Some(i64::MIN)
                    } else {
                        Some(-(m as i64))
                    }
                } else {
                    None
                }
            } else if m <= 9223372036854775807u64 {
                Some(m as i64)
            } else {
                None
            }
        },
    }
}

/// Parses `s` as `str::parse::<usize>` does, keeping the value on success.
pub fn parse_usize(s: &str) -> (r: Option<usize>)
    ensures
        r == spec_parse_usize(s@),
{
    let cs = chars_of(s);
    let start: usize = if cs.len() > 0 && cs[0] == '+' {
        1
    } else {
        0
    };
    proof {
        assert(cs@.skip(start as int) =~= unsigned_part(s@, false));
    }
    match read_digits(&cs, start) {
        None => None,
        Some(None) => None,
        Some(Some(m)) => {
            if m <= usize::MAX as u64 {
                Some(m as usize)
            } else {
                None
            }
        },
    }
}

/// The ASCII digit for `d < 10`.
pub open spec fn digit_char(d: nat) -> char {
    (d + 48) as char
}

/// The decimal representation of `n`, without leading zeros.
pub open spec fn decimal(n: nat) -> Seq<char>
    decreases n,
{
    if n < 10 {
        seq![digit_char(n)]
    } else {
        decimal(n / 10).push(digit_char(n % 10))
    }
}

/// The decimal representation of `v`, with a leading `-` when negative, as
/// `to_string` writes an integer.
pub open spec fn signed_decimal(v: int) -> Seq<char> {
    if v < 0 {
        seq!['-'] + decimal((-v) as nat)
    } else {
        decimal(v as nat)
    }
}

/// Appends the decimal representation of `n` to `out`.
pub fn push_decimal(out: &mut String, n: u64)
    ensures
        final(out)@ == old(out)@ + decimal(n as nat),
    decreases n,
{
    if n >= 10 {
        push_decimal(out, n / 10);
    }
    let d: u8 = (n % 10) as u8;
    let c: char = (48u8 + d) as char;
    proof {
        assert(c == digit_char((n % 10) as nat));
    }
    push_char(out, c);
    proof {
        if n >= 10 {
            assert(decimal(n as nat) == decimal((n / 10) as nat).push(digit_char((n % 10) as nat)));
        }
        assert(old(out)@ + decimal(n as nat) =~= final(out)@);
    }
}

/// `v.to_string()`: the decimal representation of `v`, with a `-` in front
/// when `v` is negative.
pub fn signed_decimal_string(v: i64) -> (s: String)
    ensures
        s@ == signed_decimal(v as int),
{
    let mut s = String::new();
    if v < 0 {
        push_char(&mut s, '-');
        let m: u64 = if v == i64::MIN {
            9223372036854775808u64
        } else {
            (-v) as u64
        };
        push_decimal(&mut s, m);
    } else {
        push_decimal(&mut s, v as u64);
    }
    proof {
        assert(s@ =~= signed_decimal(v as int));
    }
    s
}

/// `n.to_string()`.
pub fn decimal_string(n: u64) -> (s: String)
    ensures
        s@ == decimal(n as nat),
{
    let mut s = String::new();
    push_decimal(&mut s, n);
    proof {
        assert(Seq::<char>::empty() + decimal(n as nat) =~= decimal(n as nat));
    }
    s
}

/// The decimal representation of `n` is a non-empty string of digits
/// whose value is `n`.
pub proof fn lemma_decimal_digits(n: nat)
    ensures
        decimal(n).len() > 0,
        all_digits(decimal(n)),
        digits_value(decimal(n)) == n,
    decreases n,
{
    assert(digit_value(digit_char(n % 10)) == n % 10);
    if n >= 10 {
        lemma_decimal_digits(n / 10);
        let d = decimal(n);
        assert(d.drop_last() == decimal(n / 10));
        assert(n == (n / 10) * 10 + n % 10);
        assert(d.last() == digit_char(n % 10));
        assert(digits_value(d) == digits_value(d.drop_last()) * 10 + digit_value(d.last()));
        assert forall|i: int| 0 <= i < d.len() implies is_digit(#[trigger] d[i]) by {
            if i < d.len() - 1 {
                assert(d[i] == decimal(n / 10)[i]);
            }
        }
    } else {
        let d = decimal(n);
        assert(d.drop_last() =~= Seq::<char>::empty());
        assert(d.last() == digit_char(n));
        assert(n % 10 == n);
        assert(digits_value(d) == digits_value(d.drop_last()) * 10 + digit_value(d.last()));
    }
}

/// Reading back what `to_string` writes: parsing the decimal representation
/// of `n` as a `usize` gives `n`.
pub proof fn lemma_parse_usize_decimal(n: usize)
    ensures
        spec_parse_usize(decimal(n as nat)) == Some(n),
{
    lemma_decimal_digits(n as nat);
    assert(unsigned_part(decimal(n as nat), false) == decimal(n as nat));
}

/// Reading back what `to_string` writes: parsing the decimal representation
/// of `v` as an `i64` gives `v`.
pub proof fn lemma_parse_i64_decimal(v: i64)
    ensures
        spec_parse_i64(signed_decimal(v as int)) == Some(v),
{
    if v < 0 {
        lemma_decimal_digits((-v) as nat);
        let s = signed_decimal(v as int);
        assert(s.drop_first() =~= decimal((-v) as nat));
        assert(unsigned_part(s, true) == decimal((-v) as nat));
    } else {
        lemma_decimal_digits(v as nat);
        let s = decimal(v as nat);
        assert(is_digit(s[0]));
        assert(unsigned_part(s, true) == s);
    }
}

} // verus!
