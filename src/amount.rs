//! Signed money amounts, held as a whole number of cents, and their decimal
//! text form (`-40`, `100.5`, `0.05`).

use vstd::prelude::*;
use crate::text::{
    all_digits, chars_of, digit_char, digit_to_char, digit_value, digits_of, digits_value, is_digit,
    lemma_digit_char, lemma_digits_of, lemma_digits_value_single, padded_digits, lemma_padded_digits, push_digits,
};

verus! {

/// Integer parts at or above this value cannot make an amount that fits `i64` cents.
const INT_PART_CAP: u64 = 1000000000000000000;

/// The cents written by the fractional digits after the point.
pub open spec fn fraction_cents(f: Seq<char>) -> int {
    if f.len() == 1 {
        digit_value(f[0]) * 10
    } else if f.len() == 2 {
        digits_value(f)
    } else {
        0
    }
}

/// The position of the decimal point in an unsigned amount text, if any: it
/// is followed by one or two digits.
pub open spec fn point_index(b: Seq<char>) -> Option<int> {
    if b.len() >= 2 && b[b.len() - 2] == '.' {
        Some(b.len() - 2)
    } else if b.len() >= 3 && b[b.len() - 3] == '.' {
        Some(b.len() - 3)
    } else {
        None
    }
}

/// The text without its leading sign.
pub open spec fn unsigned_part(s: Seq<char>) -> Seq<char> {
    if s.len() > 0 && (s[0] == '-' || s[0] == '+') { s.drop_first() } else { s }
}

pub open spec fn is_negative_text(s: Seq<char>) -> bool {
    s.len() > 0 && s[0] == '-'
}

/// The cents that a decimal text writes: an optional sign, one or more digits,
/// and optionally a point followed by one or two digits. `None` for any other
/// text and for an amount beyond the range of `i64` cents.
pub open spec fn amount_of_text(s: Seq<char>) -> Option<int> {
    let b = unsigned_part(s);
    match point_index(b) {
        Some(k) => amount_of_parts(
            is_negative_text(s),
            b.subrange(0, k),
            b.subrange(k + 1, b.len() as int),
        ),
        None => amount_of_parts(is_negative_text(s), b, Seq::empty()),
    }
}

/// The cents written by a sign, the digits before the point and those after it.
pub open spec fn amount_of_parts(negative: bool, ip: Seq<char>, fp: Seq<char>) -> Option<int> {
    let magnitude = digits_value(ip) * 100 + fraction_cents(fp);
    let value = if negative { -magnitude } else { magnitude };
    if ip.len() > 0 && all_digits(ip) && all_digits(fp) && i64::MIN <= value <= i64::MAX {
        Some(value)
    } else {
        None
    }
}

/// The fractional part that `cents` (below 100) needs after the point:
/// nothing for whole amounts, and no trailing zero.
pub open spec fn fraction_text(cents: nat) -> Seq<char> {
    if cents == 0 {
        Seq::empty()
    } else if cents % 10 == 0 {
        seq!['.', digit_char((cents / 10) as int)]
    } else {
        seq!['.'] + padded_digits(cents, 2)
    }
}

/// The shortest decimal text of an amount of cents.
pub open spec fn amount_text(c: int) -> Seq<char> {
    let m = if c < 0 { -c } else { c };
    let body = digits_of((m / 100) as nat) + fraction_text((m % 100) as nat);
    if c < 0 { seq!['-'] + body } else { body }
}

/// Appends the shortest decimal text of `cents`.
pub fn push_amount(out: &mut Vec<char>, cents: i64)
    ensures
        final(out)@ == old(out)@ + amount_text(cents as int),
{
    let ghost start = out@;
    let m: u64 = if cents < 0 {
        out.push('-');
        (-(cents as i128)) as u64
    } else {
        cents as u64
    };
    push_digits(out, m / 100);
    let f: u64 = m % 100;
    if f != 0 {
        out.push('.');
        out.push(digit_to_char(f / 10));
        if f % 10 != 0 {
            out.push(digit_to_char(f % 10));
        }
    }
    proof {
        let ghost fm = (m % 100) as nat;
        if fm != 0 && fm % 10 != 0 {
            lemma_two_digits(fm);
        }
    }
    assert(out@ =~= start + amount_text(cents as int));
}

/// The decimal text of an amount of cents.
pub fn format_amount(cents: i64) -> (r: Vec<char>)
    ensures
        r@ == amount_text(cents as int),
{
    let mut v: Vec<char> = Vec::new();
    push_amount(&mut v, cents);
    assert(v@ =~= amount_text(cents as int));
    v
}

/// The digits of `s[lo..hi]` read as a number, capped at `INT_PART_CAP`;
/// `None` if one of them is not a digit.
fn capped_digits(s: &Vec<char>, lo: usize, hi: usize) -> (r: Option<u64>)
    requires
        lo <= hi <= s@.len(),
    ensures
        r is Some ==> digits_value(s@.subrange(lo as int, hi as int)) >= 0,
        r == (if all_digits(s@.subrange(lo as int, hi as int)) {
            Some(
                (if digits_value(s@.subrange(lo as int, hi as int)) < INT_PART_CAP {
                    digits_value(s@.subrange(lo as int, hi as int))
                } else {
                    INT_PART_CAP as int
                }) as u64,
            )
        } else {
            None
        }),
{
    let mut acc: u64 = 0;
    let mut i: usize = lo;
    while i < hi
        invariant
            lo <= i <= hi <= s@.len(),
            all_digits(s@.subrange(lo as int, i as int)),
            digits_value(s@.subrange(lo as int, i as int)) >= 0,
            acc <= INT_PART_CAP,
            acc as int == (if digits_value(s@.subrange(lo as int, i as int)) < INT_PART_CAP {
                digits_value(s@.subrange(lo as int, i as int))
            } else {
                INT_PART_CAP as int
            }),
        decreases hi - i,
    {
        let c = s[i];
        let ghost prev = s@.subrange(lo as int, i as int);
        let ghost next = s@.subrange(lo as int, i as int + 1);
        assert(next.drop_last() =~= prev);
        if !('0' <= c && c <= '9') {
            assert(!all_digits(s@.subrange(lo as int, hi as int))) by {
                assert(s@.subrange(lo as int, hi as int)[i - lo] == c);
            }
            return None;
        }
        let v: u64 = acc * 10 + (c as u64 - 48u64);
        acc = if v < INT_PART_CAP { v } else { INT_PART_CAP };
        i = i + 1;
        assert forall|k: int| 0 <= k < next.len() implies is_digit(#[trigger] next[k]) by {
            if k < next.len() - 1 {
                assert(next[k] == prev[k]);
            }
        }
    }
    Some(acc)
}

/// The cents written by the zero to two digits `s[lo..]`; `None` if one of
/// them is not a digit.
fn fraction_digits(s: &Vec<char>, lo: usize) -> (r: Option<u64>)
    requires
        lo <= s@.len() <= lo + 2,
    ensures
        r == (if all_digits(s@.subrange(lo as int, s@.len() as int)) {
            Some(fraction_cents(s@.subrange(lo as int, s@.len() as int)) as u64)
        } else {
            None
        }),
        r matches Some(v) ==> v < 100 && v as int == fraction_cents(
            s@.subrange(lo as int, s@.len() as int),
        ),
{
    let n = s.len();
    let ghost fp = s@.subrange(lo as int, n as int);
    if lo == n {
        return Some(0);
    }
    let c0 = s[lo];
    if !('0' <= c0 && c0 <= '9') {
        assert(fp[0] == c0);
        return None;
    }
    let d0: u64 = c0 as u64 - 48u64;
    if n - lo == 1 {
        assert(fp[0] == c0);
        return Some(d0 * 10);
    }
    let c1 = s[lo + 1];
    assert(fp[0] == c0 && fp[1] == c1);
    if !('0' <= c1 && c1 <= '9') {
        return None;
    }
    assert(fp.drop_last() =~= seq![c0]);
    proof { lemma_digits_value_single(c0); }
    Some(d0 * 10 + (c1 as u64 - 48u64))
}

/// Reads the decimal text of an amount (`-40`, `100.5`), in cents.
pub fn parse_amount(s: &str) -> (r: Option<i64>)
    ensures
        r matches Some(c) ==> amount_of_text(s@) == Some(c as int),
        r is None ==> amount_of_text(s@) is None,
{
    let v = chars_of(s);
    parse_amount_chars(&v)
}

/// Reads the decimal text of an amount, in cents.
pub fn parse_amount_chars(s: &Vec<char>) -> (r: Option<i64>)
    ensures
        r matches Some(c) ==> amount_of_text(s@) == Some(c as int),
        r is None ==> amount_of_text(s@) is None,
{
    let n = s.len();
    let start: usize = if n > 0 && (s[0] == '-' || s[0] == '+') { 1 } else { 0 };
    let negative = n > 0 && s[0] == '-';
    let ghost b = unsigned_part(s@);
    assert(b =~= s@.subrange(start as int, n as int));
    let blen: usize = n - start;
    let (ip_end, fp_start): (usize, usize) = if blen >= 2 && s[n - 2] == '.' {
        (n - 2, n - 1)
    } else if blen >= 3 && s[n - 3] == '.' {
        (n - 3, n - 2)
    } else {
        (n, n)
    };
    let ghost ipv = s@.subrange(start as int, ip_end as int);
    let ghost fpv = s@.subrange(fp_start as int, n as int);
    assert(amount_of_text(s@) == amount_of_parts(negative, ipv, fpv)) by {
        match point_index(b) {
            Some(k) => {
                assert(ipv =~= b.subrange(0, k));
                assert(fpv =~= b.subrange(k + 1, b.len() as int));
            },
            None => {
                assert(ipv =~= b);
                assert(fpv =~= Seq::<char>::empty());
            },
        }
    }
    if ip_end == start {
        return None;
    }
    let ip = match capped_digits(s, start, ip_end) {
        Some(v) => v,
        None => return None,
    };
    let frac = match fraction_digits(s, fp_start) {
        Some(v) => v,
        None => return None,
    };
    if ip >= INT_PART_CAP {
        assert(digits_value(ipv) >= INT_PART_CAP);
        return None;
    }
    assert(ip as int == digits_value(ipv));
    assert(frac as int == fraction_cents(fpv));
    let magnitude: u128 = (ip as u128) * 100 + frac as u128;
    if negative {
        if magnitude > 9223372036854775808u128 {
            None
        } else {
            Some((-(magnitude as i128)) as i64)
        }
    } else {
        if magnitude > 9223372036854775807u128 {
            None
        } else {
            Some(magnitude as i64)
        }
    }
}

proof fn lemma_two_digits(f: nat)
    requires
        f < 100,
    ensures
        padded_digits(f, 2) =~= seq![digit_char((f / 10) as int), digit_char((f % 10) as int)],
{
    assert((f / 10) % 10 == f / 10);
    let p0 = padded_digits(f / 10 / 10, 0);
    assert(p0 =~= Seq::<char>::empty());
    let p1 = padded_digits(f / 10, 1);
    assert(p1 == p0.push(digit_char(((f / 10) % 10) as int)));
    assert(padded_digits(f, 2) == p1.push(digit_char((f % 10) as int)));
}

/// Writing an amount and reading it back gives the same amount.
pub proof fn lemma_amount_round_trip(c: i64)
    ensures
        amount_of_text(amount_text(c as int)) == Some(c as int),
{
    let m: nat = (if c < 0 { -(c as int) } else { c as int }) as nat;
    let q = m / 100;
    let f = m % 100;
    let ds = digits_of(q);
    let ft = fraction_text(f);
    let body = ds + ft;
    let s = amount_text(c as int);
    lemma_digits_of(q);
    lemma_digit_char((f / 10) as int);
    lemma_padded_digits(f, 2);
    assert(unsigned_part(s) =~= body) by {
        if c >= 0 {
            assert(is_digit(ds[0]));
            assert(s[0] == ds[0]);
        }
    }
    assert(is_negative_text(s) == (c < 0)) by {
        if c >= 0 {
            assert(is_digit(ds[0]));
            assert(s[0] == ds[0]);
        }
    }
    lemma_body_round_trip(q, f);
}

/// Reading the unsigned text of `q` whole units and `f` cents.
proof fn lemma_body_round_trip(q: nat, f: nat)
    requires
        f < 100,
    ensures
        ({
            let body = digits_of(q) + fraction_text(f);
            let (ip, fp) = match point_index(body) {
                Some(k) => (body.subrange(0, k), body.subrange(k + 1, body.len() as int)),
                None => (body, Seq::<char>::empty()),
            };
            &&& ip == digits_of(q)
            &&& all_digits(fp)
            &&& fraction_cents(fp) == f
        }),
{
    let ds = digits_of(q);
    let ft = fraction_text(f);
    let body = ds + ft;
    lemma_digits_of(q);
    lemma_digit_char((f / 10) as int);
    lemma_digit_char((f % 10) as int);
    if f == 0 {
        assert(body =~= ds);
        if body.len() >= 2 {
            assert(is_digit(ds[ds.len() - 2]));
        }
        if body.len() >= 3 {
            assert(is_digit(ds[ds.len() - 3]));
        }
        assert(point_index(body) is None);
    } else if f % 10 == 0 {
        assert(body[body.len() - 2] == '.');
        assert(body.subrange(0, body.len() - 2) =~= ds);
        let fp = body.subrange(body.len() - 1, body.len() as int);
        assert(fp =~= seq![digit_char((f / 10) as int)]);
        assert(all_digits(fp));
        assert(fraction_cents(fp) == digit_value(digit_char((f / 10) as int)) * 10);
    } else {
        lemma_two_digits(f);
        let pd = padded_digits(f, 2);
        assert(body[body.len() - 2] == pd[0]);
        assert(is_digit(pd[0]));
        assert(body[body.len() - 3] == '.');
        assert(body.subrange(0, body.len() - 3) =~= ds);
        let fp = body.subrange(body.len() - 2, body.len() as int);
        assert(fp =~= pd);
        assert(fp.drop_last() =~= seq![pd[0]]);
        lemma_digits_value_single(pd[0]);
        assert(all_digits(fp));
    }
}

} // verus!
