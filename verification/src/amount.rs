//! Reading a money amount from decimal text.
//!
//! An amount is a signed count of cents held in an `i64`.  The accepted
//! text is an optional sign, then digits with at most one decimal point
//! and at most two fractional digits: `"123"`, `"123.45"`, `"-0.5"`,
//! `"+7."` and `".5"` are accepted; `"abc"`, `"."`, `"1.234"` and
//! `"1.2.3"` are not.  A well-formed number whose cents do not fit the
//! symmetric `i64` range is rejected as well.

use vstd::prelude::*;
use vstd::arithmetic::div_mod::lemma_fundamental_div_mod;
use vstd::string::StringSliceAdditionalSpecFns;

verus! {

/// ASCII code of '.'.
pub const DOT: u8 = 46;

/// ASCII code of '+'.
pub const PLUS: u8 = 43;

/// ASCII code of '-'.
pub const MINUS: u8 = 45;

/// ASCII code of '0'.
pub const DIGIT_0: u8 = 48;

/// ASCII code of '9'.
pub const DIGIT_9: u8 = 57;

/// The largest count of cents an amount may hold; the accepted range is
/// symmetric around zero.
pub const MAX_CENTS: u64 = i64::MAX as u64;

/// Whether a byte is an ASCII decimal digit.
pub open spec fn is_digit(b: u8) -> bool {
    DIGIT_0 <= b && b <= DIGIT_9
}

/// Whether every byte of the sequence is an ASCII decimal digit.
pub open spec fn all_digits(s: Seq<u8>) -> bool {
    forall|i: int| 0 <= i < s.len() ==> is_digit(#[trigger] s[i])
}

/// The value of a digit sequence read as a decimal integer; the empty
/// sequence reads as 0.
pub open spec fn digits_value(s: Seq<u8>) -> int
    decreases s.len(),
{
    if s.len() == 0 {
        0
    } else {
        digits_value(s.drop_last()) * 10 + (s.last() - DIGIT_0)
    }
}

/// The index of the first decimal point, or the sequence's length when it
/// has none.
pub open spec fn dot_index(s: Seq<u8>) -> int
    decreases s.len(),
{
    if s.len() == 0 {
        0
    } else if s[0] == DOT {
        0
    } else {
        1 + dot_index(s.drop_first())
    }
}

/// The cents contributed by a fractional part of at most two digits:
/// one digit counts tens of cents, two digits count cents.
pub open spec fn frac_cents(fp: Seq<u8>) -> int {
    if fp.len() == 1 {
        digits_value(fp) * 10
    } else {
        digits_value(fp)
    }
}

/// An unsigned decimal number with at most two fractional digits, read as
/// a count of cents.  The text must hold at least one digit, digits only
/// around at most one decimal point.
pub open spec fn parse_unsigned_cents(s: Seq<u8>) -> Option<int> {
    let d = dot_index(s);
    if d == s.len() {
        if s.len() >= 1 && all_digits(s) {
            Some(digits_value(s) * 100)
        } else {
            None
        }
    } else {
        let ip = s.take(d);
        let fp = s.subrange(d + 1, s.len() as int);
        if all_digits(ip) && all_digits(fp) && fp.len() <= 2 && ip.len() + fp.len() >= 1 {
            Some(digits_value(ip) * 100 + frac_cents(fp))
        } else {
            None
        }
    }
}

/// A signed decimal number read as a count of cents: an optional leading
/// '+' or '-', then an unsigned number.
pub open spec fn parse_signed_cents(s: Seq<u8>) -> Option<int> {
    if s.len() >= 1 && (s[0] == PLUS || s[0] == MINUS) {
        match parse_unsigned_cents(s.drop_first()) {
            Some(v) => Some(if s[0] == MINUS { -v } else { v }),
            None => None,
        }
    } else {
        parse_unsigned_cents(s)
    }
}

/// Whether a count of cents lies in the symmetric range an amount may
/// hold.
pub open spec fn fits_amount(v: int) -> bool {
    -(MAX_CENTS as int) <= v && v <= MAX_CENTS as int
}

proof fn lemma_digits_value_nonneg(s: Seq<u8>)
    requires
        all_digits(s),
    ensures
        digits_value(s) >= 0,
    decreases s.len(),
{
    if s.len() > 0 {
        lemma_digits_value_nonneg(s.drop_last());
    }
}

proof fn lemma_digits_value_take_succ(s: Seq<u8>, i: int)
    requires
        0 <= i < s.len(),
    ensures
        digits_value(s.take(i + 1)) == digits_value(s.take(i)) * 10 + (s[i] - DIGIT_0),
{
    assert(s.take(i + 1).drop_last() =~= s.take(i));
    assert(s.take(i + 1).last() == s[i]);
}

proof fn lemma_digits_value_prefix_le(s: Seq<u8>, i: int)
    requires
        all_digits(s),
        0 <= i <= s.len(),
    ensures
        digits_value(s.take(i)) <= digits_value(s),
        digits_value(s.take(i)) >= 0,
    decreases s.len() - i,
{
    assert(all_digits(s.take(i)));
    lemma_digits_value_nonneg(s.take(i));
    if i == s.len() {
        assert(s.take(i) =~= s);
    } else {
        lemma_digits_value_take_succ(s, i);
        lemma_digits_value_prefix_le(s, i + 1);
    }
}

proof fn lemma_dot_index_characterizes(s: Seq<u8>, i: int)
    requires
        0 <= i <= s.len(),
        forall|k: int| 0 <= k < i ==> s[k] != DOT,
        i < s.len() ==> s[i] == DOT,
    ensures
        dot_index(s) == i,
    decreases s.len(),
{
    if s.len() == 0 {
    } else if s[0] == DOT {
        assert(i == 0);
    } else {
        assert(forall|k: int| 0 <= k < i - 1 ==> s.drop_first()[k] == s[k + 1]);
        lemma_dot_index_characterizes(s.drop_first(), i - 1);
    }
}

/// Reads the unsigned number in `b` from `start` on, as cents.
fn parse_cents_from(b: &[u8], start: usize) -> (r: Option<i64>)
    requires
        start <= b@.len(),
    ensures
        ({
            let p = parse_unsigned_cents(b@.subrange(start as int, b@.len() as int));
            match r {
                Some(v) => p == Some(v as int) && 0 <= v,
                None => p is None || (p matches Some(w) && !fits_amount(w)),
            }
        }),
{
    let n = b.len();
    let ghost u = b@.subrange(start as int, n as int);

    // Find the first decimal point, if any.
    let mut dot: usize = n;
    let mut found = false;
    let mut j: usize = start;
    while j < n
        invariant
            start <= j <= n,
            n == b@.len(),
            found ==> start <= dot < j && b@[dot as int] == DOT && (forall|k: int|
                start <= k < dot ==> b@[k] != DOT),
            !found ==> dot == n && (forall|k: int| start <= k < j ==> b@[k] != DOT),
        decreases n - j,
    {
        if !found && b[j] == DOT {
            dot = j;
            found = true;
        }
        j += 1;
    }
    proof {
        assert forall|k: int| 0 <= k < dot - start implies u[k] != DOT by {
            assert(u[k] == b@[k + start]);
        }
        if dot < n {
            assert(u[dot - start] == b@[dot as int]);
        }
        lemma_dot_index_characterizes(u, dot - start);
    }
    let ip_end: usize = dot;
    let ghost d = ip_end - start;
    let ghost ip = u.take(d as int);

    // Read the integer digits.
    let mut acc: u64 = 0;
    let mut i: usize = start;
    while i < ip_end
        invariant
            start <= i <= ip_end <= n,
            n == b@.len(),
            u == b@.subrange(start as int, n as int),
            d == ip_end - start,
            ip == u.take(d as int),
            dot_index(u) == d,
            forall|k: int| start <= k < i ==> is_digit(#[trigger] b@[k]),
            acc <= MAX_CENTS,
            acc as int == digits_value(u.take(i - start)),
        decreases ip_end - i,
    {
        let c = b[i];
        proof {
            assert(u.take(i + 1 - start).drop_last() =~= u.take(i - start));
            assert(u[i - start] == b@[i as int]);
            lemma_digits_value_take_succ(u, i - start);
        }
        if c < DIGIT_0 || c > DIGIT_9 {
            proof {
                assert(ip[i - start] == b@[i as int]);
                assert(!all_digits(ip));
                if d == u.len() {
                    assert(ip =~= u);
                }
            }
            return None;
        }
        let dig = (c - DIGIT_0) as u64;
        if acc > (MAX_CENTS - dig) / 10 {
            proof {
                lemma_fundamental_div_mod(MAX_CENTS as int - dig as int, 10);
                assert(10 * (acc as int) + dig as int > MAX_CENTS as int);
                let p = parse_unsigned_cents(u);
                if p is Some {
                    let w = p->0;
                    if d == u.len() {
                        assert(ip =~= u);
                    }
                    assert(all_digits(ip));
                    assert(ip.take(i - start) =~= u.take(i - start));
                    assert(ip.take(i + 1 - start) =~= u.take(i + 1 - start));
                    lemma_digits_value_prefix_le(ip, i + 1 - start);
                    assert(digits_value(ip) >= 10 * (acc as int) + dig as int);
                    if d < u.len() {
                        let fp = u.subrange(d as int + 1, u.len() as int);
                        lemma_digits_value_nonneg(fp);
                    }
                    assert(w > MAX_CENTS as int);
                }
            }
            return None;
        }
        proof {
            lemma_fundamental_div_mod(MAX_CENTS as int - dig as int, 10);
        }
        acc = acc * 10 + dig;
        i += 1;
    }
    proof {
        assert(u.take(d as int) == ip);
        assert(all_digits(ip)) by {
            assert forall|k: int| 0 <= k < ip.len() implies is_digit(#[trigger] ip[k]) by {
                assert(ip[k] == b@[k + start]);
            }
        }
    }

    // Read the fractional digits, if a decimal point was found.
    let mut f: u64 = 0;
    let mut fp_len: usize = 0;
    if ip_end < n {
        let ghost fp = u.subrange(d as int + 1, u.len() as int);
        fp_len = n - ip_end - 1;
        assert(fp.len() == fp_len);
        if fp_len > 2 {
            return None;
        }
        if fp_len >= 1 {
            let c1 = b[ip_end + 1];
            proof {
                assert(fp[0] == b@[ip_end + 1]);
            }
            if c1 < DIGIT_0 || c1 > DIGIT_9 {
                assert(!all_digits(fp));
                return None;
            }
            if fp_len == 1 {
                f = ((c1 - DIGIT_0) as u64) * 10;
                proof {
                    assert(fp.drop_last() =~= Seq::<u8>::empty());
                    assert(digits_value(fp.drop_last()) == 0);
                    assert(fp.last() == fp[0]);
                    assert(fp[0] == c1);
                    assert(digits_value(fp) == c1 - DIGIT_0);
                    assert(frac_cents(fp) == f as int);
                }
            } else {
                let c2 = b[ip_end + 2];
                proof {
                    assert(fp[1] == b@[ip_end + 2]);
                }
                if c2 < DIGIT_0 || c2 > DIGIT_9 {
                    assert(!all_digits(fp));
                    return None;
                }
                f = ((c1 - DIGIT_0) as u64) * 10 + (c2 - DIGIT_0) as u64;
                proof {
                    assert(fp.drop_last().drop_last() =~= Seq::<u8>::empty());
                    assert(digits_value(fp.drop_last().drop_last()) == 0);
                    assert(fp.drop_last().last() == fp[0]);
                    assert(digits_value(fp.drop_last()) == fp[0] - DIGIT_0);
                    assert(fp.last() == fp[1]);
                    assert(fp[1] == c2);
                    assert(digits_value(fp) == (fp[0] - DIGIT_0) * 10 + (fp[1] - DIGIT_0));
                    assert(frac_cents(fp) == f as int);
                }
            }
            proof {
                assert(all_digits(fp)) by {
                    assert forall|k: int| 0 <= k < fp.len() implies is_digit(#[trigger] fp[k]) by {
                        if k == 0 {
                            assert(fp[0] == b@[ip_end + 1]);
                        } else {
                            assert(fp[1] == b@[ip_end + 2]);
                        }
                    }
                }
            }
        } else {
            proof {
                assert(fp =~= Seq::<u8>::empty());
                assert(frac_cents(fp) == 0);
            }
        }
        if ip_end == start && fp_len == 0 {
            // A lone decimal point holds no digit.
            return None;
        }
    } else {
        if ip_end == start {
            // No digit at all.
            return None;
        }
        proof {
            assert(ip =~= u);
        }
    }
    proof {
        let p = parse_unsigned_cents(u);
        if d < u.len() {
            let fp = u.subrange(d as int + 1, u.len() as int);
            assert(p == Some(digits_value(ip) * 100 + frac_cents(fp)));
            assert(frac_cents(fp) == f as int);
        } else {
            assert(p == Some(digits_value(u) * 100));
        }
    }
    // Scale to cents, rejecting a value out of range.
    if acc > (MAX_CENTS - f) / 100 {
        proof {
            lemma_fundamental_div_mod(MAX_CENTS as int - f as int, 100);
            assert(100 * (acc as int) + f as int > MAX_CENTS as int);
        }
        return None;
    }
    proof {
        lemma_fundamental_div_mod(MAX_CENTS as int - f as int, 100);
        assert(100 * (acc as int) + f as int <= MAX_CENTS as int);
    }
    let cents = acc * 100 + f;
    Some(cents as i64)
}

/// Reads a signed amount of money as a count of cents: an optional '+'
/// or '-' sign, then digits with at most one decimal point and at most
/// two fractional digits.  Returns `None` for any other text, and for a
/// well-formed number whose cents fall outside the symmetric `i64`
/// range.
pub fn parse_amount(input: &str) -> (r: Option<i64>)
    ensures
        ({
            let p = parse_signed_cents(input.spec_bytes());
            match r {
                Some(v) => p == Some(v as int) && fits_amount(v as int),
                None => p is None || (p matches Some(w) && !fits_amount(w)),
            }
        }),
{
    let b = input.as_bytes();
    let n = b.len();
    if n >= 1 && (b[0] == PLUS || b[0] == MINUS) {
        let negative = b[0] == MINUS;
        let r = parse_cents_from(b, 1);
        proof {
            assert(b@.subrange(1, n as int) =~= b@.drop_first());
        }
        match r {
            Some(c) => Some(if negative { -c } else { c }),
            None => None,
        }
    } else {
        let r = parse_cents_from(b, 0);
        proof {
            assert(b@.subrange(0, n as int) =~= b@);
        }
        r
    }
}

} // verus!
