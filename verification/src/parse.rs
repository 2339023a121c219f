//! Parsing numeric record fields: unsigned integers, and signed decimals
//! taken to a fixed-point value in millionths (micro-degrees for
//! coordinates). Each parser's contract says exactly which byte strings it
//! accepts and what value they denote.

use crate::bytes::spec_split;
use crate::bytes::split_fields;
use crate::bytes::views;
use vstd::prelude::*;

verus! {

pub const DOT: u8 = 46;

pub const PLUS: u8 = 43;

pub const MINUS: u8 = 45;

/// One million: the fixed-point scale of parsed decimals.
pub const SCALE: i64 = 1000000;

pub open spec fn is_digit(c: u8) -> bool {
    48 <= c <= 57
}

pub open spec fn all_digits(s: Seq<u8>) -> bool {
    forall|i: int| 0 <= i < s.len() ==> is_digit(#[trigger] s[i])
}

/// The number a string of decimal digits denotes.
pub open spec fn digits_value(s: Seq<u8>) -> int
    decreases s.len(),
{
    if s.len() == 0 {
        0
    } else {
        digits_value(s.drop_last()) * 10 + (s.last() - 48)
    }
}

pub proof fn lemma_digits_value_nonneg(s: Seq<u8>)
    requires
        all_digits(s),
    ensures
        digits_value(s) >= 0,
    decreases s.len(),
{
    if s.len() > 0 {
        assert(all_digits(s.drop_last()));
        lemma_digits_value_nonneg(s.drop_last());
    }
}

pub proof fn lemma_digits_value_step(s: Seq<u8>, i: int)
    requires
        0 <= i < s.len(),
    ensures
        digits_value(s.take(i + 1)) == digits_value(s.take(i)) * 10 + (s[i] - 48),
{
    assert(s.take(i + 1).drop_last() =~= s.take(i));
    assert(s.take(i + 1).last() == s[i]);
}

pub proof fn lemma_digits_value_grows(s: Seq<u8>, i: int)
    requires
        all_digits(s),
        0 <= i <= s.len(),
    ensures
        digits_value(s) >= digits_value(s.take(i)),
        digits_value(s.take(i)) >= 0,
    decreases s.len() - i,
{
    assert(all_digits(s.take(i)));
    lemma_digits_value_nonneg(s.take(i));
    if i == s.len() {
        assert(s.take(i) =~= s);
    } else {
        lemma_digits_value_step(s, i);
        lemma_digits_value_grows(s, i + 1);
    }
}

/// Parses a field of decimal digits as an unsigned integer. Returns the
/// value exactly when the field is nonempty, all digits, and in range.
pub fn parse_u64(s: &[u8]) -> (r: Option<u64>)
    ensures
        r is Some <==> s@.len() >= 1 && all_digits(s@) && digits_value(s@) <= u64::MAX,
        r is Some ==> r->0 == digits_value(s@),
{
    if s.len() == 0 {
        return None;
    }
    let mut acc: u64 = 0;
    let mut i: usize = 0;
    while i < s.len()
        invariant
            0 <= i <= s@.len(),
            all_digits(s@.take(i as int)),
            acc == digits_value(s@.take(i as int)),
        decreases s@.len() - i,
    {
        let c = s[i];
        if c < 48 || c > 57 {
            return None;
        }
        let d = (c - 48) as u64;
        proof {
            lemma_digits_value_step(s@, i as int);
            assert(all_digits(s@.take(i + 1)));
        }
        acc = match acc.checked_mul(10) {
            Some(x) => match x.checked_add(d) {
                Some(y) => y,
                None => {
                    proof {
                        if all_digits(s@) {
                            lemma_digits_value_grows(s@, i + 1);
                        }
                    }
                    return None;
                },
            },
            None => {
                proof {
                    if all_digits(s@) {
                        lemma_digits_value_grows(s@, i + 1);
                    }
                }
                return None;
            },
        };
        i = i + 1;
    }
    proof {
        assert(s@.take(i as int) =~= s@);
    }
    Some(acc)
}

/// The first six fractional digits, padded with trailing zeros: the
/// fractional part of a decimal at the millionths scale.
pub open spec fn pad6(f: Seq<u8>) -> Seq<u8> {
    if f.len() >= 6 {
        f.take(6)
    } else {
        f.add(Seq::new((6 - f.len()) as nat, |i: int| 48u8))
    }
}

pub open spec fn frac6(f: Seq<u8>) -> int {
    digits_value(pad6(f))
}

/// Whether a (sign-stripped) decimal body is well formed: one optional dot,
/// digits elsewhere, at least one digit somewhere.
pub open spec fn decimal_body_ok(body: Seq<u8>) -> bool {
    let parts = spec_split(body, DOT);
    &&& parts.len() <= 2
    &&& all_digits(parts[0])
    &&& (parts.len() == 2 ==> all_digits(parts[1]))
    &&& parts[0].len() + (if parts.len() == 2 {
        parts[1].len()
    } else {
        0
    }) >= 1
}

/// The nonnegative millionths a well-formed decimal body denotes.
pub open spec fn decimal_body_value(body: Seq<u8>) -> int {
    let parts = spec_split(body, DOT);
    digits_value(parts[0]) * 1000000 + (if parts.len() == 2 {
        frac6(parts[1])
    } else {
        0
    })
}

/// The sign-stripped body of a decimal field.
pub open spec fn decimal_body(s: Seq<u8>) -> Seq<u8> {
    if s.len() >= 1 && (s[0] == PLUS || s[0] == MINUS) {
        s.subrange(1, s.len() as int)
    } else {
        s
    }
}

pub open spec fn decimal_negative(s: Seq<u8>) -> bool {
    s.len() >= 1 && s[0] == MINUS
}

/// Whether `s` is a well-formed signed decimal whose millionths value fits.
pub open spec fn scaled_ok(s: Seq<u8>) -> bool {
    &&& decimal_body_ok(decimal_body(s))
    &&& decimal_body_value(decimal_body(s)) <= i64::MAX
}

/// The fixed-point value of `s` in millionths.
pub open spec fn scaled_value(s: Seq<u8>) -> int {
    if decimal_negative(s) {
        -decimal_body_value(decimal_body(s))
    } else {
        decimal_body_value(decimal_body(s))
    }
}

/// Ten to the `n`th power.
pub open spec fn ten_pow(n: nat) -> int
    decreases n,
{
    if n == 0 {
        1
    } else {
        10 * ten_pow((n - 1) as nat)
    }
}

proof fn lemma_ten_pow_pos(n: nat)
    ensures
        ten_pow(n) > 0,
    decreases n,
{
    if n > 0 {
        lemma_ten_pow_pos((n - 1) as nat);
    }
}

proof fn lemma_ten_pow_le(i: nat, j: nat)
    requires
        i <= j,
    ensures
        0 < ten_pow(i) <= ten_pow(j),
    decreases j,
{
    lemma_ten_pow_pos(i);
    if i < j {
        lemma_ten_pow_le(i, (j - 1) as nat);
        lemma_ten_pow_pos((j - 1) as nat);
    }
}

/// Computes the millionths denoted by six-or-fewer leading fractional
/// digits of `f`, once `f` is known to be all digits.
fn frac6_of(f: &[u8]) -> (r: u64)
    requires
        all_digits(f@),
    ensures
        r == frac6(f@),
        r < 1000000,
{
    let ghost p = pad6(f@);
    proof {
        assert(p.len() == 6);
        assert(all_digits(p));
        lemma_digits_value_nonneg(p);
    }
    let mut acc: u64 = 0;
    let mut i: usize = 0;
    while i < 6
        invariant
            0 <= i <= 6,
            p == pad6(f@),
            p.len() == 6,
            all_digits(p),
            acc == digits_value(p.take(i as int)),
            acc < ten_pow(i as nat),
        decreases 6 - i,
    {
        let d: u64 = if i < f.len() && i < 6 {
            proof {
                assert(p[i as int] == f@[i as int]);
                assert(is_digit(p[i as int]));
            }
            (f[i] - 48) as u64
        } else {
            0
        };
        proof {
            assert(p[i as int] == if i < f@.len() {
                f@[i as int]
            } else {
                48u8
            });
            lemma_digits_value_step(p, i as int);
            lemma_ten_pow_le((i + 1) as nat, 6);
            assert(ten_pow(6) == 1000000) by {
                reveal_with_fuel(ten_pow, 7);
            }
        }
        acc = acc * 10 + d;
        i = i + 1;
    }
    proof {
        assert(p.take(6) =~= p);
        assert(ten_pow(6) == 1000000) by {
            reveal_with_fuel(ten_pow, 7);
        }
    }
    acc
}

/// Parses a signed decimal field into fixed-point millionths: an optional
/// sign, digits, and at most one dot, with at least one digit somewhere.
/// Digits beyond the sixth fractional place are dropped. Returns the value
/// exactly when the field is well formed and its magnitude fits.
pub fn parse_scaled(s: &[u8]) -> (r: Option<i64>)
    ensures
        r is Some <==> scaled_ok(s@),
        r is Some ==> r->0 == scaled_value(s@),
{
    let (neg, body): (bool, &[u8]) = if s.len() >= 1 && (s[0] == PLUS || s[0] == MINUS) {
        (s[0] == MINUS, vstd::slice::slice_subrange(s, 1, s.len()))
    } else {
        (false, s)
    };
    proof {
        assert(body@ == decimal_body(s@));
        assert(neg == decimal_negative(s@));
    }
    let parts = split_fields(body, DOT);
    proof {
        assert(views(parts@) == spec_split(body@, DOT));
        assert(parts@.len() >= 1);
        assert(parts@[0]@ == spec_split(body@, DOT)[0]);
    }
    if parts.len() > 2 {
        return None;
    }
    let ip: &Vec<u8> = &parts[0];
    let ip_val: u64 = match parse_u64(ip.as_slice()) {
        Some(v) => v,
        None => {
            if ip.len() == 0 {
                proof {
                    assert(digits_value(spec_split(body@, DOT)[0]) == 0);
                }
                0
            } else {
                proof {
                    if decimal_body_ok(body@) {
                        let parts = spec_split(body@, DOT);
                        lemma_digits_value_nonneg(parts[0]);
                        if parts.len() == 2 {
                            assert(all_digits(pad6(parts[1])));
                            lemma_digits_value_nonneg(pad6(parts[1]));
                        }
                        assert(digits_value(ip@) > u64::MAX);
                        assert(digits_value(ip@) * 1000000 >= digits_value(ip@)) by (nonlinear_arith)
                            requires
                                digits_value(ip@) >= 0,
                        ;
                        assert(!scaled_ok(s@));
                    }
                }
                return None;
            }
        },
    };
    let f6: u64 = if parts.len() == 2 {
        let fp: &Vec<u8> = &parts[1];
        proof {
            assert(fp@ == spec_split(body@, DOT)[1]);
        }
        let mut k: usize = 0;
        let mut digits_ok = true;
        while k < fp.len()
            invariant
                0 <= k <= fp@.len(),
                digits_ok,
                forall|j: int| 0 <= j < k ==> is_digit(#[trigger] fp@[j]),
                spec_split(body@, DOT).len() == 2,
                fp@ == spec_split(body@, DOT)[1],
                body@ == decimal_body(s@),
            decreases fp@.len() - k,
        {
            let c = fp[k];
            if c < 48 || c > 57 {
                proof {
                    assert(!is_digit(fp@[k as int]));
                    assert(!all_digits(spec_split(body@, DOT)[1]));
                    assert(!decimal_body_ok(body@));
                }
                return None;
            }
            k = k + 1;
        }
        if ip.len() == 0 && fp.len() == 0 {
            return None;
        }
        frac6_of(fp.as_slice())
    } else {
        if ip.len() == 0 {
            return None;
        }
        0
    };
    proof {
        assert(decimal_body_ok(body@));
        assert(decimal_body_value(body@) == ip_val * 1000000 + f6);
        lemma_digits_value_nonneg(spec_split(body@, DOT)[0]);
    }
    // magnitude bound: ip_val * 1000000 + f6 <= i64::MAX
    let limit: u64 = 9223372036854775807;
    if ip_val > (limit - f6) / 1000000 {
        proof {
            let lim = ((limit - f6) / 1000000) as int;
            vstd::arithmetic::div_mod::lemma_fundamental_div_mod((limit - f6) as int, 1000000);
            vstd::arithmetic::div_mod::lemma_mod_division_less_than_divisor(
                (limit - f6) as int,
                1000000,
            );
            assert(ip_val as int * 1000000 >= (lim + 1) * 1000000) by (nonlinear_arith)
                requires
                    ip_val as int >= lim + 1,
            ;
            assert((lim + 1) * 1000000 > limit - f6);
        }
        return None;
    }
    proof {
        let lim = ((limit - f6) / 1000000) as int;
        vstd::arithmetic::div_mod::lemma_fundamental_div_mod((limit - f6) as int, 1000000);
        vstd::arithmetic::div_mod::lemma_mod_division_less_than_divisor(
            (limit - f6) as int,
            1000000,
        );
        assert(ip_val as int * 1000000 <= lim * 1000000) by (nonlinear_arith)
            requires
                0 <= ip_val as int <= lim,
        ;
        assert(lim * 1000000 <= limit - f6);
    }
    let mag: u64 = ip_val * 1000000 + f6;
    let v: i64 = mag as i64;
    if neg {
        Some(0i64 - v)
    } else {
        Some(v)
    }
}

} // verus!
