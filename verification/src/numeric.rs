//! Small integer helpers: flooring division and a 64-bit population count,
//! each verified against a direct mathematical statement.

use vstd::arithmetic::div_mod::lemma_fundamental_div_mod;
use vstd::arithmetic::div_mod::lemma_fundamental_div_mod_converse;
use vstd::prelude::*;

verus! {

/// Whether bit `i` of `m` is set, for `0 <= i < 64`.
pub open spec fn bit_set(m: u64, i: int) -> bool {
    0 <= i < 64 && (m >> (i as u64)) & 1u64 == 1u64
}

/// Number of set bits of `m` among positions `[0, n)`.
pub open spec fn count_bits_upto(m: u64, n: int) -> int
    decreases n,
{
    if n <= 0 {
        0
    } else {
        count_bits_upto(m, n - 1) + if bit_set(m, n - 1) {
            1int
        } else {
            0int
        }
    }
}

/// The set of years a diversity mask stands for, as bit offsets.
pub open spec fn mask_bits(m: u64) -> Set<int> {
    Set::new(|i: int| bit_set(m, i))
}

/// Flooring division: the quotient rounded toward negative infinity, which is
/// what spec-level `/` means for a positive divisor.
pub fn div_floor_i64(a: i64, b: i64) -> (q: i64)
    requires
        b >= 1,
    ensures
        q == a as int / b as int,
{
    let t = a / b;
    let r = a % b;
    if a >= 0 {
        t
    } else {
        let ghost n = -(a as int);
        proof {
            lemma_fundamental_div_mod(n, b as int);
            assert(t == -(n / b as int));
            assert(r == -(n % b as int));
        }
        if r == 0 {
            proof {
                assert(a as int == b as int * t + 0) by (nonlinear_arith)
                    requires
                        a as int == -n,
                        n == b as int * (n / b as int) + n % b as int,
                        n % b as int == 0,
                        t == -(n / b as int),
                ;
                lemma_fundamental_div_mod_converse(a as int, b as int, t as int, 0);
            }
            t
        } else {
            proof {
                let qn = n / b as int;
                let rn = n % b as int;
                assert(n == b as int * qn + rn);
                assert(a as int == b as int * (-qn - 1) + (b as int - rn)) by (nonlinear_arith)
                    requires
                        a as int == -n,
                        n == b as int * qn + rn,
                ;
                lemma_fundamental_div_mod_converse(
                    a as int,
                    b as int,
                    -qn - 1,
                    b as int - rn,
                );
                assert(t - 1 == a as int / b as int);
                assert(t - 1 >= i64::MIN) by {
                    assert(b >= 2) by {
                        if b == 1 {
                            assert(n % 1int == 0) by {
                                lemma_fundamental_div_mod(n, 1int);
                            }
                        }
                    }
                    assert(n / b as int >= 0 && n / b as int <= n / 2) by {
                        lemma_fundamental_div_mod(n, b as int);
                        vstd::arithmetic::div_mod::lemma_div_is_ordered_by_denominator(n, 2, b as int);
                        vstd::arithmetic::div_mod::lemma_div_pos_is_pos(n, b as int);
                    }
                }
            }
            t - 1
        }
    }
}

/// Counts the set bits of `m`: the population count of the mask.
pub fn popcount64(m: u64) -> (r: u32)
    ensures
        r == count_bits_upto(m, 64),
        r <= 64,
{
    let mut r: u32 = 0;
    let mut i: u64 = 0;
    while i < 64
        invariant
            0 <= i <= 64,
            r == count_bits_upto(m, i as int),
            r <= i,
        decreases 64 - i,
    {
        if (m >> i) & 1u64 == 1u64 {
            r = r + 1;
        }
        i = i + 1;
    }
    r
}

} // verus!
