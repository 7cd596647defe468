//! Q16.16 fixed-point logarithms.
//!
//! Scores are integers that stand for real numbers scaled by 2^16.  The
//! base-2 logarithm of an integer `m >= 1` is approximated as
//! `floor(log2 m) + (m - 2^k) / 2^k` with `k = floor(log2 m)`: the exact
//! integer part plus a linear interpolation across the octave, carried in
//! 16 fractional bits.  The natural logarithm is that value scaled by
//! `ln 2`.  Both are exact functions of their argument, stated by
//! `spec_log2_q16` and `spec_ln_q16` and computed by `log2_q16` and
//! `ln_q16`.
use vstd::prelude::*;
use vstd::arithmetic::power2::pow2;
use vstd::arithmetic::power2::lemma_pow2_pos;
use vstd::arithmetic::power2::lemma_pow2_strictly_increases;
use vstd::arithmetic::div_mod::lemma_fundamental_div_mod;
use vstd::arithmetic::div_mod::lemma_div_is_ordered;
use vstd::arithmetic::mul::lemma_mul_inequality;

verus! {

/// `ln 2` in Q16.16 (`0.693147... * 65536`, rounded down).
pub const LN2_Q16: u64 = 45426;

/// The integer part of the base-2 logarithm; 0 for arguments below 2.
pub open spec fn floor_log2(m: nat) -> nat
    decreases m,
{
    if m <= 1 {
        0
    } else {
        (1 + floor_log2(m / 2)) as nat
    }
}

/// Base-2 logarithm in Q16.16: exact integer part, linear interpolation
/// within the octave.
pub open spec fn spec_log2_q16(m: nat) -> nat {
    let k = floor_log2(m);
    (k * 65536 + ((m - pow2(k)) * 65536) / (pow2(k) as int)) as nat
}

/// Natural logarithm in Q16.16, as base-2 logarithm times `ln 2`.
pub open spec fn spec_ln_q16(m: nat) -> nat {
    (spec_log2_q16(m) * (LN2_Q16 as nat)) / 65536
}

/// If `x < c * d` then `x / d < c`.
pub proof fn lemma_div_below(x: int, d: int, c: int)
    requires
        d > 0,
        0 <= x,
        x < c * d,
    ensures
        x / d < c,
{
    lemma_fundamental_div_mod(x, d);
    if x / d >= c {
        lemma_mul_inequality(c, x / d, d);
        vstd::arithmetic::mul::lemma_mul_is_commutative(d, x / d);
        assert(d * (x / d) <= x);
        assert(c * d <= (x / d) * d);
        assert(false);
    }
}

/// `2^112`, from the tabulated powers.
proof fn lemma_pow2_112()
    ensures
        pow2(112) == 0x10000000000000000000000000000,
{
    vstd::arithmetic::power2::lemma_pow2_adds(64, 48);
    vstd::arithmetic::power2::lemma2_to64();
    vstd::arithmetic::power2::lemma2_to64_rest();
}

/// `floor_log2` is characterized by bracketing powers of two.
proof fn lemma_floor_log2_agrees(m: nat, k: nat)
    requires
        m >= 1,
        pow2(k) <= m,
        m < pow2(k + 1),
    ensures
        floor_log2(m) == k,
    decreases k,
{
    lemma_pow2_pos(k);
    if k == 0 {
        assert(pow2(1) == 2) by {
            vstd::arithmetic::power2::lemma2_to64();
        }
    } else {
        assert(pow2(k) == 2 * pow2((k - 1) as nat)) by {
            vstd::arithmetic::power2::lemma_pow2_unfold(k);
        }
        assert(pow2(k + 1) == 2 * pow2(k)) by {
            vstd::arithmetic::power2::lemma_pow2_unfold(k + 1);
        }
        assert(m >= 2);
        assert(pow2((k - 1) as nat) <= m / 2) by {
            assert(2 * pow2((k - 1) as nat) <= m);
        }
        assert(m / 2 < pow2(k)) by {
            assert(m < 2 * pow2(k));
        }
        lemma_floor_log2_agrees(m / 2, (k - 1) as nat);
    }
}

/// The fractional part of `spec_log2_q16` stays below one.
proof fn lemma_log2_frac_below(m: nat, k: nat)
    requires
        pow2(k) <= m,
        m < pow2(k + 1),
    ensures
        ((m - pow2(k)) * 65536) / (pow2(k) as int) < 65536,
{
    lemma_pow2_pos(k);
    assert(pow2(k + 1) == 2 * pow2(k)) by {
        vstd::arithmetic::power2::lemma_pow2_unfold(k + 1);
    }
    assert((m - pow2(k)) * 65536 < 65536 * (pow2(k) as int)) by {
        lemma_mul_inequality(m - pow2(k) + 1, pow2(k) as int, 65536);
        assert((m - pow2(k)) * 65536 + 65536 == (m - pow2(k) + 1) * 65536) by {
            vstd::arithmetic::mul::lemma_mul_is_distributive_add_other_way(
                65536,
                m - pow2(k),
                1,
            );
        }
        assert((m - pow2(k) + 1) * 65536 == 65536 * (m - pow2(k) + 1)) by {
            vstd::arithmetic::mul::lemma_mul_is_commutative(m - pow2(k) + 1, 65536);
        }
        assert(65536 * (m - pow2(k) + 1) <= 65536 * (pow2(k) as int)) by {
            vstd::arithmetic::mul::lemma_mul_inequality(
                m - pow2(k) + 1,
                pow2(k) as int,
                65536,
            );
            vstd::arithmetic::mul::lemma_mul_is_commutative(m - pow2(k) + 1, 65536);
            vstd::arithmetic::mul::lemma_mul_is_commutative(pow2(k) as int, 65536);
        }
    }
    lemma_div_below((m - pow2(k)) * 65536, pow2(k) as int, 65536);
}

/// Every positive argument lies in the octave of its `floor_log2`.
pub proof fn lemma_floor_log2_bracket(m: nat)
    requires
        m >= 1,
    ensures
        pow2(floor_log2(m)) <= m,
        m < pow2(floor_log2(m) + 1),
    decreases m,
{
    if m <= 1 {
        assert(pow2(0) == 1 && pow2(1) == 2) by {
            vstd::arithmetic::power2::lemma2_to64();
        }
    } else {
        lemma_floor_log2_bracket(m / 2);
        let k = floor_log2(m / 2);
        assert(floor_log2(m) == k + 1);
        assert(pow2(k + 1) == 2 * pow2(k)) by {
            vstd::arithmetic::power2::lemma_pow2_unfold(k + 1);
        }
        assert(pow2(k + 2) == 2 * pow2(k + 1)) by {
            vstd::arithmetic::power2::lemma_pow2_unfold(k + 2);
        }
        lemma_fundamental_div_mod(m as int, 2);
    }
}

/// Base-2 logarithm in Q16.16 of a positive integer.
pub fn log2_q16(m: u128) -> (r: u64)
    requires
        1 <= m,
        m < 0x10000000000000000000000000000,  // 2^112: headroom for the scaled interpolation
    ensures
        r == spec_log2_q16(m as nat),
        r < 0x70_0000,  // below 112 whole units
{
    let mut k: u32 = 0;
    let mut p: u128 = 1;
    proof {
        assert(pow2(0) == 1) by {
            vstd::arithmetic::power2::lemma2_to64();
        }
    }
    while p * 2 <= m
        invariant
            m < 0x10000000000000000000000000000,
            p == pow2(k as nat),
            1 <= p <= m,
            k <= 112,
        decreases m - p,
    {
        proof {
            assert(pow2(k as nat + 1) == 2 * pow2(k as nat)) by {
                vstd::arithmetic::power2::lemma_pow2_unfold(k as nat + 1);
            }
            lemma_pow2_112();
            if k as nat + 1 > 112 {
                lemma_pow2_strictly_increases(112, k as nat + 1);
            }
            assert(pow2(k as nat + 1) <= m);
        }
        p = p * 2;
        k = k + 1;
    }
    proof {
        assert(pow2(k as nat + 1) == 2 * pow2(k as nat)) by {
            vstd::arithmetic::power2::lemma_pow2_unfold(k as nat + 1);
        }
        lemma_floor_log2_agrees(m as nat, k as nat);
        lemma_log2_frac_below(m as nat, k as nat);
        lemma_pow2_pos(k as nat);
        assert((m - p) * 65536 <= 0xFFFFFFFFFFFFFFFFFFFFFFFFFFFF * 65536) by {
            lemma_mul_inequality(m as int - p, 0xFFFFFFFFFFFFFFFFFFFFFFFFFFFF, 65536);
            vstd::arithmetic::mul::lemma_mul_is_commutative(m as int - p, 65536);
            vstd::arithmetic::mul::lemma_mul_is_commutative(0xFFFFFFFFFFFFFFFFFFFFFFFFFFFF, 65536);
        }
    }
    let frac: u128 = ((m - p) * 65536) / p;
    let r: u64 = (k as u64) * 65536 + (frac as u64);
    proof {
        assert(k < 112) by {
            lemma_pow2_112();
            if k >= 112 {
                lemma_pow2_strictly_increases(112, k as nat + 1);
            }
        }
    }
    r
}

/// Natural logarithm in Q16.16 of a positive integer.
pub fn ln_q16(m: u128) -> (r: u64)
    requires
        1 <= m,
        m < 0x10000000000000000000000000000,
    ensures
        r == spec_ln_q16(m as nat),
        r < 0x70_0000,
{
    let l = log2_q16(m);
    let r: u64 = (l * LN2_Q16) / 65536;
    proof {
        lemma_div_is_ordered(
            (l * LN2_Q16) as int,
            (l * 65536) as int,
            65536,
        );
        lemma_mul_inequality(LN2_Q16 as int, 65536, l as int);
        vstd::arithmetic::mul::lemma_mul_is_commutative(LN2_Q16 as int, l as int);
        vstd::arithmetic::mul::lemma_mul_is_commutative(65536, l as int);
        assert((l * 65536) / 65536 == l) by {
            vstd::arithmetic::div_mod::lemma_div_by_multiple(l as int, 65536);
        }
    }
    r
}

} // verus!
