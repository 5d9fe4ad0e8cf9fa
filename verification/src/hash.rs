//! Executable jump consistent hashing, verified against the model.
//!
//! The jump step of the classic formulation divides by an IEEE-754 double.
//! `next_candidate` computes that step exactly in integer arithmetic: the
//! double division rounds the true rational quotient to 53 significant bits,
//! to the nearest, ties to even, and `next_candidate` reproduces that rounding
//! with wide integer division, so the results match the floating-point
//! formulation bit for bit.

use crate::model::{
    draw_divisor, jump_from, jump_index, jump_step, lcg_next, log2, rne_quotient,
    lemma_jump_step_lower_bound, lemma_log2_bounds, lemma_scaled_quotient_lower_bound,
    FRACTION_SCALE, LCG_MULTIPLIER,
};
use vstd::arithmetic::div_mod::{
    lemma_add_mod_noop, lemma_div_by_multiple, lemma_div_denominator, lemma_div_is_ordered,
    lemma_div_nonincreasing, lemma_fundamental_div_mod, lemma_mod_self_0, lemma_small_mod,
};
use vstd::arithmetic::mul::{lemma_mul_inequality, lemma_mul_upper_bound};
use vstd::arithmetic::power2::{
    lemma2_to64, lemma2_to64_rest, lemma_pow2_pos, lemma_pow2_strictly_increases,
    lemma_pow2_unfold, pow2,
};
use vstd::bits::{lemma_u64_shl_is_mul, lemma_u64_shr_is_div};
use vstd::prelude::*;

verus! {

/// The error of `jump_hash`.
#[derive(Clone, Copy, PartialEq, Eq, Structural, Debug)]
pub enum JumpHashError {
    /// The bucket count was zero or negative.
    InvalidBucketCount,
}

/// One advance of the linear congruential generator, with wraparound.
fn lcg_advance(state: u64) -> (r: u64)
    ensures
        r == lcg_next(state),
{
    let r: u64 = LCG_MULTIPLIER.wrapping_mul(state).wrapping_add(1);
    proof {
        let m: int = 0x1_0000_0000_0000_0000;
        let w: int = (LCG_MULTIPLIER * state) % m;
        lemma_add_mod_noop(LCG_MULTIPLIER * state, 1, m);
        lemma_small_mod(1, m as nat);
        if w == m - 1 {
            lemma_mod_self_0(m);
        } else {
            lemma_small_mod((w + 1) as nat, m as nat);
        }
    }
    r
}

/// Floor of the base-2 logarithm of a positive 64-bit integer.
fn floor_log2(n: u64) -> (e: u64)
    requires
        n >= 1,
    ensures
        e == log2(n as nat),
        e <= 63,
{
    proof {
        lemma2_to64();
    }
    let mut m: u64 = n;
    let mut e: u64 = 0;
    while m >= 2
        invariant
            1 <= m,
            e <= 63,
            log2(n as nat) == e + log2(m as nat),
            pow2(e as nat) * m <= n,
        decreases m,
    {
        proof {
            let p: nat = pow2(e as nat);
            let p2: nat = pow2((e + 1) as nat);
            lemma_pow2_pos((e + 1) as nat);
            lemma_pow2_unfold((e + 1) as nat);
            assert(p2 * ((m / 2) as nat) <= p * (m as nat)) by (nonlinear_arith)
                requires
                    p2 == 2 * p,
                    m >= 2,
            ;
            // e stays below 64: pow2(e + 1) fits under n, which fits in 64 bits.
            assert(p2 <= p2 * ((m / 2) as nat)) by (nonlinear_arith)
                requires
                    m >= 2,
                    p2 > 0,
            ;
            lemma2_to64();
            if e + 1 > 63 {
                lemma_pow2_strictly_increases(64, (e + 1) as nat);
                assert(false);
            }
        }
        m = m / 2;
        e = e + 1;
    }
    e
}

/// The jump target, computed exactly in integer arithmetic: returns
/// `jump_step(a, d)`, the IEEE-754 double value of `a / (d / 2^31)` truncated
/// toward zero.  The rounding of the double division is reproduced by
/// dividing `a * 2^31`, rescaled to 53 significant bits, by `d`, rounding the
/// quotient to the nearest integer with ties to even.
fn next_candidate(a: u64, d: u64) -> (r: u64)
    requires
        1 <= a < 0x8000_0000,
        1 <= d <= 0x8000_0000,
    ensures
        r == jump_step(a as nat, d as nat),
        r >= a,
{
    proof {
        lemma_scaled_quotient_lower_bound(a as nat, d as nat);
        lemma_jump_step_lower_bound(a as nat, d as nat);
    }
    let scaled: u64 = a * FRACTION_SCALE;
    let q0: u64 = scaled / d;
    let e: u64 = floor_log2(q0);
    proof {
        lemma_log2_bounds(q0 as nat);
        lemma2_to64();
        lemma2_to64_rest();
    }
    if e <= 52 {
        let shift: u64 = 52 - e;
        proof {
            if shift < 52 {
                lemma_pow2_strictly_increases(shift as nat, 52);
            }
            lemma_u64_shl_is_mul(1u64, shift);
        }
        let unit: u64 = 1u64 << shift;
        proof {
            lemma_mul_upper_bound(scaled as int, 0x4000_0000_0000_0000, unit as int, 0x10_0000_0000_0000);
        }
        let num: u128 = (scaled as u128) * (unit as u128);
        let den: u128 = d as u128;
        let q: u128 = num / den;
        proof {
            lemma_div_nonincreasing(num as int, den as int);
        }
        let rem: u128 = num % den;
        let rounded: u128 = if 2 * rem > den || (2 * rem == den && q % 2 == 1) {
            q + 1
        } else {
            q
        };
        let out: u128 = rounded / (unit as u128);
        proof {
            // rounded <= num / den + 1 <= num + 1 = scaled * unit + 1, and
            // (scaled * unit + 1) / unit <= scaled + 1, so out fits in 64 bits.
            assert(rounded <= num + 1);
            assert(num + 1 <= (scaled + 1) * unit) by (nonlinear_arith)
                requires
                    num == scaled * unit,
                    unit >= 1,
            ;
            lemma_div_is_ordered(rounded as int, (scaled + 1) * unit, unit as int);
            lemma_div_by_multiple((scaled + 1) as int, unit as int);
            assert(out <= scaled + 1);
            assert(rounded == rne_quotient(num as nat, den as nat));
        }
        out as u64
    } else {
        let shift: u64 = e - 52;
        proof {
            // e <= 61, since pow2(e) <= q0 < 2^62.
            if e >= 62 {
                if e > 62 {
                    lemma_pow2_strictly_increases(62, e as nat);
                }
                assert(false);
            }
            lemma_pow2_strictly_increases(shift as nat, 52);
            lemma_u64_shl_is_mul(1u64, shift);
        }
        let unit: u64 = 1u64 << shift;
        proof {
            // shift <= 9, so unit <= pow2(9) = 512 and d * unit fits easily.
            lemma_pow2_strictly_increases(shift as nat, 10);
            lemma_mul_upper_bound(d as int, 0x8000_0000, unit as int, 0x400);
            vstd::arithmetic::mul::lemma_mul_strictly_positive(d as int, unit as int);
        }
        let den: u64 = d * unit;
        let q: u64 = scaled / den;
        proof {
            lemma_div_nonincreasing(scaled as int, den as int);
            // q * unit <= q0: dividing by d then by unit is dividing by den.
            lemma_div_denominator(scaled as int, d as int, unit as int);
            lemma_fundamental_div_mod(q0 as int, unit as int);
            lemma_mul_inequality((q + 1) as int, (q0 / unit + 1) as int, unit as int);
            assert((q0 / unit + 1) * unit == q0 / unit * unit + unit) by (nonlinear_arith);
            assert(q0 / unit * unit + unit <= q0 + unit) by {
                lemma_fundamental_div_mod(q0 as int, unit as int);
                vstd::arithmetic::mul::lemma_mul_is_commutative(unit as int, (q0 / unit) as int);
            }
        }
        let rem: u64 = scaled % den;
        let rounded: u64 = if 2 * rem > den || (2 * rem == den && q % 2 == 1) {
            q + 1
        } else {
            q
        };
        proof {
            lemma_mul_inequality(rounded as int, (q + 1) as int, unit as int);
            assert(rounded == rne_quotient(scaled as nat, den as nat));
        }
        let out: u64 = rounded * unit;
        out
    }
}

/// The jump consistent hash of `key` over `buckets` buckets.
///
/// Returns exactly `jump_index(key, buckets)`, a pure function of the two
/// arguments: repeated calls with the same inputs return the same index.  The
/// result always lies in `[0, buckets)`.
pub fn guava_hash(key: i64, buckets: i32) -> (r: i32)
    requires
        buckets >= 1,
    ensures
        r == jump_index(key, buckets as int),
        0 <= r < buckets,
{
    let seed: u64 = #[verifier::truncate] (key as u64);
    let mut state: u64 = seed;
    let mut candidate: u64 = 0;
    loop
        invariant
            buckets >= 1,
            candidate < buckets as u64,
            seed == key as u64,
            jump_from(state, candidate as nat, buckets as nat) == jump_from(
                seed,
                0,
                buckets as nat,
            ),
        decreases buckets as int - candidate as int,
    {
        let advanced: u64 = lcg_advance(state);
        let shifted: u64 = advanced >> 33;
        proof {
            lemma_u64_shr_is_div(advanced, 33);
            lemma2_to64_rest();
            assert(shifted < 0x8000_0000) by {
                vstd::arithmetic::div_mod::lemma_multiply_divide_lt(
                    advanced as int,
                    0x2_0000_0000,
                    0x8000_0000,
                );
            }
        }
        let divisor: u64 = shifted + 1;
        proof {
            assert(divisor as nat == draw_divisor(advanced));
        }
        let next: u64 = next_candidate(candidate + 1, divisor);
        if next < buckets as u64 {
            candidate = next;
            state = advanced;
        } else {
            return candidate as i32;
        }
    }
}

/// The jump consistent hash with the bucket count validated: `Ok` with the
/// bucket index for `buckets >= 1`, and `Err(InvalidBucketCount)` for
/// `buckets <= 0`.
pub fn jump_hash(key: i64, buckets: i32) -> (r: Result<i32, JumpHashError>)
    ensures
        buckets >= 1 ==> (r matches Ok(i) && i == jump_index(key, buckets as int) && 0 <= i
            < buckets),
        buckets < 1 ==> r == Err::<i32, JumpHashError>(JumpHashError::InvalidBucketCount),
{
    if buckets < 1 {
        Err(JumpHashError::InvalidBucketCount)
    } else {
        Ok(guava_hash(key, buckets))
    }
}

} // verus!
