//! Mathematical model of the jump consistent hash.
//!
//! The executable code in `hash` is proved to return exactly
//! `jump_index(key, buckets)`.  The model mirrors the classic formulation of
//! the algorithm: a 64-bit linear congruential generator drives a sequence of
//! candidate bucket indices, and each step is the truncation of an IEEE-754
//! double division.  That division is modelled exactly by `jump_step`:
//! rounding the true rational quotient to 53 significant bits, to the
//! nearest, ties to even, then truncating toward zero.

use vstd::arithmetic::div_mod::{
    lemma_div_by_multiple, lemma_div_denominator, lemma_div_is_ordered,
    lemma_div_is_ordered_by_denominator, lemma_fundamental_div_mod,
};
use vstd::arithmetic::mul::{lemma_mul_inequality, lemma_mul_is_commutative};
use vstd::arithmetic::power2::{
    lemma2_to64, lemma_pow2_adds, lemma_pow2_pos, lemma_pow2_strictly_increases,
    lemma_pow2_unfold, pow2,
};
use vstd::prelude::*;

verus! {

/// Multiplier of the 64-bit linear congruential generator.  An odd constant,
/// so the recurrence `state * LCG_MULTIPLIER + 1` has full period modulo 2^64.
pub const LCG_MULTIPLIER: u64 = 2862933555777941757;

/// 2^31: scale of the fractional draw.  One generator draw yields a fraction
/// `d / 2^31` with `d` in `[1, 2^31]`, so the fraction lies in `(0, 1]`.
pub const FRACTION_SCALE: u64 = 0x8000_0000;

/// Largest admissible bucket count: `i32::MAX`.
pub const MAX_BUCKETS: u64 = 0x7fff_ffff;

/// One advance of the linear congruential generator, with wraparound
/// (arithmetic modulo 2^64).
pub open spec fn lcg_next(state: u64) -> u64 {
    ((LCG_MULTIPLIER * state + 1) % 0x1_0000_0000_0000_0000) as u64
}

/// The divisor drawn from a generator state: the top 31 bits of `state`
/// plus one, an integer in `[1, 2^31]`.  The fractional value that drives a
/// jump step is `draw_divisor(state) / 2^31`, which lies in `(0, 1]`.
pub open spec fn draw_divisor(state: u64) -> nat {
    (state / 0x2_0000_0000 + 1) as nat
}

/// Floor of the base-2 logarithm.
pub open spec fn log2(n: nat) -> nat
    decreases n,
{
    if n <= 1 {
        0
    } else {
        1 + log2(n / 2)
    }
}

/// `n / d` rounded to the nearest integer, ties to even.
pub open spec fn rne_quotient(n: nat, d: nat) -> nat
    recommends
        d >= 1,
{
    let q: nat = n / d;
    let r: nat = n % d;
    if 2 * r > d || (2 * r == d && q % 2 == 1) {
        q + 1
    } else {
        q
    }
}

/// The jump target: the exact value of the IEEE-754 double computation
/// `trunc(a / (d / 2^31))` for integers `1 <= a < 2^31` and `1 <= d <= 2^31`.
///
/// Both operands of the division are exact doubles (`a` is a small integer;
/// `d / 2^31` divides an integer below 2^53 by a power of two), so the only
/// rounding is in the division itself: the true quotient `a * 2^31 / d` is
/// rounded to 53 significant bits, to the nearest, ties to even, and then
/// truncated toward zero.  With `e` the floor of the base-2 logarithm of the
/// quotient, the rounding keeps 52 binary digits after the leading one, that
/// is, it rounds to a multiple of `2^(e - 52)`.  (Taking `e` from the integer
/// part of the quotient is sound: a real at least 1 and its integer part have
/// their leading bit at the same position.)
pub open spec fn jump_step(a: nat, d: nat) -> nat
    recommends
        1 <= a < 0x8000_0000,
        1 <= d <= 0x8000_0000,
{
    let scaled: nat = a * 0x8000_0000;
    let e: nat = log2(scaled / d);
    if e <= 52 {
        let unit: nat = pow2((52 - e) as nat);
        rne_quotient(scaled * unit, d) / unit
    } else {
        let unit: nat = pow2((e - 52) as nat);
        rne_quotient(scaled, d * unit) * unit
    }
}

/// The result of running the jump loop from a generator state and a current
/// candidate index: advance the generator, compute the jump target, and keep
/// jumping while the target stays below the bucket count; the last candidate
/// that stayed below is the result.
pub open spec fn jump_from(state: u64, candidate: nat, buckets: nat) -> nat
    recommends
        candidate < buckets,
        buckets <= MAX_BUCKETS,
    decreases buckets - candidate,
        when candidate < buckets && buckets <= MAX_BUCKETS
        via jump_from_decreases
{
    let advanced: u64 = lcg_next(state);
    let next: nat = jump_step(candidate + 1, draw_divisor(advanced));
    if next < buckets {
        jump_from(advanced, next, buckets)
    } else {
        candidate
    }
}

#[via_fn]
proof fn jump_from_decreases(state: u64, candidate: nat, buckets: nat) {
    let advanced: u64 = lcg_next(state);
    lemma_jump_step_lower_bound(candidate + 1, draw_divisor(advanced));
}

/// The bucket index assigned to `key` among `buckets` buckets: the jump loop
/// run from the key as the generator seed, starting at candidate 0.
pub open spec fn jump_index(key: i64, buckets: int) -> int
    recommends
        1 <= buckets <= MAX_BUCKETS,
{
    jump_from(key as u64, 0, buckets as nat) as int
}

/// `pow2(log2(n))` and `pow2(log2(n) + 1)` bracket any positive `n`.
pub proof fn lemma_log2_bounds(n: nat)
    requires
        n >= 1,
    ensures
        pow2(log2(n)) <= n < pow2(log2(n) + 1),
    decreases n,
{
    lemma2_to64();
    if n <= 1 {
        assert(pow2(0) == 1 && pow2(1) == 2);
    } else {
        lemma_log2_bounds(n / 2);
        let e: nat = log2(n / 2);
        lemma_pow2_unfold(e + 1);
        lemma_pow2_unfold(e + 2);
        assert(pow2(e) <= n / 2 < pow2(e + 1));
        assert(n >= 2 * (n / 2) >= 2 * pow2(e));
        assert(n <= 2 * (n / 2) + 1 < 2 * pow2(e + 1));
    }
}

/// The first quotient of a jump step is at least `a`: scaling `a` by 2^31 and
/// dividing by at most 2^31 cannot fall below `a`.
pub proof fn lemma_scaled_quotient_lower_bound(a: nat, d: nat)
    requires
        1 <= d <= 0x8000_0000,
    ensures
        a * 0x8000_0000 / d >= a,
{
    let scaled: nat = a * 0x8000_0000;
    lemma_div_is_ordered_by_denominator(scaled as int, d as int, 0x8000_0000);
    lemma_div_by_multiple(a as int, 0x8000_0000);
    assert(scaled / 0x8000_0000 == a);
}

/// A jump step never falls behind: the target is at least `a`, the candidate
/// being jumped from plus one.  So each executed jump strictly increases the
/// candidate, which bounds the loop.
pub proof fn lemma_jump_step_lower_bound(a: nat, d: nat)
    requires
        1 <= a <= 0x8000_0000,
        1 <= d <= 0x8000_0000,
    ensures
        jump_step(a, d) >= a,
{
    let scaled: nat = a * 0x8000_0000;
    let q0: nat = scaled / d;
    let e: nat = log2(q0);
    lemma_scaled_quotient_lower_bound(a, d);
    assert(q0 >= a >= 1);
    lemma_log2_bounds(q0);
    if e <= 52 {
        let unit: nat = pow2((52 - e) as nat);
        lemma_pow2_pos((52 - e) as nat);
        let m: nat = rne_quotient(scaled * unit, d);
        // scaled >= q0 * d, hence scaled * unit >= (q0 * unit) * d,
        // hence m >= floor(scaled * unit / d) >= q0 * unit.
        lemma_fundamental_div_mod(scaled as int, d as int);
        assert(scaled >= q0 * d) by {
            lemma_mul_is_commutative(d as int, q0 as int);
        }
        assert(scaled * unit >= (q0 * unit) * d) by (nonlinear_arith)
            requires
                scaled >= q0 * d,
                unit >= 1,
        ;
        lemma_div_is_ordered((q0 * unit * d) as int, (scaled * unit) as int, d as int);
        lemma_div_by_multiple((q0 * unit) as int, d as int);
        assert(scaled * unit / d >= q0 * unit);
        assert(m >= q0 * unit);
        lemma_div_is_ordered((q0 * unit) as int, m as int, unit as int);
        lemma_div_by_multiple(q0 as int, unit as int);
        assert(m / unit >= q0);
    } else {
        let unit: nat = pow2((e - 52) as nat);
        lemma_pow2_pos((e - 52) as nat);
        let m: nat = rne_quotient(scaled, d * unit);
        // q0 >= pow2(e) = pow2(52) * unit, so scaled / (d * unit) >= pow2(52),
        // so the result m * unit is at least pow2(52) * unit = pow2(e) >= 2^53,
        // far above a <= 2^31.
        lemma_pow2_adds(52, (e - 52) as nat);
        assert(pow2(e) == pow2(52) * unit);
        lemma_div_denominator(scaled as int, d as int, unit as int);
        assert(scaled / (d * unit) == q0 / unit);
        lemma_div_is_ordered((pow2(52) * unit) as int, q0 as int, unit as int);
        lemma_div_by_multiple(pow2(52) as int, unit as int);
        assert(q0 / unit >= pow2(52));
        assert(m >= pow2(52));
        lemma_mul_inequality(pow2(52) as int, m as int, unit as int);
        assert(m * unit >= pow2(52) * unit);
        lemma_pow2_strictly_increases(31, e);
        lemma2_to64();
        assert(pow2(31) == 0x8000_0000);
        assert(m * unit >= pow2(e) > 0x8000_0000 >= a);
    }
}

} // verus!
