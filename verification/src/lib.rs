//! Jump consistent hashing: a pure mapping from a 64-bit key and a bucket
//! count to a bucket index in `[0, buckets)`.
//!
//! The algorithm advances a 64-bit linear congruential generator seeded by the
//! key and repeatedly "jumps" the candidate index forward; it stops at the
//! last candidate that stays below the bucket count.  Growing the bucket count
//! by one either leaves a key's bucket unchanged or moves the key into the new
//! bucket, which is the defining consistency property of the scheme.
//!
//! The classic formulation of the jump step divides by an IEEE-754 double.
//! Here that step is computed exactly in integer arithmetic: the double
//! division rounds its true rational result to 53 significant bits, to the
//! nearest, ties to even, and `model::jump_step` states that rounding
//! precisely, so results are bit-for-bit those of the floating-point
//! formulation.

pub mod hash;
pub mod laws;
pub mod model;
