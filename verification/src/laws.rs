//! Laws of the jump consistent hash, proved of the model.
//!
//! The executable functions in `hash` return exactly `jump_index`, so these
//! laws carry over to them: the result is always in range, a single bucket
//! absorbs every key, and growing the bucket count by one either leaves a
//! key's bucket unchanged or moves the key to the new bucket.

use crate::model::{
    draw_divisor, jump_from, jump_index, jump_step, lcg_next, lemma_jump_step_lower_bound,
    MAX_BUCKETS,
};
use vstd::prelude::*;

verus! {

/// The jump loop never leaves `[candidate, buckets)`: it starts at
/// `candidate` and only ever jumps to targets below `buckets`.
pub proof fn lemma_jump_from_range(state: u64, candidate: nat, buckets: nat)
    requires
        candidate < buckets,
        buckets <= MAX_BUCKETS,
    ensures
        candidate <= jump_from(state, candidate, buckets) < buckets,
    decreases buckets - candidate,
{
    let advanced: u64 = lcg_next(state);
    let next: nat = jump_step(candidate + 1, draw_divisor(advanced));
    lemma_jump_step_lower_bound(candidate + 1, draw_divisor(advanced));
    if next < buckets {
        lemma_jump_from_range(advanced, next, buckets);
    }
}

/// Growing the bucket count by one changes the jump loop's result only by
/// sending it to the new bucket: the runs for `buckets` and `buckets + 1`
/// agree step for step until a jump target hits exactly `buckets`, and from
/// there the larger run can only end in the new bucket.
pub proof fn lemma_jump_from_growth(state: u64, candidate: nat, buckets: nat)
    requires
        candidate < buckets,
        buckets + 1 <= MAX_BUCKETS,
    ensures
        jump_from(state, candidate, buckets + 1) == jump_from(state, candidate, buckets)
            || jump_from(state, candidate, buckets + 1) == buckets,
    decreases buckets - candidate,
{
    let advanced: u64 = lcg_next(state);
    let next: nat = jump_step(candidate + 1, draw_divisor(advanced));
    lemma_jump_step_lower_bound(candidate + 1, draw_divisor(advanced));
    if next < buckets {
        lemma_jump_from_growth(advanced, next, buckets);
    } else if next == buckets {
        lemma_jump_from_range(advanced, buckets, buckets + 1);
    }
}

/// Law: the bucket index is always in range.  For every key and every bucket
/// count of at least one, `0 <= jump_index(key, buckets) < buckets`.
pub proof fn lemma_range(key: i64, buckets: int)
    requires
        1 <= buckets <= MAX_BUCKETS,
    ensures
        0 <= jump_index(key, buckets) < buckets,
{
    lemma_jump_from_range(key as u64, 0, buckets as nat);
}

/// Law: with a single bucket, every key maps to bucket 0.
pub proof fn lemma_single_bucket(key: i64)
    ensures
        jump_index(key, 1) == 0,
{
    lemma_jump_from_range(key as u64, 0, 1);
}

/// Law (consistency under growth): adding one bucket either leaves a key's
/// bucket unchanged or moves the key into the new bucket.  No key ever moves
/// between two old buckets when the cluster grows.
pub proof fn lemma_growth_stability(key: i64, buckets: int)
    requires
        1 <= buckets,
        buckets + 1 <= MAX_BUCKETS,
    ensures
        jump_index(key, buckets + 1) == jump_index(key, buckets) || jump_index(key, buckets + 1)
            == buckets,
{
    lemma_jump_from_growth(key as u64, 0, buckets as nat);
}

} // verus!
