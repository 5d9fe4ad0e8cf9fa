use guavahash::hash::{guava_hash, jump_hash, JumpHashError};

/// The classic floating-point formulation of the jump consistent hash: the
/// jump target is the IEEE-754 double quotient of `candidate + 1` by a draw
/// in `(0.0, 1.0]`, truncated toward zero.  The library computes this value
/// in exact integer arithmetic; the tests here hold the two against each
/// other, bit for bit.
fn reference_jump(key: i64, buckets: i32) -> i32 {
    let mut state: u64 = key as u64;
    let mut candidate: i64 = 0;
    loop {
        state = state.wrapping_mul(2862933555777941757).wrapping_add(1);
        let next_double: f64 = (((state >> 33) + 1) as f64) / 2147483648.0;
        let next: i64 = ((candidate + 1) as f64 / next_double) as i64;
        if next >= 0 && next < buckets as i64 {
            candidate = next;
        } else {
            return candidate as i32;
        }
    }
}

/// A simple pseudo-random walk over 64-bit keys for the sampling tests.
fn scramble(k: u64) -> u64 {
    k.wrapping_mul(6364136223846793005).wrapping_add(1442695040888963407)
}

#[test]
fn known_vectors() {
    assert_eq!(guava_hash(0, 1), 0);
    assert_eq!(guava_hash(1, 1), 0);
    assert_eq!(guava_hash(42, 1), 0);
    assert_eq!(guava_hash(1, 2), 0);
    assert_eq!(guava_hash(2, 2), 0);
    assert_eq!(guava_hash(-7, 2), 1);
    assert_eq!(guava_hash(1000, 3), 0);
    assert_eq!(guava_hash(-42, 7), 5);
    assert_eq!(guava_hash(42, 10), 2);
    assert_eq!(guava_hash(-5, 11), 5);
    assert_eq!(guava_hash(9223372036854775807, 97), 84);
    assert_eq!(guava_hash(-9223372036854775808, 100), 84);
    assert_eq!(guava_hash(-1, 1000), 313);
    assert_eq!(guava_hash(123456789, 1000), 294);
    assert_eq!(guava_hash(0, 1024), 0);
    assert_eq!(guava_hash(864958, 5000), 2090);
    assert_eq!(guava_hash(7, 2147483647), 1388389443);
}

#[test]
fn known_vectors_through_jump_hash() {
    assert_eq!(jump_hash(0, 1), Ok(0));
    assert_eq!(jump_hash(42, 10), Ok(2));
    assert_eq!(jump_hash(-1, 1000), Ok(313));
    assert_eq!(jump_hash(7, 2147483647), Ok(1388389443));
}

#[test]
fn matches_floating_point_reference() {
    let bucket_counts: [i32; 8] = [1, 2, 3, 10, 97, 1000, 65536, 2147483647];
    let mut key: u64 = 0;
    for _ in 0..2000 {
        key = scramble(key);
        let k = key as i64;
        for &b in bucket_counts.iter() {
            assert_eq!(guava_hash(k, b), reference_jump(k, b), "key {} buckets {}", k, b);
        }
    }
    // Keys at the edges of the 64-bit range.
    for &k in [i64::MIN, i64::MIN + 1, -2, -1, 0, 1, 2, i64::MAX - 1, i64::MAX].iter() {
        for &b in bucket_counts.iter() {
            assert_eq!(guava_hash(k, b), reference_jump(k, b), "key {} buckets {}", k, b);
        }
    }
}

#[test]
fn deterministic() {
    let mut key: u64 = 7;
    for _ in 0..500 {
        key = scramble(key);
        let k = key as i64;
        assert_eq!(guava_hash(k, 123), guava_hash(k, 123));
        assert_eq!(jump_hash(k, 10007), jump_hash(k, 10007));
    }
}

#[test]
fn always_in_range() {
    let bucket_counts: [i32; 7] = [1, 2, 5, 64, 1000, 123456, 2147483647];
    let mut key: u64 = 99;
    for _ in 0..1000 {
        key = scramble(key);
        let k = key as i64;
        for &b in bucket_counts.iter() {
            let r = guava_hash(k, b);
            assert!(0 <= r && r < b, "key {} buckets {} result {}", k, b, r);
        }
    }
}

#[test]
fn single_bucket_takes_every_key() {
    let mut key: u64 = 3;
    for _ in 0..1000 {
        key = scramble(key);
        assert_eq!(guava_hash(key as i64, 1), 0);
    }
    assert_eq!(guava_hash(i64::MIN, 1), 0);
    assert_eq!(guava_hash(i64::MAX, 1), 0);
}

#[test]
fn invalid_bucket_counts_are_rejected() {
    assert_eq!(jump_hash(0, 0), Err(JumpHashError::InvalidBucketCount));
    assert_eq!(jump_hash(42, 0), Err(JumpHashError::InvalidBucketCount));
    assert_eq!(jump_hash(7, -5), Err(JumpHashError::InvalidBucketCount));
    assert_eq!(jump_hash(-1, -1), Err(JumpHashError::InvalidBucketCount));
    assert_eq!(jump_hash(1, i32::MIN), Err(JumpHashError::InvalidBucketCount));
}

#[test]
fn growth_moves_keys_only_into_the_new_bucket() {
    let bucket_counts: [i32; 5] = [1, 2, 9, 100, 4096];
    let mut key: u64 = 11;
    for _ in 0..1000 {
        key = scramble(key);
        let k = key as i64;
        for &b in bucket_counts.iter() {
            let old = guava_hash(k, b);
            let new = guava_hash(k, b + 1);
            assert!(new == old || new == b, "key {} buckets {}: {} -> {}", k, b, old, new);
        }
    }
}

#[test]
fn growth_moves_about_one_in_n_plus_one() {
    // Growing from 10 to 11 buckets should move close to 1/11 of the keys.
    let mut moved: u32 = 0;
    for k in 0..20000i64 {
        if guava_hash(k, 10) != guava_hash(k, 11) {
            moved += 1;
        }
    }
    assert!(1300 <= moved && moved <= 2400, "moved {} of 20000", moved);
}

#[test]
fn distribution_is_roughly_uniform() {
    let mut counts: [u32; 10] = [0; 10];
    for k in 0..20000i64 {
        counts[guava_hash(k, 10) as usize] += 1;
    }
    for (i, &c) in counts.iter().enumerate() {
        assert!(1800 <= c && c <= 2200, "bucket {} holds {} of 20000", i, c);
    }
}
