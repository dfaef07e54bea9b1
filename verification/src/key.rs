//! Sample keys for values that come as IEEE 754 binary64 bit patterns.
//!
//! The aggregators of this library order and compare samples as `i64`. A
//! value that is only partially ordered by its own comparison is fed to them
//! through a key: an `i64` that stands for its bit pattern, chosen so that
//! the order of the keys is one fixed total order of the bit patterns.
//! Patterns with the sign bit clear come in the order of their magnitude;
//! those with the sign bit set come before all of them, in the opposite order
//! of their magnitude. So negative zero comes just before positive zero, and
//! the patterns that are not numbers stand at the two far ends.

use vstd::prelude::*;

verus! {

/// The bit pattern that has the sign bit alone.
pub const SIGN_BIT: u64 = 0x8000_0000_0000_0000;

/// The key that stands for the bit pattern `bits`.
pub open spec fn key_of(bits: u64) -> i64 {
    if bits < SIGN_BIT {
        bits as i64
    } else {
        (SIGN_BIT - bits - 1) as i64
    }
}

/// The bit pattern that the key `key` stands for.
pub open spec fn bits_of(key: i64) -> u64 {
    if key >= 0 {
        key as u64
    } else {
        (SIGN_BIT - key - 1) as u64
    }
}

/// The total order of bit patterns that the keys follow: `a` comes strictly
/// before `b`.
pub open spec fn precedes(a: u64, b: u64) -> bool {
    if a >= SIGN_BIT && b >= SIGN_BIT {
        a > b
    } else if a >= SIGN_BIT {
        true
    } else if b >= SIGN_BIT {
        false
    } else {
        a < b
    }
}

/// Computes the key of a bit pattern.
pub fn key_from_bits(bits: u64) -> (key: i64)
    ensures
        key == key_of(bits),
        bits_of(key) == bits,
{
    if bits < SIGN_BIT {
        bits as i64
    } else {
        let magnitude: u64 = bits - SIGN_BIT;
        -1 - (magnitude as i64)
    }
}

/// Computes the bit pattern that a key stands for.
pub fn bits_from_key(key: i64) -> (bits: u64)
    ensures
        bits == bits_of(key),
        key_of(bits) == key,
{
    if key >= 0 {
        key as u64
    } else {
        let magnitude: u64 = (-1 - key) as u64;
        magnitude + SIGN_BIT
    }
}

/// Keys and bit patterns correspond one to one.
pub proof fn lemma_key_round_trip(bits: u64, key: i64)
    ensures
        bits_of(key_of(bits)) == bits,
        key_of(bits_of(key)) == key,
{
}

/// The keys stand in the order of the bit patterns they stand for.
pub proof fn lemma_key_order(a: u64, b: u64)
    ensures
        key_of(a) < key_of(b) <==> precedes(a, b),
        key_of(a) == key_of(b) <==> a == b,
{
}

} // verus!
