//! Order-preserving keys for signed integer items.
//!
//! The compactor orders `u64` keys. A signed item is shifted up by `2^63`,
//! which maps `i64` onto `u64` one to one and keeps the order.

use vstd::prelude::*;

verus! {

/// The offset between an `i64` item and its key: `2^63`.
pub open spec fn key_offset() -> int {
    0x8000_0000_0000_0000
}

/// The key of an `i64` item.
pub open spec fn i64_key_of(x: i64) -> u64 {
    (x + key_offset()) as u64
}

/// Returns the key of an `i64` item: the item plus `2^63`.
pub fn i64_key(x: i64) -> (k: u64)
    ensures
        k == x + key_offset(),
        k == i64_key_of(x),
{
    if x < 0 {
        (x - i64::MIN) as u64
    } else {
        (x as u64) + 0x8000_0000_0000_0000u64
    }
}

/// Returns the `i64` item whose key is `k`: the key minus `2^63`.
pub fn i64_from_key(k: u64) -> (x: i64)
    ensures
        x == k - key_offset(),
{
    if k >= 0x8000_0000_0000_0000u64 {
        (k - 0x8000_0000_0000_0000u64) as i64
    } else {
        (k as i64) + i64::MIN
    }
}

/// Keys order as their items do, and an item is found again from its key.
pub proof fn lemma_i64_key_order(x: i64, y: i64)
    ensures
        x < y <==> i64_key_of(x) < i64_key_of(y),
        x == y <==> i64_key_of(x) == i64_key_of(y),
        i64_key_of(x) - key_offset() == x,
{
}

} // verus!
