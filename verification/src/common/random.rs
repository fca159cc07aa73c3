//! A small xorshift64 generator used for the compaction coin flips.
//!
//! The generator state is an ordinary `u64` owned by the caller. A zero state
//! is a fixed point of xorshift64, so seeds are never zero and every step
//! keeps a non-zero state non-zero.

use std::time::Duration;
use std::time::SystemTime;
use std::time::SystemTimeError;
use std::time::UNIX_EPOCH;
use vstd::prelude::*;

verus! {

/// `std::time::SystemTime`, carried through opaquely.
#[verifier::external_type_specification]
#[verifier::external_body]
pub struct ExSystemTime(SystemTime);

/// `std::time::SystemTimeError`, carried through opaquely.
#[verifier::external_type_specification]
#[verifier::external_body]
pub struct ExSystemTimeError(SystemTimeError);

/// Reads the system clock with `SystemTime::now`. Nothing is stated of the
/// reading: it depends on the machine and the moment of the call.
#[verifier::external_body]
fn system_time_now() -> SystemTime {
    SystemTime::now()
}

/// `SystemTime::duration_since` with `UNIX_EPOCH` as the earlier time. Nothing
/// is stated of the outcome: it depends on the clock reading passed in.
#[verifier::external_body]
fn duration_since_unix_epoch(t: &SystemTime) -> Result<Duration, SystemTimeError> {
    t.duration_since(UNIX_EPOCH)
}

/// `Duration::as_nanos`. A `Duration` is opaque here, so nothing is stated of
/// the count it returns.
#[verifier::external_body]
fn duration_as_nanos(d: &Duration) -> u128 {
    d.as_nanos()
}

/// Seed used when the clock reads as zero nanoseconds past the Unix epoch.
pub const FALLBACK_SEED: u64 = 0x2545_F491_4F6C_DD1D;

/// One step of xorshift64 with shifts 13, 7 and 17.
pub open spec fn xorshift64(x: u64) -> u64 {
    let a = x ^ (x << 13u64);
    let b = a ^ (a >> 7u64);
    b ^ (b << 17u64)
}

/// The bit that a step producing `x` hands out: the top bit of `x`.
pub open spec fn top_bit(x: u64) -> bool {
    (x >> 63u64) != 0
}

/// xorshift64 maps a non-zero state to a non-zero state.
pub proof fn lemma_xorshift64_nonzero(x: u64)
    requires
        x != 0,
    ensures
        xorshift64(x) != 0,
{
    let a = x ^ (x << 13u64);
    assert(x != 0 ==> x ^ (x << 13u64) != 0) by (bit_vector);
    let b = a ^ (a >> 7u64);
    assert(a != 0 ==> a ^ (a >> 7u64) != 0) by (bit_vector);
    assert(b != 0 ==> b ^ (b << 17u64) != 0) by (bit_vector);
}

/// Turns a clock reading into a generator seed: the reading itself, or
/// `FALLBACK_SEED` when it is zero.
pub fn seed_from_nanos(nanos: u64) -> (s: u64)
    ensures
        s == (if nanos == 0 { FALLBACK_SEED } else { nanos }),
        s != 0,
{
    if nanos == 0 {
        FALLBACK_SEED
    } else {
        nanos
    }
}

/// Turns a clock reading into a generator seed. `reading` is the number of
/// nanoseconds since the Unix epoch, or `None` when the clock reads before the
/// epoch (then the count is taken as zero). The count is truncated to its low
/// 64 bits and passed through `seed_from_nanos`.
pub fn seed_from_reading(reading: Option<u128>) -> (s: u64)
    ensures
        s == (match reading {
            Some(n) => if (n as u64) == 0 {
                FALLBACK_SEED
            } else {
                n as u64
            },
            None => FALLBACK_SEED,
        }),
        s != 0,
{
    let nanos: u64 = match reading {
        Some(n) => {
            #[verifier::truncate]
            (n as u64)
        },
        None => 0,
    };
    seed_from_nanos(nanos)
}

/// Seeds the generator from the wall clock: the nanoseconds since the Unix
/// epoch (none when the clock reads before the epoch), through
/// `seed_from_reading`. The seed is never zero.
pub fn seed() -> (s: u64)
    ensures
        s != 0,
{
    let now = system_time_now();
    let reading: Option<u128> = match duration_since_unix_epoch(&now) {
        Ok(d) => Some(duration_as_nanos(&d)),
        Err(_) => None,
    };
    seed_from_reading(reading)
}

/// Advances the generator state by one xorshift64 step and returns the top bit
/// of the new state.
pub fn random_bit(state: &mut u64) -> (bit: bool)
    ensures
        *final(state) == xorshift64(*old(state)),
        bit == top_bit(*final(state)),
        bit == (*final(state) >= 0x8000_0000_0000_0000u64),
        *old(state) != 0 ==> *final(state) != 0,
{
    proof {
        if *state != 0 {
            lemma_xorshift64_nonzero(*state);
        }
    }
    let mut x: u64 = *state;
    x = x ^ (x << 13u64);
    x = x ^ (x >> 7u64);
    x = x ^ (x << 17u64);
    *state = x;
    assert((x >> 63u64) != 0 <==> x >= 0x8000_0000_0000_0000u64) by (bit_vector);
    (x >> 63u64) != 0
}

} // verus!
