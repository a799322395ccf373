//! The clock, read once for a seed when an ordered list is made.

use vstd::prelude::*;
use std::time::{Duration, SystemTime};

verus! {

/// A point in time of the system clock, as std has it.
#[verifier::external_type_specification]
#[verifier::external_body]
pub struct ExSystemTime(SystemTime);

/// `SystemTime::now` of std: the time at the moment of the call. It differs
/// from call to call, so nothing is claimed of it.
#[verifier::external_body]
pub(crate) fn clock_now() -> SystemTime {
    SystemTime::now()
}

/// `SystemTime::duration_since` of std, against the Unix epoch: the time
/// elapsed since the epoch, or `None` where the clock stands before it.
#[verifier::external_body]
pub(crate) fn since_epoch(time: &SystemTime) -> Option<Duration> {
    time.duration_since(std::time::UNIX_EPOCH).ok()
}

/// `Duration::as_nanos` of std: the span in nanoseconds.
#[verifier::external_body]
pub(crate) fn nanos_of(span: &Duration) -> u128 {
    span.as_nanos()
}

/// A seed from the clock: what `seed_of` makes of the nanoseconds since the
/// epoch, which the clock gives, or of no reading where it stands before it.
pub fn time_seed() -> u64 {
    let now = clock_now();
    let reading: Option<u128> = match since_epoch(&now) {
        Some(span) => Some(nanos_of(&span)),
        None => None,
    };
    seed_of(reading)
}

/// The seed that a reading of the clock stands for: the low 64 bits of the
/// nanoseconds read, or zero where there is no reading.
pub open spec fn seed_for(reading: Option<u128>) -> u64 {
    match reading {
        Some(nanos) => (nanos % 0x1_0000_0000_0000_0000) as u64,
        None => 0,
    }
}

/// Makes a seed of a reading of the clock.
pub fn seed_of(reading: Option<u128>) -> (seed: u64)
    ensures
        seed == seed_for(reading),
{
    match reading {
        Some(nanos) => {
            assert(nanos as u64 == nanos % 0x1_0000_0000_0000_0000) by (bit_vector);
            #[verifier::truncate]
            (nanos as u64)
        },
        None => 0,
    }
}

} // verus!
