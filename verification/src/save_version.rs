//! The identity of one stored version of a save file.

use vstd::prelude::*;

verus! {

/// What a listing of versions holds: the capture time of each.
pub open spec fn times_model(versions: Seq<SaveVersion>) -> Seq<u128> {
    versions.map_values(|version: SaveVersion| version@)
}

/// A version of a save file, named by the modification time at which it was
/// captured, in nanoseconds since the Unix epoch.
#[derive(Clone, Copy, Debug, PartialEq, Eq, Structural)]
pub struct SaveVersion(u128);

impl View for SaveVersion {
    type V = u128;

    closed spec fn view(&self) -> u128 {
        self.0
    }
}

impl SaveVersion {
    /// Names the version captured at `time`.
    pub fn new(time: u128) -> (version: Self)
        ensures
            version@ == time,
    {
        Self(time)
    }

    /// The capture time of this version.
    pub fn time(&self) -> (time: &u128)
        ensures
            *time == self@,
    {
        &self.0
    }
}

/// The number of nanoseconds in a second.
pub const NANOS_PER_SECOND: u128 = 1_000_000_000;

/// The capture time that lies `seconds` whole seconds and `nanos` further
/// nanoseconds after the Unix epoch.
pub fn time_from_parts(seconds: u64, nanos: u32) -> (time: u128)
    ensures
        time == seconds * NANOS_PER_SECOND + nanos,
{
    seconds as u128 * NANOS_PER_SECOND + nanos as u128
}

/// The whole seconds of a capture time and the nanoseconds beyond them. A
/// time too late for the seconds to be counted gives the largest count.
pub fn time_to_parts(time: u128) -> (parts: (u64, u32))
    ensures
        parts.1 == time % NANOS_PER_SECOND,
        time / NANOS_PER_SECOND <= u64::MAX ==> parts.0 == time / NANOS_PER_SECOND,
        time / NANOS_PER_SECOND > u64::MAX ==> parts.0 == u64::MAX,
{
    let seconds = time / NANOS_PER_SECOND;
    let nanos = (time % NANOS_PER_SECOND) as u32;
    if seconds > u64::MAX as u128 {
        (u64::MAX, nanos)
    } else {
        (seconds as u64, nanos)
    }
}

/// A capture time made of seconds and less than a second of nanoseconds
/// falls apart into the same two.
pub proof fn lemma_time_parts_round_trip(seconds: u64, nanos: u32)
    requires
        nanos < NANOS_PER_SECOND,
    ensures
        (seconds * NANOS_PER_SECOND + nanos) / (NANOS_PER_SECOND as int) == seconds,
        (seconds * NANOS_PER_SECOND + nanos) % (NANOS_PER_SECOND as int) == nanos,
{
}

} // verus!
