use vstd::prelude::*;

verus! {

/// `std::time::Instant`, a reading of the monotonic clock. Nothing is
/// known of what a value holds.
#[verifier::external_type_specification]
#[verifier::external_body]
pub struct ExInstant(std::time::Instant);

/// `Instant::now` reads the monotonic clock; nothing is claimed of the reading.
pub assume_specification[ std::time::Instant::now ]() -> (instant: std::time::Instant);

/// `Instant::elapsed` is the time gone by since the instant was read;
/// nothing is claimed of its length.
pub assume_specification[ std::time::Instant::elapsed ](instant: &std::time::Instant) -> (elapsed:
    core::time::Duration);

/// `Duration::as_nanos` is the length of the duration in nanoseconds;
/// nothing is claimed of the number.
pub assume_specification[ core::time::Duration::as_nanos ](duration: &core::time::Duration) -> (nanos:
    u128);

/// A point in time, in nanoseconds on some monotonic clock.
pub type Timestamp = u128;

/// Nanoseconds in one second.
pub const NANOS_PER_SEC: u128 = 1_000_000_000;

/// Nanoseconds in one minute.
pub const NANOS_PER_MIN: u128 = 60_000_000_000;

/// A monotonic clock that counts nanoseconds from the moment it was made.
pub struct Clock {
    origin: std::time::Instant,
}

impl Clock {
    /// A clock that starts at zero now.
    pub fn new() -> Clock {
        Clock { origin: std::time::Instant::now() }
    }

    /// Nanoseconds since the clock was made. The reading depends on the
    /// machine's clock, so nothing is promised of it.
    pub fn now(&self) -> Timestamp {
        let elapsed = self.origin.elapsed();
        elapsed.as_nanos()
    }
}

} // verus!
