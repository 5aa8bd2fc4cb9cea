//! Injectable monotonic clock, so periodic behaviour is deterministic in tests.

use std::sync::atomic::{AtomicU64, Ordering};
use std::sync::Arc;
use std::time::Instant;
use vstd::prelude::*;

verus! {

/// A point in time.
#[verifier::external_type_specification]
#[verifier::external_body]
pub struct ExInstant(std::time::Instant);

/// `Instant::now`: the current time, of which nothing is claimed.
pub assume_specification[ std::time::Instant::now ]() -> (r: std::time::Instant)
;

/// The time from one instant to another.
pub uninterp spec fn span_between(
    earlier: std::time::Instant,
    later: std::time::Instant,
) -> std::time::Duration;

/// How many whole milliseconds a span of time holds.
pub uninterp spec fn millis_in(span: std::time::Duration) -> u128;

/// `Instant::duration_since`: the time from another instant to this one, which
/// depends on the two instants alone. Both are opaque here, so nothing is
/// claimed of how long it is.
pub assume_specification[ std::time::Instant::duration_since ](
    later: &std::time::Instant,
    earlier: std::time::Instant,
) -> (r: std::time::Duration)
    ensures
        r == span_between(earlier, *later),
;

/// `Duration::as_millis`: the whole milliseconds in a span, which depend on the
/// span alone. A span is opaque here, so nothing is claimed of how many there
/// are.
pub assume_specification[ std::time::Duration::as_millis ](span: &std::time::Duration) -> (r: u128)
    ensures
        r == millis_in(*span),
;

/// Monotonic milliseconds since an arbitrary epoch.
pub trait Clock {
    /// Whether the clock may show `ms` when it is read.
    spec fn may_read(&self, ms: u64) -> bool;

    fn now_ms(&self) -> (r: u64)
        ensures
            self.may_read(r),
    ;
}

/// A number of milliseconds, or the largest that a clock can report.
pub open spec fn saturated(ms: u128) -> u64 {
    if ms > u64::MAX {
        u64::MAX
    } else {
        ms as u64
    }
}

/// A number of milliseconds, or the largest that a clock can report.
pub fn saturated_ms(ms: u128) -> (r: u64)
    ensures
        r == saturated(ms),
        ms <= u64::MAX ==> r == ms,
        ms > u64::MAX ==> r == u64::MAX,
{
    if ms > u64::MAX as u128 {
        u64::MAX
    } else {
        ms as u64
    }
}

/// Real monotonic clock, counting from construction.
#[derive(Debug)]
pub struct SystemClock {
    start: Instant,
}

impl Clone for SystemClock {
    fn clone(&self) -> (r: SystemClock)
        ensures
            r == *self,
    {
        SystemClock { start: self.start }
    }
}

impl SystemClock {
    /// The instant from which the clock counts.
    pub closed spec fn start(self) -> Instant {
        self.start
    }

    /// What the clock shows at an instant: the whole milliseconds since its
    /// start.
    pub open spec fn reading(self, now: Instant) -> u64 {
        saturated(millis_in(span_between(self.start(), now)))
    }

    /// Starts counting at the present instant, which the machine gives.
    pub fn new() -> SystemClock {
        SystemClock { start: Instant::now() }
    }
}

impl Default for SystemClock {
    fn default() -> SystemClock {
        SystemClock::new()
    }
}

impl Clock for SystemClock {
    /// Its reading at some instant.
    open spec fn may_read(&self, ms: u64) -> bool {
        exists|now: Instant| ms == #[trigger] self.reading(now)
    }

    /// The clock's reading at the present instant, which the machine gives.
    fn now_ms(&self) -> (r: u64) {
        let now: Instant = Instant::now();
        let r: u64 = saturated_ms(now.duration_since(self.start).as_millis());
        assert(r == self.reading(now));
        r
    }
}

/// Manually advanced clock for tests. Clones share the same time.
///
/// The time is in an atomic cell that changes behind shared references, so no
/// contract here speaks of it.
#[derive(Debug, Clone)]
pub struct FakeClock(Arc<AtomicU64>);

impl FakeClock {
    /// Starts at `start_ms`.
    pub fn new(start_ms: u64) -> FakeClock {
        FakeClock(Arc::new(AtomicU64::new(start_ms)))
    }

    pub fn advance(&self, ms: u64) {
        self.0.fetch_add(ms, Ordering::SeqCst);
    }

    pub fn set(&self, ms: u64) {
        self.0.store(ms, Ordering::SeqCst);
    }
}

impl Default for FakeClock {
    fn default() -> FakeClock {
        FakeClock::new(0)
    }
}

impl Clock for FakeClock {
    /// Any time: it can be set to each.
    open spec fn may_read(&self, ms: u64) -> bool {
        true
    }

    fn now_ms(&self) -> (r: u64) {
        self.0.load(Ordering::SeqCst)
    }
}

} // verus!
