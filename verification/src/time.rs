//! Instants and durations as whole nanoseconds, and the clocks they are read
//! from. An instant counts from the moment its [`Clock`] was started, so
//! instants of one clock are comparable and plain arithmetic applies to them.

use vstd::prelude::*;

verus! {

pub const NANOS_PER_SEC: u128 = 1_000_000_000;

pub const NANOS_PER_MILLI: u128 = 1_000_000;

/// The longest span a standard duration can hold, in nanoseconds.
pub const MAX_SPAN_NANOS: u128 = 18_446_744_073_709_551_615_999_999_999;

/// A span of time.
#[derive(Clone, Copy, PartialEq, Eq, PartialOrd, Ord, Debug)]
pub struct Duration {
    pub nanos: u128,
}

/// A point in time, counted from the start of the clock it was read from.
#[derive(Clone, Copy, PartialEq, Eq, PartialOrd, Ord, Debug)]
pub struct Instant {
    pub nanos: u128,
}

impl View for Duration {
    type V = int;

    open spec fn view(&self) -> int {
        self.nanos as int
    }
}

impl View for Instant {
    type V = int;

    open spec fn view(&self) -> int {
        self.nanos as int
    }
}

impl Duration {
    /// No longer than the longest standard duration.
    pub open spec fn in_range(self) -> bool {
        self@ <= MAX_SPAN_NANOS
    }

    pub fn from_secs(secs: u64) -> (r: Duration)
        ensures
            r@ == secs * NANOS_PER_SEC,
            r.in_range(),
    {
        assert(secs * NANOS_PER_SEC <= MAX_SPAN_NANOS) by (nonlinear_arith)
            requires
                secs <= u64::MAX,
                NANOS_PER_SEC == 1_000_000_000,
                MAX_SPAN_NANOS == 18_446_744_073_709_551_615_999_999_999,
        ;
        Duration { nanos: secs as u128 * NANOS_PER_SEC }
    }

    pub fn from_millis(millis: u64) -> (r: Duration)
        ensures
            r@ == millis * NANOS_PER_MILLI,
            r.in_range(),
    {
        assert(millis * NANOS_PER_MILLI <= MAX_SPAN_NANOS) by (nonlinear_arith)
            requires
                millis <= u64::MAX,
                NANOS_PER_MILLI == 1_000_000,
                MAX_SPAN_NANOS == 18_446_744_073_709_551_615_999_999_999,
        ;
        Duration { nanos: millis as u128 * NANOS_PER_MILLI }
    }

    /// Whole seconds, rounded down.
    pub fn as_secs(&self) -> (r: u64)
        requires
            self.in_range(),
        ensures
            r == self@ / NANOS_PER_SEC as int,
    {
        assert(self.nanos / NANOS_PER_SEC <= u64::MAX) by (nonlinear_arith)
            requires
                self.nanos <= MAX_SPAN_NANOS,
                NANOS_PER_SEC == 1_000_000_000,
                MAX_SPAN_NANOS == 18_446_744_073_709_551_615_999_999_999,
        ;
        (self.nanos / NANOS_PER_SEC) as u64
    }
}

/// The smaller of two spans.
pub open spec fn min_span(a: int, b: int) -> int {
    if a <= b {
        a
    } else {
        b
    }
}

/// The standard monotonic clock's point in time.
#[verifier::external_type_specification]
#[verifier::external_body]
pub struct ExStdInstant(std::time::Instant);

/// `std::time::Instant::now`: a reading of the monotonic clock. Nothing is
/// claimed of it, since it depends on when the call is made.
#[verifier::external_body]
fn std_now() -> (r: std::time::Instant) {
    std::time::Instant::now()
}

/// `std::time::Instant::elapsed`: the time that has passed since `origin`, in
/// nanoseconds. The reading depends on when the call is made; all that is
/// claimed is that it is a standard duration, which holds whole seconds in 64
/// bits and less than a second besides.
#[verifier::external_body]
fn std_elapsed_nanos(origin: &std::time::Instant) -> (r: u128)
    ensures
        r <= MAX_SPAN_NANOS,
{
    origin.elapsed().as_nanos()
}

/// A running clock.
#[derive(Clone, Copy)]
pub struct Clock {
    origin: std::time::Instant,
}

impl Clock {
    pub fn start() -> (r: Clock) {
        Clock { origin: std_now() }
    }

    /// The present, on this clock. Readings never reach past the longest
    /// standard duration.
    pub fn now(&self) -> (r: Instant)
        ensures
            r@ <= MAX_SPAN_NANOS,
    {
        Instant { nanos: std_elapsed_nanos(&self.origin) }
    }
}

/// `std::time::SystemTime::elapsed` on the Unix epoch: the whole seconds since
/// then, and nothing where the system clock stands before it. Nothing is claimed
/// of the number, since it depends on when the call is made.
#[verifier::external_body]
fn secs_since_epoch() -> (r: Option<u64>) {
    match std::time::UNIX_EPOCH.elapsed() {
        Ok(d) => Some(d.as_secs()),
        Err(_) => None,
    }
}

/// Unix time in whole seconds, and zero where the system clock stands before the
/// epoch.
pub(crate) fn system_secs() -> (r: u64) {
    unix_secs(secs_since_epoch())
}

/// Unix time by a reading of the system clock: the seconds since the epoch, and
/// zero where the clock stands before it.
pub fn unix_secs(since_epoch: Option<u64>) -> (r: u64)
    ensures
        r == match since_epoch {
            Some(secs) => secs,
            None => 0,
        },
{
    match since_epoch {
        Some(secs) => secs,
        None => 0,
    }
}

} // verus!
