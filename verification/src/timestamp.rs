//! High-precision timestamps: whole seconds and subsecond nanoseconds
//! since the Unix epoch.

use vstd::prelude::*;

use crate::sys::clock_now;
use crate::sys::duration_nanos;
use crate::sys::duration_secs;
use crate::sys::time_from_epoch;
use crate::sys::time_since_epoch;

verus! {

/// Bound on the seconds most operations accept; roughly thirty thousand
/// years either side of the epoch, so every scaled reading fits `i64`.
pub const SECONDS_BOUND: i64 = 1_000_000_000_000;

#[derive(Clone, Copy, PartialEq, Eq, Structural, PartialOrd, Ord, Hash, Debug)]
pub struct Timestamp {
    pub seconds: i64,
    pub nanos: i32,
}

/// Nanoseconds of one whole second.
pub const NANOS_PER_SECOND: i32 = 1_000_000_000;

impl Timestamp {
    /// A normalized timestamp keeps its nanoseconds below one second.
    pub open spec fn wf(&self) -> bool {
        0 <= self.nanos < NANOS_PER_SECOND
    }

    /// The timestamp's position on the time line, in nanoseconds.
    pub open spec fn spec_nanos_total(&self) -> int {
        self.seconds * 1_000_000_000 + self.nanos
    }

    pub fn new(seconds: i64, nanos: i32) -> (r: Timestamp)
        ensures
            r.seconds == seconds,
            r.nanos == nanos,
    {
        Timestamp { seconds, nanos }
    }

    /// The wall clock now. The clock decides the value; only the
    /// normalized shape is promised.
    pub fn now() -> (r: Timestamp)
        ensures
            r.wf(),
            r.seconds >= 0,
    {
        let (secs, nanos) = clock_now();
        if secs > 0x7fff_ffff_ffff_ffff {
            return Timestamp { seconds: i64::MAX, nanos: 0 };
        }
        Timestamp { seconds: secs as i64, nanos: nanos as i32 }
    }

    /// The timestamp a `SystemTime` denotes. A time before the epoch
    /// reads as zero.
    pub fn from_system_time(time: std::time::SystemTime) -> (r: Timestamp)
        ensures
            r.wf(),
            r.seconds >= 0,
    {
        let (secs, nanos) = time_since_epoch(time);
        if secs > 0x7fff_ffff_ffff_ffff {
            return Timestamp { seconds: i64::MAX, nanos: 0 };
        }
        Timestamp { seconds: secs as i64, nanos: nanos as i32 }
    }

    /// The `SystemTime` this timestamp denotes.
    pub fn to_system_time(&self) -> std::time::SystemTime
        requires
            self.wf(),
            self.seconds >= 0,
    {
        time_from_epoch(self.seconds as u64, self.nanos as u32)
    }

    /// Whole seconds since the epoch.
    pub fn unix(&self) -> (r: i64)
        ensures
            r == self.seconds,
    {
        self.seconds
    }

    /// Nanoseconds since the epoch.
    pub fn unix_nano(&self) -> (r: i64)
        requires
            self.wf(),
            -9_000_000_000 <= self.seconds <= 9_000_000_000,
        ensures
            r == self.seconds * 1_000_000_000 + self.nanos,
    {
        self.seconds * 1_000_000_000 + (self.nanos as i64)
    }

    /// Microseconds since the epoch, truncated.
    pub fn unix_micro(&self) -> (r: i64)
        requires
            self.wf(),
            -9_000_000_000_000 <= self.seconds <= 9_000_000_000_000,
        ensures
            r == self.seconds * 1_000_000 + self.nanos / 1_000,
    {
        self.seconds * 1_000_000 + (self.nanos / 1_000) as i64
    }

    /// Milliseconds since the epoch, truncated.
    pub fn unix_milli(&self) -> (r: i64)
        requires
            self.wf(),
            -9_000_000_000_000_000 <= self.seconds <= 9_000_000_000_000_000,
        ensures
            r == self.seconds * 1_000 + self.nanos / 1_000_000,
    {
        self.seconds * 1_000 + (self.nanos / 1_000_000) as i64
    }

    /// Whether this timestamp lies strictly before the other.
    pub fn before(&self, other: &Timestamp) -> (r: bool)
        requires
            self.wf(),
            other.wf(),
        ensures
            r == (self.spec_nanos_total() < other.spec_nanos_total()),
    {
        if self.seconds != other.seconds {
            self.seconds < other.seconds
        } else {
            self.nanos < other.nanos
        }
    }

    /// Whether this timestamp lies strictly after the other.
    pub fn after(&self, other: &Timestamp) -> (r: bool)
        requires
            self.wf(),
            other.wf(),
        ensures
            r == (self.spec_nanos_total() > other.spec_nanos_total()),
    {
        if self.seconds != other.seconds {
            self.seconds > other.seconds
        } else {
            self.nanos > other.nanos
        }
    }

    /// The span from `other` up to this timestamp, which must not lie
    /// before it.
    pub fn duration_since(&self, other: &Timestamp) -> (r: core::time::Duration)
        requires
            self.wf(),
            other.wf(),
            -SECONDS_BOUND <= other.seconds,
            self.seconds <= SECONDS_BOUND,
            other.spec_nanos_total() <= self.spec_nanos_total(),
        ensures
            duration_secs(r) * 1_000_000_000 + duration_nanos(r) == self.spec_nanos_total()
                - other.spec_nanos_total(),
    {
        if self.nanos >= other.nanos {
            core::time::Duration::new(
                (self.seconds - other.seconds) as u64,
                (self.nanos - other.nanos) as u32,
            )
        } else {
            core::time::Duration::new(
                (self.seconds - other.seconds - 1) as u64,
                (self.nanos + NANOS_PER_SECOND - other.nanos) as u32,
            )
        }
    }

    /// This timestamp moved forward by a span.
    pub fn add_duration(&self, duration: core::time::Duration) -> (r: Timestamp)
        requires
            self.wf(),
            -SECONDS_BOUND <= self.seconds <= SECONDS_BOUND,
            duration_secs(duration) <= SECONDS_BOUND as u64,
        ensures
            r.wf(),
            r.spec_nanos_total() == self.spec_nanos_total() + duration_secs(duration)
                * 1_000_000_000 + duration_nanos(duration),
    {
        let dsecs = duration.as_secs();
        let dnanos = duration.subsec_nanos();
        let mut seconds = self.seconds + dsecs as i64;
        let mut nanos = self.nanos + dnanos as i32;
        if nanos >= NANOS_PER_SECOND {
            seconds = seconds + 1;
            nanos = nanos - NANOS_PER_SECOND;
        }
        Timestamp { seconds, nanos }
    }

    /// This timestamp moved backward by a span.
    pub fn sub_duration(&self, duration: core::time::Duration) -> (r: Timestamp)
        requires
            self.wf(),
            -SECONDS_BOUND <= self.seconds <= SECONDS_BOUND,
            duration_secs(duration) <= SECONDS_BOUND as u64,
        ensures
            r.wf(),
            r.spec_nanos_total() == self.spec_nanos_total() - duration_secs(duration)
                * 1_000_000_000 - duration_nanos(duration),
    {
        let dsecs = duration.as_secs();
        let dnanos = duration.subsec_nanos();
        let mut seconds = self.seconds - dsecs as i64;
        let mut nanos = self.nanos - dnanos as i32;
        if nanos < 0 {
            seconds = seconds - 1;
            nanos = nanos + NANOS_PER_SECOND;
        }
        Timestamp { seconds, nanos }
    }

    /// Whether this is the zero timestamp.
    pub fn is_zero(&self) -> (r: bool)
        ensures
            r == (self.seconds == 0 && self.nanos == 0),
    {
        self.seconds == 0 && self.nanos == 0
    }
}

} // verus!
