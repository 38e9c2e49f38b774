//! Timestamps and the spans between them.

use vstd::prelude::*;

verus! {

/// Nanoseconds in one second.
pub const NANOS_PER_SEC: u32 = 1_000_000_000;

/// A point in time: whole seconds and the nanoseconds past them.
#[derive(Clone, Copy, Debug, PartialEq, Eq, PartialOrd, Ord, Hash, Structural)]
pub struct Time {
    pub secs: u32,
    pub nsecs: u32,
}

/// The span between two points in time.
#[derive(Clone, Copy, Debug, PartialEq, Eq, PartialOrd, Ord, Hash, Structural)]
pub struct Duration {
    pub secs: u64,
    pub nsecs: u32,
}

impl Time {
    /// The nanosecond part stays below one second.
    pub open spec fn wf(self) -> bool {
        self.nsecs < NANOS_PER_SEC
    }

    /// The point in time as a count of nanoseconds, by which times are ordered.
    pub open spec fn nanos(self) -> int {
        self.secs as int * 1_000_000_000 + self.nsecs as int
    }

    /// A time from its parts; `None` when `nsecs` is a second or more.
    pub fn new(secs: u32, nsecs: u32) -> (r: Option<Time>)
        ensures
            r == if nsecs < NANOS_PER_SEC {
                Some(Time { secs, nsecs })
            } else {
                None::<Time>
            },
    {
        if nsecs < NANOS_PER_SEC {
            Some(Time { secs, nsecs })
        } else {
            None
        }
    }

    /// The count of nanoseconds since the epoch.
    pub fn as_nanos(&self) -> (r: u64)
        ensures
            r as int == self.nanos(),
    {
        self.secs as u64 * 1_000_000_000 + self.nsecs as u64
    }

    /// Whether `self` is not later than `other`.
    pub fn le(&self, other: &Time) -> (r: bool)
        ensures
            r == (self.nanos() <= other.nanos()),
    {
        self.as_nanos() <= other.as_nanos()
    }

    /// Whether `self` is earlier than `other`.
    pub fn lt(&self, other: &Time) -> (r: bool)
        ensures
            r == (self.nanos() < other.nanos()),
    {
        self.as_nanos() < other.as_nanos()
    }

    /// The span from `start` to `self`; `None` when `start` is later.
    pub fn since(&self, start: &Time) -> (r: Option<Duration>)
        ensures
            match r {
                Some(d) => d.wf() && d.nanos() == self.nanos() - start.nanos(),
                None => self.nanos() < start.nanos(),
            },
    {
        if self.lt(start) {
            return None;
        }
        let span: u64 = self.as_nanos() - start.as_nanos();
        Some(Duration { secs: span / 1_000_000_000, nsecs: (span % 1_000_000_000) as u32 })
    }
}

impl Duration {
    /// The nanosecond part stays below one second.
    pub open spec fn wf(self) -> bool {
        self.nsecs < NANOS_PER_SEC
    }

    /// The span as a count of nanoseconds.
    pub open spec fn nanos(self) -> int {
        self.secs as int * 1_000_000_000 + self.nsecs as int
    }
}

} // verus!
