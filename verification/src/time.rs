//! Conversion between hardware timer ticks and nanoseconds, and the
//! decision rule of the one-shot timer.
//!
//! The hardware itself (reading the tick counter, programming the timer
//! registers) is a platform concern outside this library; these functions
//! are the arithmetic that the platform layer relies on.

use vstd::prelude::*;

verus! {

/// Timer configuration: how many nanoseconds one hardware tick lasts.
///
/// Established once at platform initialization (from the timer frequency)
/// and never changed afterwards.
#[derive(Clone, Copy, Debug, PartialEq, Eq, Structural)]
pub struct TimeConfig {
    pub nanos_per_tick: u64,
}

impl TimeConfig {
    /// A configuration is meaningful only for a positive tick length.
    pub open spec fn wf(self) -> bool {
        self.nanos_per_tick > 0
    }

    /// Makes a configuration from a positive tick length in nanoseconds.
    pub fn new(nanos_per_tick: u64) -> (r: TimeConfig)
        requires
            nanos_per_tick > 0,
        ensures
            r.wf(),
            r.nanos_per_tick == nanos_per_tick,
    {
        TimeConfig { nanos_per_tick }
    }

    /// Converts hardware ticks to nanoseconds.
    pub fn ticks_to_nanos(&self, ticks: u64) -> (r: u64)
        requires
            self.wf(),
            ticks * self.nanos_per_tick <= u64::MAX,
        ensures
            r == ticks * self.nanos_per_tick,
    {
        ticks * self.nanos_per_tick
    }

    /// Converts nanoseconds to hardware ticks (rounding down).
    pub fn nanos_to_ticks(&self, nanos: u64) -> (r: u64)
        requires
            self.wf(),
        ensures
            r == nanos / self.nanos_per_tick,
    {
        nanos / self.nanos_per_tick
    }

    /// The initial counter value for a one-shot timer that must fire at
    /// `deadline_ns`, given the current time `now_ns`: a deadline in the
    /// past or present fires immediately (counter value 1), a future one
    /// after the corresponding number of ticks.
    pub fn oneshot_timer_ticks(&self, deadline_ns: u64, now_ns: u64) -> (r: u64)
        requires
            self.wf(),
        ensures
            deadline_ns <= now_ns ==> r == 1,
            deadline_ns > now_ns ==> r == (deadline_ns - now_ns) as int / self.nanos_per_tick as int,
    {
        if deadline_ns <= now_ns {
            1
        } else {
            self.nanos_to_ticks(deadline_ns - now_ns)
        }
    }
}

} // verus!
