//! The simulation clock: a pacing timer with a tick counter.
//!
//! Time is carried as whole nanoseconds. While running, elapsed frame time
//! accumulates; when it reaches the configured period the next call fires,
//! the tick counter steps by exactly one, and the surplus is kept. A period
//! of zero fires on every frame. While paused, nothing accumulates and
//! nothing fires; a single step is taken through `Graph::step`.

use vstd::prelude::*;

verus! {

/// Nanoseconds in one second, for the rate control.
pub const NANOS_PER_SEC: u64 = 1_000_000_000;

/// The tick controller: period and accumulated time of the repeating timer,
/// the paused flag, and the monotonically increasing tick counter.
#[derive(Clone, Copy, PartialEq, Eq, Structural, Debug)]
pub struct Simulation {
    /// The timer's period in nanoseconds; zero fires on every frame.
    pub period_ns: u64,
    /// Frame time accumulated toward the next firing.
    pub elapsed_ns: u64,
    /// While paused, frames neither accumulate time nor fire.
    pub paused: bool,
    /// How many ticks have fired so far.
    pub ticks: u64,
}

/// Addition on nanosecond counts, saturating at the top of the range.
pub open spec fn s_sat_add(a: u64, b: u64) -> u64 {
    if a + b > u64::MAX {
        u64::MAX
    } else {
        (a + b) as u64
    }
}

/// Whether a frame of `dt_ns` makes the clock fire: never while paused, and
/// otherwise exactly when the accumulated time reaches the period. A period
/// of zero therefore fires on every frame.
pub open spec fn s_fires(s: Simulation, dt_ns: u64) -> bool {
    !s.paused && s_sat_add(s.elapsed_ns, dt_ns) >= s.period_ns
}

/// The clock after a frame of `dt_ns`: paused, unchanged; running and not yet
/// due, the time accumulates; due, the tick counter steps by one and the
/// surplus over the period is kept.
pub open spec fn s_advanced(s: Simulation, dt_ns: u64) -> Simulation {
    if s.paused {
        s
    } else {
        let acc = s_sat_add(s.elapsed_ns, dt_ns);
        if acc >= s.period_ns {
            Simulation {
                period_ns: s.period_ns,
                elapsed_ns: if s.period_ns == 0 {
                    0
                } else {
                    (acc % s.period_ns) as u64
                },
                paused: s.paused,
                ticks: (s.ticks + 1) as u64,
            }
        } else {
            Simulation { period_ns: s.period_ns, elapsed_ns: acc, paused: s.paused, ticks: s.ticks }
        }
    }
}

impl Simulation {
    /// A running clock with the given period, no accumulated time and the
    /// tick counter at zero.
    pub fn new(period_ns: u64) -> (s: Simulation)
        ensures
            s == (Simulation { period_ns, elapsed_ns: 0, paused: false, ticks: 0 }),
    {
        Simulation { period_ns, elapsed_ns: 0, paused: false, ticks: 0 }
    }

    /// Pauses the clock. Neither the accumulated time nor the tick counter is
    /// reset.
    pub fn pause(&mut self)
        ensures
            *final(self) == (Simulation { paused: true, ..*old(self) }),
    {
        self.paused = true;
    }

    /// Resumes the clock. Neither the accumulated time nor the tick counter
    /// is reset.
    pub fn unpause(&mut self)
        ensures
            *final(self) == (Simulation { paused: false, ..*old(self) }),
    {
        self.paused = false;
    }

    /// Sets the rate in whole hertz: the period becomes `1 / hz` seconds, and
    /// a rate of zero means a period of zero — the fastest possible, firing
    /// on every frame, not "never".
    pub fn set_hz(&mut self, hz: u64)
        ensures
            *final(self) == (Simulation {
                period_ns: if hz == 0 {
                    0u64
                } else {
                    (NANOS_PER_SEC as u64 / hz) as u64
                },
                ..*old(self)
            }),
    {
        self.period_ns = if hz == 0 {
            0
        } else {
            NANOS_PER_SEC / hz
        };
    }

    /// Feeds one frame of wall time to the timer and reports whether a tick
    /// fires. On a fire the tick counter steps by exactly one.
    pub fn advance(&mut self, dt_ns: u64) -> (fired: bool)
        requires
            old(self).ticks < u64::MAX,
        ensures
            *final(self) == s_advanced(*old(self), dt_ns),
            fired == s_fires(*old(self), dt_ns),
    {
        if self.paused {
            return false;
        }
        let acc = if dt_ns > u64::MAX - self.elapsed_ns {
            u64::MAX
        } else {
            self.elapsed_ns + dt_ns
        };
        if acc >= self.period_ns {
            self.elapsed_ns = if self.period_ns == 0 {
                0
            } else {
                acc % self.period_ns
            };
            self.ticks = self.ticks + 1;
            true
        } else {
            self.elapsed_ns = acc;
            false
        }
    }
}

} // verus!
