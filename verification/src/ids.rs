//! Identifiers and simulated time shared by every module.
use vstd::prelude::*;

verus! {

/// A player's identifier.
#[derive(Debug, Clone, Copy, PartialEq, Eq, Hash, Structural)]
pub struct PlayerId(pub u64);

/// A region a player connects from.
#[derive(Debug, Clone, Copy, PartialEq, Eq, Hash, Structural)]
pub enum Region {
    NA,
    EU,
    Asia,
}

/// Which side of a match won.
#[derive(Debug, Clone, Copy, PartialEq, Eq, Structural)]
pub enum Team {
    A,
    B,
}

/// Simulated time, counted in whole microseconds since the start of a run.
#[derive(Debug, Clone, Copy, PartialEq, Eq, Structural)]
pub struct SimTime {
    pub micros: u64,
}

/// Microseconds in one simulated second.
pub const MICROS_PER_SEC: u64 = 1_000_000;

impl SimTime {
    /// The start of a run.
    pub fn zero() -> (t: SimTime)
        ensures
            t.micros == 0,
    {
        SimTime { micros: 0 }
    }

    /// A time `micros` microseconds after the start.
    pub fn from_micros(micros: u64) -> (t: SimTime)
        ensures
            t.micros == micros,
    {
        SimTime { micros }
    }

    /// A time `secs` whole seconds after the start.
    pub fn from_secs(secs: u64) -> (t: SimTime)
        requires
            secs * MICROS_PER_SEC <= u64::MAX,
        ensures
            t.micros == secs * MICROS_PER_SEC,
    {
        SimTime { micros: secs * MICROS_PER_SEC }
    }

    /// The time elapsed from `earlier` to `self`; zero when `earlier` is not
    /// before `self`.
    pub open spec fn duration_since_spec(self, earlier: SimTime) -> SimTime {
        SimTime {
            micros: if earlier.micros <= self.micros {
                (self.micros - earlier.micros) as u64
            } else {
                0
            },
        }
    }

    /// The time elapsed from `earlier` to `self`; zero when `earlier` is not
    /// before `self`.
    pub fn duration_since(self, earlier: SimTime) -> (d: SimTime)
        ensures
            d == self.duration_since_spec(earlier),
    {
        if earlier.micros <= self.micros {
            SimTime { micros: self.micros - earlier.micros }
        } else {
            SimTime { micros: 0 }
        }
    }

    /// Whether `self` is no later than `other`.
    pub fn le(self, other: SimTime) -> (b: bool)
        ensures
            b == (self.micros <= other.micros),
    {
        self.micros <= other.micros
    }
}

} // verus!
