//! Unit-safe simulation time counters.
//!
//! These types deliberately have no conversion to wall-clock time. Tick rate
//! is server configuration, while round length is ruleset data.

use vstd::prelude::*;

verus! {

/// A count of fixed simulation steps.
///
/// Arithmetic is explicit and saturating. In particular, this type does not
/// implement arithmetic operators and has no conversion to seconds.
#[derive(Debug, Clone, Copy, PartialEq, Eq, PartialOrd, Ord, Hash, Structural)]
pub struct Tick(u64);

impl Tick {
    /// Zero elapsed ticks.
    pub fn zero() -> (t: Self)
        ensures
            t.count() == 0,
    {
        Tick(0)
    }

    /// The tick count, as a mathematical integer.
    pub closed spec fn count(self) -> nat {
        self.0 as nat
    }

    /// Constructs a tick count.
    pub fn new(v: u64) -> (t: Self)
        ensures
            t.count() == v,
    {
        Tick(v)
    }

    /// Returns the underlying tick count.
    pub fn get(self) -> (v: u64)
        ensures
            v == self.count(),
    {
        self.0
    }

    /// Returns the next tick, saturating at `u64::MAX`.
    pub fn next(self) -> (t: Self)
        ensures
            t.count() == if self.count() == u64::MAX { self.count() } else { self.count() + 1 },
    {
        self.saturating_add(1)
    }

    /// Adds a number of ticks, saturating at `u64::MAX`.
    pub fn saturating_add(self, n: u64) -> (t: Self)
        ensures
            t.count() == if self.count() + n > u64::MAX { u64::MAX as int } else { self.count() + n },
    {
        Tick(self.0.saturating_add(n))
    }

    /// Subtracts a number of ticks, saturating at zero.
    pub fn saturating_sub(self, n: u64) -> (t: Self)
        ensures
            t.count() == if self.count() < n { 0 } else { self.count() - n },
    {
        Tick(self.0.saturating_sub(n))
    }

    /// Adds a number of ticks, returning `None` on overflow.
    pub fn checked_add(self, n: u64) -> (t: Option<Self>)
        ensures
            self.count() + n <= u64::MAX ==> (t matches Some(v) && v.count() == self.count() + n),
            self.count() + n > u64::MAX ==> t is None,
    {
        match self.0.checked_add(n) {
            Some(value) => Some(Tick(value)),
            None => None,
        }
    }

    /// Returns ticks elapsed from `earlier` to `self`, or zero if `self` is earlier.
    pub fn since(self, earlier: Self) -> (d: u64)
        ensures
            d == if self.count() < earlier.count() { 0 } else { self.count() - earlier.count() },
    {
        self.0.saturating_sub(earlier.0)
    }
}

/// A count of rules rounds.
///
/// Arithmetic is explicit and saturating. Round duration is ruleset data, so
/// this type has no conversion to seconds.
#[derive(Debug, Clone, Copy, PartialEq, Eq, PartialOrd, Ord, Hash, Structural)]
pub struct RoundCount(u32);

impl RoundCount {
    /// Zero elapsed rounds.
    pub fn zero() -> (t: Self)
        ensures
            t.count() == 0,
    {
        RoundCount(0)
    }

    /// The round count, as a mathematical integer.
    pub closed spec fn count(self) -> nat {
        self.0 as nat
    }

    /// Constructs a round count.
    pub fn new(v: u32) -> (t: Self)
        ensures
            t.count() == v,
    {
        RoundCount(v)
    }

    /// Returns the underlying round count.
    pub fn get(self) -> (v: u32)
        ensures
            v == self.count(),
    {
        self.0
    }

    /// Returns the next round count, saturating at `u32::MAX`.
    pub fn next(self) -> (t: Self)
        ensures
            t.count() == if self.count() == u32::MAX { self.count() } else { self.count() + 1 },
    {
        self.saturating_add(1)
    }

    /// Adds a number of rounds, saturating at `u32::MAX`.
    pub fn saturating_add(self, n: u32) -> (t: Self)
        ensures
            t.count() == if self.count() + n > u32::MAX { u32::MAX as int } else { self.count() + n },
    {
        RoundCount(self.0.saturating_add(n))
    }

    /// Subtracts a number of rounds, saturating at zero.
    pub fn saturating_sub(self, n: u32) -> (t: Self)
        ensures
            t.count() == if self.count() < n { 0 } else { self.count() - n },
    {
        RoundCount(self.0.saturating_sub(n))
    }

    /// Adds a number of rounds, returning `None` on overflow.
    pub fn checked_add(self, n: u32) -> (t: Option<Self>)
        ensures
            self.count() + n <= u32::MAX ==> (t matches Some(v) && v.count() == self.count() + n),
            self.count() + n > u32::MAX ==> t is None,
    {
        match self.0.checked_add(n) {
            Some(value) => Some(RoundCount(value)),
            None => None,
        }
    }

    /// Returns rounds elapsed from `earlier` to `self`, or zero if `self` is earlier.
    pub fn since(self, earlier: Self) -> (d: u32)
        ensures
            d == if self.count() < earlier.count() { 0 } else { self.count() - earlier.count() },
    {
        self.0.saturating_sub(earlier.0)
    }
}

} // verus!
