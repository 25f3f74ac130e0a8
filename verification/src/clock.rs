//! A deterministic clock for tests that must not depend on wall time.

use vstd::prelude::*;

verus! {

/// Deterministic fake clock, counting milliseconds from zero.
#[derive(Clone, Copy, Debug, PartialEq, Eq)]
pub struct FakeClock {
    now_ms: u64,
}

impl Default for FakeClock {
    /// A clock that shows zero.
    fn default() -> (clock: Self)
        ensures
            clock.spec_now() == 0,
    {
        FakeClock { now_ms: 0 }
    }
}

/// `a + b`, clamped to `u64::MAX`.
pub open spec fn saturating_sum(a: int, b: int) -> int {
    if a + b > u64::MAX as int {
        u64::MAX as int
    } else {
        a + b
    }
}

impl FakeClock {
    /// The timestamp the clock shows, in milliseconds.
    pub closed spec fn spec_now(self) -> u64 {
        self.now_ms
    }

    /// Current fake timestamp in milliseconds.
    pub fn now_ms(self) -> (now: u64)
        ensures
            now == self.spec_now(),
    {
        self.now_ms
    }

    /// Advance the fake clock by `ms`, stopping at `u64::MAX`.
    pub fn advance_ms(&mut self, ms: u64)
        ensures
            final(self).spec_now() == saturating_sum(old(self).spec_now() as int, ms as int),
    {
        self.now_ms = self.now_ms.saturating_add(ms);
    }
}

/// Advancing by `a` and then by `b` shows the same time as advancing once by
/// `a + b`, both saturating at `u64::MAX`; and time never goes backwards.
pub proof fn lemma_advance_composes(start: u64, a: u64, b: u64)
    ensures
        saturating_sum(saturating_sum(start as int, a as int), b as int) == saturating_sum(
            start as int,
            a + b,
        ),
        start <= saturating_sum(start as int, a as int),
{
}

} // verus!
