//! How long the phases of a run take.

use std::time::Instant;
use vstd::prelude::*;

verus! {

/// A moment of the machine's clock.
#[verifier::external_type_specification]
#[verifier::external_body]
pub struct ExInstant(std::time::Instant);

/// The present moment.
///
/// Trusts `std::time::Instant::now` to return. Nothing is claimed of the moment: it is the
/// machine's.
#[verifier::external_body]
pub(crate) fn now() -> (t: Instant) {
    Instant::now()
}

/// Nanoseconds since a moment.
///
/// Trusts `std::time::Instant::elapsed` to return. Nothing is claimed of the number: it is the
/// machine's.
#[verifier::external_body]
fn nanos_since(t: &Instant) -> (n: u64) {
    t.elapsed().as_nanos() as u64
}

/// Nanoseconds spent in each phase of the rotations of a run.
#[derive(Clone, Copy, PartialEq, Eq, Debug, Structural)]
pub struct PhaseTimes {
    /// In the scans.
    pub scan: u64,
    /// In absorbing what the scans sent.
    pub absorb: u64,
    /// In absorbing what the pair rule returned.
    pub claims: u64,
}

impl PhaseTimes {
    /// No time has been taken away.
    pub open spec fn grown_from(self, before: PhaseTimes) -> bool {
        &&& before.scan <= self.scan
        &&& before.absorb <= self.absorb
        &&& before.claims <= self.claims
    }

    /// No time spent.
    pub fn none() -> (t: Self)
        ensures
            t == (PhaseTimes { scan: 0, absorb: 0, claims: 0 }),
    {
        PhaseTimes { scan: 0, absorb: 0, claims: 0 }
    }

    /// Counts the time since `start` as scanning.
    pub(crate) fn scanned(&mut self, start: &Instant)
        ensures
            final(self).scan >= old(self).scan,
            *final(self) == (PhaseTimes { scan: final(self).scan, ..*old(self) }),
    {
        self.scan = self.scan.saturating_add(nanos_since(start));
    }

    /// Counts the time since `start` as absorbing.
    pub(crate) fn absorbed(&mut self, start: &Instant)
        ensures
            final(self).absorb >= old(self).absorb,
            *final(self) == (PhaseTimes { absorb: final(self).absorb, ..*old(self) }),
    {
        self.absorb = self.absorb.saturating_add(nanos_since(start));
    }

    /// Counts the time since `start` as settling claims.
    pub(crate) fn claimed(&mut self, start: &Instant)
        ensures
            final(self).claims >= old(self).claims,
            *final(self) == (PhaseTimes { claims: final(self).claims, ..*old(self) }),
    {
        self.claims = self.claims.saturating_add(nanos_since(start));
    }
}

} // verus!
