//! Engine-independent capabilities. Algorithms require only what they use.
use crate::types::{Checksum, Tick};
use vstd::prelude::*;

verus! {

/// A deterministic game advanced in fixed logical steps.
pub trait Simulation: Sized {
    type Input;
    type Error;

    /// Apply one fixed logical step, including empty-input steps.
    /// Input ordering is supplied by the synchronization strategy.
    /// On error, implementations must leave their state unchanged.
    fn tick(&mut self, tick: Tick, inputs: &[Self::Input]) -> (r: Result<(), Self::Error>)
        ensures
            r is Err ==> *final(self) == *old(self),
    ;
}

/// Optional recovery/rollback capability, not required by Simulation.
pub trait Snapshotable: Sized {
    type Snapshot;
    type Error;

    fn snapshot(&self) -> Self::Snapshot;

    /// On error, leave state unchanged.
    fn restore(&mut self, snapshot: &Self::Snapshot) -> (r: Result<(), Self::Error>)
        ensures
            r is Err ==> *final(self) == *old(self),
    ;
}

/// Optional deterministic diagnostic capability; encoding is game-defined.
pub trait Checksummed {
    /// The fingerprint of a state: a function of the state alone.
    spec fn spec_checksum(&self) -> Checksum;

    /// Deterministic: equal states give equal checksums.
    fn checksum(&self) -> (c: Checksum)
        ensures
            c == self.spec_checksum(),
    ;
}

} // verus!
