//! The logical clock of the machine.

use vstd::prelude::*;

verus! {

/// A point of the three-level logical clock: the clock, the epoch within it
/// and the iteration within the epoch.
#[derive(Debug, Clone, Copy, PartialEq, Eq, Structural, Hash, PartialOrd, Ord)]
pub struct Timestamp {
    pub clock: u64,
    pub epoch: u64,
    pub iteration: u64,
}

impl Timestamp {
    /// The first iteration of the first epoch of the first clock.
    pub fn new() -> (t: Timestamp)
        ensures
            t == (Timestamp { clock: 0, epoch: 0, iteration: 0 }),
    {
        Timestamp { clock: 0, epoch: 0, iteration: 0 }
    }

    /// The first epoch of the first clock.
    pub fn clock_start(&self) -> (t: Timestamp)
        ensures
            t == (Timestamp { clock: 0, epoch: 0, iteration: 0 }),
    {
        Timestamp { clock: 0, epoch: 0, iteration: 0 }
    }

    /// The first iteration of this epoch.
    pub fn epoch_start(&self) -> (t: Timestamp)
        ensures
            t == (Timestamp { iteration: 0, ..*self }),
    {
        Timestamp { clock: self.clock, epoch: self.epoch, iteration: 0 }
    }

    /// The epoch.
    pub fn epoch(&self) -> (e: u64)
        ensures
            e == self.epoch,
    {
        self.epoch
    }

    /// Whether this is a point of the first epoch of the first clock.
    pub open spec fn in_first_epoch(&self) -> bool {
        self.clock == 0 && self.epoch == 0
    }

    /// Whether this is a point of the first epoch of the first clock.
    #[verifier::when_used_as_spec(in_first_epoch)]
    pub fn is_first_epoch(&self) -> (b: bool)
        ensures
            b == self.in_first_epoch(),
    {
        self.clock == 0 && self.epoch == 0
    }

    /// The next iteration of this epoch, if the clock can count it.
    pub fn advance_iteration(&self) -> (t: Option<Timestamp>)
        ensures
            t == (if self.iteration < u64::MAX {
                Some(Timestamp { iteration: (self.iteration + 1) as u64, ..*self })
            } else {
                None
            }),
    {
        if self.iteration < u64::MAX {
            Some(Timestamp { clock: self.clock, epoch: self.epoch, iteration: self.iteration + 1 })
        } else {
            None
        }
    }

    /// The first iteration of the next epoch, if the clock can count it.
    pub fn advance_epoch(&self) -> (t: Option<Timestamp>)
        ensures
            t == (if self.epoch < u64::MAX {
                Some(Timestamp { clock: self.clock, epoch: (self.epoch + 1) as u64, iteration: 0 })
            } else {
                None
            }),
    {
        if self.epoch < u64::MAX {
            Some(Timestamp { clock: self.clock, epoch: self.epoch + 1, iteration: 0 })
        } else {
            None
        }
    }
}

} // verus!
