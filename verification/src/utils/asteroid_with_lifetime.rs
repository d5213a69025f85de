//! Asteroids with the moment at which something is due for them.

use vstd::prelude::*;
use vstd::std_specs::cmp::{PartialEqSpecImpl, PartialOrdSpecImpl};
use core::cmp::Ordering;

verus! {

/// Identifies an asteroid.
pub type AsteroidEntity = u64;

/// A moment of the simulation, in milliseconds since its start.
pub type SimulationTimestamp = u64;

/// An asteroid and the moment at which something is due for it. Two of them
/// are equal where they name one asteroid; they are ordered by their
/// moments, the later one first, so that the greatest of them is the one
/// that is due first.
#[derive(Copy, Clone, Debug)]
pub struct AsteroidEntityWithTimestamp {
    pub entity: AsteroidEntity,
    pub timestamp: SimulationTimestamp,
}

impl Eq for AsteroidEntityWithTimestamp {

}

impl PartialEq for AsteroidEntityWithTimestamp {
    fn eq(&self, other: &Self) -> (equal: bool) {
        other.entity == self.entity
    }
}

impl PartialEqSpecImpl for AsteroidEntityWithTimestamp {
    open spec fn obeys_eq_spec() -> bool {
        true
    }

    open spec fn eq_spec(&self, other: &Self) -> bool {
        other.entity == self.entity
    }
}

impl PartialOrd for AsteroidEntityWithTimestamp {
    fn partial_cmp(&self, other: &Self) -> (order: Option<Ordering>) {
        // Inverted ordering so that the maximum is the one due first
        if other.timestamp < self.timestamp {
            Some(Ordering::Less)
        } else if other.timestamp > self.timestamp {
            Some(Ordering::Greater)
        } else {
            Some(Ordering::Equal)
        }
    }
}

impl PartialOrdSpecImpl for AsteroidEntityWithTimestamp {
    open spec fn obeys_partial_cmp_spec() -> bool {
        true
    }

    open spec fn partial_cmp_spec(&self, other: &Self) -> Option<Ordering> {
        if other.timestamp < self.timestamp {
            Some(Ordering::Less)
        } else if other.timestamp > self.timestamp {
            Some(Ordering::Greater)
        } else {
            Some(Ordering::Equal)
        }
    }
}

} // verus!
