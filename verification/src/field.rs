//! Chemical channels of a dish.

use vstd::prelude::*;

verus! {

/// A chemical channel of the dish field.
#[derive(Clone, Copy, PartialEq, Eq, Debug, Structural)]
pub enum Channel {
    /// Pheromone signal.
    Signal,
}

} // verus!
