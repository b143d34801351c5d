//! Elements, element counts and the compounds built from them.

use vstd::prelude::*;

pub mod components;
pub mod compound;
pub mod compounds;
pub mod debug;
pub mod element;
pub mod element_counts;
pub mod notation;
pub mod order;
pub mod ranking;
pub mod rearrangement;
pub mod resources;
pub mod systems;

verus! {

/// Anything with a weight in altons, the unit in which elements are weighed.
pub trait AltonWeighable {
    /// The weight as a natural number.
    spec fn weight_spec(&self) -> nat;

    /// Computes the weight.
    fn weight(&self) -> (weight: u64)
        ensures
            weight == self.weight_spec(),
    ;
}

} // verus!
