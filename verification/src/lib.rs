//! Reaction engine for fixed-weight compounds of five weighted elements.

use vstd::prelude::*;

pub mod alchemy;
pub mod reactable;
pub mod utils;

verus! {

/// The states the surrounding application can be in.
#[derive(Copy, Clone, Eq, PartialEq, Debug, Hash)]
pub enum AppState {
    Brewing,
}

} // verus!
