//! What a cauldron can be marked with.

use vstd::prelude::*;

verus! {

/// Heat may or may not be present on a cauldron. If it is not present, no
/// reaction should occur.
#[derive(Copy, Clone, Eq, PartialEq, Debug, Hash, Structural)]
pub enum Heat {
    Simmering,
    Boiling,
}

/// How a cauldron is stirred.
#[derive(Copy, Clone, Eq, PartialEq, Debug, Hash, Structural)]
pub enum StirMethod {
    /// As opposed to heat, reactions may occur when there is no stirring,
    /// represented by this variant.
    ZeroStir,
    SingleStir,
    DoubleStir,
    QuadrupleStir,
}

/// Marks the cauldron.
#[derive(Copy, Clone, Eq, PartialEq, Debug, Hash, Structural)]
pub struct Cauldron;

/// Marks what shows how often each compound occurs.
#[derive(Copy, Clone, Eq, PartialEq, Debug, Hash, Structural)]
pub struct RankDisplayer;

} // verus!
