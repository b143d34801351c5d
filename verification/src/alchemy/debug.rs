//! What the debugging aids decide: how keys act on the cauldron.

use crate::alchemy::components::{Heat, StirMethod};
use vstd::prelude::*;

verus! {

/// The keys that act on the cauldron, each with whether it is held down or,
/// for the keys that stir, whether it has just been pressed.
#[derive(Copy, Clone, Eq, PartialEq, Debug, Hash, Structural)]
pub struct TestInput {
    pub zero_stir: bool,
    pub single_stir: bool,
    pub double_stir: bool,
    pub quadruple_stir: bool,
    pub boil: bool,
    pub simmer: bool,
}

/// How the cauldron is stirred after the keys have acted: as the first of
/// the stirring keys that was pressed says, and as before where none was.
pub open spec fn stirred(stir_method: StirMethod, input: TestInput) -> StirMethod {
    if input.zero_stir {
        StirMethod::ZeroStir
    } else if input.single_stir {
        StirMethod::SingleStir
    } else if input.double_stir {
        StirMethod::DoubleStir
    } else if input.quadruple_stir {
        StirMethod::QuadrupleStir
    } else {
        stir_method
    }
}

/// The heat of the cauldron after the keys have acted: boiling while the key
/// to boil is held, else simmering while the key to simmer is held, else
/// none.
pub open spec fn heated(input: TestInput) -> Option<Heat> {
    if input.boil {
        Some(Heat::Boiling)
    } else if input.simmer {
        Some(Heat::Simmering)
    } else {
        None
    }
}

/// Decides how the cauldron is stirred and heated after the keys have acted.
pub fn reaction_test_input(stir_method: StirMethod, input: TestInput) -> (cauldron: (
    StirMethod,
    Option<Heat>,
))
    ensures
        cauldron.0 == stirred(stir_method, input),
        cauldron.1 == heated(input),
{
    let stir_method = if input.zero_stir {
        StirMethod::ZeroStir
    } else if input.single_stir {
        StirMethod::SingleStir
    } else if input.double_stir {
        StirMethod::DoubleStir
    } else if input.quadruple_stir {
        StirMethod::QuadrupleStir
    } else {
        stir_method
    };
    let heat = if input.boil {
        Some(Heat::Boiling)
    } else if input.simmer {
        Some(Heat::Simmering)
    } else {
        None
    };
    (stir_method, heat)
}

} // verus!
