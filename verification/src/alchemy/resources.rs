//! The rules that say under which conditions a compound reacts.

use crate::alchemy::components::{Heat, StirMethod};
use crate::alchemy::compound::Compound;
use vstd::prelude::*;

verus! {

/// A compound with the conditions under which it reacts.
#[derive(Copy, Clone, Eq, PartialEq, Debug)]
pub struct ReactionRule {
    pub compound: Compound,
    /// Setting to `None` means this compound reacts under any heat.
    pub heat: Option<Heat>,
    /// Setting to `None` means this compound reacts under any stir method.
    pub stir_method: Option<StirMethod>,
}

} // verus!
