//! The compound of the standard weight, as a type of its own.

use crate::alchemy::compound::{counts_from, Alchemical};
use crate::alchemy::element::Element;
use crate::alchemy::element_counts::{cleaned, is_clean, weight_of, ElementCounts};
use crate::alchemy::notation::{notation_of, parse_notation};
use crate::alchemy::rearrangement::is_reaction;
use crate::alchemy::AltonWeighable;
use vstd::prelude::*;

verus! {

/// What every compound weighs.
pub const COMPOUND_WEIGHT: u32 = 7;

/// Why a compound could not be made.
#[derive(Copy, Clone, Eq, PartialEq, Debug, Structural)]
pub enum CompoundError {
    /// The counts do not weigh what a compound weighs; `size` is the weight
    /// that they have.
    SizeError { size: u64 },
    /// The text is not in the notation.
    ParseError,
}

/// Element counts without zero entries that weigh exactly
/// `COMPOUND_WEIGHT`.
#[derive(Copy, Clone, Eq, Debug, Hash)]
pub struct Compound {
    alchemical: Alchemical<7>,
}

impl View for Compound {
    type V = Map<Element, nat>;

    closed spec fn view(&self) -> Map<Element, nat> {
        self.alchemical@
    }
}

impl PartialEq for Compound {
    fn eq(&self, other: &Self) -> (equal: bool) {
        self.alchemical == other.alchemical
    }
}

impl vstd::std_specs::cmp::PartialEqSpecImpl for Compound {
    open spec fn obeys_eq_spec() -> bool {
        true
    }

    open spec fn eq_spec(&self, other: &Self) -> bool {
        *self == *other
    }
}

impl AltonWeighable for Compound {
    open spec fn weight_spec(&self) -> nat {
        weight_of(self@)
    }

    fn weight(&self) -> (weight: u64)
        ensures
            weight == COMPOUND_WEIGHT,
    {
        self.alchemical.weight()
    }
}

/// The error of this module that says what `error` says.
fn compound_error(error: crate::alchemy::compound::CompoundError) -> (converted: CompoundError)
    ensures
        match error {
            crate::alchemy::compound::CompoundError::SizeError { size } => converted == (
                CompoundError::SizeError { size }),
            crate::alchemy::compound::CompoundError::ParseError => converted
                == CompoundError::ParseError,
        },
{
    match error {
        crate::alchemy::compound::CompoundError::SizeError { size } => CompoundError::SizeError {
            size,
        },
        crate::alchemy::compound::CompoundError::ParseError => CompoundError::ParseError,
    }
}

impl Compound {
    /// Whether the compound is what every compound that was made is: clean,
    /// and of weight `COMPOUND_WEIGHT`.
    pub open spec fn is_valid(&self) -> bool {
        is_clean(self@) && weight_of(self@) == COMPOUND_WEIGHT
    }

    /// Makes a compound of `element_counts`, without their zero entries.
    /// Fails with the weight of the counts where that is not
    /// `COMPOUND_WEIGHT`.
    pub fn try_from(element_counts: ElementCounts) -> (result: Result<Compound, CompoundError>)
        ensures
            match result {
                Ok(compound) => {
                    &&& weight_of(element_counts@) == COMPOUND_WEIGHT
                    &&& compound@ == cleaned(element_counts@)
                    &&& compound.is_valid()
                },
                Err(error) => {
                    &&& weight_of(element_counts@) != COMPOUND_WEIGHT
                    &&& error matches CompoundError::SizeError { size }
                    &&& size == weight_of(element_counts@)
                },
            },
    {
        match Alchemical::<7>::try_from(element_counts) {
            Ok(alchemical) => Ok(Compound { alchemical }),
            Err(error) => Err(compound_error(error)),
        }
    }

    /// Makes a compound of the counts of the five elements. An element with
    /// count 0 is not part of the compound. Fails with the weight
    /// `a + 2b + 3c + 4d + 5e` where that is not `COMPOUND_WEIGHT`.
    pub fn try_from_element_counts(a: u32, b: u32, c: u32, d: u32, e: u32) -> (result: Result<
        Compound,
        CompoundError,
    >)
        ensures
            match result {
                Ok(compound) => {
                    &&& a + 2 * b + 3 * c + 4 * d + 5 * e == COMPOUND_WEIGHT
                    &&& compound@ == cleaned(
                        counts_from(a as nat, b as nat, c as nat, d as nat, e as nat),
                    )
                    &&& compound.is_valid()
                },
                Err(error) => {
                    &&& a + 2 * b + 3 * c + 4 * d + 5 * e != COMPOUND_WEIGHT
                    &&& error matches CompoundError::SizeError { size }
                    &&& size == a + 2 * b + 3 * c + 4 * d + 5 * e
                },
            },
    {
        match Alchemical::<7>::try_from_element_counts(a, b, c, d, e) {
            Ok(alchemical) => Ok(Compound { alchemical }),
            Err(error) => Err(compound_error(error)),
        }
    }

    /// Reads a compound from its notation.
    ///
    /// Fails with `ParseError` where `value` is not in the notation, and with
    /// the weight of what it denotes where that is not `COMPOUND_WEIGHT`.
    pub fn from_str(value: &str) -> (result: Result<Compound, CompoundError>)
        ensures
            match parse_notation(value@) {
                Some(counts) => match result {
                    Ok(compound) => {
                        &&& weight_of(counts) == COMPOUND_WEIGHT
                        &&& compound@ == cleaned(counts)
                        &&& compound.is_valid()
                    },
                    Err(error) => {
                        &&& weight_of(counts) != COMPOUND_WEIGHT
                        &&& error matches CompoundError::SizeError { size }
                        &&& size == weight_of(counts)
                    },
                },
                None => result == Err::<Compound, CompoundError>(CompoundError::ParseError),
            },
    {
        match Alchemical::<7>::from_str(value) {
            Ok(alchemical) => Ok(Compound { alchemical }),
            Err(error) => Err(compound_error(error)),
        }
    }

    /// The compound in the canonical notation.
    pub fn to_string(&self) -> (text: String)
        ensures
            text@ == notation_of(self@),
    {
        self.alchemical.to_string()
    }

    /// Whether the compound has the weight `COMPOUND_WEIGHT`. It always has.
    pub fn validate(&self) -> (valid: bool)
        ensures
            valid,
            self.is_valid(),
    {
        self.alchemical.validate()
    }

    /// Removes the entries with count 0: the compound then holds what it held
    /// without its zero entries, and is clean and of weight
    /// `COMPOUND_WEIGHT`. A compound has no zero entry, so this changes
    /// nothing.
    pub fn clean(&mut self)
        ensures
            final(self)@ == cleaned(old(self)@),
            final(self).is_valid(),
            *final(self) == *old(self),
    {
        self.alchemical.clean();
    }

    /// Lets the compound react with `other`: replaces the two by the two
    /// sides of one of the outcomes of their reaction, picked at random.
    ///
    /// Whatever is picked, both are compounds afterwards, and together they
    /// hold of every element what the two held before. The outcome that
    /// changes nothing can be the one that is picked.
    pub fn react(&mut self, other: &mut Compound)
        ensures
            is_reaction(
                old(self)@,
                old(other)@,
                COMPOUND_WEIGHT as nat,
                final(self)@,
                final(other)@,
            ),
            final(self).is_valid(),
            final(other).is_valid(),
            final(self).weight_spec() == COMPOUND_WEIGHT,
            final(other).weight_spec() == COMPOUND_WEIGHT,
    {
        self.alchemical.react(&mut other.alchemical);
    }
}

} // verus!
