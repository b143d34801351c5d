//! The five elements and their one-letter tags.

use crate::alchemy::AltonWeighable;
use vstd::prelude::*;

verus! {

/// The most basic alchemical object.
///
/// The variants are declared in ascending order of weight, so the derived
/// order is the order by weight.
#[derive(Copy, Clone, Eq, PartialEq, PartialOrd, Ord, Debug, Hash, Structural)]
pub enum Element {
    A,
    B,
    C,
    D,
    E,
}

/// How many elements there are.
pub const ELEMENT_COUNT: usize = 5;

impl AltonWeighable for Element {
    open spec fn weight_spec(&self) -> nat {
        match self {
            Element::A => 1,
            Element::B => 2,
            Element::C => 3,
            Element::D => 4,
            Element::E => 5,
        }
    }

    fn weight(&self) -> (weight: u64) {
        match self {
            Element::A => 1,
            Element::B => 2,
            Element::C => 3,
            Element::D => 4,
            Element::E => 5,
        }
    }
}

impl Element {
    /// The position of the element in the order by weight, from 0.
    pub open spec fn rank(self) -> nat {
        match self {
            Element::A => 0,
            Element::B => 1,
            Element::C => 2,
            Element::D => 3,
            Element::E => 4,
        }
    }

    /// The element at a position in the order by weight. Positions past the
    /// last element give the heaviest one.
    pub open spec fn at_rank(rank: nat) -> Element {
        if rank == 0 {
            Element::A
        } else if rank == 1 {
            Element::B
        } else if rank == 2 {
            Element::C
        } else if rank == 3 {
            Element::D
        } else {
            Element::E
        }
    }

    /// The letter that stands for the element in the canonical notation.
    pub open spec fn tag_spec(self) -> char {
        match self {
            Element::A => 'a',
            Element::B => 'b',
            Element::C => 'c',
            Element::D => 'd',
            Element::E => 'e',
        }
    }

    /// The capital form of the tag, which the notation also accepts on input.
    pub open spec fn capital_tag_spec(self) -> char {
        match self {
            Element::A => 'A',
            Element::B => 'B',
            Element::C => 'C',
            Element::D => 'D',
            Element::E => 'E',
        }
    }

    /// Whether `letter` names this element, in either case.
    pub open spec fn is_tag(self, letter: char) -> bool {
        letter == self.tag_spec() || letter == self.capital_tag_spec()
    }

    /// The canonical, lower-case tag of the element.
    pub fn tag(&self) -> (letter: char)
        ensures
            letter == self.tag_spec(),
    {
        match self {
            Element::A => 'a',
            Element::B => 'b',
            Element::C => 'c',
            Element::D => 'd',
            Element::E => 'e',
        }
    }

    /// The capital tag of the element.
    pub fn capital_tag(&self) -> (letter: char)
        ensures
            letter == self.capital_tag_spec(),
    {
        match self {
            Element::A => 'A',
            Element::B => 'B',
            Element::C => 'C',
            Element::D => 'D',
            Element::E => 'E',
        }
    }
}

/// What reading the tag of `element` at `start` gives: the position after the
/// tag, or `None` where the input ends or holds another character there.
pub open spec fn parse_tag(input: Seq<char>, start: int, element: Element) -> Option<int> {
    if 0 <= start < input.len() && element.is_tag(input[start]) {
        Some(start + 1)
    } else {
        None
    }
}

/// Reads the tag of `element` at position `start` of `input`.
///
/// Returns the position after the tag when the character at `start` is the
/// element's letter in either case, and `None` otherwise.
pub fn element_parser_maker(element: Element, input: &[char], start: usize) -> (next: Option<usize>)
    ensures
        next is Some <==> parse_tag(input@, start as int, element) is Some,
        next matches Some(position) ==> parse_tag(input@, start as int, element) == Some(
            position as int,
        ) && position <= input@.len(),
{
    if start < input.len() {
        let letter: char = input[start];
        if letter == element.tag() || letter == element.capital_tag() {
            return Some(start + 1);
        }
    }
    None
}

} // verus!
