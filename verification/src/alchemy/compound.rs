//! Compounds of a fixed weight, their notation and their reactions.

use crate::alchemy::element::Element;
use crate::alchemy::element_counts::{
    cleaned, count_of, element_counts_parser, is_clean, lemma_clean_counts_determine,
    lemma_cleaned_keeps_counts, lemma_counts_within_weight, sum_of, weight_of, ElementCounts,
};
use crate::alchemy::rearrangement::{
    element_rearrangements, element_rearrangements_of_both, is_reaction, is_rearrangement,
    lemma_reaction_closure, lemma_reaction_is_rearrangement, pairs_of,
};
use crate::alchemy::notation::{
    element_counts_notation, lemma_notation_round_trip, letters_of, notation_of, parse_notation,
};
use crate::alchemy::order::{
    comes_first, holds, is_descending, lemma_descending_is_unique, lemma_precedes_is_total,
    precedes,
};
use crate::alchemy::AltonWeighable;
use vstd::prelude::*;

verus! {

/// Why a compound could not be made.
#[derive(Copy, Clone, Eq, PartialEq, Debug, Structural)]
pub enum CompoundError {
    /// The counts do not have the weight of the compound; `size` is the
    /// weight that they have.
    SizeError { size: u64 },
    /// The text is not in the notation.
    ParseError,
}

/// A compound of weight `W`: element counts without zero entries that weigh
/// exactly `W`.
#[derive(Copy, Clone, Eq, Debug, Hash)]
pub struct Alchemical<const W: u32> {
    element_counts: ElementCounts,
}

/// The compound of the standard weight.
pub type Compound = Alchemical<7>;

impl<const W: u32> View for Alchemical<W> {
    type V = Map<Element, nat>;

    closed spec fn view(&self) -> Map<Element, nat> {
        self.element_counts@
    }
}

impl<const W: u32> PartialEq for Alchemical<W> {
    fn eq(&self, other: &Self) -> (equal: bool) {
        self.element_counts == other.element_counts
    }
}

impl<const W: u32> vstd::std_specs::cmp::PartialEqSpecImpl for Alchemical<W> {
    open spec fn obeys_eq_spec() -> bool {
        true
    }

    open spec fn eq_spec(&self, other: &Self) -> bool {
        *self == *other
    }
}

impl<const W: u32> AltonWeighable for Alchemical<W> {
    open spec fn weight_spec(&self) -> nat {
        weight_of(self@)
    }

    fn weight(&self) -> (weight: u64)
        ensures
            weight == W,
    {
        proof {
            use_type_invariant(self);
        }
        self.element_counts.weight()
    }
}

/// What pairs of compounds hold.
pub open spec fn reactions_of<const W: u32>(reactions: Seq<(Alchemical<W>, Alchemical<W>)>) -> Seq<
    (Map<Element, nat>, Map<Element, nat>),
> {
    Seq::new(reactions.len(), |index: int| (reactions[index].0@, reactions[index].1@))
}

/// The counts with an entry for each of the five elements.
pub open spec fn counts_from(a: nat, b: nat, c: nat, d: nat, e: nat) -> Map<Element, nat> {
    Map::<Element, nat>::empty().insert(Element::A, a).insert(Element::B, b).insert(
        Element::C,
        c,
    ).insert(Element::D, d).insert(Element::E, e)
}

impl<const W: u32> Alchemical<W> {
    #[verifier::type_invariant]
    spec fn well_formed(self) -> bool {
        self.is_valid()
    }

    /// Whether the compound is what every compound that was made is: clean,
    /// and of weight `W`.
    pub open spec fn is_valid(&self) -> bool {
        is_clean(self@) && weight_of(self@) == W
    }

    /// Makes a compound of `element_counts`, without their zero entries.
    /// Fails with the weight of the counts where that is not `W`.
    pub fn try_from(element_counts: ElementCounts) -> (result: Result<Alchemical<W>, CompoundError>)
        ensures
            match result {
                Ok(compound) => {
                    &&& weight_of(element_counts@) == W
                    &&& compound@ == cleaned(element_counts@)
                    &&& compound.is_valid()
                },
                Err(error) => {
                    &&& weight_of(element_counts@) != W
                    &&& error matches CompoundError::SizeError { size }
                    &&& size == weight_of(element_counts@)
                },
            },
    {
        let mut counts = element_counts;
        counts.clean();
        proof {
            lemma_cleaned_keeps_counts(element_counts@);
        }
        let size = counts.weight();
        if size == W as u64 {
            Ok(Alchemical { element_counts: counts })
        } else {
            Err(CompoundError::SizeError { size })
        }
    }

    /// Makes a compound of the counts of the five elements. An element with
    /// count 0 is not part of the compound. Fails with the weight
    /// `a + 2b + 3c + 4d + 5e` where that is not `W`.
    pub fn try_from_element_counts(a: u32, b: u32, c: u32, d: u32, e: u32) -> (result: Result<
        Alchemical<W>,
        CompoundError,
    >)
        ensures
            match result {
                Ok(compound) => {
                    &&& a + 2 * b + 3 * c + 4 * d + 5 * e == W
                    &&& compound@ == cleaned(
                        counts_from(a as nat, b as nat, c as nat, d as nat, e as nat),
                    )
                    &&& compound.is_valid()
                },
                Err(error) => {
                    &&& a + 2 * b + 3 * c + 4 * d + 5 * e != W
                    &&& error matches CompoundError::SizeError { size }
                    &&& size == a + 2 * b + 3 * c + 4 * d + 5 * e
                },
            },
    {
        let mut element_counts = ElementCounts::new();
        element_counts.insert(Element::A, a);
        element_counts.insert(Element::B, b);
        element_counts.insert(Element::C, c);
        element_counts.insert(Element::D, d);
        element_counts.insert(Element::E, e);
        Self::try_from(element_counts)
    }

    /// Reads a compound from its notation.
    ///
    /// Fails with `ParseError` where `value` is not in the notation, and with
    /// the weight of what it denotes where that is not `W`.
    pub fn from_str(value: &str) -> (result: Result<Alchemical<W>, CompoundError>)
        ensures
            match parse_notation(value@) {
                Some(counts) => match result {
                    Ok(compound) => {
                        &&& weight_of(counts) == W
                        &&& compound@ == cleaned(counts)
                        &&& compound.is_valid()
                    },
                    Err(error) => {
                        &&& weight_of(counts) != W
                        &&& error matches CompoundError::SizeError { size }
                        &&& size == weight_of(counts)
                    },
                },
                None => result == Err::<Alchemical<W>, CompoundError>(CompoundError::ParseError),
            },
    {
        let letters = letters_of(value);
        let (element_counts, end) = element_counts_parser(letters.as_slice());
        if end == letters.len() {
            Self::try_from(element_counts)
        } else {
            Err(CompoundError::ParseError)
        }
    }

    /// The compound in the canonical notation.
    pub fn to_string(&self) -> (text: String)
        ensures
            text@ == notation_of(self@),
    {
        element_counts_notation(&self.element_counts)
    }

    /// The counts of the compound.
    pub fn element_counts(&self) -> (element_counts: ElementCounts)
        ensures
            element_counts@ == self@,
            self.is_valid(),
    {
        proof {
            use_type_invariant(self);
        }
        self.element_counts
    }

    /// Whether the compound has the weight `W`. It always has.
    pub fn validate(&self) -> (valid: bool)
        ensures
            valid,
            self.is_valid(),
    {
        proof {
            use_type_invariant(self);
        }
        self.weight() == W as u64
    }

    /// Removes the entries with count 0: the compound then holds what it held
    /// without its zero entries, and is clean and of weight `W`. A compound
    /// has no zero entry, so this changes nothing.
    pub fn clean(&mut self)
        ensures
            final(self)@ == cleaned(old(self)@),
            final(self).is_valid(),
            *final(self) == *old(self),
    {
        proof {
            use_type_invariant(&*self);
        }
        let mut element_counts = self.element_counts;
        element_counts.clean();
        proof {
            lemma_cleaned_keeps_counts(self@);
            lemma_clean_counts_determine(element_counts@, self@);
            element_counts.lemma_view_injective(self.element_counts);
        }
        self.element_counts = element_counts;
    }

    /// Enumerates the ways to give every single element of
    /// `total_element_counts` to the left or to the right accumulator so that
    /// both sides then weigh exactly `W`.
    ///
    /// Returns each such pair of compounds once, the pairs in the descending
    /// order of their left sides. A branch of the search ends as soon as one
    /// side is heavier than `W`; where the elements cannot be shared out to
    /// the weight, nothing is returned.
    pub fn reaction_recursion(
        total_element_counts: &ElementCounts,
        left_element_counts: ElementCounts,
        right_element_counts: ElementCounts,
    ) -> (reactions: Vec<(Alchemical<W>, Alchemical<W>)>)
        ensures
            reactions@.no_duplicates(),
            is_descending(reactions_of(reactions@)),
            forall|left: Alchemical<W>, right: Alchemical<W>| #[trigger]
                reactions@.contains((left, right)) <==> is_rearrangement(
                    total_element_counts@,
                    left_element_counts@,
                    right_element_counts@,
                    W as nat,
                    left@,
                    right@,
                ),
    {
        let found = element_rearrangements(
            total_element_counts,
            left_element_counts,
            right_element_counts,
            W as u64,
        );
        let reactions = Self::compounds_of(
            found,
            Ghost(total_element_counts@),
            Ghost(left_element_counts@),
            Ghost(right_element_counts@),
        );
        reactions
    }

    /// The pairs of compounds that hold what the pairs of counts that were
    /// found hold.
    fn compounds_of(
        found: Vec<(ElementCounts, ElementCounts)>,
        Ghost(remaining): Ghost<Map<Element, nat>>,
        Ghost(left_start): Ghost<Map<Element, nat>>,
        Ghost(right_start): Ghost<Map<Element, nat>>,
    ) -> (reactions: Vec<(Alchemical<W>, Alchemical<W>)>)
        requires
            found@.no_duplicates(),
            forall|left: ElementCounts, right: ElementCounts| #[trigger]
                found@.contains((left, right)) <==> is_rearrangement(
                    remaining,
                    left_start,
                    right_start,
                    W as nat,
                    left@,
                    right@,
                ),
        ensures
            reactions@.no_duplicates(),
            reactions_of(reactions@) == pairs_of(found@),
            forall|left: Alchemical<W>, right: Alchemical<W>| #[trigger]
                reactions@.contains((left, right)) <==> is_rearrangement(
                    remaining,
                    left_start,
                    right_start,
                    W as nat,
                    left@,
                    right@,
                ),
    {
        let mut reactions: Vec<(Alchemical<W>, Alchemical<W>)> = Vec::new();
        let mut index: usize = 0;
        while index < found.len()
            invariant
                index <= found.len(),
                reactions.len() == index,
                forall|i: int|
                    0 <= i < index ==> (#[trigger] reactions@[i]).0.element_counts == found@[i].0
                        && reactions@[i].1.element_counts == found@[i].1,
                forall|left: ElementCounts, right: ElementCounts| #[trigger]
                    found@.contains((left, right)) <==> is_rearrangement(
                        remaining,
                        left_start,
                        right_start,
                        W as nat,
                        left@,
                        right@,
                    ),
            decreases found.len() - index,
        {
            let (left, right) = found[index];
            assert(found@.contains((left, right)));
            reactions.push(
                (Alchemical { element_counts: left }, Alchemical { element_counts: right }),
            );
            index += 1;
        }
        assert forall|i: int, j: int|
            0 <= i < reactions.len() && 0 <= j < reactions.len() && i != j implies reactions@[i]
            != reactions@[j] by {
            assert(found@[i] != found@[j]);
        }
        assert(reactions_of(reactions@) =~= pairs_of(found@));
        assert forall|left: Alchemical<W>, right: Alchemical<W>| #[trigger]
            reactions@.contains((left, right)) <==> is_rearrangement(
                remaining,
                left_start,
                right_start,
                W as nat,
                left@,
                right@,
            ) by {
            let pair = (left.element_counts, right.element_counts);
            if reactions@.contains((left, right)) {
                let i = choose|i: int| 0 <= i < reactions.len() && reactions@[i] == (left, right);
                assert(found@[i] == pair);
                assert(found@.contains(pair));
            }
            if found@.contains(pair) {
                let i = choose|i: int| 0 <= i < found.len() && found@[i] == pair;
                assert(reactions@[i] == (left, right));
            }
        }
        reactions
    }

    /// Every outcome of a reaction of the compound with `other`: each pair of
    /// compounds that together hold the elements of the two, once, in the
    /// descending order of the left sides. The pair of the two as they are is
    /// among them, in both orders.
    pub fn react_search(&self, other: &Alchemical<W>) -> (reactions: Vec<
        (Alchemical<W>, Alchemical<W>),
    >)
        ensures
            reactions@.no_duplicates(),
            is_descending(reactions_of(reactions@)),
            forall|left: Alchemical<W>, right: Alchemical<W>| #[trigger]
                reactions@.contains((left, right)) <==> is_reaction(
                    self@,
                    other@,
                    W as nat,
                    left@,
                    right@,
                ),
            reactions_of(reactions@) == outcomes_of(self@, other@, W as nat),
            reactions@.contains((*self, *other)),
            reactions@.contains((*other, *self)),
            reactions.len() > 0,
    {
        proof {
            use_type_invariant(self);
            use_type_invariant(other);
        }
        let nothing = ElementCounts::new();
        let found = element_rearrangements_of_both(
            self.element_counts,
            other.element_counts,
            nothing,
            nothing,
            W as u64,
        );
        let reactions = Self::compounds_of(
            found,
            Ghost(sum_of(self@, other@)),
            Ghost(nothing@),
            Ghost(nothing@),
        );
        proof {
            assert forall|left: Alchemical<W>, right: Alchemical<W>| #[trigger]
                reactions@.contains((left, right)) <==> is_reaction(
                    self@,
                    other@,
                    W as nat,
                    left@,
                    right@,
                ) by {
                lemma_reaction_is_rearrangement(self@, other@, W as nat, left@, right@);
            }
            lemma_reaction_closure(self@, other@, W as nat);
            assert(reactions@.contains((*self, *other)));
            assert(reactions@.contains((*other, *self)));
            let index = choose|index: int|
                0 <= index < reactions@.len() && reactions@[index] == (*self, *other);
            assert(0 <= index < reactions@.len());
            assert forall|left: Map<Element, nat>, right: Map<Element, nat>| #[trigger]
                holds(reactions_of(reactions@), (left, right)) <==> is_reaction(
                    self@,
                    other@,
                    W as nat,
                    left,
                    right,
                ) by {
                lemma_held_reactions(reactions@, left, right);
                if holds(reactions_of(reactions@), (left, right)) {
                    let (left_compound, right_compound) = choose|
                        left_compound: Alchemical<W>,
                        right_compound: Alchemical<W>,
                    |
                        left_compound@ == left && right_compound@ == right
                            && #[trigger] reactions@.contains((left_compound, right_compound));
                    assert(reactions@.contains((left_compound, right_compound)));
                }
                if is_reaction(self@, other@, W as nat, left, right) {
                    lemma_compound_of::<W>(left);
                    lemma_compound_of::<W>(right);
                    assert(reactions@.contains(
                        (compound_of::<W>(left), compound_of::<W>(right)),
                    ) == is_reaction(self@, other@, W as nat, left, right));
                }
            }
            assert(is_outcomes(self@, other@, W as nat, reactions_of(reactions@)));
            lemma_outcomes_are_unique(
                self@,
                other@,
                W as nat,
                reactions_of(reactions@),
                outcomes_of(self@, other@, W as nat),
            );
        }
        reactions
    }

    /// The outcomes of a reaction of the compound with `other`, each
    /// unordered pair once: of an outcome and its mirror image, the one
    /// whose left compound comes first is returned. The pairs are returned
    /// in the descending order of their left sides.
    pub fn set_of_possible_reactions(&self, other: &Alchemical<W>) -> (reactions: Vec<
        (Alchemical<W>, Alchemical<W>),
    >)
        ensures
            reactions@.no_duplicates(),
            is_descending(reactions_of(reactions@)),
            forall|left: Alchemical<W>, right: Alchemical<W>| #[trigger]
                reactions@.contains((left, right)) <==> is_possible_reaction(
                    self@,
                    other@,
                    W as nat,
                    left@,
                    right@,
                ),
            reactions_of(reactions@) == possible_reactions_of(self@, other@, W as nat),
    {
        let outcomes = self.react_search(other);
        let mut reactions: Vec<(Alchemical<W>, Alchemical<W>)> = Vec::new();
        let mut index: usize = 0;
        while index < outcomes.len()
            invariant
                index <= outcomes.len(),
                outcomes@.no_duplicates(),
                is_descending(reactions_of(outcomes@)),
                reactions@.no_duplicates(),
                is_descending(reactions_of(reactions@)),
                forall|pair: (Alchemical<W>, Alchemical<W>)| #[trigger]
                    reactions@.contains(pair) <==> outcomes@.take(index as int).contains(pair)
                        && !precedes(pair.1@, pair.0@),
            decreases outcomes.len() - index,
        {
            let (left, right) = outcomes[index];
            let ghost before = reactions@;
            let ghost earlier = outcomes@.take(index as int);
            let ghost later = outcomes@.take(index + 1);
            let mirrored = comes_first(&right.element_counts, &left.element_counts);
            if !mirrored {
                reactions.push((left, right));
            }
            proof {
                assert(later == earlier.push((left, right)));
                assert forall|pair: (Alchemical<W>, Alchemical<W>)| #[trigger]
                    later.contains(pair) <==> earlier.contains(pair) || pair == (left, right) by {
                    if earlier.contains(pair) {
                        let i = choose|i: int| 0 <= i < earlier.len() && earlier[i] == pair;
                        assert(later[i] == pair);
                    }
                    if pair == (left, right) {
                        assert(later[index as int] == pair);
                    }
                }
                if earlier.contains((left, right)) {
                    let i = choose|i: int| 0 <= i < earlier.len() && earlier[i] == (left, right);
                    assert(outcomes@[i] == outcomes@[index as int]);
                }
                assert(!before.contains((left, right)));
                if !mirrored {
                    assert(reactions@ == before.push((left, right)));
                    assert forall|i: int, j: int|
                        0 <= i < reactions.len() && 0 <= j < reactions.len() && i
                            != j implies reactions@[i] != reactions@[j] by {
                        if i < before.len() {
                            assert(before.contains(before[i]));
                        }
                        if j < before.len() {
                            assert(before.contains(before[j]));
                        }
                    }
                    assert forall|first: int, second: int|
                        0 <= first < second < reactions.len() implies precedes(
                        (#[trigger] reactions_of(reactions@)[first]).0,
                        (#[trigger] reactions_of(reactions@)[second]).0,
                    ) by {
                        if second < before.len() {
                            assert(reactions_of(reactions@)[first] == reactions_of(before)[first]);
                            assert(reactions_of(reactions@)[second] == reactions_of(
                                before,
                            )[second]);
                        } else {
                            let held = before[first];
                            assert(before.contains(held));
                            let at = choose|at: int|
                                0 <= at < earlier.len() && earlier[at] == held;
                            assert(precedes(
                                reactions_of(outcomes@)[at].0,
                                reactions_of(outcomes@)[index as int].0,
                            ));
                        }
                    }
                    assert forall|pair: (Alchemical<W>, Alchemical<W>)| #[trigger]
                        reactions@.contains(pair) <==> before.contains(pair) || pair == (
                            left,
                            right,
                        ) by {
                        if before.contains(pair) {
                            let i = choose|i: int| 0 <= i < before.len() && before[i] == pair;
                            assert(reactions@[i] == pair);
                        }
                        if pair == (left, right) {
                            assert(reactions@[before.len() as int] == pair);
                        }
                    }
                }
            }
            index += 1;
        }
        assert(outcomes@.take(outcomes.len() as int) == outcomes@);
        proof {
            assert forall|left: Map<Element, nat>, right: Map<Element, nat>| #[trigger]
                holds(reactions_of(reactions@), (left, right)) <==> is_possible_reaction(
                    self@,
                    other@,
                    W as nat,
                    left,
                    right,
                ) by {
                lemma_held_reactions(reactions@, left, right);
                if holds(reactions_of(reactions@), (left, right)) {
                    let (left_compound, right_compound) = choose|
                        left_compound: Alchemical<W>,
                        right_compound: Alchemical<W>,
                    |
                        left_compound@ == left && right_compound@ == right
                            && #[trigger] reactions@.contains((left_compound, right_compound));
                    assert(reactions@.contains((left_compound, right_compound)));
                }
                if is_reaction(self@, other@, W as nat, left, right) {
                    lemma_compound_of::<W>(left);
                    lemma_compound_of::<W>(right);
                    assert(reactions@.contains(
                        (compound_of::<W>(left), compound_of::<W>(right)),
                    ) == is_possible_reaction(self@, other@, W as nat, left, right));
                }
            }
            assert(is_possible_reactions(self@, other@, W as nat, reactions_of(reactions@)));
            lemma_outcomes_are_unique(
                self@,
                other@,
                W as nat,
                reactions_of(reactions@),
                possible_reactions_of(self@, other@, W as nat),
            );
        }
        reactions
    }

    /// Replaces the compound and `other` by the two sides of the reaction at
    /// `index` of `reactions`.
    pub fn select_reaction(
        &mut self,
        other: &mut Alchemical<W>,
        reactions: &Vec<(Alchemical<W>, Alchemical<W>)>,
        index: usize,
    )
        requires
            index < reactions.len(),
        ensures
            *final(self) == reactions@[index as int].0,
            *final(other) == reactions@[index as int].1,
    {
        let (self_reaction, other_reaction) = reactions[index];
        *self = self_reaction;
        *other = other_reaction;
        self.clean();
        other.clean();
    }

    /// Lets the compound react with `other`: replaces the two by the two
    /// sides of one of the outcomes of their reaction, picked at random.
    ///
    /// Whatever is picked, both are compounds of weight `W` afterwards, and
    /// together they hold of every element what the two held before. The
    /// outcome that changes nothing can be the one that is picked.
    pub fn react(&mut self, other: &mut Alchemical<W>)
        ensures
            is_reaction(old(self)@, old(other)@, W as nat, final(self)@, final(other)@),
            final(self).is_valid(),
            final(other).is_valid(),
            final(self).weight_spec() == W,
            final(other).weight_spec() == W,
    {
        let possible_reactions = self.react_search(other);
        match choose_index(possible_reactions.len()) {
            Some(index) => {
                assert(possible_reactions@.contains(possible_reactions@[index as int]));
                self.select_reaction(other, &possible_reactions, index);
            },
            None => {
                // There is always an outcome to pick: the two as they are.
                assert(false);
            },
        }
    }
}

/// Whether `outcomes` is the sequence of the outcomes of a reaction of
/// `first` with `second`: holds every reaction of the two, and nothing else,
/// in the descending order of the left sides.
pub open spec fn is_outcomes(
    first: Map<Element, nat>,
    second: Map<Element, nat>,
    weight: nat,
    outcomes: Seq<(Map<Element, nat>, Map<Element, nat>)>,
) -> bool {
    &&& is_descending(outcomes)
    &&& forall|left: Map<Element, nat>, right: Map<Element, nat>| #[trigger]
        holds(outcomes, (left, right)) <==> is_reaction(first, second, weight, left, right)
}

/// Whether `reactions` is the sequence of the possible reactions of `first`
/// with `second`: holds of every reaction of the two, and of its mirror
/// image, the one whose mirror image does not come first, and nothing else,
/// in the descending order of the left sides.
pub open spec fn is_possible_reactions(
    first: Map<Element, nat>,
    second: Map<Element, nat>,
    weight: nat,
    reactions: Seq<(Map<Element, nat>, Map<Element, nat>)>,
) -> bool {
    &&& is_descending(reactions)
    &&& forall|left: Map<Element, nat>, right: Map<Element, nat>| #[trigger]
        holds(reactions, (left, right)) <==> is_possible_reaction(
            first,
            second,
            weight,
            left,
            right,
        )
}

/// The sequence of the possible reactions of `first` with `second`.
pub open spec fn possible_reactions_of(
    first: Map<Element, nat>,
    second: Map<Element, nat>,
    weight: nat,
) -> Seq<(Map<Element, nat>, Map<Element, nat>)> {
    choose|reactions: Seq<(Map<Element, nat>, Map<Element, nat>)>|
        is_possible_reactions(first, second, weight, reactions)
}

/// The sequence of the outcomes of a reaction of `first` with `second`.
pub open spec fn outcomes_of(
    first: Map<Element, nat>,
    second: Map<Element, nat>,
    weight: nat,
) -> Seq<(Map<Element, nat>, Map<Element, nat>)> {
    choose|outcomes: Seq<(Map<Element, nat>, Map<Element, nat>)>|
        is_outcomes(first, second, weight, outcomes)
}

/// Whether `(left, right)` is an outcome that `set_of_possible_reactions`
/// returns: a reaction whose mirror image does not come first.
pub open spec fn is_possible_reaction(
    first: Map<Element, nat>,
    second: Map<Element, nat>,
    weight: nat,
    left: Map<Element, nat>,
    right: Map<Element, nat>,
) -> bool {
    is_reaction(first, second, weight, left, right) && !precedes(right, left)
}

/// Picks an index below `len` at random, with `IteratorRandom::choose` of the
/// crate `rand` on the range from 0 to `len` and the generator of the thread.
///
/// `choose` returns `None` if and only if the iterator is empty, and else one
/// of its items: here a number from 0 up to `len`, `len` excluded.
#[verifier::external_body]
fn choose_index(len: usize) -> (index: Option<usize>)
    ensures
        index is None <==> len == 0,
        index matches Some(i) ==> i < len,
{
    rand::seq::IteratorRandom::choose(0..len, &mut rand::thread_rng())
}

/// The compound that holds `counts`.
pub closed spec fn compound_of<const W: u32>(counts: Map<Element, nat>) -> Alchemical<W> {
    Alchemical { element_counts: ElementCounts::from_map(counts) }
}

/// Clean counts of weight `W` are the counts of a compound.
pub proof fn lemma_compound_of<const W: u32>(counts: Map<Element, nat>)
    requires
        weight_of(counts) == W,
    ensures
        compound_of::<W>(counts)@ == counts,
{
    lemma_counts_within_weight(counts);
    ElementCounts::lemma_from_map(counts);
}

/// Reactions hold a pair of counts when they hold the pair of the compounds
/// of those counts.
pub proof fn lemma_held_reactions<const W: u32>(
    reactions: Seq<(Alchemical<W>, Alchemical<W>)>,
    left: Map<Element, nat>,
    right: Map<Element, nat>,
)
    ensures
        holds(reactions_of(reactions), (left, right)) <==> exists|
            left_compound: Alchemical<W>,
            right_compound: Alchemical<W>,
        |
            left_compound@ == left && right_compound@ == right && #[trigger] reactions.contains(
                (left_compound, right_compound),
            ),
{
    if holds(reactions_of(reactions), (left, right)) {
        let index = choose|index: int|
            0 <= index < reactions_of(reactions).len() && #[trigger] reactions_of(reactions)[index]
                == (left, right);
        assert(reactions.contains((reactions[index].0, reactions[index].1)));
    }
    if exists|left_compound: Alchemical<W>, right_compound: Alchemical<W>|
        left_compound@ == left && right_compound@ == right && #[trigger] reactions.contains(
            (left_compound, right_compound),
        ) {
        let (left_compound, right_compound) = choose|
            left_compound: Alchemical<W>,
            right_compound: Alchemical<W>,
        |
            left_compound@ == left && right_compound@ == right && #[trigger] reactions.contains(
                (left_compound, right_compound),
            );
        let index = choose|index: int|
            0 <= index < reactions.len() && reactions[index] == (left_compound, right_compound);
        assert(reactions_of(reactions)[index] == (left, right));
    }
}

/// A reaction has one sequence of outcomes only, and one sequence of possible
/// reactions.
pub proof fn lemma_outcomes_are_unique(
    first: Map<Element, nat>,
    second: Map<Element, nat>,
    weight: nat,
    one: Seq<(Map<Element, nat>, Map<Element, nat>)>,
    other: Seq<(Map<Element, nat>, Map<Element, nat>)>,
)
    ensures
        is_outcomes(first, second, weight, one) && is_outcomes(first, second, weight, other) ==> one
            == other,
        is_possible_reactions(first, second, weight, one) && is_possible_reactions(
            first,
            second,
            weight,
            other,
        ) ==> one == other,
{
    if is_outcomes(first, second, weight, one) && is_outcomes(first, second, weight, other) {
        assert forall|index: int| 0 <= index < one.len() implies holds(
            other,
            #[trigger] one[index],
        ) by {
            assert(holds(one, (one[index].0, one[index].1)));
        }
        assert forall|index: int| 0 <= index < other.len() implies holds(
            one,
            #[trigger] other[index],
        ) by {
            assert(holds(other, (other[index].0, other[index].1)));
        }
        lemma_descending_is_unique(one, other);
    }
    if is_possible_reactions(first, second, weight, one) && is_possible_reactions(
        first,
        second,
        weight,
        other,
    ) {
        assert forall|index: int| 0 <= index < one.len() implies holds(
            other,
            #[trigger] one[index],
        ) by {
            assert(holds(one, (one[index].0, one[index].1)));
        }
        assert forall|index: int| 0 <= index < other.len() implies holds(
            one,
            #[trigger] other[index],
        ) by {
            assert(holds(other, (other[index].0, other[index].1)));
        }
        lemma_descending_is_unique(one, other);
    }
}

/// Compounds with the same counts are the same compound.
pub proof fn lemma_same_counts_same_compound<const W: u32>(
    first: Alchemical<W>,
    second: Alchemical<W>,
)
    requires
        first@ == second@,
    ensures
        first == second,
{
    first.element_counts.lemma_view_injective(second.element_counts);
}

/// Writing a compound down and reading it back gives the compound: its
/// notation denotes its counts, which have the weight and no zero entry, so
/// that `from_str` of what `to_string` wrote returns the compound.
pub proof fn lemma_round_trip<const W: u32>(compound: Alchemical<W>)
    requires
        compound.is_valid(),
    ensures
        parse_notation(notation_of(compound@)) == Some(compound@),
        weight_of(compound@) == W,
        cleaned(compound@) == compound@,
{
    lemma_counts_within_weight(compound@);
    lemma_notation_round_trip(compound@);
    lemma_cleaned_keeps_counts(compound@);
    lemma_clean_counts_determine(cleaned(compound@), compound@);
}

/// What `set_of_possible_reactions` returns does not depend on the order of
/// the two compounds, never holds an outcome together with its mirror image,
/// and holds every outcome of the reaction or its mirror image.
pub proof fn lemma_possible_reactions_symmetric(
    first: Map<Element, nat>,
    second: Map<Element, nat>,
    weight: nat,
    left: Map<Element, nat>,
    right: Map<Element, nat>,
)
    ensures
        is_possible_reaction(first, second, weight, left, right) == is_possible_reaction(
            second,
            first,
            weight,
            left,
            right,
        ),
        is_possible_reaction(first, second, weight, left, right) && is_possible_reaction(
            first,
            second,
            weight,
            right,
            left,
        ) ==> left == right,
        is_reaction(first, second, weight, left, right) ==> is_possible_reaction(
            first,
            second,
            weight,
            left,
            right,
        ) || is_possible_reaction(first, second, weight, right, left),
{
    assert(is_reaction(first, second, weight, left, right) == is_reaction(
        second,
        first,
        weight,
        left,
        right,
    )) by {
        if is_reaction(first, second, weight, left, right) {
            assert forall|element: Element| #[trigger]
                count_of(left, element) + count_of(right, element) == count_of(second, element)
                    + count_of(first, element) by {
                assert(count_of(left, element) + count_of(right, element) == count_of(
                    first,
                    element,
                ) + count_of(second, element));
            }
        }
        if is_reaction(second, first, weight, left, right) {
            assert forall|element: Element| #[trigger]
                count_of(left, element) + count_of(right, element) == count_of(first, element)
                    + count_of(second, element) by {
                assert(count_of(left, element) + count_of(right, element) == count_of(
                    second,
                    element,
                ) + count_of(first, element));
            }
        }
    }
    if is_reaction(first, second, weight, left, right) {
        lemma_precedes_is_total(left, right);
        assert forall|element: Element| #[trigger]
            count_of(right, element) + count_of(left, element) == count_of(first, element)
                + count_of(second, element) by {
            assert(count_of(left, element) + count_of(right, element) == count_of(first, element)
                + count_of(second, element));
        }
        assert(is_reaction(first, second, weight, right, left));
    }
}

/// The sequence of the possible reactions of two compounds is the same
/// whichever of the two is taken first, and so is the sequence of the
/// outcomes.
pub proof fn lemma_reactions_do_not_depend_on_order(
    first: Map<Element, nat>,
    second: Map<Element, nat>,
    weight: nat,
    reactions: Seq<(Map<Element, nat>, Map<Element, nat>)>,
)
    ensures
        is_possible_reactions(first, second, weight, reactions) == is_possible_reactions(
            second,
            first,
            weight,
            reactions,
        ),
        is_outcomes(first, second, weight, reactions) == is_outcomes(
            second,
            first,
            weight,
            reactions,
        ),
{
    assert forall|left: Map<Element, nat>, right: Map<Element, nat>|
        is_possible_reaction(first, second, weight, left, right) == is_possible_reaction(
            second,
            first,
            weight,
            left,
            right,
        ) && is_reaction(first, second, weight, left, right) == is_reaction(
            second,
            first,
            weight,
            left,
            right,
        ) by {
        lemma_possible_reactions_symmetric(first, second, weight, left, right);
        lemma_possible_reactions_symmetric(first, second, weight, right, left);
        lemma_precedes_is_total(left, right);
    }
    if is_possible_reactions(first, second, weight, reactions) {
        assert forall|left: Map<Element, nat>, right: Map<Element, nat>| #[trigger]
            holds(reactions, (left, right)) <==> is_possible_reaction(
                second,
                first,
                weight,
                left,
                right,
            ) by {}
    }
    if is_possible_reactions(second, first, weight, reactions) {
        assert forall|left: Map<Element, nat>, right: Map<Element, nat>| #[trigger]
            holds(reactions, (left, right)) <==> is_possible_reaction(
                first,
                second,
                weight,
                left,
                right,
            ) by {}
    }
    if is_outcomes(first, second, weight, reactions) {
        assert forall|left: Map<Element, nat>, right: Map<Element, nat>| #[trigger]
            holds(reactions, (left, right)) <==> is_reaction(
                second,
                first,
                weight,
                left,
                right,
            ) by {}
    }
    if is_outcomes(second, first, weight, reactions) {
        assert forall|left: Map<Element, nat>, right: Map<Element, nat>| #[trigger]
            holds(reactions, (left, right)) <==> is_reaction(
                first,
                second,
                weight,
                left,
                right,
            ) by {}
    }
}

} // verus!
