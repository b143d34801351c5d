//! The order of element counts, and of pairs of them by their left sides.
//!
//! Of two counts, the one with more of the heaviest element of which they
//! have different counts comes first.

use crate::alchemy::element::Element;
use crate::alchemy::element_counts::{
    count_of, is_clean, lemma_clean_counts_determine, ElementCounts,
};
use vstd::prelude::*;

verus! {

/// Whether `left` comes before `right`: whether it has more of the heaviest
/// element of which the two have different counts.
pub open spec fn precedes(left: Map<Element, nat>, right: Map<Element, nat>) -> bool {
    precedes_from(left, right, 4)
}

/// Whether `left` has more than `right` of the heaviest element, among those
/// up to `rank`, of which the two have different counts.
pub open spec fn precedes_from(left: Map<Element, nat>, right: Map<Element, nat>, rank: nat) -> bool
    decreases rank,
{
    let element = Element::at_rank(rank);
    if count_of(left, element) != count_of(right, element) {
        count_of(left, element) > count_of(right, element)
    } else if rank == 0 {
        false
    } else {
        precedes_from(left, right, (rank - 1) as nat)
    }
}

/// Whether the left sides of `pairs` descend: whether the left side of each
/// pair comes before the left sides of the pairs after it.
pub open spec fn is_descending(pairs: Seq<(Map<Element, nat>, Map<Element, nat>)>) -> bool {
    forall|first: int, second: int|
        0 <= first < second < pairs.len() ==> precedes(
            (#[trigger] pairs[first]).0,
            (#[trigger] pairs[second]).0,
        )
}

/// Whether `pairs` holds `pair`.
pub open spec fn holds(
    pairs: Seq<(Map<Element, nat>, Map<Element, nat>)>,
    pair: (Map<Element, nat>, Map<Element, nat>),
) -> bool {
    exists|index: int| 0 <= index < pairs.len() && #[trigger] pairs[index] == pair
}

/// Whether `left` comes before `right`.
pub fn comes_first(left: &ElementCounts, right: &ElementCounts) -> (first: bool)
    ensures
        first == precedes(left@, right@),
{
    proof {
        reveal_with_fuel(precedes_from, 5);
    }
    if left.count(Element::E) != right.count(Element::E) {
        left.count(Element::E) > right.count(Element::E)
    } else if left.count(Element::D) != right.count(Element::D) {
        left.count(Element::D) > right.count(Element::D)
    } else if left.count(Element::C) != right.count(Element::C) {
        left.count(Element::C) > right.count(Element::C)
    } else if left.count(Element::B) != right.count(Element::B) {
        left.count(Element::B) > right.count(Element::B)
    } else {
        left.count(Element::A) > right.count(Element::A)
    }
}

/// Of two different clean counts exactly one comes before the other, and none
/// comes before itself.
pub proof fn lemma_precedes_is_total(left: Map<Element, nat>, right: Map<Element, nat>)
    ensures
        !(precedes(left, right) && precedes(right, left)),
        is_clean(left) && is_clean(right) && left != right ==> precedes(left, right) || precedes(
            right,
            left,
        ),
        !precedes(left, left),
{
    reveal_with_fuel(precedes_from, 5);
    if is_clean(left) && is_clean(right) && !precedes(left, right) && !precedes(right, left) {
        assert forall|element: Element| count_of(left, element) == count_of(right, element) by {
            assert(element == Element::at_rank(element.rank()));
        }
        lemma_clean_counts_determine(left, right);
    }
}

/// Counts that come before counts that come before third ones come before
/// the third.
pub proof fn lemma_precedes_is_transitive(
    first: Map<Element, nat>,
    second: Map<Element, nat>,
    third: Map<Element, nat>,
)
    requires
        precedes(first, second),
        precedes(second, third),
    ensures
        precedes(first, third),
{
    reveal_with_fuel(precedes_from, 5);
}

/// Counts that have more of one element than others, and as much of every
/// heavier element, come before those.
pub proof fn lemma_precedes_at(
    left: Map<Element, nat>,
    right: Map<Element, nat>,
    element: Element,
)
    requires
        count_of(left, element) > count_of(right, element),
        forall|heavier: Element|
            element.rank() < heavier.rank() ==> #[trigger] count_of(left, heavier) == count_of(
                right,
                heavier,
            ),
    ensures
        precedes(left, right),
{
    reveal_with_fuel(precedes_from, 5);
    assert(element.rank() < Element::E.rank() ==> count_of(left, Element::E) == count_of(
        right,
        Element::E,
    ));
    assert(element.rank() < Element::D.rank() ==> count_of(left, Element::D) == count_of(
        right,
        Element::D,
    ));
    assert(element.rank() < Element::C.rank() ==> count_of(left, Element::C) == count_of(
        right,
        Element::C,
    ));
    assert(element.rank() < Element::B.rank() ==> count_of(left, Element::B) == count_of(
        right,
        Element::B,
    ));
}

/// Two sequences of pairs that hold the same pairs, each with descending
/// left sides, are the same sequence.
pub proof fn lemma_descending_is_unique(
    first: Seq<(Map<Element, nat>, Map<Element, nat>)>,
    second: Seq<(Map<Element, nat>, Map<Element, nat>)>,
)
    requires
        is_descending(first),
        is_descending(second),
        forall|index: int| 0 <= index < first.len() ==> holds(second, #[trigger] first[index]),
        forall|index: int| 0 <= index < second.len() ==> holds(first, #[trigger] second[index]),
    ensures
        first == second,
    decreases first.len(),
{
    if first.len() == 0 {
        if second.len() > 0 {
            assert(holds(first, second[0]));
        }
        assert(first =~= second);
    } else {
        assert(holds(second, first[0]));
        let in_second = choose|index: int|
            0 <= index < second.len() && #[trigger] second[index] == first[0];
        assert(holds(first, second[0]));
        let in_first = choose|index: int|
            0 <= index < first.len() && #[trigger] first[index] == second[0];
        lemma_precedes_is_total(first[0].0, second[0].0);
        if in_second > 0 {
            assert(precedes(second[0].0, second[in_second].0));
            if in_first > 0 {
                assert(precedes(first[0].0, first[in_first].0));
            }
        }
        assert(first[0] == second[0]);
        let first_rest = first.drop_first();
        let second_rest = second.drop_first();
        assert forall|one: int, other: int| 0 <= one < other < first_rest.len() implies precedes(
            (#[trigger] first_rest[one]).0,
            (#[trigger] first_rest[other]).0,
        ) by {
            assert(first_rest[one] == first[one + 1]);
            assert(first_rest[other] == first[other + 1]);
        }
        assert forall|one: int, other: int| 0 <= one < other < second_rest.len() implies precedes(
            (#[trigger] second_rest[one]).0,
            (#[trigger] second_rest[other]).0,
        ) by {
            assert(second_rest[one] == second[one + 1]);
            assert(second_rest[other] == second[other + 1]);
        }
        assert forall|index: int| 0 <= index < first_rest.len() implies holds(
            second_rest,
            #[trigger] first_rest[index],
        ) by {
            let pair = first[index + 1];
            assert(first_rest[index] == pair);
            assert(holds(second, pair));
            let found = choose|found: int|
                0 <= found < second.len() && #[trigger] second[found] == pair;
            assert(precedes(first[0].0, first[index + 1].0));
            lemma_precedes_is_total(first[0].0, pair.0);
            assert(found > 0);
            assert(second_rest[found - 1] == pair);
        }
        assert forall|index: int| 0 <= index < second_rest.len() implies holds(
            first_rest,
            #[trigger] second_rest[index],
        ) by {
            let pair = second[index + 1];
            assert(second_rest[index] == pair);
            assert(holds(first, pair));
            let found = choose|found: int|
                0 <= found < first.len() && #[trigger] first[found] == pair;
            assert(precedes(second[0].0, second[index + 1].0));
            lemma_precedes_is_total(second[0].0, pair.0);
            assert(found > 0);
            assert(first_rest[found - 1] == pair);
        }
        lemma_descending_is_unique(first_rest, second_rest);
        assert(first =~= seq![first[0]] + first_rest);
        assert(second =~= seq![second[0]] + second_rest);
    }
}

} // verus!
