//! Rearrangements: the ways to share out elements between two sides so
//! that both sides have a given weight.

use crate::alchemy::element::Element;
use crate::alchemy::element_counts::{
    cleaned, count_of, is_clean, lemma_clean_counts_determine, lemma_cleaned_keeps_counts,
    lemma_count_of_insert, sum_of, units_of, weight_of, ElementCounts,
};
use crate::alchemy::order::{is_descending, lemma_precedes_at, lemma_precedes_is_total, precedes};
use crate::alchemy::AltonWeighable;
use vstd::prelude::*;

verus! {

/// Whether, for `element`, `left` and `right` hold what the accumulators held
/// and share out between them exactly what `remaining` holds.
pub open spec fn hands_out(
    remaining: Map<Element, nat>,
    left_start: Map<Element, nat>,
    right_start: Map<Element, nat>,
    left: Map<Element, nat>,
    right: Map<Element, nat>,
    element: Element,
) -> bool {
    &&& count_of(left_start, element) <= count_of(left, element)
    &&& count_of(right_start, element) <= count_of(right, element)
    &&& count_of(left, element) + count_of(right, element) == count_of(left_start, element)
        + count_of(right_start, element) + count_of(remaining, element)
}

/// Whether `(left, right)` is a rearrangement: two clean counts of weight
/// `weight` each, got from the accumulators `left_start` and `right_start` by
/// giving every single element of `remaining` to one of the two sides.
pub open spec fn is_rearrangement(
    remaining: Map<Element, nat>,
    left_start: Map<Element, nat>,
    right_start: Map<Element, nat>,
    weight: nat,
    left: Map<Element, nat>,
    right: Map<Element, nat>,
) -> bool {
    &&& is_clean(left)
    &&& is_clean(right)
    &&& weight_of(left) == weight
    &&& weight_of(right) == weight
    &&& forall|element: Element| #[trigger]
        hands_out(remaining, left_start, right_start, left, right, element)
}

/// Whether `(left, right)` is a reaction of `first` with `second`: two clean
/// counts of weight `weight` each that together hold, of every element, what
/// `first` and `second` hold together.
pub open spec fn is_reaction(
    first: Map<Element, nat>,
    second: Map<Element, nat>,
    weight: nat,
    left: Map<Element, nat>,
    right: Map<Element, nat>,
) -> bool {
    &&& is_clean(left)
    &&& is_clean(right)
    &&& weight_of(left) == weight
    &&& weight_of(right) == weight
    &&& forall|element: Element| #[trigger]
        count_of(left, element) + count_of(right, element) == count_of(first, element) + count_of(
            second,
            element,
        )
}

/// Whether `(left, right)` shares out what `first` and `second` hold
/// together between two clean counts of equal weight.
pub open spec fn is_rearrangement_of_equal_weight(
    first: Map<Element, nat>,
    second: Map<Element, nat>,
    left: Map<Element, nat>,
    right: Map<Element, nat>,
) -> bool {
    &&& is_clean(left)
    &&& is_clean(right)
    &&& weight_of(left) == weight_of(right)
    &&& forall|element: Element| #[trigger]
        count_of(left, element) + count_of(right, element) == count_of(first, element) + count_of(
            second,
            element,
        )
}

/// Whether `rest` has of `other` what `remaining` has when one `element` is
/// taken from it.
pub open spec fn leaves(
    remaining: Map<Element, nat>,
    rest: Map<Element, nat>,
    element: Element,
    other: Element,
) -> bool {
    count_of(rest, other) == if other == element {
        (count_of(remaining, element) - 1) as nat
    } else {
        count_of(remaining, other)
    }
}

/// Whether `rest` holds what `remaining` holds when one `element` is taken
/// from it.
pub open spec fn is_rest(
    remaining: Map<Element, nat>,
    rest: Map<Element, nat>,
    element: Element,
) -> bool {
    forall|other: Element| #[trigger] leaves(remaining, rest, element, other)
}

/// What pairs of counts hold.
pub open spec fn pairs_of(found: Seq<(ElementCounts, ElementCounts)>) -> Seq<
    (Map<Element, nat>, Map<Element, nat>),
> {
    Seq::new(found.len(), |index: int| (found[index].0@, found[index].1@))
}

/// Whether `pairs` holds `pair`.
fn holds_pair(
    pairs: &Vec<(ElementCounts, ElementCounts)>,
    pair: &(ElementCounts, ElementCounts),
) -> (held: bool)
    ensures
        held == pairs@.contains(*pair),
{
    let mut index: usize = 0;
    while index < pairs.len()
        invariant
            index <= pairs.len(),
            forall|i: int| 0 <= i < index ==> pairs@[i] != *pair,
        decreases pairs.len() - index,
    {
        if pairs[index].0 == pair.0 && pairs[index].1 == pair.1 {
            return true;
        }
        index += 1;
    }
    false
}

/// Adds to `found` the pairs of `more` that it does not hold yet, in their
/// order.
fn unite(
    found: &mut Vec<(ElementCounts, ElementCounts)>,
    more: &Vec<(ElementCounts, ElementCounts)>,
)
    requires
        is_descending(pairs_of(old(found)@)),
        is_descending(pairs_of(more@)),
        forall|held: int, new: int|
            0 <= held < old(found).len() && 0 <= new < more.len() && !old(found)@.contains(
                more@[new],
            ) ==> precedes((#[trigger] old(found)@[held]).0@, (#[trigger] more@[new]).0@),
    ensures
        is_descending(pairs_of(final(found)@)),
        forall|pair: (ElementCounts, ElementCounts)| #[trigger]
            final(found)@.contains(pair) <==> old(found)@.contains(pair) || more@.contains(pair),
{
    let mut index: usize = 0;
    while index < more.len()
        invariant
            index <= more.len(),
            is_descending(pairs_of(found@)),
            is_descending(pairs_of(more@)),
            forall|held: int, new: int|
                0 <= held < old(found).len() && 0 <= new < more.len() && !old(found)@.contains(
                    more@[new],
                ) ==> precedes((#[trigger] old(found)@[held]).0@, (#[trigger] more@[new]).0@),
            forall|pair: (ElementCounts, ElementCounts)| #[trigger]
                found@.contains(pair) <==> old(found)@.contains(pair) || more@.take(
                    index as int,
                ).contains(pair),
        decreases more.len() - index,
    {
        let pair = more[index];
        let ghost before = found@;
        let ghost earlier = more@.take(index as int);
        let ghost later = more@.take(index + 1);
        if !holds_pair(found, &pair) {
            found.push(pair);
            proof {
                assert(found@ == before.push(pair));
                assert forall|other: (ElementCounts, ElementCounts)| #[trigger]
                    found@.contains(other) <==> before.contains(other) || other == pair by {
                    if before.contains(other) {
                        let i = choose|i: int| 0 <= i < before.len() && before[i] == other;
                        assert(found@[i] == other);
                    }
                    if other == pair {
                        assert(found@[before.len() as int] == other);
                    }
                }
                assert forall|first: int, second: int|
                    0 <= first < second < found.len() implies precedes(
                    (#[trigger] pairs_of(found@)[first]).0,
                    (#[trigger] pairs_of(found@)[second]).0,
                ) by {
                    if second < before.len() {
                        assert(pairs_of(found@)[first] == pairs_of(before)[first]);
                        assert(pairs_of(found@)[second] == pairs_of(before)[second]);
                    } else {
                        let held = before[first];
                        assert(before.contains(held));
                        if old(found)@.contains(held) {
                            let at = choose|at: int|
                                0 <= at < old(found).len() && old(found)@[at] == held;
                            assert(!old(found)@.contains(more@[index as int]));
                            assert(precedes(old(found)@[at].0@, more@[index as int].0@));
                        } else {
                            let at = choose|at: int|
                                0 <= at < earlier.len() && earlier[at] == held;
                            assert(precedes(
                                pairs_of(more@)[at].0,
                                pairs_of(more@)[index as int].0,
                            ));
                        }
                    }
                }
            }
        }
        proof {
            assert forall|other: (ElementCounts, ElementCounts)| #[trigger]
                later.contains(other) <==> earlier.contains(other) || other == pair by {
                if earlier.contains(other) {
                    let i = choose|i: int| 0 <= i < earlier.len() && earlier[i] == other;
                    assert(later[i] == other);
                }
                if other == pair {
                    assert(later[index as int] == other);
                }
                if later.contains(other) {
                    let i = choose|i: int| 0 <= i < later.len() && later[i] == other;
                    if i < index {
                        assert(earlier[i] == other);
                    }
                }
            }
        }
        index += 1;
    }
    assert(more@.take(more.len() as int) == more@);
}

/// Pairs whose left sides descend are all different.
pub proof fn lemma_descending_has_no_duplicates(found: Seq<(ElementCounts, ElementCounts)>)
    requires
        is_descending(pairs_of(found)),
    ensures
        found.no_duplicates(),
{
    assert forall|first: int, second: int|
        0 <= first < found.len() && 0 <= second < found.len() && first != second implies
        found[first] != found[second] by {
        lemma_precedes_is_total(found[first].0@, found[second].0@);
        if first < second {
            assert(precedes(pairs_of(found)[first].0, pairs_of(found)[second].0));
        } else {
            assert(precedes(pairs_of(found)[second].0, pairs_of(found)[first].0));
        }
    }
}

/// Enumerates the rearrangements of `total_element_counts` on top of two
/// accumulators.
///
/// Every single element of `total_element_counts` goes to the left or to the
/// right accumulator; a pair is returned, cleaned, when both sides then weigh
/// exactly `weight`. Each such pair is returned once, and the pairs are
/// returned in the descending order of their left sides. A branch ends as
/// soon as one side is heavier than `weight`.
pub fn element_rearrangements(
    total_element_counts: &ElementCounts,
    left_element_counts: ElementCounts,
    right_element_counts: ElementCounts,
    weight: u64,
) -> (found: Vec<(ElementCounts, ElementCounts)>)
    ensures
        found@.no_duplicates(),
        is_descending(pairs_of(found@)),
        forall|left: ElementCounts, right: ElementCounts| #[trigger]
            found@.contains((left, right)) <==> is_rearrangement(
                total_element_counts@,
                left_element_counts@,
                right_element_counts@,
                weight as nat,
                left@,
                right@,
            ),
{
    let nothing = ElementCounts::new();
    let found = element_rearrangements_of_both(
        *total_element_counts,
        nothing,
        left_element_counts,
        right_element_counts,
        weight,
    );
    assert forall|left: ElementCounts, right: ElementCounts| #[trigger]
        found@.contains((left, right)) <==> is_rearrangement(
            total_element_counts@,
            left_element_counts@,
            right_element_counts@,
            weight as nat,
            left@,
            right@,
        ) by {
        lemma_counts_decide(
            sum_of(total_element_counts@, nothing@),
            total_element_counts@,
            left_element_counts@,
            right_element_counts@,
            weight as nat,
            left@,
            right@,
        );
    }
    found
}

/// The heaviest element that occurs in `first` or in `second`, if any does.
fn heaviest_of_both(first: &ElementCounts, second: &ElementCounts) -> (element: Option<Element>)
    ensures
        element is None <==> units_of(sum_of(first@, second@)) == 0,
        element matches Some(heaviest) ==> {
            &&& count_of(sum_of(first@, second@), heaviest) > 0
            &&& forall|other: Element|
                heaviest.rank() < other.rank() ==> #[trigger] count_of(
                    sum_of(first@, second@),
                    other,
                ) == 0
        },
{
    let element = match (first.heaviest_present(), second.heaviest_present()) {
        (None, None) => None,
        (Some(heaviest), None) => Some(heaviest),
        (None, Some(heaviest)) => Some(heaviest),
        (Some(one), Some(other)) => if one.weight() >= other.weight() {
            Some(one)
        } else {
            Some(other)
        },
    };
    proof {
        let both = sum_of(first@, second@);
        assert forall|other: Element| #[trigger]
            count_of(both, other) == count_of(first@, other) + count_of(second@, other) by {}
    }
    element
}

/// Enumerates the rearrangements of what `first_element_counts` and
/// `second_element_counts` hold together, on top of two accumulators.
///
/// Every single element of the two goes to the left or to the right
/// accumulator; a pair is returned, cleaned, when both sides then weigh
/// exactly `weight`. Each such pair is returned once, and the pairs are
/// returned in the descending order of their left sides. A branch ends as
/// soon as one side is heavier than `weight`.
pub fn element_rearrangements_of_both(
    first_element_counts: ElementCounts,
    second_element_counts: ElementCounts,
    left_element_counts: ElementCounts,
    right_element_counts: ElementCounts,
    weight: u64,
) -> (found: Vec<(ElementCounts, ElementCounts)>)
    ensures
        found@.no_duplicates(),
        is_descending(pairs_of(found@)),
        forall|left: ElementCounts, right: ElementCounts| #[trigger]
            found@.contains((left, right)) <==> is_rearrangement(
                sum_of(first_element_counts@, second_element_counts@),
                left_element_counts@,
                right_element_counts@,
                weight as nat,
                left@,
                right@,
            ),
    decreases units_of(first_element_counts@) + units_of(second_element_counts@),
{
    let ghost remaining = sum_of(first_element_counts@, second_element_counts@);
    let mut found: Vec<(ElementCounts, ElementCounts)> = Vec::new();
    if left_element_counts.weight() > weight || right_element_counts.weight() > weight {
        // One side is overweight already, and a side never gets lighter.
        assert forall|left: ElementCounts, right: ElementCounts|
            !is_rearrangement(
                remaining,
                left_element_counts@,
                right_element_counts@,
                weight as nat,
                left@,
                right@,
            ) by {
            lemma_overweight_has_no_rearrangement(
                remaining,
                left_element_counts@,
                right_element_counts@,
                weight as nat,
                left@,
                right@,
            );
        }
        return found;
    }
    match heaviest_of_both(&first_element_counts, &second_element_counts) {
        None => {
            // Nothing is left to hand out: the accumulators are the one candidate.
            let mut left = left_element_counts;
            left.clean();
            let mut right = right_element_counts;
            right.clean();
            if left_element_counts.weight() == weight && right_element_counts.weight() == weight {
                found.push((left, right));
                assert(found@[0] == (left, right));
            }
            assert forall|l: ElementCounts, r: ElementCounts| #[trigger]
                found@.contains((l, r)) <==> is_rearrangement(
                    remaining,
                    left_element_counts@,
                    right_element_counts@,
                    weight as nat,
                    l@,
                    r@,
                ) by {
                lemma_nothing_left(
                    remaining,
                    left_element_counts@,
                    right_element_counts@,
                    weight as nat,
                    l@,
                    r@,
                );
                if l@ == left@ {
                    l.lemma_view_injective(left);
                }
                if r@ == right@ {
                    r.lemma_view_injective(right);
                }
            }
            found
        },
        Some(selected_element) => {
            let mut new_first_element_counts = first_element_counts;
            let mut new_second_element_counts = second_element_counts;
            let first_count: u32 = first_element_counts.count(selected_element);
            if first_count > 0 {
                new_first_element_counts.insert(selected_element, first_count - 1);
                proof {
                    lemma_take_one(
                        first_element_counts@,
                        second_element_counts@,
                        selected_element,
                    );
                }
            } else {
                let second_count: u32 = second_element_counts.count(selected_element);
                proof {
                    lemma_take_one(
                        second_element_counts@,
                        first_element_counts@,
                        selected_element,
                    );
                }
                new_second_element_counts.insert(selected_element, second_count - 1);
            }
            let ghost rest = sum_of(new_first_element_counts@, new_second_element_counts@);
            let ghost left_more = left_element_counts@.insert(
                selected_element,
                count_of(left_element_counts@, selected_element) + 1,
            );
            let ghost right_more = right_element_counts@.insert(
                selected_element,
                count_of(right_element_counts@, selected_element) + 1,
            );

            let left_count: u32 = left_element_counts.count(selected_element);
            if left_count < u32::MAX {
                let mut left_insert = left_element_counts;
                left_insert.insert(selected_element, left_count + 1);
                found =
                element_rearrangements_of_both(
                    new_first_element_counts,
                    new_second_element_counts,
                    left_insert,
                    right_element_counts,
                    weight,
                );
            }
            let ghost left_found = found@;
            assert forall|l: ElementCounts, r: ElementCounts| #[trigger]
                left_found.contains((l, r)) <==> is_rearrangement(
                    rest,
                    left_more,
                    right_element_counts@,
                    weight as nat,
                    l@,
                    r@,
                ) by {
                if left_count == u32::MAX {
                    l.lemma_counts_bounded();
                    if is_rearrangement(
                        rest,
                        left_more,
                        right_element_counts@,
                        weight as nat,
                        l@,
                        r@,
                    ) {
                        assert(hands_out(
                            rest,
                            left_more,
                            right_element_counts@,
                            l@,
                            r@,
                            selected_element,
                        ));
                    }
                }
            }

            let mut more: Vec<(ElementCounts, ElementCounts)> = Vec::new();
            let right_count: u32 = right_element_counts.count(selected_element);
            if right_count < u32::MAX {
                let mut right_insert = right_element_counts;
                right_insert.insert(selected_element, right_count + 1);
                more =
                element_rearrangements_of_both(
                    new_first_element_counts,
                    new_second_element_counts,
                    left_element_counts,
                    right_insert,
                    weight,
                );
            }
            assert forall|l: ElementCounts, r: ElementCounts| #[trigger]
                more@.contains((l, r)) <==> is_rearrangement(
                    rest,
                    left_element_counts@,
                    right_more,
                    weight as nat,
                    l@,
                    r@,
                ) by {
                if right_count == u32::MAX {
                    r.lemma_counts_bounded();
                    if is_rearrangement(
                        rest,
                        left_element_counts@,
                        right_more,
                        weight as nat,
                        l@,
                        r@,
                    ) {
                        assert(hands_out(
                            rest,
                            left_element_counts@,
                            right_more,
                            l@,
                            r@,
                            selected_element,
                        ));
                    }
                }
            }
            assert forall|held: int, new: int|
                0 <= held < left_found.len() && 0 <= new < more.len() && !left_found.contains(
                    more@[new],
                ) implies precedes(
                (#[trigger] left_found[held]).0@,
                (#[trigger] more@[new]).0@,
            ) by {
                let first = left_found[held];
                let second = more@[new];
                assert(left_found.contains((first.0, first.1)));
                assert(more@.contains((second.0, second.1)));
                lemma_left_branch_comes_first(
                    remaining,
                    rest,
                    left_element_counts@,
                    right_element_counts@,
                    weight as nat,
                    (first.0@, first.1@),
                    (second.0@, second.1@),
                    selected_element,
                );
            }
            unite(&mut found, &more);
            proof {
                lemma_descending_has_no_duplicates(found@);
            }
            assert forall|l: ElementCounts, r: ElementCounts| #[trigger]
                found@.contains((l, r)) <==> is_rearrangement(
                    remaining,
                    left_element_counts@,
                    right_element_counts@,
                    weight as nat,
                    l@,
                    r@,
                ) by {
                lemma_hand_out_one(
                    remaining,
                    rest,
                    left_element_counts@,
                    right_element_counts@,
                    weight as nat,
                    l@,
                    r@,
                    selected_element,
                );
                assert(found@.contains((l, r)) <==> left_found.contains((l, r)) || more@.contains(
                    (l, r),
                ));
            }
            found
        },
    }
}

/// Enumerates the ways to share out the elements of two counts between two
/// sides of equal weight.
///
/// Returns each pair of clean counts of equal weight that together hold, of
/// every element, what `left_element_counts` and `right_element_counts` hold
/// together, once, in the descending order of the left sides. Where the total
/// weight cannot be halved in this way, nothing is returned.
pub fn element_rearrangements_of_equal_weight(
    left_element_counts: &ElementCounts,
    right_element_counts: &ElementCounts,
) -> (found: Vec<(ElementCounts, ElementCounts)>)
    ensures
        found@.no_duplicates(),
        is_descending(pairs_of(found@)),
        forall|left: ElementCounts, right: ElementCounts| #[trigger]
            found@.contains((left, right)) <==> is_rearrangement_of_equal_weight(
                left_element_counts@,
                right_element_counts@,
                left@,
                right@,
            ),
{
    proof {
        lemma_sides_weigh_the_total(
            left_element_counts@,
            right_element_counts@,
            left_element_counts@,
            right_element_counts@,
        );
        left_element_counts.lemma_weight_bounded();
        right_element_counts.lemma_weight_bounded();
    }
    let total_weight = left_element_counts.weight() + right_element_counts.weight();
    if total_weight % 2 != 0 {
        assert forall|left: ElementCounts, right: ElementCounts|
            !is_rearrangement_of_equal_weight(
                left_element_counts@,
                right_element_counts@,
                left@,
                right@,
            ) by {
            lemma_equal_weight_is_half(
                left_element_counts@,
                right_element_counts@,
                left@,
                right@,
            );
        }
        return Vec::new();
    }
    let found = element_rearrangements_of_both(
        *left_element_counts,
        *right_element_counts,
        ElementCounts::new(),
        ElementCounts::new(),
        total_weight / 2,
    );
    assert forall|left: ElementCounts, right: ElementCounts| #[trigger]
        found@.contains((left, right)) <==> is_rearrangement_of_equal_weight(
            left_element_counts@,
            right_element_counts@,
            left@,
            right@,
        ) by {
        lemma_equal_weight_is_half(left_element_counts@, right_element_counts@, left@, right@);
        lemma_reaction_is_rearrangement(
            left_element_counts@,
            right_element_counts@,
            (total_weight / 2) as nat,
            left@,
            right@,
        );
    }
    found
}

/// Two sides of equal weight that hold what two counts hold together weigh
/// half of what those weigh together, each; and two sides that each weigh
/// half of it are of equal weight.
pub proof fn lemma_equal_weight_is_half(
    first: Map<Element, nat>,
    second: Map<Element, nat>,
    left: Map<Element, nat>,
    right: Map<Element, nat>,
)
    ensures
        is_rearrangement_of_equal_weight(first, second, left, right) ==> 2 * weight_of(left)
            == weight_of(sum_of(first, second)),
        forall|weight: nat|
            2 * weight == weight_of(sum_of(first, second)) ==> (is_rearrangement_of_equal_weight(
                first,
                second,
                left,
                right,
            ) <==> #[trigger] is_reaction(first, second, weight, left, right)),
{
    let total = sum_of(first, second);
    assert forall|element: Element|
        count_of(total, element) == count_of(first, element) + count_of(second, element) by {}
    if is_rearrangement_of_equal_weight(first, second, left, right) {
        lemma_sides_weigh_the_total(first, second, left, right);
    }
    assert forall|weight: nat| 2 * weight == weight_of(total) implies (
    is_rearrangement_of_equal_weight(first, second, left, right) <==> #[trigger] is_reaction(
        first,
        second,
        weight,
        left,
        right,
    )) by {
        if is_reaction(first, second, weight, left, right) {
        }
        if is_rearrangement_of_equal_weight(first, second, left, right) {
        }
    }
}

/// Two sides that hold what two counts hold together weigh what those weigh
/// together.
pub proof fn lemma_sides_weigh_the_total(
    first: Map<Element, nat>,
    second: Map<Element, nat>,
    left: Map<Element, nat>,
    right: Map<Element, nat>,
)
    requires
        forall|element: Element| #[trigger]
            count_of(left, element) + count_of(right, element) == count_of(first, element)
                + count_of(second, element),
    ensures
        weight_of(left) + weight_of(right) == weight_of(first) + weight_of(second),
        weight_of(sum_of(first, second)) == weight_of(first) + weight_of(second),
{
    assert(count_of(left, Element::A) + count_of(right, Element::A) == count_of(first, Element::A)
        + count_of(second, Element::A));
    assert(count_of(left, Element::B) + count_of(right, Element::B) == count_of(first, Element::B)
        + count_of(second, Element::B));
    assert(count_of(left, Element::C) + count_of(right, Element::C) == count_of(first, Element::C)
        + count_of(second, Element::C));
    assert(count_of(left, Element::D) + count_of(right, Element::D) == count_of(first, Element::D)
        + count_of(second, Element::D));
    assert(count_of(left, Element::E) + count_of(right, Element::E) == count_of(first, Element::E)
        + count_of(second, Element::E));
}

/// Taking one element from counts that hold it leaves one single element
/// less, and of the sum with other counts, on either side, what the sum holds
/// when one such element is taken from it.
pub proof fn lemma_take_one(from: Map<Element, nat>, other: Map<Element, nat>, element: Element)
    requires
        count_of(sum_of(from, other), element) > 0,
        count_of(from, element) > 0 || count_of(other, element) == 0,
    ensures
        count_of(from, element) > 0,
        units_of(from.insert(element, (count_of(from, element) - 1) as nat)) + 1 == units_of(from),
        is_rest(
            sum_of(from, other),
            sum_of(from.insert(element, (count_of(from, element) - 1) as nat), other),
            element,
        ),
        is_rest(
            sum_of(other, from),
            sum_of(other, from.insert(element, (count_of(from, element) - 1) as nat)),
            element,
        ),
{
    let less = from.insert(element, (count_of(from, element) - 1) as nat);
    assert forall|any: Element|
        count_of(less, any) == (if any == element {
            (count_of(from, element) - 1) as nat
        } else {
            count_of(from, any)
        }) && count_of(sum_of(from, other), any) == count_of(from, any) + count_of(other, any)
            && count_of(sum_of(other, from), any) == count_of(from, any) + count_of(other, any)
            && count_of(sum_of(less, other), any) == count_of(less, any) + count_of(other, any)
            && count_of(sum_of(other, less), any) == count_of(less, any) + count_of(other, any) by {
        lemma_count_of_insert(from, element, (count_of(from, element) - 1) as nat, any);
    }
    assert forall|any: Element| #[trigger]
        leaves(sum_of(from, other), sum_of(less, other), element, any) by {}
    assert forall|any: Element| #[trigger]
        leaves(sum_of(other, from), sum_of(other, less), element, any) by {}
}

/// Whether a pair is a rearrangement depends on how often each element is
/// left to hand out, not on which of them have an entry.
pub proof fn lemma_counts_decide(
    remaining: Map<Element, nat>,
    same: Map<Element, nat>,
    left_start: Map<Element, nat>,
    right_start: Map<Element, nat>,
    weight: nat,
    left: Map<Element, nat>,
    right: Map<Element, nat>,
)
    requires
        forall|element: Element| count_of(remaining, element) == count_of(same, element),
    ensures
        is_rearrangement(remaining, left_start, right_start, weight, left, right)
            == is_rearrangement(same, left_start, right_start, weight, left, right),
{
    if is_rearrangement(remaining, left_start, right_start, weight, left, right) {
        assert forall|element: Element| #[trigger]
            hands_out(same, left_start, right_start, left, right, element) by {
            assert(hands_out(remaining, left_start, right_start, left, right, element));
        }
    }
    if is_rearrangement(same, left_start, right_start, weight, left, right) {
        assert forall|element: Element| #[trigger]
            hands_out(remaining, left_start, right_start, left, right, element) by {
            assert(hands_out(same, left_start, right_start, left, right, element));
        }
    }
}

/// A side that is too heavy stays too heavy, whatever it is given.
pub proof fn lemma_overweight_has_no_rearrangement(
    remaining: Map<Element, nat>,
    left_start: Map<Element, nat>,
    right_start: Map<Element, nat>,
    weight: nat,
    left: Map<Element, nat>,
    right: Map<Element, nat>,
)
    requires
        weight_of(left_start) > weight || weight_of(right_start) > weight,
    ensures
        !is_rearrangement(remaining, left_start, right_start, weight, left, right),
{
    if is_rearrangement(remaining, left_start, right_start, weight, left, right) {
        assert(hands_out(remaining, left_start, right_start, left, right, Element::A));
        assert(hands_out(remaining, left_start, right_start, left, right, Element::B));
        assert(hands_out(remaining, left_start, right_start, left, right, Element::C));
        assert(hands_out(remaining, left_start, right_start, left, right, Element::D));
        assert(hands_out(remaining, left_start, right_start, left, right, Element::E));
    }
}

/// With nothing left to hand out, the one candidate is the pair of the
/// cleaned accumulators, and it is a rearrangement when both have the weight.
pub proof fn lemma_nothing_left(
    remaining: Map<Element, nat>,
    left_start: Map<Element, nat>,
    right_start: Map<Element, nat>,
    weight: nat,
    left: Map<Element, nat>,
    right: Map<Element, nat>,
)
    requires
        units_of(remaining) == 0,
    ensures
        is_rearrangement(remaining, left_start, right_start, weight, left, right) <==> {
            &&& left == cleaned(left_start)
            &&& right == cleaned(right_start)
            &&& weight_of(left_start) == weight
            &&& weight_of(right_start) == weight
        },
{
    lemma_cleaned_keeps_counts(left_start);
    lemma_cleaned_keeps_counts(right_start);
    if is_rearrangement(remaining, left_start, right_start, weight, left, right) {
        assert forall|element: Element|
            count_of(left, element) == count_of(left_start, element) && count_of(right, element)
                == count_of(right_start, element) by {
            assert(hands_out(remaining, left_start, right_start, left, right, element));
        }
        lemma_clean_counts_determine(left, cleaned(left_start));
        lemma_clean_counts_determine(right, cleaned(right_start));
    }
    if left == cleaned(left_start) && right == cleaned(right_start) && weight_of(left_start)
        == weight && weight_of(right_start) == weight {
        assert forall|element: Element| #[trigger]
            hands_out(remaining, left_start, right_start, left, right, element) by {}
    }
}

/// Where the heaviest element that is left goes to the left in one
/// rearrangement and cannot have gone there in another, the left side of the
/// first comes before that of the other.
pub proof fn lemma_left_branch_comes_first(
    remaining: Map<Element, nat>,
    rest: Map<Element, nat>,
    left_start: Map<Element, nat>,
    right_start: Map<Element, nat>,
    weight: nat,
    first: (Map<Element, nat>, Map<Element, nat>),
    second: (Map<Element, nat>, Map<Element, nat>),
    element: Element,
)
    requires
        count_of(remaining, element) > 0,
        is_rest(remaining, rest, element),
        forall|heavier: Element|
            element.rank() < heavier.rank() ==> #[trigger] count_of(remaining, heavier) == 0,
        is_rearrangement(
            rest,
            left_start.insert(element, count_of(left_start, element) + 1),
            right_start,
            weight,
            first.0,
            first.1,
        ),
        is_rearrangement(
            rest,
            left_start,
            right_start.insert(element, count_of(right_start, element) + 1),
            weight,
            second.0,
            second.1,
        ),
        !is_rearrangement(
            rest,
            left_start.insert(element, count_of(left_start, element) + 1),
            right_start,
            weight,
            second.0,
            second.1,
        ),
    ensures
        precedes(first.0, second.0),
{
    let left_more = left_start.insert(element, count_of(left_start, element) + 1);
    let right_more = right_start.insert(element, count_of(right_start, element) + 1);
    assert forall|other: Element|
        count_of(rest, other) == (if other == element {
            (count_of(remaining, element) - 1) as nat
        } else {
            count_of(remaining, other)
        }) && count_of(left_more, other) == (if other == element {
            count_of(left_start, element) + 1
        } else {
            count_of(left_start, other)
        }) && count_of(right_more, other) == (if other == element {
            count_of(right_start, element) + 1
        } else {
            count_of(right_start, other)
        }) by {
        assert(leaves(remaining, rest, element, other));
        lemma_count_of_insert(left_start, element, count_of(left_start, element) + 1, other);
        lemma_count_of_insert(right_start, element, count_of(right_start, element) + 1, other);
    }
    assert(hands_out(rest, left_more, right_start, first.0, first.1, element));
    assert(hands_out(rest, left_start, right_more, second.0, second.1, element));
    if count_of(second.0, element) > count_of(left_start, element) {
        assert forall|other: Element| #[trigger]
            hands_out(rest, left_more, right_start, second.0, second.1, other) by {
            assert(hands_out(rest, left_start, right_more, second.0, second.1, other));
        }
    }
    assert(count_of(second.0, element) == count_of(left_start, element));
    assert forall|heavier: Element| element.rank() < heavier.rank() implies #[trigger] count_of(
        first.0,
        heavier,
    ) == count_of(second.0, heavier) by {
        assert(count_of(remaining, heavier) == 0);
        assert(hands_out(rest, left_more, right_start, first.0, first.1, heavier));
        assert(hands_out(rest, left_start, right_more, second.0, second.1, heavier));
    }
    lemma_precedes_at(first.0, second.0, element);
}

/// A rearrangement of counts that hold `element` gives that one element to
/// the left or to the right, and rearranges the rest.
pub proof fn lemma_hand_out_one(
    remaining: Map<Element, nat>,
    rest: Map<Element, nat>,
    left_start: Map<Element, nat>,
    right_start: Map<Element, nat>,
    weight: nat,
    left: Map<Element, nat>,
    right: Map<Element, nat>,
    element: Element,
)
    requires
        count_of(remaining, element) > 0,
        is_rest(remaining, rest, element),
    ensures
        is_rearrangement(remaining, left_start, right_start, weight, left, right) <==> {
            ||| is_rearrangement(
                rest,
                left_start.insert(element, count_of(left_start, element) + 1),
                right_start,
                weight,
                left,
                right,
            )
            ||| is_rearrangement(
                rest,
                left_start,
                right_start.insert(element, count_of(right_start, element) + 1),
                weight,
                left,
                right,
            )
        },
{
    let left_more = left_start.insert(element, count_of(left_start, element) + 1);
    let right_more = right_start.insert(element, count_of(right_start, element) + 1);
    assert forall|other: Element|
        count_of(rest, other) == (if other == element {
            (count_of(remaining, element) - 1) as nat
        } else {
            count_of(remaining, other)
        }) && count_of(left_more, other) == (if other == element {
            count_of(left_start, element) + 1
        } else {
            count_of(left_start, other)
        }) && count_of(right_more, other) == (if other == element {
            count_of(right_start, element) + 1
        } else {
            count_of(right_start, other)
        }) by {
        assert(leaves(remaining, rest, element, other));
        lemma_count_of_insert(left_start, element, count_of(left_start, element) + 1, other);
        lemma_count_of_insert(right_start, element, count_of(right_start, element) + 1, other);
    }
    if is_rearrangement(remaining, left_start, right_start, weight, left, right) {
        assert(hands_out(remaining, left_start, right_start, left, right, element));
        if count_of(left, element) > count_of(left_start, element) {
            assert forall|other: Element| #[trigger]
                hands_out(rest, left_more, right_start, left, right, other) by {
                assert(hands_out(remaining, left_start, right_start, left, right, other));
            }
        } else {
            assert forall|other: Element| #[trigger]
                hands_out(rest, left_start, right_more, left, right, other) by {
                assert(hands_out(remaining, left_start, right_start, left, right, other));
            }
        }
    }
    if is_rearrangement(rest, left_more, right_start, weight, left, right) {
        assert forall|other: Element| #[trigger]
            hands_out(remaining, left_start, right_start, left, right, other) by {
            assert(hands_out(rest, left_more, right_start, left, right, other));
        }
    }
    if is_rearrangement(rest, left_start, right_more, weight, left, right) {
        assert forall|other: Element| #[trigger]
            hands_out(remaining, left_start, right_start, left, right, other) by {
            assert(hands_out(rest, left_start, right_more, left, right, other));
        }
    }
}

/// The reactions of two counts are the rearrangements of their sum on top of
/// nothing.
pub proof fn lemma_reaction_is_rearrangement(
    first: Map<Element, nat>,
    second: Map<Element, nat>,
    weight: nat,
    left: Map<Element, nat>,
    right: Map<Element, nat>,
)
    ensures
        is_reaction(first, second, weight, left, right) <==> is_rearrangement(
            sum_of(first, second),
            Map::empty(),
            Map::empty(),
            weight,
            left,
            right,
        ),
{
    let total = sum_of(first, second);
    let empty = Map::<Element, nat>::empty();
    assert forall|element: Element|
        count_of(total, element) == count_of(first, element) + count_of(second, element)
            && count_of(empty, element) == 0 by {}
    if is_reaction(first, second, weight, left, right) {
        assert forall|element: Element| #[trigger]
            hands_out(total, empty, empty, left, right, element) by {
            assert(count_of(left, element) + count_of(right, element) == count_of(first, element)
                + count_of(second, element));
        }
    }
    if is_rearrangement(total, empty, empty, weight, left, right) {
        assert forall|element: Element| #[trigger]
            count_of(left, element) + count_of(right, element) == count_of(first, element)
                + count_of(second, element) by {
            assert(hands_out(total, empty, empty, left, right, element));
        }
    }
}

/// Two compounds of one weight can always react: to leave them as they are
/// is a reaction, and so is to swap them.
pub proof fn lemma_reaction_closure(
    first: Map<Element, nat>,
    second: Map<Element, nat>,
    weight: nat,
)
    requires
        is_clean(first),
        is_clean(second),
        weight_of(first) == weight,
        weight_of(second) == weight,
    ensures
        is_reaction(first, second, weight, first, second),
        is_reaction(first, second, weight, second, first),
{
}

/// A reaction conserves mass: the two sides weigh together what the two
/// compounds weighed together, and hold of every element what they held.
pub proof fn lemma_reaction_conserves_mass(
    first: Map<Element, nat>,
    second: Map<Element, nat>,
    weight: nat,
    left: Map<Element, nat>,
    right: Map<Element, nat>,
)
    requires
        is_reaction(first, second, weight, left, right),
    ensures
        weight_of(left) + weight_of(right) == weight_of(first) + weight_of(second),
        forall|element: Element|
            count_of(left, element) + count_of(right, element) == #[trigger] count_of(
                first,
                element,
            ) + count_of(second, element),
{
    lemma_sides_weigh_the_total(first, second, left, right);
}

} // verus!
