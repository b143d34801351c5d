//! Helpers that are not about alchemy.

use vstd::laws_eq::obeys_concrete_eq;
use vstd::prelude::*;

verus! {

/// A pair with its two sides swapped.
pub open spec fn mirror<T>(pair: (T, T)) -> (T, T) {
    (pair.1, pair.0)
}

/// Whether `first` and `second` are the same unordered pair: equal, or
/// mirror images of each other.
pub open spec fn is_same_unordered<T>(first: (T, T), second: (T, T)) -> bool {
    first == second || first == mirror(second)
}

/// Whether `kept` holds `pair` or its mirror image.
pub open spec fn holds_unordered_pair<T>(kept: Seq<(T, T)>, pair: (T, T)) -> bool {
    exists|index: int| 0 <= index < kept.len() && is_same_unordered(#[trigger] kept[index], pair)
}

/// Whether no pair before `index` is the same unordered pair as the one at
/// `index`.
pub open spec fn is_first_of_its_kind<T>(pairs: Seq<(T, T)>, index: int) -> bool {
    forall|earlier: int|
        0 <= earlier < index ==> !is_same_unordered(#[trigger] pairs[earlier], pairs[index])
}

/// `pairs` without the pairs that are equal to an earlier pair or the mirror
/// image of one: of each unordered pair the first occurrence, in the order of
/// `pairs`.
pub open spec fn reduced<T>(pairs: Seq<(T, T)>) -> Seq<(T, T)>
    decreases pairs.len(),
{
    if pairs.len() == 0 {
        Seq::empty()
    } else if is_first_of_its_kind(pairs, pairs.len() - 1) {
        reduced(pairs.drop_last()).push(pairs.last())
    } else {
        reduced(pairs.drop_last())
    }
}

/// What `reduced` keeps comes from `pairs`, stands for every pair of `pairs`,
/// and holds no unordered pair twice.
pub proof fn lemma_reduced<T>(pairs: Seq<(T, T)>)
    ensures
        forall|kept: int|
            0 <= kept < reduced(pairs).len() ==> pairs.contains(#[trigger] reduced(pairs)[kept]),
        forall|index: int|
            0 <= index < pairs.len() ==> holds_unordered_pair(
                reduced(pairs),
                #[trigger] pairs[index],
            ),
        forall|first: int, second: int|
            0 <= first < second < reduced(pairs).len() ==> !is_same_unordered(
                #[trigger] reduced(pairs)[first],
                #[trigger] reduced(pairs)[second],
            ),
    decreases pairs.len(),
{
    if pairs.len() > 0 {
        let before = pairs.drop_last();
        let last = pairs.last();
        let end = pairs.len() - 1;
        lemma_reduced(before);
        let kept_before = reduced(before);
        assert forall|kept: int| 0 <= kept < reduced(pairs).len() implies pairs.contains(
            #[trigger] reduced(pairs)[kept],
        ) by {
            if kept < kept_before.len() {
                let pair = kept_before[kept];
                assert(before.contains(pair));
                let index = choose|index: int| 0 <= index < before.len() && before[index] == pair;
                assert(pairs[index] == pair);
            } else {
                assert(pairs[end] == reduced(pairs)[kept]);
            }
        }
        assert forall|index: int| 0 <= index < pairs.len() implies holds_unordered_pair(
            reduced(pairs),
            #[trigger] pairs[index],
        ) by {
            if index < end {
                assert(before[index] == pairs[index]);
                assert(holds_unordered_pair(kept_before, before[index]));
                let kept = choose|kept: int|
                    0 <= kept < kept_before.len() && is_same_unordered(
                        #[trigger] kept_before[kept],
                        before[index],
                    );
                assert(reduced(pairs)[kept] == kept_before[kept]);
            } else if is_first_of_its_kind(pairs, end) {
                assert(reduced(pairs)[kept_before.len() as int] == last);
            } else {
                let earlier = choose|earlier: int|
                    0 <= earlier < end && is_same_unordered(#[trigger] pairs[earlier], pairs[end]);
                assert(before[earlier] == pairs[earlier]);
                assert(holds_unordered_pair(kept_before, before[earlier]));
                let kept = choose|kept: int|
                    0 <= kept < kept_before.len() && is_same_unordered(
                        #[trigger] kept_before[kept],
                        before[earlier],
                    );
                assert(reduced(pairs)[kept] == kept_before[kept]);
            }
        }
        assert forall|first: int, second: int|
            0 <= first < second < reduced(pairs).len() implies !is_same_unordered(
            #[trigger] reduced(pairs)[first],
            #[trigger] reduced(pairs)[second],
        ) by {
            if second < kept_before.len() {
                assert(reduced(pairs)[first] == kept_before[first]);
                assert(reduced(pairs)[second] == kept_before[second]);
            } else {
                let pair = kept_before[first];
                assert(reduced(pairs)[first] == pair);
                assert(before.contains(pair));
                let index = choose|index: int| 0 <= index < before.len() && before[index] == pair;
                assert(pairs[index] == pair);
            }
        }
    }
}

/// Whether `collected` holds `pair` or its mirror image.
fn holds_unordered<T: PartialEq>(collected: &Vec<(T, T)>, pair: &(T, T)) -> (held: bool)
    requires
        obeys_concrete_eq::<T>(),
    ensures
        held == holds_unordered_pair(collected@, *pair),
{
    proof {
        reveal(obeys_concrete_eq);
    }
    let mut index: usize = 0;
    while index < collected.len()
        invariant
            index <= collected.len(),
            obeys_concrete_eq::<T>(),
            forall|kept: int|
                0 <= kept < index ==> !is_same_unordered(#[trigger] collected@[kept], *pair),
        decreases collected.len() - index,
    {
        proof {
            reveal(obeys_concrete_eq);
        }
        let kept = &collected[index];
        if (kept.0 == pair.0 && kept.1 == pair.1) || (kept.0 == pair.1 && kept.1 == pair.0) {
            assert(is_same_unordered(collected@[index as int], *pair));
            return true;
        }
        index += 1;
    }
    false
}

/// Drops the pairs that are the reverse of an earlier pair, or equal to one.
///
/// Of the pairs that make up one unordered pair, the first is kept, and the
/// pairs that are kept stay in their order. So the result holds no pair
/// together with its reverse, and for every pair that was given it holds that
/// pair or its reverse.
pub fn reduce_reverse_pairs<T>(pairs: Vec<(T, T)>) -> (collected: Vec<(T, T)>) where T: PartialEq
    requires
        obeys_concrete_eq::<T>(),
    ensures
        collected@ == reduced(pairs@),
        forall|kept: int|
            0 <= kept < collected.len() ==> pairs@.contains(#[trigger] collected@[kept]),
        forall|index: int|
            0 <= index < pairs.len() ==> holds_unordered_pair(collected@, #[trigger] pairs@[index]),
        forall|first: int, second: int|
            0 <= first < second < collected.len() ==> !is_same_unordered(
                #[trigger] collected@[first],
                #[trigger] collected@[second],
            ),
{
    let ghost given = pairs@;
    let mut collected: Vec<(T, T)> = Vec::new();
    for pair in it: pairs.into_iter()
        invariant
            obeys_concrete_eq::<T>(),
            it.seq() == given,
            collected@ == reduced(given.take(it.index())),
    {
        let ghost index = it.index();
        let ghost before = given.take(index);
        let ghost upto = given.take(index + 1);
        proof {
            lemma_reduced(before);
            assert(upto.drop_last() == before);
            assert(upto.last() == pair);
            if holds_unordered_pair(collected@, pair) {
                let kept = choose|kept: int|
                    0 <= kept < collected.len() && is_same_unordered(
                        #[trigger] collected@[kept],
                        pair,
                    );
                assert(before.contains(collected@[kept]));
                let earlier = choose|earlier: int|
                    0 <= earlier < before.len() && before[earlier] == collected@[kept];
                assert(upto[earlier] == before[earlier]);
                assert(!is_first_of_its_kind(upto, index));
            } else {
                assert forall|earlier: int| 0 <= earlier < index implies !is_same_unordered(
                    #[trigger] upto[earlier],
                    upto[index],
                ) by {
                    assert(before[earlier] == upto[earlier]);
                    assert(holds_unordered_pair(collected@, before[earlier]));
                    let kept = choose|kept: int|
                        0 <= kept < collected.len() && is_same_unordered(
                            #[trigger] collected@[kept],
                            before[earlier],
                        );
                    assert(!is_same_unordered(collected@[kept], pair));
                }
                assert(is_first_of_its_kind(upto, index));
            }
        }
        if !holds_unordered(&collected, &pair) {
            collected.push(pair);
        }
    }
    proof {
        assert(given.take(given.len() as int) == given);
        lemma_reduced(given);
    }
    collected
}

} // verus!
