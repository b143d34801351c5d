//! Which compounds react in a cauldron.

use crate::alchemy::components::{Heat, StirMethod};
use crate::alchemy::compound::Compound;
use crate::alchemy::rearrangement::is_reaction;
use crate::alchemy::resources::ReactionRule;
use vstd::prelude::*;

verus! {

/// Whether `rule` lets its compound react under the given criteria. A
/// criterion that is `None` is met by every rule, and a rule whose condition
/// is `None` meets every criterion.
pub open spec fn rule_applies(
    rule: ReactionRule,
    stir_method: Option<StirMethod>,
    heat: Option<Heat>,
) -> bool {
    &&& (stir_method is Some && rule.stir_method is Some ==> stir_method == rule.stir_method)
    &&& (heat is Some && rule.heat is Some ==> heat == rule.heat)
}

/// The compounds of the rules that apply, in the order of the rules.
pub open spec fn reactive_compounds(
    reaction_rules: Seq<ReactionRule>,
    stir_method: Option<StirMethod>,
    heat: Option<Heat>,
) -> Seq<Compound>
    decreases reaction_rules.len(),
{
    if reaction_rules.len() == 0 {
        Seq::empty()
    } else if rule_applies(reaction_rules.last(), stir_method, heat) {
        reactive_compounds(reaction_rules.drop_last(), stir_method, heat).push(
            reaction_rules.last().compound,
        )
    } else {
        reactive_compounds(reaction_rules.drop_last(), stir_method, heat)
    }
}

/// Get all compounds that react under the given criteria according to the
/// reaction rules. `stir_method` and `heat` are optional, where `None` means
/// there is no requirement for that criterion. For example,
/// `stir_method = None` will only filter out compounds based on heat.
pub fn get_reactive_compounds(
    reaction_rules: &Vec<ReactionRule>,
    stir_method: Option<StirMethod>,
    heat: Option<Heat>,
) -> (compounds: Vec<Compound>)
    ensures
        compounds@ == reactive_compounds(reaction_rules@, stir_method, heat),
{
    let mut compounds: Vec<Compound> = Vec::new();
    let mut index: usize = 0;
    while index < reaction_rules.len()
        invariant
            index <= reaction_rules.len(),
            compounds@ == reactive_compounds(
                reaction_rules@.take(index as int),
                stir_method,
                heat,
            ),
        decreases reaction_rules.len() - index,
    {
        let rule = &reaction_rules[index];
        let stir_match = match stir_method {
            Some(sm) => match rule.stir_method {
                Some(rule_sm) => sm == rule_sm,
                None => true,
            },
            None => true,
        };
        let heat_match = match heat {
            Some(h) => match rule.heat {
                Some(rule_h) => h == rule_h,
                None => true,
            },
            None => true,
        };
        proof {
            let upto = reaction_rules@.take(index + 1);
            assert(upto.drop_last() == reaction_rules@.take(index as int));
            assert(upto.last() == *rule);
        }
        if stir_match && heat_match {
            compounds.push(rule.compound);
        }
        index += 1;
    }
    assert(reaction_rules@.take(reaction_rules.len() as int) == reaction_rules@);
    compounds
}

/// Whether the compound at `index` collides: whether it is one of the
/// reactive compounds and the draw for it came up. Where no draw was made for
/// it, it does not collide.
pub open spec fn collides(
    compounds: Seq<Compound>,
    reactive_compounds: Seq<Compound>,
    collisions: Seq<bool>,
    index: int,
) -> bool {
    &&& 0 <= index < compounds.len()
    &&& reactive_compounds.contains(compounds[index])
    &&& index < collisions.len()
    &&& collisions[index]
}

/// The compounds before `end` that collide, by their indices, in ascending
/// order.
pub open spec fn colliding(
    compounds: Seq<Compound>,
    reactive_compounds: Seq<Compound>,
    collisions: Seq<bool>,
    end: int,
) -> Seq<int>
    decreases end,
{
    if end <= 0 {
        Seq::empty()
    } else if collides(compounds, reactive_compounds, collisions, end - 1) {
        colliding(compounds, reactive_compounds, collisions, end - 1).push(end - 1)
    } else {
        colliding(compounds, reactive_compounds, collisions, end - 1)
    }
}

/// Whether `compound` is one of `reactive_compounds`.
pub fn is_reactive(reactive_compounds: &Vec<Compound>, compound: &Compound) -> (reactive: bool)
    ensures
        reactive == reactive_compounds@.contains(*compound),
{
    let mut index: usize = 0;
    while index < reactive_compounds.len()
        invariant
            index <= reactive_compounds.len(),
            forall|i: int| 0 <= i < index ==> reactive_compounds@[i] != *compound,
        decreases reactive_compounds.len() - index,
    {
        if reactive_compounds[index] == *compound {
            return true;
        }
        index += 1;
    }
    false
}

/// Lets the compounds that collide react in pairs: the first of them with the
/// second, the third with the fourth, and so on. One that is left over does
/// not react, and no other compound changes.
///
/// A compound collides when it is one of `reactive_compounds` and
/// `collisions` holds `true` at its index.
pub fn brewing(
    compounds: &mut Vec<Compound>,
    reactive_compounds: &Vec<Compound>,
    collisions: &Vec<bool>,
)
    ensures
        final(compounds).len() == old(compounds).len(),
        forall|index: int|
            0 <= index < old(compounds).len() ==> (#[trigger] final(compounds)@[index]).is_valid(),
        forall|index: int|
            0 <= index < old(compounds).len() && !collides(
                old(compounds)@,
                reactive_compounds@,
                collisions@,
                index,
            ) ==> #[trigger] final(compounds)@[index] == old(compounds)@[index],
        ({
            let pairs = colliding(
                old(compounds)@,
                reactive_compounds@,
                collisions@,
                old(compounds).len() as int,
            );
            &&& forall|pair: int|
                0 <= pair && 2 * pair + 1 < pairs.len() ==> is_reaction(
                    old(compounds)@[#[trigger] pairs[2 * pair]]@,
                    old(compounds)@[pairs[2 * pair + 1]]@,
                    7,
                    final(compounds)@[pairs[2 * pair]]@,
                    final(compounds)@[pairs[2 * pair + 1]]@,
                )
            &&& pairs.len() % 2 == 1 ==> final(compounds)@[pairs.last()] == old(
                compounds,
            )@[pairs.last()]
        }),
{
    let mut waiting: Option<usize> = None;
    let mut index: usize = 0;
    while index < compounds.len()
        invariant
            index <= compounds.len(),
            compounds.len() == old(compounds).len(),
            forall|i: int| index <= i < compounds.len() ==> compounds@[i] == old(compounds)@[i],
            forall|i: int| 0 <= i < index ==> (#[trigger] compounds@[i]).is_valid(),
            forall|i: int|
                0 <= i < index && !collides(old(compounds)@, reactive_compounds@, collisions@, i)
                    ==> compounds@[i] == old(compounds)@[i],
            ({
                let pairs = colliding(
                    old(compounds)@,
                    reactive_compounds@,
                    collisions@,
                    index as int,
                );
                &&& forall|pair: int|
                    0 <= pair && 2 * pair + 1 < pairs.len() ==> is_reaction(
                        old(compounds)@[#[trigger] pairs[2 * pair]]@,
                        old(compounds)@[pairs[2 * pair + 1]]@,
                        7,
                        compounds@[pairs[2 * pair]]@,
                        compounds@[pairs[2 * pair + 1]]@,
                    )
                &&& (pairs.len() % 2 == 1 <==> waiting is Some)
                &&& waiting matches Some(first) ==> first == pairs.last()
                    && compounds@[first as int] == old(compounds)@[first as int]
            }),
        decreases compounds.len() - index,
    {
        let ghost before = compounds@;
        let ghost pairs = colliding(
            old(compounds)@,
            reactive_compounds@,
            collisions@,
            index as int,
        );
        let ghost later = colliding(old(compounds)@, reactive_compounds@, collisions@, index + 1);
        proof {
            lemma_colliding_ascends(
                old(compounds)@,
                reactive_compounds@,
                collisions@,
                index as int,
            );
        }
        let compound = compounds[index];
        // A compound is always valid; asking it makes that known of this one.
        compound.validate();
        let collision = index < collisions.len() && collisions[index] && is_reactive(
            reactive_compounds,
            &compound,
        );
        assert(collision == collides(
            old(compounds)@,
            reactive_compounds@,
            collisions@,
            index as int,
        ));
        if collision {
            assert(later == pairs.push(index as int));
            match waiting {
                Some(first) => {
                    let mut left = compounds[first];
                    let mut right = compound;
                    left.react(&mut right);
                    compounds.set(first, left);
                    compounds.set(index, right);
                    waiting = None;
                    proof {
                        assert(collides(
                            old(compounds)@,
                            reactive_compounds@,
                            collisions@,
                            first as int,
                        ));
                        assert forall|pair: int|
                            0 <= pair && 2 * pair + 1 < later.len() implies is_reaction(
                            old(compounds)@[#[trigger] later[2 * pair]]@,
                            old(compounds)@[later[2 * pair + 1]]@,
                            7,
                            compounds@[later[2 * pair]]@,
                            compounds@[later[2 * pair + 1]]@,
                        ) by {
                            if 2 * pair + 1 < pairs.len() {
                                assert(later[2 * pair] == pairs[2 * pair]);
                                assert(later[2 * pair + 1] == pairs[2 * pair + 1]);
                                assert(pairs[2 * pair] != first);
                                assert(pairs[2 * pair + 1] != first);
                                assert(compounds@[pairs[2 * pair]] == before[pairs[2 * pair]]);
                                assert(compounds@[pairs[2 * pair + 1]] == before[pairs[2 * pair
                                    + 1]]);
                            } else {
                                assert(later[2 * pair] == first);
                                assert(later[2 * pair + 1] == index);
                            }
                        }
                    }
                },
                None => {
                    waiting = Some(index);
                    proof {
                        assert forall|pair: int|
                            0 <= pair && 2 * pair + 1 < later.len() implies is_reaction(
                            old(compounds)@[#[trigger] later[2 * pair]]@,
                            old(compounds)@[later[2 * pair + 1]]@,
                            7,
                            compounds@[later[2 * pair]]@,
                            compounds@[later[2 * pair + 1]]@,
                        ) by {
                            assert(later[2 * pair] == pairs[2 * pair]);
                            assert(later[2 * pair + 1] == pairs[2 * pair + 1]);
                        }
                    }
                },
            }
        } else {
            assert(later == pairs);
        }
        index += 1;
    }
}

/// The indices of the compounds that collide ascend, and each is the index of
/// a compound that collides.
pub proof fn lemma_colliding_ascends(
    compounds: Seq<Compound>,
    reactive_compounds: Seq<Compound>,
    collisions: Seq<bool>,
    end: int,
)
    ensures
        ({
            let indices = colliding(compounds, reactive_compounds, collisions, end);
            &&& forall|first: int, second: int|
                0 <= first < second < indices.len() ==> #[trigger] indices[first]
                    < #[trigger] indices[second]
            &&& forall|index: int|
                0 <= index < indices.len() ==> 0 <= #[trigger] indices[index] < end && collides(
                    compounds,
                    reactive_compounds,
                    collisions,
                    indices[index],
                )
        }),
    decreases end,
{
    if end > 0 {
        lemma_colliding_ascends(compounds, reactive_compounds, collisions, end - 1);
        let earlier = colliding(compounds, reactive_compounds, collisions, end - 1);
        let indices = colliding(compounds, reactive_compounds, collisions, end);
        assert forall|first: int, second: int| 0 <= first < second < indices.len() implies
            #[trigger] indices[first] < #[trigger] indices[second] by {
            if second < earlier.len() {
                assert(indices[first] == earlier[first]);
                assert(indices[second] == earlier[second]);
            } else {
                assert(indices[first] == earlier[first]);
            }
        }
        assert forall|index: int| 0 <= index < indices.len() implies 0 <= #[trigger] indices[index]
            < end && collides(compounds, reactive_compounds, collisions, indices[index]) by {
            if index < earlier.len() {
                assert(indices[index] == earlier[index]);
            }
        }
    }
}

} // verus!
