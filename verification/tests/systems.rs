use witchcraft::alchemy::components::{Cauldron, Heat, RankDisplayer, StirMethod};
use witchcraft::alchemy::compound::Compound;
use witchcraft::alchemy::resources::ReactionRule;
use witchcraft::alchemy::systems::{brewing, get_reactive_compounds};
use witchcraft::alchemy::AltonWeighable;

fn rule(text: &str, heat: Option<Heat>, stir_method: Option<StirMethod>) -> ReactionRule {
    ReactionRule {
        compound: Compound::from_str(text).unwrap(),
        heat,
        stir_method,
    }
}

fn rules() -> Vec<ReactionRule> {
    vec![
        rule("7a", None, None),
        rule("be", Some(Heat::Boiling), None),
        rule("cd", None, Some(StirMethod::SingleStir)),
        rule("2ae", Some(Heat::Simmering), Some(StirMethod::ZeroStir)),
        rule("a3b", Some(Heat::Boiling), Some(StirMethod::SingleStir)),
    ]
}

fn names(compounds: Vec<Compound>) -> Vec<String> {
    compounds.iter().map(|compound| compound.to_string()).collect()
}

#[test]
fn rules_without_conditions_always_apply() {
    assert_eq!(
        names(get_reactive_compounds(
            &rules(),
            Some(StirMethod::QuadrupleStir),
            Some(Heat::Simmering)
        )),
        vec!["7a"]
    );
}

#[test]
fn rules_apply_when_both_conditions_are_met() {
    assert_eq!(
        names(get_reactive_compounds(
            &rules(),
            Some(StirMethod::SingleStir),
            Some(Heat::Boiling)
        )),
        vec!["7a", "be", "cd", "a3b"]
    );
    assert_eq!(
        names(get_reactive_compounds(
            &rules(),
            Some(StirMethod::ZeroStir),
            Some(Heat::Simmering)
        )),
        vec!["7a", "2ae"]
    );
}

#[test]
fn criteria_that_are_absent_filter_nothing() {
    assert_eq!(
        names(get_reactive_compounds(&rules(), None, None)),
        vec!["7a", "be", "cd", "2ae", "a3b"]
    );
    assert_eq!(
        names(get_reactive_compounds(&rules(), None, Some(Heat::Boiling))),
        vec!["7a", "be", "cd", "a3b"]
    );
    assert_eq!(
        names(get_reactive_compounds(
            &rules(),
            Some(StirMethod::SingleStir),
            None
        )),
        vec!["7a", "be", "cd", "a3b"]
    );
    assert_eq!(
        names(get_reactive_compounds(&Vec::new(), None, None)),
        Vec::<String>::new()
    );
}

#[test]
fn markers_are_plain_values() {
    assert_eq!(Cauldron, Cauldron);
    assert_eq!(RankDisplayer, RankDisplayer);
    assert_ne!(Heat::Boiling, Heat::Simmering);
    assert_ne!(StirMethod::ZeroStir, StirMethod::DoubleStir);
}

#[test]
fn colliding_compounds_react_in_pairs() {
    let start: Vec<Compound> = ["7a", "2ae", "be", "a3b", "cd", "2ae", "a3b", "be"]
        .iter()
        .map(|text| Compound::from_str(text).unwrap())
        .collect();
    let reactive: Vec<Compound> = ["2ae", "a3b", "be"]
        .iter()
        .map(|text| Compound::from_str(text).unwrap())
        .collect();
    // 2ae at 1 and a3b at 3 collide and react; be at 7 collides and is left over.
    let collisions = vec![true, true, false, true, true, false, false, true];
    for _ in 0..40 {
        let mut compounds = start.clone();
        brewing(&mut compounds, &reactive, &collisions);
        assert_eq!(compounds.len(), start.len());
        for index in [0, 2, 4, 5, 6, 7] {
            assert_eq!(compounds[index], start[index]);
        }
        let outcomes = start[1].react_search(&start[3]);
        assert!(outcomes.contains(&(compounds[1], compounds[3])));
        for compound in &compounds {
            assert_eq!(compound.weight(), 7);
        }
    }
}

#[test]
fn nothing_reacts_without_collisions() {
    let start: Vec<Compound> = ["2ae", "a3b", "be", "3a2b"]
        .iter()
        .map(|text| Compound::from_str(text).unwrap())
        .collect();
    let mut compounds = start.clone();
    brewing(&mut compounds, &start, &vec![false, false, false, false]);
    assert_eq!(compounds, start);
    brewing(&mut compounds, &start, &Vec::new());
    assert_eq!(compounds, start);
    brewing(&mut compounds, &Vec::new(), &vec![true, true, true, true]);
    assert_eq!(compounds, start);
    brewing(&mut compounds, &start, &vec![false, false, true]);
    assert_eq!(compounds, start);
    let mut none: Vec<Compound> = Vec::new();
    brewing(&mut none, &start, &vec![true]);
    assert_eq!(none, Vec::new());
}

#[test]
fn every_pair_of_colliding_compounds_reacts() {
    let start: Vec<Compound> = ["2ae", "a3b", "be", "3a2b", "2abc", "cd"]
        .iter()
        .map(|text| Compound::from_str(text).unwrap())
        .collect();
    let mut changed = [false; 3];
    for _ in 0..200 {
        let mut compounds = start.clone();
        brewing(&mut compounds, &start, &vec![true; 6]);
        for pair in 0..3 {
            let (left, right) = (2 * pair, 2 * pair + 1);
            let outcomes = start[left].react_search(&start[right]);
            assert!(outcomes.contains(&(compounds[left], compounds[right])));
            if compounds[left] != start[left] {
                changed[pair] = true;
            }
        }
    }
    assert_eq!(changed, [true; 3]);
}
