use witchcraft::alchemy::compound::{Alchemical, Compound};
use witchcraft::alchemy::element::Element;
use witchcraft::alchemy::element_counts::ElementCounts;
use witchcraft::alchemy::AltonWeighable;

fn compound(text: &str) -> Compound {
    Compound::from_str(text).unwrap()
}

const EVERY_COMPOUND: [&str; 13] = [
    "7a", "5ab", "3a2b", "a3b", "4ac", "2abc", "2bc", "a2c", "3ad", "abd", "cd", "2ae", "be",
];

#[test]
fn react_search_lists_every_outcome_once() {
    let outcomes = compound("2AE").react_search(&compound("A3B"));
    assert_eq!(outcomes.len(), 4);
    assert!(outcomes.contains(&(compound("2AE"), compound("A3B"))));
    assert!(outcomes.contains(&(compound("A3B"), compound("2AE"))));
    assert!(outcomes.contains(&(compound("BE"), compound("3A2B"))));
    assert!(outcomes.contains(&(compound("3A2B"), compound("BE"))));
    assert!(!outcomes.contains(&(compound("2AE"), compound("3A2B"))));
    assert!(!outcomes.contains(&(compound("A2C"), compound("CD"))));
}

#[test]
fn react_search_always_holds_the_pair_as_it_is_and_its_mirror() {
    for left in EVERY_COMPOUND {
        for right in EVERY_COMPOUND {
            let outcomes = compound(left).react_search(&compound(right));
            assert!(outcomes.contains(&(compound(left), compound(right))));
            assert!(outcomes.contains(&(compound(right), compound(left))));
        }
    }
}

#[test]
fn every_outcome_conserves_mass_and_elements() {
    for left in EVERY_COMPOUND {
        for right in EVERY_COMPOUND {
            let (left, right) = (compound(left), compound(right));
            for (new_left, new_right) in left.react_search(&right) {
                assert_eq!(new_left.weight(), 7);
                assert_eq!(new_right.weight(), 7);
                assert_eq!(
                    new_left.weight() + new_right.weight(),
                    left.weight() + right.weight()
                );
                for element in [Element::A, Element::B, Element::C, Element::D, Element::E] {
                    assert_eq!(
                        new_left.element_counts().count(element)
                            + new_right.element_counts().count(element),
                        left.element_counts().count(element)
                            + right.element_counts().count(element)
                    );
                    assert_ne!(new_left.element_counts().get(element), Some(0));
                    assert_ne!(new_right.element_counts().get(element), Some(0));
                }
            }
        }
    }
}

#[test]
fn outcomes_hold_no_pair_twice() {
    let outcomes = compound("7a").react_search(&compound("7a"));
    assert_eq!(outcomes, vec![(compound("7a"), compound("7a"))]);
    let outcomes = compound("3a2b").react_search(&compound("a3b"));
    for (index, outcome) in outcomes.iter().enumerate() {
        assert!(!outcomes[..index].contains(outcome));
    }
    assert_eq!(outcomes.len(), 2);
}

#[test]
fn possible_reactions_keep_one_of_each_mirrored_pair() {
    for left in EVERY_COMPOUND {
        for right in EVERY_COMPOUND {
            let (left, right) = (compound(left), compound(right));
            let outcomes = left.react_search(&right);
            let possible = left.set_of_possible_reactions(&right);
            for (index, (new_left, new_right)) in possible.iter().enumerate() {
                assert!(outcomes.contains(&(*new_left, *new_right)));
                assert!(!possible[..index].contains(&(*new_left, *new_right)));
                if new_left != new_right {
                    assert!(!possible.contains(&(*new_right, *new_left)));
                }
            }
            for (new_left, new_right) in outcomes {
                assert!(
                    possible.contains(&(new_left, new_right))
                        || possible.contains(&(new_right, new_left))
                );
            }
        }
    }
}

#[test]
fn possible_reactions_do_not_depend_on_the_order_of_the_two() {
    for left in EVERY_COMPOUND {
        for right in EVERY_COMPOUND {
            let (left, right) = (compound(left), compound(right));
            let one_way = left.set_of_possible_reactions(&right);
            let other_way = right.set_of_possible_reactions(&left);
            assert_eq!(one_way.len(), other_way.len());
            for pair in &one_way {
                assert!(other_way.contains(pair));
            }
        }
    }
}

#[test]
fn possible_reactions_keep_the_side_with_more_of_the_heaviest_element_left() {
    let possible = compound("a3b").set_of_possible_reactions(&compound("2ae"));
    assert_eq!(possible.len(), 2);
    assert!(possible.contains(&(compound("2ae"), compound("a3b"))));
    assert!(possible.contains(&(compound("be"), compound("3a2b"))));
    let possible = compound("7a").set_of_possible_reactions(&compound("7a"));
    assert_eq!(possible, vec![(compound("7a"), compound("7a"))]);
}

#[test]
fn select_reaction_takes_the_outcome_at_the_index() {
    let outcomes = compound("2ae").react_search(&compound("a3b"));
    for index in 0..outcomes.len() {
        let mut left = compound("2ae");
        let mut right = compound("a3b");
        left.select_reaction(&mut right, &outcomes, index);
        assert_eq!((left, right), outcomes[index]);
    }
}

#[test]
fn react_leaves_two_compounds_that_are_an_outcome() {
    for left in EVERY_COMPOUND {
        for right in EVERY_COMPOUND {
            let outcomes = compound(left).react_search(&compound(right));
            for _ in 0..5 {
                let mut new_left = compound(left);
                let mut new_right = compound(right);
                new_left.react(&mut new_right);
                assert!(new_left.validate());
                assert!(new_right.validate());
                assert_eq!(new_left.weight(), 7);
                assert_eq!(new_right.weight(), 7);
                assert!(outcomes.contains(&(new_left, new_right)));
            }
        }
    }
}

#[test]
fn react_reaches_every_outcome() {
    let outcomes = compound("2ae").react_search(&compound("a3b"));
    let mut seen = vec![false; outcomes.len()];
    for _ in 0..2000 {
        let mut left = compound("2ae");
        let mut right = compound("a3b");
        left.react(&mut right);
        let index = outcomes
            .iter()
            .position(|outcome| *outcome == (left, right))
            .unwrap();
        seen[index] = true;
    }
    assert_eq!(seen, vec![true; outcomes.len()]);
}

#[test]
fn reaction_recursion_builds_on_the_accumulators() {
    let mut total = ElementCounts::new();
    total.insert(Element::A, 3);
    let mut left = ElementCounts::new();
    left.insert(Element::B, 1);
    let mut right = ElementCounts::new();
    right.insert(Element::C, 1);
    let outcomes = Alchemical::<4>::reaction_recursion(&total, left, right);
    assert_eq!(
        outcomes,
        vec![(
            Alchemical::<4>::from_str("2ab").unwrap(),
            Alchemical::<4>::from_str("ac").unwrap()
        )]
    );
}

#[test]
fn compounds_of_other_weights_react_too() {
    let left = Alchemical::<10>::from_str("2e").unwrap();
    let right = Alchemical::<10>::from_str("10a").unwrap();
    let outcomes = left.react_search(&right);
    assert_eq!(outcomes.len(), 3);
    assert!(outcomes.contains(&(left, right)));
    assert!(outcomes.contains(&(right, left)));
    let middle = Alchemical::<10>::from_str("5ae").unwrap();
    assert!(outcomes.contains(&(middle, middle)));
    assert_eq!(
        left.set_of_possible_reactions(&right),
        vec![(left, right), (middle, middle)]
    );
}

#[test]
fn outcomes_come_in_the_descending_order_of_their_left_sides() {
    assert_eq!(
        compound("2ae").react_search(&compound("a3b")),
        vec![
            (compound("be"), compound("3a2b")),
            (compound("2ae"), compound("a3b")),
            (compound("a3b"), compound("2ae")),
            (compound("3a2b"), compound("be")),
        ]
    );
    assert_eq!(
        compound("a3b").react_search(&compound("2ae")),
        compound("2ae").react_search(&compound("a3b"))
    );
    assert_eq!(
        compound("2ae").set_of_possible_reactions(&compound("a3b")),
        vec![
            (compound("be"), compound("3a2b")),
            (compound("2ae"), compound("a3b")),
        ]
    );
    assert_eq!(
        compound("cd").react_search(&compound("3a2b")),
        vec![
            (compound("cd"), compound("3a2b")),
            (compound("abd"), compound("2abc")),
            (compound("3ad"), compound("2bc")),
            (compound("2bc"), compound("3ad")),
            (compound("2abc"), compound("abd")),
            (compound("3a2b"), compound("cd")),
        ]
    );
}

#[test]
fn the_heavier_element_decides_the_order_before_the_lighter() {
    let outcomes = Alchemical::<15>::from_str("abcde")
        .unwrap()
        .react_search(&Alchemical::<15>::from_str("abcde").unwrap());
    let keys: Vec<[u32; 5]> = outcomes
        .iter()
        .map(|(left, _)| {
            let counts = left.element_counts();
            [
                counts.count(Element::E),
                counts.count(Element::D),
                counts.count(Element::C),
                counts.count(Element::B),
                counts.count(Element::A),
            ]
        })
        .collect();
    assert!(keys.len() > 10);
    for index in 1..keys.len() {
        assert!(keys[index - 1] > keys[index]);
    }
}
