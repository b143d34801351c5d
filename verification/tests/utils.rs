use witchcraft::alchemy::compound::Compound;
use witchcraft::utils::reduce_reverse_pairs;
use witchcraft::AppState;

#[test]
fn reduce_reverse_pairs_keeps_the_first_of_each_unordered_pair() {
    assert_eq!(
        reduce_reverse_pairs(vec![(1, 2), (2, 1), (3, 4), (1, 2), (4, 3), (5, 5), (2, 3)]),
        vec![(1, 2), (3, 4), (5, 5), (2, 3)]
    );
    assert_eq!(reduce_reverse_pairs(Vec::<(u8, u8)>::new()), Vec::new());
    assert_eq!(reduce_reverse_pairs(vec![(7, 7), (7, 7)]), vec![(7, 7)]);
    assert_eq!(
        reduce_reverse_pairs(vec![(2, 1), (1, 2), (2, 1)]),
        vec![(2, 1)]
    );
    assert_eq!(
        reduce_reverse_pairs(vec![
            ("a".to_string(), "b".to_string()),
            ("b".to_string(), "a".to_string())
        ]),
        vec![("a".to_string(), "b".to_string())]
    );
}

#[test]
fn reduce_reverse_pairs_leaves_no_pair_with_its_reverse() {
    let left = Compound::from_str("2ae").unwrap();
    let right = Compound::from_str("a3b").unwrap();
    let outcomes = left.react_search(&right);
    let reduced = reduce_reverse_pairs(outcomes.clone());
    assert_eq!(reduced.len(), 2);
    for (new_left, new_right) in &reduced {
        assert!(outcomes.contains(&(*new_left, *new_right)));
        assert!(!reduced.contains(&(*new_right, *new_left)));
    }
    for (new_left, new_right) in outcomes {
        assert!(
            reduced.contains(&(new_left, new_right)) || reduced.contains(&(new_right, new_left))
        );
    }
    let possible = left.set_of_possible_reactions(&right);
    assert_eq!(reduce_reverse_pairs(possible.clone()), possible);
}

#[test]
fn the_application_brews() {
    assert_eq!(AppState::Brewing, AppState::Brewing.clone());
}
