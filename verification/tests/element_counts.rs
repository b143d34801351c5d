use witchcraft::alchemy::element::Element;
use witchcraft::alchemy::element_counts::{add_element_counts, ElementCounts};
use witchcraft::alchemy::order::comes_first;
use witchcraft::alchemy::rearrangement::{
    element_rearrangements, element_rearrangements_of_equal_weight,
};
use witchcraft::alchemy::AltonWeighable;

#[test]
fn test_impossible_element_rearrangements_give_empty_list() {
    let mut left_element_counts: ElementCounts = ElementCounts::new();
    let mut right_element_counts: ElementCounts = ElementCounts::new();

    left_element_counts.insert(Element::C, 5);
    right_element_counts.insert(Element::B, 2);
    assert_eq!(
        Vec::<(ElementCounts, ElementCounts)>::new(),
        element_rearrangements_of_equal_weight(&left_element_counts, &right_element_counts)
    );

    left_element_counts.clear();
    right_element_counts.clear();
    left_element_counts.insert(Element::A, 1);
    assert_eq!(
        Vec::<(ElementCounts, ElementCounts)>::new(),
        element_rearrangements_of_equal_weight(&left_element_counts, &right_element_counts)
    );

    // The total weight doesn't have to be odd to be impossible
    left_element_counts.clear();
    right_element_counts.clear();
    left_element_counts.insert(Element::C, 5);
    right_element_counts.insert(Element::E, 1);
    assert_eq!(
        Vec::<(ElementCounts, ElementCounts)>::new(),
        element_rearrangements_of_equal_weight(&left_element_counts, &right_element_counts)
    );
}

fn counts(a: u32, b: u32, c: u32, d: u32, e: u32) -> ElementCounts {
    let mut counts = ElementCounts::new();
    for (element, count) in [
        (Element::A, a),
        (Element::B, b),
        (Element::C, c),
        (Element::D, d),
        (Element::E, e),
    ] {
        if count > 0 {
            counts.insert(element, count);
        }
    }
    counts
}

#[test]
fn element_weights_ascend_from_one_to_five() {
    assert_eq!(Element::A.weight(), 1);
    assert_eq!(Element::B.weight(), 2);
    assert_eq!(Element::C.weight(), 3);
    assert_eq!(Element::D.weight(), 4);
    assert_eq!(Element::E.weight(), 5);
    assert!(Element::A < Element::B);
    assert!(Element::B < Element::C);
    assert!(Element::C < Element::D);
    assert!(Element::D < Element::E);
    assert_eq!(Element::C.tag(), 'c');
    assert_eq!(Element::C.capital_tag(), 'C');
}

#[test]
fn element_counts_behave_as_a_map() {
    let mut held = ElementCounts::new();
    assert_eq!(held.get(Element::B), None);
    assert_eq!(held.count(Element::B), 0);
    assert_eq!(held.insert(Element::B, 3), None);
    assert_eq!(held.insert(Element::B, 4), Some(3));
    assert_eq!(held.get(Element::B), Some(4));
    assert_eq!(held.count(Element::B), 4);
    assert_eq!(held.insert(Element::D, 0), None);
    assert_eq!(held.get(Element::D), Some(0));
    assert_eq!(held.weight(), 8);
    assert_eq!(held.heaviest_present(), Some(Element::B));
    assert_ne!(held, counts(0, 4, 0, 0, 0));
    held.clean();
    assert_eq!(held.get(Element::D), None);
    assert_eq!(held, counts(0, 4, 0, 0, 0));
    held.clear();
    assert_eq!(held, ElementCounts::new());
    assert_eq!(held.heaviest_present(), None);
    assert_eq!(held.weight(), 0);
}

#[test]
fn weight_of_counts_does_not_overflow() {
    let held = counts(u32::MAX, u32::MAX, u32::MAX, u32::MAX, u32::MAX);
    assert_eq!(held.weight(), 15 * 4294967295);
}

#[test]
fn add_element_counts_adds_per_element() {
    let mut left = counts(2, 0, 0, 0, 1);
    left.insert(Element::C, 0);
    let right = counts(1, 3, 0, 0, 0);
    let total = add_element_counts(&left, &right);
    assert_eq!(total.get(Element::A), Some(3));
    assert_eq!(total.get(Element::B), Some(3));
    assert_eq!(total.get(Element::C), Some(0));
    assert_eq!(total.get(Element::D), None);
    assert_eq!(total.get(Element::E), Some(1));
    assert_eq!(total.weight(), 14);
    assert_eq!(add_element_counts(&right, &left), total);
}

#[test]
fn element_rearrangements_finds_every_split_once() {
    let total = counts(3, 3, 0, 0, 1);
    let found = element_rearrangements(&total, ElementCounts::new(), ElementCounts::new(), 7);
    assert_eq!(
        found,
        vec![
            (counts(0, 1, 0, 0, 1), counts(3, 2, 0, 0, 0)),
            (counts(2, 0, 0, 0, 1), counts(1, 3, 0, 0, 0)),
            (counts(1, 3, 0, 0, 0), counts(2, 0, 0, 0, 1)),
            (counts(3, 2, 0, 0, 0), counts(0, 1, 0, 0, 1)),
        ]
    );
}

#[test]
fn element_rearrangements_builds_on_the_accumulators() {
    let total = counts(1, 0, 0, 0, 0);
    let found = element_rearrangements(&total, counts(0, 1, 0, 0, 0), counts(0, 0, 1, 0, 0), 3);
    assert_eq!(found, vec![(counts(1, 1, 0, 0, 0), counts(0, 0, 1, 0, 0))]);
    let found = element_rearrangements(&total, counts(0, 0, 0, 1, 0), ElementCounts::new(), 3);
    assert_eq!(found, Vec::new());
}

#[test]
fn element_rearrangements_returns_clean_counts() {
    let mut total = ElementCounts::new();
    total.insert(Element::A, 0);
    let mut left = ElementCounts::new();
    left.insert(Element::B, 1);
    left.insert(Element::C, 0);
    let mut right = ElementCounts::new();
    right.insert(Element::B, 1);
    let found = element_rearrangements(&total, left, right, 2);
    assert_eq!(found, vec![(counts(0, 1, 0, 0, 0), counts(0, 1, 0, 0, 0))]);
}

#[test]
fn element_rearrangements_of_equal_weight_halves_the_total() {
    let found = element_rearrangements_of_equal_weight(
        &counts(0, 0, 0, 0, 1),
        &counts(1, 0, 0, 0, 0),
    );
    assert_eq!(found, Vec::new());
    let found = element_rearrangements_of_equal_weight(
        &counts(2, 0, 0, 0, 0),
        &counts(0, 2, 0, 0, 0),
    );
    assert_eq!(found, vec![(counts(1, 1, 0, 0, 0), counts(1, 1, 0, 0, 0))]);
    let found = element_rearrangements_of_equal_weight(
        &counts(0, 0, 1, 0, 0),
        &counts(1, 1, 0, 0, 0),
    );
    assert_eq!(
        found,
        vec![
            (counts(0, 0, 1, 0, 0), counts(1, 1, 0, 0, 0)),
            (counts(1, 1, 0, 0, 0), counts(0, 0, 1, 0, 0)),
        ]
    );
    let found =
        element_rearrangements_of_equal_weight(&ElementCounts::new(), &ElementCounts::new());
    assert_eq!(found, vec![(ElementCounts::new(), ElementCounts::new())]);
}

#[test]
fn counts_with_more_of_the_heaviest_differing_element_come_first() {
    assert!(comes_first(&counts(0, 0, 0, 0, 1), &counts(9, 9, 9, 9, 0)));
    assert!(!comes_first(&counts(9, 9, 9, 9, 0), &counts(0, 0, 0, 0, 1)));
    assert!(comes_first(&counts(0, 2, 0, 1, 1), &counts(5, 1, 0, 1, 1)));
    assert!(comes_first(&counts(1, 0, 0, 0, 0), &ElementCounts::new()));
    assert!(!comes_first(&counts(1, 2, 3, 4, 5), &counts(1, 2, 3, 4, 5)));
    let mut with_zero = counts(1, 0, 0, 0, 0);
    with_zero.insert(Element::E, 0);
    assert!(!comes_first(&with_zero, &counts(1, 0, 0, 0, 0)));
    assert!(!comes_first(&counts(1, 0, 0, 0, 0), &with_zero));
}
