use witchcraft::alchemy::compound::{Alchemical, CompoundError};
use witchcraft::alchemy::element::Element;
use witchcraft::alchemy::element_counts::ElementCounts;
use witchcraft::alchemy::AltonWeighable;

#[test]
fn test_alchemical_equality() -> Result<(), CompoundError> {
    assert_eq!(
        Alchemical::<7>::try_from_element_counts(0, 1, 0, 0, 1)?,
        Alchemical::<7>::try_from_element_counts(0, 1, 0, 0, 1)?
    );
    Ok(())
}

#[test]
fn test_alchemical_appropriate_size_ok() -> Result<(), CompoundError> {
    Alchemical::<7>::try_from_element_counts(7, 0, 0, 0, 0)?;
    Alchemical::<7>::try_from_element_counts(2, 0, 0, 0, 1)?;
    Alchemical::<7>::try_from_element_counts(3, 0, 0, 1, 0)?;
    Alchemical::<7>::try_from_element_counts(0, 0, 1, 1, 0)?;
    Ok(())
}

#[test]
fn test_alchemical_inappropriate_size_fails() {
    assert_eq!(
        Alchemical::<7>::try_from_element_counts(5, 0, 0, 0, 0),
        Err(CompoundError::SizeError { size: 5 })
    );
    assert_eq!(
        Alchemical::<7>::try_from_element_counts(0, 0, 0, 0, 2),
        Err(CompoundError::SizeError { size: 10 })
    );
    assert_eq!(
        Alchemical::<7>::try_from_element_counts(0, 1, 1, 1, 0),
        Err(CompoundError::SizeError { size: 9 })
    );
    assert_eq!(
        Alchemical::<7>::try_from_element_counts(0, 1, 0, 1, 0),
        Err(CompoundError::SizeError { size: 6 })
    );
}

#[test]
fn test_alchemical_reaction_validity() -> Result<(), CompoundError> {
    let mut alchemical_a = Alchemical::<7>::try_from_element_counts(1, 3, 0, 0, 0)?;
    let mut alchemical_b = Alchemical::<7>::try_from_element_counts(2, 1, 1, 0, 0)?;
    let mut alchemical_c = Alchemical::<7>::try_from_element_counts(0, 1, 0, 0, 1)?;
    let mut alchemical_d = Alchemical::<7>::try_from_element_counts(0, 0, 1, 1, 0)?;

    println!(
        "{} {} {} {}",
        alchemical_a.to_string(),
        alchemical_b.to_string(),
        alchemical_c.to_string(),
        alchemical_d.to_string()
    );

    alchemical_a.react(&mut alchemical_b);
    alchemical_c.react(&mut alchemical_d);
    assert_eq!(alchemical_a.validate(), true);
    assert_eq!(alchemical_b.validate(), true);
    assert_eq!(alchemical_c.validate(), true);
    assert_eq!(alchemical_d.validate(), true);

    println!(
        "{} {} {} {}",
        alchemical_a.to_string(),
        alchemical_b.to_string(),
        alchemical_c.to_string(),
        alchemical_d.to_string()
    );

    alchemical_a.react(&mut alchemical_c);
    alchemical_b.react(&mut alchemical_d);
    assert_eq!(alchemical_a.validate(), true);
    assert_eq!(alchemical_b.validate(), true);
    assert_eq!(alchemical_c.validate(), true);
    assert_eq!(alchemical_d.validate(), true);
    println!(
        "{} {} {} {}",
        alchemical_a.to_string(),
        alchemical_b.to_string(),
        alchemical_c.to_string(),
        alchemical_d.to_string()
    );

    alchemical_a.react(&mut alchemical_d);
    alchemical_b.react(&mut alchemical_c);
    assert_eq!(alchemical_a.validate(), true);
    assert_eq!(alchemical_b.validate(), true);
    assert_eq!(alchemical_c.validate(), true);
    assert_eq!(alchemical_d.validate(), true);
    println!(
        "{} {} {} {}",
        alchemical_a.to_string(),
        alchemical_b.to_string(),
        alchemical_c.to_string(),
        alchemical_d.to_string()
    );

    Ok(())
}

#[test]
fn test_alchemical_parsing() -> Result<(), CompoundError> {
    assert_eq!(
        Alchemical::<7>::from_str("2ABC")?,
        Alchemical::<7>::try_from_element_counts(2, 1, 1, 0, 0)?
    );
    assert_eq!(
        Alchemical::<7>::from_str("BE")?,
        Alchemical::<7>::try_from_element_counts(0, 1, 0, 0, 1)?
    );
    assert_eq!(
        Alchemical::<7>::from_str("3A1D")?,
        Alchemical::<7>::try_from_element_counts(3, 0, 0, 1, 0)?
    );
    Ok(())
}

#[test]
fn test_alchemical_parsing_failures() {
    assert_eq!(
        Alchemical::<7>::from_str("D3A"),
        Err(CompoundError::ParseError)
    );
    assert_eq!(
        Alchemical::<7>::from_str("FAF"),
        Err(CompoundError::ParseError)
    );
    assert_eq!(
        Alchemical::<7>::from_str("ABC"),
        Err(CompoundError::SizeError { size: 6 })
    );
    assert_eq!(
        Alchemical::<7>::from_str("ACD"),
        Err(CompoundError::SizeError { size: 8 })
    );
}

#[test]
fn test_list_possible_reactions() -> Result<(), CompoundError> {
    let left_alchemical: Alchemical<7> = Alchemical::from_str("2AE")?;
    let right_alchemical: Alchemical<7> = Alchemical::from_str("A3B")?;

    let possible_reactions = left_alchemical.set_of_possible_reactions(&right_alchemical);
    println!("{:?}", possible_reactions);

    assert_eq!(
        true,
        possible_reactions.contains(&(Alchemical::from_str("2AE")?, Alchemical::from_str("A3B")?))
    );
    assert_eq!(
        true,
        possible_reactions.contains(&(Alchemical::from_str("BE")?, Alchemical::from_str("3A2B")?))
    );
    assert_ne!(
        true,
        possible_reactions.contains(&(Alchemical::from_str("2AE")?, Alchemical::from_str("3A2B")?))
    );
    assert_ne!(
        true,
        possible_reactions.contains(&(Alchemical::from_str("A2C")?, Alchemical::from_str("CD")?))
    );

    Ok(())
}

#[test]
fn test_impossible_reaction_recursion_gives_empty_list() {
    // Can't be divided into two
    let mut total_element_counts: ElementCounts = ElementCounts::new();
    total_element_counts.insert(Element::C, 5);
    total_element_counts.insert(Element::E, 1);
    assert_eq!(
        Vec::<(Alchemical<10>, Alchemical<10>)>::new(),
        Alchemical::<10>::reaction_recursion(
            &total_element_counts,
            ElementCounts::new(),
            ElementCounts::new()
        )
    );

    // Exceeds desired weight
    total_element_counts.clear();
    total_element_counts.insert(Element::A, 4);
    total_element_counts.insert(Element::B, 2);
    assert_eq!(
        Vec::<(Alchemical<2>, Alchemical<2>)>::new(),
        Alchemical::<2>::reaction_recursion(
            &total_element_counts,
            ElementCounts::new(),
            ElementCounts::new()
        )
    );

    // Under desired weight
    total_element_counts.clear();
    total_element_counts.insert(Element::A, 3);
    total_element_counts.insert(Element::B, 2);
    total_element_counts.insert(Element::C, 1);
    assert_eq!(
        Vec::<(Alchemical<11>, Alchemical<11>)>::new(),
        Alchemical::<11>::reaction_recursion(
            &total_element_counts,
            ElementCounts::new(),
            ElementCounts::new()
        )
    );
}

#[test]
fn weight_is_the_sum_of_counts_times_element_weights() {
    let compound = Alchemical::<30>::try_from_element_counts(1, 2, 3, 4, 0).unwrap();
    assert_eq!(compound.weight(), 30);
    let compound = Alchemical::<15>::try_from_element_counts(1, 1, 1, 1, 1).unwrap();
    assert_eq!(compound.weight(), 15);
    assert_eq!(
        Alchemical::<7>::try_from_element_counts(1, 1, 1, 1, 1),
        Err(CompoundError::SizeError { size: 15 })
    );
}

#[test]
fn size_error_reports_weights_beyond_the_range_of_a_count() {
    assert_eq!(
        Alchemical::<7>::try_from_element_counts(0, 0, 0, 0, u32::MAX),
        Err(CompoundError::SizeError {
            size: 5 * 4294967295
        })
    );
    assert_eq!(
        Alchemical::<7>::try_from_element_counts(u32::MAX, u32::MAX, u32::MAX, u32::MAX, u32::MAX),
        Err(CompoundError::SizeError {
            size: 15 * 4294967295
        })
    );
}

#[test]
fn compound_of_weight_zero_is_empty() {
    let nothing = Alchemical::<0>::try_from_element_counts(0, 0, 0, 0, 0).unwrap();
    assert_eq!(nothing.to_string(), "");
    assert_eq!(Alchemical::<0>::from_str(""), Ok(nothing));
    assert_eq!(nothing.weight(), 0);
    assert_eq!(
        Alchemical::<7>::from_str(""),
        Err(CompoundError::SizeError { size: 0 })
    );
}

#[test]
fn zero_counts_are_left_out_of_the_compound() {
    let with_zeros = Alchemical::<7>::try_from_element_counts(0, 1, 0, 0, 1).unwrap();
    let mut counts = ElementCounts::new();
    counts.insert(Element::B, 1);
    counts.insert(Element::E, 1);
    let without_zeros = Alchemical::<7>::try_from(counts).unwrap();
    assert_eq!(with_zeros, without_zeros);
    assert_eq!(with_zeros.to_string(), without_zeros.to_string());
    assert_eq!(with_zeros.to_string(), "be");
    let held = with_zeros.element_counts();
    assert_eq!(held.get(Element::A), None);
    assert_eq!(held.get(Element::B), Some(1));
    assert_eq!(held.get(Element::C), None);
    assert_eq!(held.get(Element::D), None);
    assert_eq!(held.get(Element::E), Some(1));
    assert_eq!(held, counts);
}

#[test]
fn try_from_cleans_and_checks_the_weight() {
    let mut counts = ElementCounts::new();
    counts.insert(Element::A, 7);
    counts.insert(Element::C, 0);
    let compound = Alchemical::<7>::try_from(counts).unwrap();
    assert_eq!(compound.element_counts().get(Element::C), None);
    assert_eq!(compound.element_counts().get(Element::A), Some(7));
    counts.insert(Element::C, 1);
    assert_eq!(
        Alchemical::<7>::try_from(counts),
        Err(CompoundError::SizeError { size: 10 })
    );
}

#[test]
fn clean_changes_nothing() {
    let mut compound = Alchemical::<7>::from_str("a3b").unwrap();
    let before = compound;
    compound.clean();
    assert_eq!(compound, before);
    assert!(compound.validate());
    assert_eq!(compound.weight(), 7);
    let held = compound.element_counts();
    assert_eq!(held.get(Element::A), Some(1));
    assert_eq!(held.get(Element::B), Some(3));
    for element in [Element::C, Element::D, Element::E] {
        assert_eq!(held.get(element), None);
    }
}
