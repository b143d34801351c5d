use witchcraft::alchemy::compounds::{Compound, CompoundError, COMPOUND_WEIGHT};
use witchcraft::alchemy::element::Element;
use witchcraft::alchemy::element_counts::ElementCounts;
use witchcraft::alchemy::AltonWeighable;

#[test]
fn test_compound_equality() -> Result<(), CompoundError> {
    assert_eq!(
        Compound::try_from_element_counts(0, 1, 0, 0, 1)?,
        Compound::try_from_element_counts(0, 1, 0, 0, 1)?
    );
    Ok(())
}

#[test]
fn test_compound_appropriate_size_ok() -> Result<(), CompoundError> {
    Compound::try_from_element_counts(7, 0, 0, 0, 0)?;
    Compound::try_from_element_counts(2, 0, 0, 0, 1)?;
    Compound::try_from_element_counts(3, 0, 0, 1, 0)?;
    Compound::try_from_element_counts(0, 0, 1, 1, 0)?;
    Ok(())
}

#[test]
fn test_compound_inappropriate_size_fails() {
    assert_eq!(
        Compound::try_from_element_counts(5, 0, 0, 0, 0),
        Err(CompoundError::SizeError { size: 5 })
    );
    assert_eq!(
        Compound::try_from_element_counts(0, 0, 0, 0, 2),
        Err(CompoundError::SizeError { size: 10 })
    );
    assert_eq!(
        Compound::try_from_element_counts(0, 1, 1, 1, 0),
        Err(CompoundError::SizeError { size: 9 })
    );
    assert_eq!(
        Compound::try_from_element_counts(0, 1, 0, 1, 0),
        Err(CompoundError::SizeError { size: 6 })
    );
}

#[test]
fn test_compound_reaction_validity() -> Result<(), CompoundError> {
    let mut compound_a = Compound::try_from_element_counts(1, 3, 0, 0, 0)?;
    let mut compound_b = Compound::try_from_element_counts(2, 1, 1, 0, 0)?;
    let mut compound_c = Compound::try_from_element_counts(0, 1, 0, 0, 1)?;
    let mut compound_d = Compound::try_from_element_counts(0, 0, 1, 1, 0)?;

    println!(
        "{} {} {} {}",
        compound_a.to_string(),
        compound_b.to_string(),
        compound_c.to_string(),
        compound_d.to_string()
    );

    compound_a.react(&mut compound_b);
    compound_c.react(&mut compound_d);
    assert_eq!(compound_a.validate(), true);
    assert_eq!(compound_b.validate(), true);
    assert_eq!(compound_c.validate(), true);
    assert_eq!(compound_d.validate(), true);

    println!(
        "{} {} {} {}",
        compound_a.to_string(),
        compound_b.to_string(),
        compound_c.to_string(),
        compound_d.to_string()
    );

    compound_a.react(&mut compound_c);
    compound_b.react(&mut compound_d);
    assert_eq!(compound_a.validate(), true);
    assert_eq!(compound_b.validate(), true);
    assert_eq!(compound_c.validate(), true);
    assert_eq!(compound_d.validate(), true);
    println!(
        "{} {} {} {}",
        compound_a.to_string(),
        compound_b.to_string(),
        compound_c.to_string(),
        compound_d.to_string()
    );

    compound_a.react(&mut compound_d);
    compound_b.react(&mut compound_c);
    assert_eq!(compound_a.validate(), true);
    assert_eq!(compound_b.validate(), true);
    assert_eq!(compound_c.validate(), true);
    assert_eq!(compound_d.validate(), true);
    println!(
        "{} {} {} {}",
        compound_a.to_string(),
        compound_b.to_string(),
        compound_c.to_string(),
        compound_d.to_string()
    );

    Ok(())
}

#[test]
fn test_compound_parsing() -> Result<(), CompoundError> {
    assert_eq!(
        Compound::from_str("2abc")?,
        Compound::try_from_element_counts(2, 1, 1, 0, 0)?
    );
    assert_eq!(
        Compound::from_str("be")?,
        Compound::try_from_element_counts(0, 1, 0, 0, 1)?
    );
    assert_eq!(
        Compound::from_str("3a1d")?,
        Compound::try_from_element_counts(3, 0, 0, 1, 0)?
    );
    Ok(())
}

#[test]
fn test_compound_parsing_failures() {
    assert_eq!(Compound::from_str("d3a"), Err(CompoundError::ParseError));
    assert_eq!(Compound::from_str("faf"), Err(CompoundError::ParseError));
    assert_eq!(
        Compound::from_str("abc"),
        Err(CompoundError::SizeError { size: 6 })
    );
    assert_eq!(
        Compound::from_str("acd"),
        Err(CompoundError::SizeError { size: 8 })
    );
}

#[test]
fn compound_weighs_seven() {
    assert_eq!(COMPOUND_WEIGHT, 7);
    let compound = Compound::from_str("2ae").unwrap();
    assert_eq!(compound.weight(), 7);
    assert!(compound.validate());
    assert_eq!(compound.to_string(), "2ae");
}

#[test]
fn compound_try_from_cleans_and_checks_the_weight() {
    let mut counts = ElementCounts::new();
    counts.insert(Element::A, 0);
    counts.insert(Element::C, 1);
    counts.insert(Element::D, 1);
    let compound = Compound::try_from(counts).unwrap();
    assert_eq!(compound, Compound::from_str("cd").unwrap());
    counts.insert(Element::A, 2);
    assert_eq!(
        Compound::try_from(counts),
        Err(CompoundError::SizeError { size: 9 })
    );
    let mut cleaned = compound;
    cleaned.clean();
    assert_eq!(cleaned, compound);
    assert_eq!(cleaned.weight(), 7);
    assert_eq!(cleaned.to_string(), "cd");
}

#[test]
fn compound_reaction_conserves_the_elements() {
    for _ in 0..50 {
        let mut left = Compound::from_str("2ae").unwrap();
        let mut right = Compound::from_str("a3b").unwrap();
        left.react(&mut right);
        let text = format!("{}+{}", left.to_string(), right.to_string());
        assert!(
            ["2ae+a3b", "a3b+2ae", "be+3a2b", "3a2b+be"].contains(&text.as_str()),
            "{}",
            text
        );
    }
}
