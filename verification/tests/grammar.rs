use nom::{character::complete, combinator, IResult};
use std::collections::HashMap;
use witchcraft::alchemy::element::Element;
use witchcraft::alchemy::element_counts::{element_counts_parser, ElementCounts};

const ELEMENTS: [Element; 5] = [Element::A, Element::B, Element::C, Element::D, Element::E];

fn block<'a>(input: &'a str, element: Element, tag: char) -> IResult<&'a str, (Element, u32)> {
    let (input, multiplier) = combinator::opt(complete::u32)(input)?;
    let (input, _) = complete::char(tag)(input)?;
    Ok((input, (element, multiplier.unwrap_or(1))))
}

fn blocks<'a>(input: &'a str, tags: [char; 5]) -> IResult<&'a str, HashMap<Element, u32>> {
    let mut counts = HashMap::new();
    let mut input = input;
    for (element, tag) in ELEMENTS.iter().zip(tags) {
        let (rest, found) = combinator::opt(|text| block(text, *element, tag))(input)?;
        if let Some((element, count)) = found {
            counts.insert(element, count);
        }
        input = rest;
    }
    Ok((input, counts))
}

fn combinators_read(text: &str, tags: [char; 5]) -> Option<HashMap<Element, u32>> {
    match combinator::all_consuming(|text| blocks(text, tags))(text) {
        Ok((_, counts)) => Some(counts),
        Err(_) => None,
    }
}

fn library_reads(text: &str) -> Option<HashMap<Element, u32>> {
    let letters: Vec<char> = text.chars().collect();
    let (counts, end): (ElementCounts, usize) = element_counts_parser(&letters);
    if end != letters.len() {
        return None;
    }
    let mut entries = HashMap::new();
    for element in ELEMENTS {
        if let Some(count) = counts.get(element) {
            entries.insert(element, count);
        }
    }
    Some(entries)
}

fn every_text(alphabet: &[char], longest: usize) -> Vec<String> {
    let mut texts = vec![String::new()];
    let mut start = 0;
    for _ in 0..longest {
        let end = texts.len();
        for index in start..end {
            for letter in alphabet {
                let mut text = texts[index].clone();
                text.push(*letter);
                texts.push(text);
            }
        }
        start = end;
    }
    texts
}

#[test]
fn lower_case_texts_are_read_as_parser_combinators_read_them() {
    let alphabet = ['a', 'b', 'c', 'd', 'e', 'f', '0', '1', '7', ' '];
    let mut accepted = 0;
    for text in every_text(&alphabet, 5) {
        let expected = combinators_read(&text, ['a', 'b', 'c', 'd', 'e']);
        if expected.is_some() {
            accepted += 1;
        }
        assert_eq!(library_reads(&text), expected, "{:?}", text);
    }
    assert!(accepted > 1000);
}

#[test]
fn capital_texts_are_read_as_parser_combinators_read_them() {
    let alphabet = ['A', 'B', 'C', 'D', 'E', 'F', '2', '3', '9', '-'];
    for text in every_text(&alphabet, 5) {
        assert_eq!(
            library_reads(&text),
            combinators_read(&text, ['A', 'B', 'C', 'D', 'E']),
            "{:?}",
            text
        );
    }
}

#[test]
fn long_counts_are_read_as_parser_combinators_read_them() {
    for text in [
        "4294967295a",
        "4294967296a",
        "4294967294a4294967295b",
        "42949672950a",
        "00000000004294967295e",
        "18446744073709551616c",
        "340282366920938463463374607431768211456d",
        "1234567890a987654321b",
        "0a0b0c0d0e",
        "10a200b3000c40000d500000e",
    ] {
        assert_eq!(
            library_reads(text),
            combinators_read(text, ['a', 'b', 'c', 'd', 'e']),
            "{:?}",
            text
        );
    }
}
