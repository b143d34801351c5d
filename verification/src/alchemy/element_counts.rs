//! Counts of elements, and the arithmetic on them.

use crate::alchemy::element::{element_parser_maker, Element};
use crate::alchemy::notation::{
    decimal_value, digits_end, is_digit, lemma_decimal_value_grows, lemma_digits_end,
    lemma_digits_end_bounds, lemma_digits_end_skips_digits, parse_block, parse_blocks,
};
use crate::alchemy::AltonWeighable;
use vstd::prelude::*;

verus! {

/// How often `element` occurs in `counts`: what the map holds for it, and 0
/// where it holds nothing.
pub open spec fn count_of(counts: Map<Element, nat>, element: Element) -> nat {
    if counts.dom().contains(element) {
        counts[element]
    } else {
        0
    }
}

/// The weight of `counts`: each element's count times its weight, summed.
pub open spec fn weight_of(counts: Map<Element, nat>) -> nat {
    count_of(counts, Element::A) * 1 + count_of(counts, Element::B) * 2 + count_of(
        counts,
        Element::C,
    ) * 3 + count_of(counts, Element::D) * 4 + count_of(counts, Element::E) * 5
}

/// The number of single elements in `counts`, whatever their kind.
pub open spec fn units_of(counts: Map<Element, nat>) -> nat {
    count_of(counts, Element::A) + count_of(counts, Element::B) + count_of(counts, Element::C)
        + count_of(counts, Element::D) + count_of(counts, Element::E)
}

/// Whether `counts` has no entry with count 0.
pub open spec fn is_clean(counts: Map<Element, nat>) -> bool {
    forall|element: Element| #[trigger] counts.dom().contains(element) ==> counts[element] > 0
}

/// `counts` without its entries of count 0.
pub open spec fn cleaned(counts: Map<Element, nat>) -> Map<Element, nat> {
    Map::new(
        |element: Element| counts.dom().contains(element) && counts[element] > 0,
        |element: Element| counts[element],
    )
}

/// The per-element sum of two counts, with an entry for every element that
/// either of them has an entry for.
pub open spec fn sum_of(left: Map<Element, nat>, right: Map<Element, nat>) -> Map<Element, nat> {
    Map::new(
        |element: Element| left.dom().contains(element) || right.dom().contains(element),
        |element: Element| count_of(left, element) + count_of(right, element),
    )
}

/// A mapping from elements to counts. An element may be absent, or present
/// with any count, 0 included.
#[derive(Copy, Clone, Eq, PartialEq, Debug, Hash, Structural)]
pub struct ElementCounts {
    a: Option<u32>,
    b: Option<u32>,
    c: Option<u32>,
    d: Option<u32>,
    e: Option<u32>,
}

impl View for ElementCounts {
    type V = Map<Element, nat>;

    closed spec fn view(&self) -> Map<Element, nat> {
        Map::new(
            |element: Element| self.slot(element) is Some,
            |element: Element| self.slot(element)->0 as nat,
        )
    }
}

impl AltonWeighable for ElementCounts {
    open spec fn weight_spec(&self) -> nat {
        weight_of(self@)
    }

    fn weight(&self) -> (weight: u64) {
        let a: u64 = self.count(Element::A) as u64;
        let b: u64 = self.count(Element::B) as u64;
        let c: u64 = self.count(Element::C) as u64;
        let d: u64 = self.count(Element::D) as u64;
        let e: u64 = self.count(Element::E) as u64;
        a + b * 2 + c * 3 + d * 4 + e * 5
    }
}

impl ElementCounts {
    spec fn slot(&self, element: Element) -> Option<u32> {
        match element {
            Element::A => self.a,
            Element::B => self.b,
            Element::C => self.c,
            Element::D => self.d,
            Element::E => self.e,
        }
    }

    /// Counts with no entry.
    pub fn new() -> (counts: ElementCounts)
        ensures
            counts@ == Map::<Element, nat>::empty(),
    {
        let counts = ElementCounts { a: None, b: None, c: None, d: None, e: None };
        assert(counts@ =~= Map::<Element, nat>::empty());
        counts
    }

    /// The entry for `element`, if there is one.
    pub fn get(&self, element: Element) -> (count: Option<u32>)
        ensures
            count is Some <==> self@.dom().contains(element),
            count matches Some(c) ==> c == self@[element],
    {
        match element {
            Element::A => self.a,
            Element::B => self.b,
            Element::C => self.c,
            Element::D => self.d,
            Element::E => self.e,
        }
    }

    /// How often `element` occurs: its entry, or 0 where it has none.
    pub fn count(&self, element: Element) -> (count: u32)
        ensures
            count == count_of(self@, element),
    {
        match self.get(element) {
            Some(count) => count,
            None => 0,
        }
    }

    /// Sets the entry for `element` to `count` and returns the entry it had.
    pub fn insert(&mut self, element: Element, count: u32) -> (previous: Option<u32>)
        ensures
            final(self)@ == old(self)@.insert(element, count as nat),
            previous is Some <==> old(self)@.dom().contains(element),
            previous matches Some(p) ==> p == old(self)@[element],
    {
        let previous = self.get(element);
        match element {
            Element::A => {
                self.a = Some(count);
            },
            Element::B => {
                self.b = Some(count);
            },
            Element::C => {
                self.c = Some(count);
            },
            Element::D => {
                self.d = Some(count);
            },
            Element::E => {
                self.e = Some(count);
            },
        }
        assert(self@ =~= old(self)@.insert(element, count as nat));
        previous
    }

    /// Removes every entry.
    pub fn clear(&mut self)
        ensures
            final(self)@ == Map::<Element, nat>::empty(),
    {
        *self = ElementCounts::new();
    }

    /// Removes the entries with count 0.
    pub fn clean(&mut self)
        ensures
            final(self)@ == cleaned(old(self)@),
    {
        if self.a == Some(0) {
            self.a = None;
        }
        if self.b == Some(0) {
            self.b = None;
        }
        if self.c == Some(0) {
            self.c = None;
        }
        if self.d == Some(0) {
            self.d = None;
        }
        if self.e == Some(0) {
            self.e = None;
        }
        assert(self@ =~= cleaned(old(self)@));
    }

    /// The heaviest element that occurs at least once, if any does.
    pub fn heaviest_present(&self) -> (element: Option<Element>)
        ensures
            element is None <==> units_of(self@) == 0,
            element matches Some(heaviest) ==> {
                &&& count_of(self@, heaviest) > 0
                &&& forall|other: Element|
                    heaviest.rank() < other.rank() ==> #[trigger] count_of(self@, other) == 0
            },
    {
        if self.count(Element::E) > 0 {
            Some(Element::E)
        } else if self.count(Element::D) > 0 {
            Some(Element::D)
        } else if self.count(Element::C) > 0 {
            Some(Element::C)
        } else if self.count(Element::B) > 0 {
            Some(Element::B)
        } else if self.count(Element::A) > 0 {
            Some(Element::A)
        } else {
            None
        }
    }

    /// The counts that hold the entries of `entries`, where none of them is
    /// more than a count can hold.
    pub closed spec fn from_map(entries: Map<Element, nat>) -> ElementCounts {
        ElementCounts {
            a: Self::slot_of(entries, Element::A),
            b: Self::slot_of(entries, Element::B),
            c: Self::slot_of(entries, Element::C),
            d: Self::slot_of(entries, Element::D),
            e: Self::slot_of(entries, Element::E),
        }
    }

    spec fn slot_of(entries: Map<Element, nat>, element: Element) -> Option<u32> {
        if entries.dom().contains(element) {
            Some(entries[element] as u32)
        } else {
            None
        }
    }

    /// Entries that counts can hold are the entries of some counts.
    pub proof fn lemma_from_map(entries: Map<Element, nat>)
        requires
            forall|element: Element| count_of(entries, element) <= u32::MAX,
        ensures
            Self::from_map(entries)@ == entries,
    {
        let counts = Self::from_map(entries);
        assert forall|element: Element|
            counts@.dom().contains(element) == entries.dom().contains(element) && (
            entries.dom().contains(element) ==> counts@[element] == entries[element]) by {
            assert(counts.slot(element) == Self::slot_of(entries, element));
            assert(count_of(entries, element) <= u32::MAX);
        }
        assert(counts@ =~= entries);
    }

    /// Counts weigh no more than fifteen times what a count can hold.
    pub proof fn lemma_weight_bounded(self)
        ensures
            weight_of(self@) <= 15 * u32::MAX,
    {
    }

    /// No count exceeds what the entries can hold.
    pub proof fn lemma_counts_bounded(self)
        ensures
            forall|element: Element| #[trigger] count_of(self@, element) <= u32::MAX,
    {
    }

    /// Counts with the same entries are the same value.
    pub proof fn lemma_view_injective(self, other: ElementCounts)
        requires
            self@ == other@,
        ensures
            self == other,
    {
        assert forall|element: Element| self.slot(element) == other.slot(element) by {
            assert(self@.dom().contains(element) <==> self.slot(element) is Some);
            assert(other@.dom().contains(element) <==> other.slot(element) is Some);
            if self.slot(element) is Some {
                assert(self@[element] == self.slot(element)->0 as nat);
                assert(other@[element] == other.slot(element)->0 as nat);
            }
        }
        assert(self.slot(Element::A) == other.slot(Element::A));
        assert(self.slot(Element::B) == other.slot(Element::B));
        assert(self.slot(Element::C) == other.slot(Element::C));
        assert(self.slot(Element::D) == other.slot(Element::D));
        assert(self.slot(Element::E) == other.slot(Element::E));
    }
}

/// Whether `c` is a decimal digit.
fn is_decimal_digit(c: char) -> (digit: bool)
    ensures
        digit == is_digit(c),
{
    '0' <= c && c <= '9'
}

/// Reads the block of `element` at position `start` of `input`: an optional
/// count in decimal digits, then the element's letter.
///
/// Returns the count, 1 where none is written, and the position after the
/// letter. Returns `None` where the letter does not follow, or where the
/// digits stand for more than a count can hold.
pub fn element_count_parser(element: Element, input: &[char], start: usize) -> (block: Option<
    (u32, usize),
>)
    ensures
        block is Some <==> parse_block(input@, start as int, element) is Some,
        block matches Some((count, next)) ==> parse_block(input@, start as int, element) == Some(
            (count as nat, next as int),
        ) && start < next <= input@.len(),
{
    if start >= input.len() {
        return None;
    }
    let mut position: usize = start;
    let mut value: u64 = 0;
    assert(input@.subrange(start as int, start as int) =~= Seq::<char>::empty());
    while position < input.len() && is_decimal_digit(input[position])
        invariant
            start <= position <= input.len(),
            forall|i: int| start <= i < position ==> is_digit(#[trigger] input@[i]),
            value == decimal_value(input@.subrange(start as int, position as int)),
            value <= u32::MAX,
        decreases input.len() - position,
    {
        let digit: u64 = (input[position] as u32 - 48) as u64;
        let next_value: u64 = value * 10 + digit;
        proof {
            let longer = input@.subrange(start as int, position + 1);
            assert(longer.drop_last() =~= input@.subrange(start as int, position as int));
            assert(decimal_value(longer) == next_value);
            if next_value > u32::MAX {
                let end = digits_end(input@, start as int);
                lemma_digits_end_skips_digits(input@, start as int, position + 1);
                lemma_digits_end_bounds(input@, position + 1);
                let run = input@.subrange(start as int, end);
                assert(run.take(position + 1 - start) =~= longer);
                lemma_decimal_value_grows(run, position + 1 - start);
            }
        }
        if next_value > u32::MAX as u64 {
            return None;
        }
        value = next_value;
        position += 1;
    }
    proof {
        lemma_digits_end(input@, start as int, position as int);
    }
    let count: u32 = if position == start {
        1
    } else {
        value as u32
    };
    match element_parser_maker(element, input, position) {
        Some(next) => Some((count, next)),
        None => None,
    }
}

/// Reads the blocks of all five elements from the start of `input`, each only
/// if it is there, in ascending order of weight.
///
/// Returns the counts that the blocks give, with an entry for each block that
/// was read, and the position after the last of them. The input is in the
/// notation when that position is its end.
pub fn element_counts_parser(input: &[char]) -> (parsed: (ElementCounts, usize))
    ensures
        parsed.0@ == parse_blocks(input@, 0, 0, Map::empty()).1,
        parsed.1 == parse_blocks(input@, 0, 0, Map::empty()).0,
        parsed.1 <= input@.len(),
{
    let mut counts = ElementCounts::new();
    let mut position: usize = 0;
    let ghost whole = parse_blocks(input@, 0, 0, Map::empty());
    if let Some((count, next)) = element_count_parser(Element::A, input, position) {
        counts.insert(Element::A, count);
        position = next;
    }
    assert(whole == parse_blocks(input@, position as int, 1, counts@));
    if let Some((count, next)) = element_count_parser(Element::B, input, position) {
        counts.insert(Element::B, count);
        position = next;
    }
    assert(whole == parse_blocks(input@, position as int, 2, counts@));
    if let Some((count, next)) = element_count_parser(Element::C, input, position) {
        counts.insert(Element::C, count);
        position = next;
    }
    assert(whole == parse_blocks(input@, position as int, 3, counts@));
    if let Some((count, next)) = element_count_parser(Element::D, input, position) {
        counts.insert(Element::D, count);
        position = next;
    }
    assert(whole == parse_blocks(input@, position as int, 4, counts@));
    if let Some((count, next)) = element_count_parser(Element::E, input, position) {
        counts.insert(Element::E, count);
        position = next;
    }
    assert(whole == parse_blocks(input@, position as int, 5, counts@));
    (counts, position)
}

/// Adds two counts element by element. An element has an entry in the sum
/// when it has one on either side.
pub fn add_element_counts(
    left_element_counts: &ElementCounts,
    right_element_counts: &ElementCounts,
) -> (total_element_counts: ElementCounts)
    requires
        forall|element: Element|
            count_of(left_element_counts@, element) + count_of(right_element_counts@, element)
                <= u32::MAX,
    ensures
        total_element_counts@ == sum_of(left_element_counts@, right_element_counts@),
{
    let total_element_counts = ElementCounts {
        a: add_entries(left_element_counts, right_element_counts, Element::A),
        b: add_entries(left_element_counts, right_element_counts, Element::B),
        c: add_entries(left_element_counts, right_element_counts, Element::C),
        d: add_entries(left_element_counts, right_element_counts, Element::D),
        e: add_entries(left_element_counts, right_element_counts, Element::E),
    };
    assert(total_element_counts@ =~= sum_of(left_element_counts@, right_element_counts@));
    total_element_counts
}

/// The entry of `element` in the sum of two counts.
fn add_entries(left: &ElementCounts, right: &ElementCounts, element: Element) -> (entry: Option<
    u32,
>)
    requires
        count_of(left@, element) + count_of(right@, element) <= u32::MAX,
    ensures
        entry is Some <==> left@.dom().contains(element) || right@.dom().contains(element),
        entry matches Some(count) ==> count == count_of(left@, element) + count_of(right@, element),
{
    match (left.get(element), right.get(element)) {
        (None, None) => None,
        (Some(l), None) => Some(l),
        (None, Some(r)) => Some(r),
        (Some(l), Some(r)) => Some(l + r),
    }
}

/// Cleaning changes no count, and so no weight, and gives clean counts.
pub proof fn lemma_cleaned_keeps_counts(counts: Map<Element, nat>)
    ensures
        is_clean(cleaned(counts)),
        forall|element: Element| #[trigger]
            count_of(cleaned(counts), element) == count_of(counts, element),
        weight_of(cleaned(counts)) == weight_of(counts),
        units_of(cleaned(counts)) == units_of(counts),
{
}

/// Clean counts that agree on every element are the same map.
pub proof fn lemma_clean_counts_determine(first: Map<Element, nat>, second: Map<Element, nat>)
    requires
        is_clean(first),
        is_clean(second),
        forall|element: Element| count_of(first, element) == count_of(second, element),
    ensures
        first == second,
{
    assert forall|element: Element|
        first.dom().contains(element) == second.dom().contains(element) && (first.dom().contains(
            element,
        ) ==> first[element] == second[element]) by {
        assert(count_of(first, element) == count_of(second, element));
    }
    assert(first =~= second);
}

/// What a count is after one entry was set.
pub proof fn lemma_count_of_insert(
    counts: Map<Element, nat>,
    element: Element,
    count: nat,
    other: Element,
)
    ensures
        count_of(counts.insert(element, count), other) == if other == element {
            count
        } else {
            count_of(counts, other)
        },
{
}

/// An entry of count 0 is as good as no entry: cleaning drops it, and it
/// weighs nothing.
pub proof fn lemma_zero_entry_is_dropped(counts: Map<Element, nat>, element: Element)
    ensures
        cleaned(counts.insert(element, 0)) == cleaned(counts.remove(element)),
        !cleaned(counts.insert(element, 0)).dom().contains(element),
        weight_of(counts.insert(element, 0)) == weight_of(counts.remove(element)),
{
    assert(cleaned(counts.insert(element, 0)) =~= cleaned(counts.remove(element)));
    assert forall|other: Element|
        count_of(counts.insert(element, 0), other) == count_of(counts.remove(element), other) by {}
}

/// No element occurs more often in counts than the counts weigh.
pub proof fn lemma_counts_within_weight(counts: Map<Element, nat>)
    ensures
        forall|element: Element| #[trigger] count_of(counts, element) <= weight_of(counts),
{
}

} // verus!
