//! The textual notation of element counts: what it means, and that writing
//! counts down and reading them back gives the same counts.
//!
//! The notation is a run of blocks, at most one per element, in ascending
//! order of weight. A block is the element's letter, preceded by its count in
//! decimal digits; a count of 1 may be left out. Nothing separates the blocks
//! and nothing may follow them. A letter is written in lower case and read in
//! either case.

use crate::alchemy::element::{parse_tag, Element, ELEMENT_COUNT};
use crate::alchemy::element_counts::{count_of, is_clean, ElementCounts};
use vstd::prelude::*;

verus! {

/// Whether `c` is a decimal digit.
pub open spec fn is_digit(c: char) -> bool {
    '0' <= c && c <= '9'
}

/// The number a decimal digit stands for.
pub open spec fn digit_value(c: char) -> nat {
    (c as int - '0' as int) as nat
}

/// The decimal digit that stands for `d`, for `d` below 10.
pub open spec fn digit_char(d: nat) -> char {
    (d + '0' as nat) as char
}

/// The number that a run of decimal digits stands for. Leading zeros count
/// for nothing, and the empty run stands for 0.
pub open spec fn decimal_value(digits: Seq<char>) -> nat
    decreases digits.len(),
{
    if digits.len() == 0 {
        0
    } else {
        decimal_value(digits.drop_last()) * 10 + digit_value(digits.last())
    }
}

/// `n` in decimal digits, without leading zeros.
pub open spec fn decimal_digits(n: nat) -> Seq<char>
    decreases n,
{
    if n < 10 {
        seq![digit_char(n)]
    } else {
        decimal_digits(n / 10).push(digit_char(n % 10))
    }
}

/// The first position from `start` on that holds no digit: where the longest
/// run of digits that begins at `start` ends.
pub open spec fn digits_end(input: Seq<char>, start: int) -> int
    decreases input.len() - start,
{
    if 0 <= start < input.len() && is_digit(input[start]) {
        digits_end(input, start + 1)
    } else {
        start
    }
}

/// The count that stands at `start`, with the position after it: the value of
/// the longest run of digits there, or 1 where there is no digit. `None`
/// where the value is more than a count can hold.
pub open spec fn parse_count(input: Seq<char>, start: int) -> Option<(nat, int)> {
    let end = digits_end(input, start);
    if end == start {
        Some((1, start))
    } else if decimal_value(input.subrange(start, end)) <= u32::MAX {
        Some((decimal_value(input.subrange(start, end)), end))
    } else {
        None
    }
}

/// The block of `element` at `start`: its count and the position after its
/// letter, or `None` where no such block stands there.
pub open spec fn parse_block(input: Seq<char>, start: int, element: Element) -> Option<(nat, int)> {
    match parse_count(input, start) {
        Some((count, letter_at)) => match parse_tag(input, letter_at, element) {
            Some(next) => Some((count, next)),
            None => None,
        },
        None => None,
    }
}

/// Reads the blocks of the elements from `rank` on, each where the one before
/// it ended and each only if it is there, and adds what they say to `counts`.
/// Gives the position after the last block that was read, with the counts.
pub open spec fn parse_blocks(
    input: Seq<char>,
    start: int,
    rank: nat,
    counts: Map<Element, nat>,
) -> (int, Map<Element, nat>)
    decreases ELEMENT_COUNT - rank,
{
    if rank >= ELEMENT_COUNT {
        (start, counts)
    } else {
        match parse_block(input, start, Element::at_rank(rank)) {
            Some((count, next)) => parse_blocks(
                input,
                next,
                rank + 1,
                counts.insert(Element::at_rank(rank), count),
            ),
            None => parse_blocks(input, start, rank + 1, counts),
        }
    }
}

/// The counts that `input` denotes, or `None` where `input` is not in the
/// notation: where something is left after the blocks.
pub open spec fn parse_notation(input: Seq<char>) -> Option<Map<Element, nat>> {
    let (end, counts) = parse_blocks(input, 0, 0, Map::empty());
    if end == input.len() {
        Some(counts)
    } else {
        None
    }
}

/// The block that stands for the entry of `element`: nothing where there is
/// no entry, else the letter, after the count where that is more than 1.
pub open spec fn block_notation(counts: Map<Element, nat>, element: Element) -> Seq<char> {
    if !counts.dom().contains(element) {
        Seq::empty()
    } else if counts[element] > 1 {
        decimal_digits(counts[element]).push(element.tag_spec())
    } else {
        seq![element.tag_spec()]
    }
}

/// The blocks of the elements from `rank` on, in ascending order of weight.
pub open spec fn notation_from(counts: Map<Element, nat>, rank: nat) -> Seq<char>
    decreases ELEMENT_COUNT - rank,
{
    if rank >= ELEMENT_COUNT {
        Seq::empty()
    } else {
        block_notation(counts, Element::at_rank(rank)) + notation_from(counts, rank + 1)
    }
}

/// The canonical notation of `counts`.
pub open spec fn notation_of(counts: Map<Element, nat>) -> Seq<char> {
    notation_from(counts, 0)
}

/// `counts` with the entries that `entries` has for the elements from `rank`
/// on.
pub open spec fn with_entries_from(
    counts: Map<Element, nat>,
    entries: Map<Element, nat>,
    rank: nat,
) -> Map<Element, nat>
    decreases ELEMENT_COUNT - rank,
{
    if rank >= ELEMENT_COUNT {
        counts
    } else if entries.dom().contains(Element::at_rank(rank)) {
        with_entries_from(
            counts.insert(Element::at_rank(rank), entries[Element::at_rank(rank)]),
            entries,
            rank + 1,
        )
    } else {
        with_entries_from(counts, entries, rank + 1)
    }
}

/// The decimal digits of a number are digits, at least one of them, and
/// stand for that number.
pub proof fn lemma_decimal_digits(n: nat)
    ensures
        decimal_digits(n).len() > 0,
        forall|i: int|
            0 <= i < decimal_digits(n).len() ==> is_digit(#[trigger] decimal_digits(n)[i]),
        decimal_value(decimal_digits(n)) == n,
    decreases n,
{
    if n < 10 {
        let digits = decimal_digits(n);
        assert(digits.drop_last() =~= Seq::<char>::empty());
        assert(decimal_value(digits.drop_last()) == 0);
    } else {
        lemma_decimal_digits(n / 10);
        let digits = decimal_digits(n);
        assert(digits.drop_last() =~= decimal_digits(n / 10));
    }
}

/// A run of digits stands for no less than any of its beginnings.
pub proof fn lemma_decimal_value_grows(digits: Seq<char>, length: int)
    requires
        0 <= length <= digits.len(),
    ensures
        decimal_value(digits.take(length)) <= decimal_value(digits),
    decreases digits.len(),
{
    if length == digits.len() {
        assert(digits.take(length) =~= digits);
    } else {
        lemma_decimal_value_grows(digits.drop_last(), length);
        assert(digits.drop_last().take(length) =~= digits.take(length));
    }
}

/// A run of digits ends where the first character that is no digit stands.
pub proof fn lemma_digits_end(input: Seq<char>, start: int, end: int)
    requires
        0 <= start <= end <= input.len(),
        forall|i: int| start <= i < end ==> is_digit(#[trigger] input[i]),
        end < input.len() ==> !is_digit(input[end]),
    ensures
        digits_end(input, start) == end,
    decreases end - start,
{
    if start < end {
        lemma_digits_end(input, start + 1, end);
    }
}

/// A run of digits ends at or after its start, within the input where the
/// start is.
pub proof fn lemma_digits_end_bounds(input: Seq<char>, start: int)
    ensures
        start <= digits_end(input, start),
        start <= input.len() ==> digits_end(input, start) <= input.len(),
        forall|i: int| start <= i < digits_end(input, start) ==> is_digit(#[trigger] input[i]),
    decreases input.len() - start,
{
    if 0 <= start < input.len() && is_digit(input[start]) {
        lemma_digits_end_bounds(input, start + 1);
    }
}

/// A run of digits ends where the run that begins later within it ends.
pub proof fn lemma_digits_end_skips_digits(input: Seq<char>, start: int, later: int)
    requires
        0 <= start <= later <= input.len(),
        forall|i: int| start <= i < later ==> is_digit(#[trigger] input[i]),
    ensures
        digits_end(input, start) == digits_end(input, later),
    decreases later - start,
{
    if start < later {
        lemma_digits_end_skips_digits(input, start + 1, later);
    }
}

/// The block of an entry, standing at the end of `before` and followed by
/// `after`, is read as that entry.
proof fn lemma_block_is_read(
    counts: Map<Element, nat>,
    element: Element,
    before: Seq<char>,
    after: Seq<char>,
)
    requires
        counts.dom().contains(element),
        0 < counts[element] <= u32::MAX,
    ensures
        parse_block(
            before + block_notation(counts, element) + after,
            before.len() as int,
            element,
        ) == Some(
            (counts[element], (before.len() + block_notation(counts, element).len()) as int),
        ),
{
    let block = block_notation(counts, element);
    let input = before + block + after;
    let start = before.len() as int;
    if counts[element] > 1 {
        let digits = decimal_digits(counts[element]);
        lemma_decimal_digits(counts[element]);
        let end = start + digits.len();
        assert forall|i: int| start <= i < end implies is_digit(#[trigger] input[i]) by {
            assert(input[i] == digits[i - start]);
        }
        assert(input[end] == element.tag_spec());
        lemma_digits_end(input, start, end);
        assert(input.subrange(start, end) =~= digits);
    } else {
        assert(input[start] == element.tag_spec());
        lemma_digits_end(input, start, start);
    }
}

/// Where the notation of the elements from `rank` on stands at the end of
/// `before`, no block of a lighter element is read there.
proof fn lemma_no_lighter_block(
    counts: Map<Element, nat>,
    rank: nat,
    before: Seq<char>,
    element: Element,
)
    requires
        element.rank() < rank,
    ensures
        parse_block(before + notation_from(counts, rank), before.len() as int, element) is None,
    decreases ELEMENT_COUNT - rank,
{
    let input = before + notation_from(counts, rank);
    let start = before.len() as int;
    if rank >= ELEMENT_COUNT {
        assert(input =~= before);
        lemma_digits_end(input, start, start);
    } else {
        let present = Element::at_rank(rank);
        let block = block_notation(counts, present);
        let rest = notation_from(counts, rank + 1);
        if !counts.dom().contains(present) {
            assert(input =~= before + rest);
            lemma_no_lighter_block(counts, rank + 1, before, element);
        } else if counts[present] > 1 {
            let digits = decimal_digits(counts[present]);
            lemma_decimal_digits(counts[present]);
            let end = start + digits.len();
            assert forall|i: int| start <= i < end implies is_digit(#[trigger] input[i]) by {
                assert(input[i] == digits[i - start]);
            }
            assert(input[end] == present.tag_spec());
            lemma_digits_end(input, start, end);
        } else {
            assert(input[start] == present.tag_spec());
            lemma_digits_end(input, start, start);
        }
    }
}

/// Reading the notation of the elements from `rank` on, where it stands at
/// the end of `before`, consumes all of it and gives their entries.
proof fn lemma_notation_is_read(
    entries: Map<Element, nat>,
    rank: nat,
    before: Seq<char>,
    counts: Map<Element, nat>,
)
    requires
        is_clean(entries),
        forall|element: Element| count_of(entries, element) <= u32::MAX,
    ensures
        parse_blocks(before + notation_from(entries, rank), before.len() as int, rank, counts) == (
            (before + notation_from(entries, rank)).len() as int,
            with_entries_from(counts, entries, rank),
        ),
    decreases ELEMENT_COUNT - rank,
{
    let input = before + notation_from(entries, rank);
    if rank < ELEMENT_COUNT {
        let element = Element::at_rank(rank);
        let block = block_notation(entries, element);
        let rest = notation_from(entries, rank + 1);
        if entries.dom().contains(element) {
            assert(count_of(entries, element) <= u32::MAX);
            lemma_block_is_read(entries, element, before, rest);
            assert(input =~= before + block + rest);
            assert(input =~= (before + block) + rest);
            lemma_notation_is_read(
                entries,
                rank + 1,
                before + block,
                counts.insert(element, entries[element]),
            );
        } else {
            assert(input =~= before + rest);
            lemma_no_lighter_block(entries, rank + 1, before, element);
            lemma_notation_is_read(entries, rank + 1, before, counts);
        }
    } else {
        assert(input =~= before);
    }
}

/// Reading the canonical notation of clean counts gives those counts back.
pub proof fn lemma_notation_round_trip(counts: Map<Element, nat>)
    requires
        is_clean(counts),
        forall|element: Element| count_of(counts, element) <= u32::MAX,
    ensures
        parse_notation(notation_of(counts)) == Some(counts),
{
    let empty = Map::<Element, nat>::empty();
    lemma_notation_is_read(counts, 0, Seq::empty(), empty);
    assert(Seq::<char>::empty() + notation_from(counts, 0) =~= notation_of(counts));
    reveal_with_fuel(with_entries_from, 6);
    assert(with_entries_from(empty, counts, 0) =~= counts);
}

/// The characters of `text`.
pub fn letters_of(text: &str) -> (letters: Vec<char>)
    ensures
        letters@ == text@,
{
    let mut letters: Vec<char> = Vec::new();
    for letter in it: text.chars()
        invariant
            letters@ == it.seq().take(it.index()),
            it.seq() == text@,
    {
        letters.push(letter);
    }
    assert(letters@ == text@);
    letters
}

/// `String::push` of the standard library appends the character to the end
/// of the string and changes nothing else.
pub assume_specification[ String::push ](text: &mut String, ch: char)
    ensures
        final(text)@ == old(text)@.push(ch),
;

/// Appends `n` in decimal digits to `text`.
pub fn push_decimal(text: &mut String, n: u64)
    ensures
        final(text)@ == old(text)@ + decimal_digits(n as nat),
    decreases n,
{
    if n >= 10 {
        push_decimal(text, n / 10);
    }
    let digit: u8 = (n % 10) as u8;
    text.push((digit + 48) as char);
    assert(text@ =~= old(text)@ + decimal_digits(n as nat));
}

/// Appends the block of `element` to `text`.
fn push_block(text: &mut String, counts: &ElementCounts, element: Element)
    ensures
        final(text)@ == old(text)@ + block_notation(counts@, element),
{
    match counts.get(element) {
        Some(count) => {
            if count > 1 {
                push_decimal(text, count as u64);
            }
            text.push(element.tag());
        },
        None => {},
    }
    assert(text@ =~= old(text)@ + block_notation(counts@, element));
}

/// Writes `counts` in the canonical notation: the elements in ascending order
/// of weight, each as its lower-case letter, with its count before it unless
/// that is 1.
pub fn element_counts_notation(counts: &ElementCounts) -> (text: String)
    ensures
        text@ == notation_of(counts@),
{
    let mut text = String::new();
    push_block(&mut text, counts, Element::A);
    push_block(&mut text, counts, Element::B);
    push_block(&mut text, counts, Element::C);
    push_block(&mut text, counts, Element::D);
    push_block(&mut text, counts, Element::E);
    proof {
        reveal_with_fuel(notation_from, 6);
        assert(text@ =~= notation_of(counts@));
    }
    text
}

} // verus!
