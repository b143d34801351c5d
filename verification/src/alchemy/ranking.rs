//! The ranking of compounds by how often each occurs.
//!
//! A ranking holds each notation that occurs once, with the number of its
//! occurrences. The more frequent comes first; of two that are equally
//! frequent, the one whose notation is later in the order of texts does.

use crate::alchemy::compound::Compound;
use crate::alchemy::notation::{decimal_digits, letters_of, notation_of, push_decimal};
use vstd::prelude::*;
use vstd::string::StringExecFns;

verus! {

/// How often `name` occurs in `names`.
pub open spec fn occurrences(names: Seq<Seq<char>>, name: Seq<char>) -> nat
    decreases names.len(),
{
    if names.len() == 0 {
        0
    } else if names.last() == name {
        occurrences(names.drop_last(), name) + 1
    } else {
        occurrences(names.drop_last(), name)
    }
}

/// Whether `first` comes before `second` in the order of texts: whether it
/// has the lesser character at the first position where the two differ, or
/// is the beginning of `second` and shorter.
pub open spec fn text_precedes(first: Seq<char>, second: Seq<char>) -> bool
    decreases first.len(),
{
    if second.len() == 0 {
        false
    } else if first.len() == 0 {
        true
    } else if first[0] != second[0] {
        first[0] < second[0]
    } else {
        text_precedes(first.drop_first(), second.drop_first())
    }
}

/// Whether the entry `first` ranks above the entry `second`: whether it
/// occurs more often, or as often with the later notation.
pub open spec fn ranks_above(first: (Seq<char>, nat), second: (Seq<char>, nat)) -> bool {
    first.1 > second.1 || (first.1 == second.1 && text_precedes(second.0, first.0))
}

/// Whether every entry of `ranking` ranks above the entries after it.
pub open spec fn is_ranked(ranking: Seq<(Seq<char>, nat)>) -> bool {
    forall|first: int, second: int|
        0 <= first < second < ranking.len() ==> ranks_above(
            #[trigger] ranking[first],
            #[trigger] ranking[second],
        )
}

/// Whether `ranking` holds `name`.
pub open spec fn is_listed(ranking: Seq<(Seq<char>, nat)>, name: Seq<char>) -> bool {
    exists|index: int| 0 <= index < ranking.len() && (#[trigger] ranking[index]).0 == name
}

/// Whether `ranking` is the ranking of `names`: holds every name of `names`,
/// each with the number of its occurrences and nothing else, the entries in
/// their order.
pub open spec fn is_ranking(names: Seq<Seq<char>>, ranking: Seq<(Seq<char>, nat)>) -> bool {
    &&& forall|index: int|
        0 <= index < ranking.len() ==> (#[trigger] ranking[index]).1 > 0 && ranking[index].1
            == occurrences(names, ranking[index].0)
    &&& forall|index: int| 0 <= index < names.len() ==> is_listed(ranking, #[trigger] names[index])
    &&& is_ranked(ranking)
}

/// The line that shows an entry: the number of occurrences, a dash between
/// two spaces, the notation, and a line feed.
pub open spec fn rank_line(entry: (Seq<char>, nat)) -> Seq<char> {
    decimal_digits(entry.1) + seq![' ', '-', ' '] + entry.0 + seq!['\n']
}

/// The lines that show the entries of `ranking`, in their order.
pub open spec fn rank_lines(ranking: Seq<(Seq<char>, nat)>) -> Seq<char>
    decreases ranking.len(),
{
    if ranking.len() == 0 {
        Seq::empty()
    } else {
        rank_lines(ranking.drop_last()) + rank_line(ranking.last())
    }
}

/// The notations of `compounds`, in their order.
pub open spec fn notations_of(compounds: Seq<Compound>) -> Seq<Seq<char>> {
    Seq::new(compounds.len(), |index: int| notation_of(compounds[index]@))
}

/// What a vector of entries holds: each notation with its number.
pub open spec fn entries_of(entries: Seq<(String, usize)>) -> Seq<(Seq<char>, nat)> {
    Seq::new(entries.len(), |index: int| (entries[index].0@, entries[index].1 as nat))
}

/// No text comes before itself.
pub proof fn lemma_text_precedes_is_irreflexive(text: Seq<char>)
    ensures
        !text_precedes(text, text),
    decreases text.len(),
{
    if text.len() > 0 {
        lemma_text_precedes_is_irreflexive(text.drop_first());
    }
}

/// Of two different texts one comes before the other.
pub proof fn lemma_text_precedes_is_total(first: Seq<char>, second: Seq<char>)
    requires
        first != second,
    ensures
        text_precedes(first, second) || text_precedes(second, first),
    decreases first.len(),
{
    if first.len() > 0 && second.len() > 0 && first[0] == second[0] {
        if first.drop_first() == second.drop_first() {
            assert(first =~= seq![first[0]] + first.drop_first());
            assert(second =~= seq![second[0]] + second.drop_first());
        }
        lemma_text_precedes_is_total(first.drop_first(), second.drop_first());
    } else if first.len() == 0 && second.len() == 0 {
        assert(first =~= second);
    }
}

/// A text that comes before one that comes before a third comes before the
/// third.
pub proof fn lemma_text_precedes_is_transitive(
    first: Seq<char>,
    second: Seq<char>,
    third: Seq<char>,
)
    requires
        text_precedes(first, second),
        text_precedes(second, third),
    ensures
        text_precedes(first, third),
    decreases first.len(),
{
    if first.len() > 0 && first[0] == second[0] && second[0] == third[0] {
        lemma_text_precedes_is_transitive(
            first.drop_first(),
            second.drop_first(),
            third.drop_first(),
        );
    }
}

/// Of two texts at most one comes before the other.
pub proof fn lemma_text_precedes_is_asymmetric(first: Seq<char>, second: Seq<char>)
    requires
        text_precedes(first, second),
    ensures
        !text_precedes(second, first),
{
    if text_precedes(second, first) {
        lemma_text_precedes_is_transitive(first, second, first);
        lemma_text_precedes_is_irreflexive(first);
    }
}

/// No name occurs more often than there are names, and a name that is one
/// of them occurs.
pub proof fn lemma_occurrences_bounds(names: Seq<Seq<char>>, name: Seq<char>)
    ensures
        occurrences(names, name) <= names.len(),
        names.contains(name) <==> occurrences(names, name) > 0,
    decreases names.len(),
{
    if names.len() > 0 {
        let before = names.drop_last();
        lemma_occurrences_bounds(before, name);
        if before.contains(name) {
            let index = choose|index: int| 0 <= index < before.len() && before[index] == name;
            assert(names[index] == name);
        }
        if names.contains(name) && names.last() != name {
            let index = choose|index: int| 0 <= index < names.len() && names[index] == name;
            assert(before[index] == name);
        }
        if names.last() == name {
            assert(names[names.len() - 1] == name);
        }
    }
}

/// Of two different entries one ranks above the other, and never both do.
pub proof fn lemma_ranks_above_is_total(first: (Seq<char>, nat), second: (Seq<char>, nat))
    ensures
        first != second ==> ranks_above(first, second) || ranks_above(second, first),
        !(ranks_above(first, second) && ranks_above(second, first)),
{
    if first.1 == second.1 {
        if first.0 != second.0 {
            lemma_text_precedes_is_total(first.0, second.0);
        }
        if text_precedes(first.0, second.0) {
            lemma_text_precedes_is_asymmetric(first.0, second.0);
        }
    }
}

/// Whether `entries` holds `entry`.
pub open spec fn holds_entry(entries: Seq<(Seq<char>, nat)>, entry: (Seq<char>, nat)) -> bool {
    exists|index: int| 0 <= index < entries.len() && #[trigger] entries[index] == entry
}

/// Two sequences of entries that hold the same entries, each in the order of
/// the ranking, are the same sequence.
pub proof fn lemma_ranked_is_unique(first: Seq<(Seq<char>, nat)>, second: Seq<(Seq<char>, nat)>)
    requires
        is_ranked(first),
        is_ranked(second),
        forall|index: int|
            0 <= index < first.len() ==> holds_entry(second, #[trigger] first[index]),
        forall|index: int|
            0 <= index < second.len() ==> holds_entry(first, #[trigger] second[index]),
    ensures
        first == second,
    decreases first.len(),
{
    if first.len() == 0 {
        if second.len() > 0 {
            assert(holds_entry(first, second[0]));
        }
        assert(first =~= second);
    } else {
        assert(holds_entry(second, first[0]));
        let in_second = choose|index: int|
            0 <= index < second.len() && #[trigger] second[index] == first[0];
        assert(holds_entry(first, second[0]));
        let in_first = choose|index: int|
            0 <= index < first.len() && #[trigger] first[index] == second[0];
        lemma_ranks_above_is_total(first[0], second[0]);
        if in_second > 0 {
            assert(ranks_above(second[0], second[in_second]));
            if in_first > 0 {
                assert(ranks_above(first[0], first[in_first]));
            }
        }
        assert(first[0] == second[0]);
        let first_rest = first.drop_first();
        let second_rest = second.drop_first();
        assert forall|one: int, other: int|
            0 <= one < other < first_rest.len() implies ranks_above(
            #[trigger] first_rest[one],
            #[trigger] first_rest[other],
        ) by {
            assert(first_rest[one] == first[one + 1]);
            assert(first_rest[other] == first[other + 1]);
        }
        assert forall|one: int, other: int|
            0 <= one < other < second_rest.len() implies ranks_above(
            #[trigger] second_rest[one],
            #[trigger] second_rest[other],
        ) by {
            assert(second_rest[one] == second[one + 1]);
            assert(second_rest[other] == second[other + 1]);
        }
        assert forall|index: int| 0 <= index < first_rest.len() implies holds_entry(
            second_rest,
            #[trigger] first_rest[index],
        ) by {
            let entry = first[index + 1];
            assert(first_rest[index] == entry);
            assert(holds_entry(second, entry));
            let found = choose|found: int|
                0 <= found < second.len() && #[trigger] second[found] == entry;
            assert(ranks_above(first[0], first[index + 1]));
            lemma_ranks_above_is_total(first[0], entry);
            assert(found > 0);
            assert(second_rest[found - 1] == entry);
        }
        assert forall|index: int| 0 <= index < second_rest.len() implies holds_entry(
            first_rest,
            #[trigger] second_rest[index],
        ) by {
            let entry = second[index + 1];
            assert(second_rest[index] == entry);
            assert(holds_entry(first, entry));
            let found = choose|found: int|
                0 <= found < first.len() && #[trigger] first[found] == entry;
            assert(ranks_above(second[0], second[index + 1]));
            lemma_ranks_above_is_total(second[0], entry);
            assert(found > 0);
            assert(first_rest[found - 1] == entry);
        }
        lemma_ranked_is_unique(first_rest, second_rest);
        assert(first =~= seq![first[0]] + first_rest);
        assert(second =~= seq![second[0]] + second_rest);
    }
}

/// Names have one ranking only.
pub proof fn lemma_ranking_is_unique(
    names: Seq<Seq<char>>,
    first: Seq<(Seq<char>, nat)>,
    second: Seq<(Seq<char>, nat)>,
)
    requires
        is_ranking(names, first),
        is_ranking(names, second),
    ensures
        first == second,
{
    assert forall|index: int| 0 <= index < first.len() implies holds_entry(
        second,
        #[trigger] first[index],
    ) by {
        lemma_entry_of_ranking_is_in_other(names, first, second, index);
    }
    assert forall|index: int| 0 <= index < second.len() implies holds_entry(
        first,
        #[trigger] second[index],
    ) by {
        lemma_entry_of_ranking_is_in_other(names, second, first, index);
    }
    lemma_ranked_is_unique(first, second);
}

/// An entry of one ranking of names is an entry of every ranking of them.
proof fn lemma_entry_of_ranking_is_in_other(
    names: Seq<Seq<char>>,
    first: Seq<(Seq<char>, nat)>,
    second: Seq<(Seq<char>, nat)>,
    index: int,
)
    requires
        is_ranking(names, first),
        is_ranking(names, second),
        0 <= index < first.len(),
    ensures
        holds_entry(second, first[index]),
{
    let entry = first[index];
    lemma_occurrences_bounds(names, entry.0);
    let at = choose|at: int| 0 <= at < names.len() && names[at] == entry.0;
    assert(is_listed(second, names[at]));
    let found = choose|found: int|
        0 <= found < second.len() && (#[trigger] second[found]).0 == entry.0;
    assert(second[found] == entry);
}

/// Whether `first` comes before `second` in the order of texts.
fn comes_before(first: &str, second: &str) -> (before: bool)
    ensures
        before == text_precedes(first@, second@),
{
    let first_letters = letters_of(first);
    let second_letters = letters_of(second);
    let mut index: usize = 0;
    assert(first@.skip(0) =~= first@);
    assert(second@.skip(0) =~= second@);
    while index < first_letters.len() && index < second_letters.len()
        invariant
            index <= first_letters.len(),
            index <= second_letters.len(),
            first_letters@ == first@,
            second_letters@ == second@,
            text_precedes(first@, second@) == text_precedes(
                first@.skip(index as int),
                second@.skip(index as int),
            ),
        decreases first_letters.len() - index,
    {
        proof {
            assert(first@.skip(index as int)[0] == first@[index as int]);
            assert(second@.skip(index as int)[0] == second@[index as int]);
            assert(first@.skip(index as int).drop_first() =~= first@.skip(index + 1));
            assert(second@.skip(index as int).drop_first() =~= second@.skip(index + 1));
        }
        if first_letters[index] != second_letters[index] {
            return first_letters[index] < second_letters[index];
        }
        index += 1;
    }
    index < second_letters.len()
}

/// Whether the entry `first` ranks above the entry `second`.
fn ranks_higher(first: &(String, usize), second: &(String, usize)) -> (higher: bool)
    ensures
        higher == ranks_above((first.0@, first.1 as nat), (second.0@, second.1 as nat)),
{
    first.1 > second.1 || (first.1 == second.1 && comes_before(
        second.0.as_str(),
        first.0.as_str(),
    ))
}

/// Counts how often each notation occurs among `compounds`. Gives each
/// notation that occurs once, with its number, in the order of first
/// occurrence.
fn tally(compounds: &Vec<Compound>) -> (tallies: Vec<(String, usize)>)
    ensures
        forall|index: int|
            0 <= index < tallies.len() ==> (#[trigger] tallies@[index]).1 > 0 && tallies@[index].1
                == occurrences(notations_of(compounds@), tallies@[index].0@),
        forall|index: int|
            0 <= index < compounds.len() ==> is_listed(
                entries_of(tallies@),
                #[trigger] notations_of(compounds@)[index],
            ),
        forall|first: int, second: int|
            0 <= first < second < tallies.len() ==> (#[trigger] tallies@[first]).0@
                != (#[trigger] tallies@[second]).0@,
{
    let ghost names = notations_of(compounds@);
    let mut tallies: Vec<(String, usize)> = Vec::new();
    let mut index: usize = 0;
    while index < compounds.len()
        invariant
            index <= compounds.len(),
            names == notations_of(compounds@),
            forall|entry: int|
                0 <= entry < tallies.len() ==> (#[trigger] tallies@[entry]).1 > 0
                    && tallies@[entry].1 == occurrences(
                    names.take(index as int),
                    tallies@[entry].0@,
                ),
            forall|earlier: int|
                0 <= earlier < index ==> is_listed(entries_of(tallies@), #[trigger] names[earlier]),
            forall|first: int, second: int|
                0 <= first < second < tallies.len() ==> (#[trigger] tallies@[first]).0@
                    != (#[trigger] tallies@[second]).0@,
        decreases compounds.len() - index,
    {
        let name = compounds[index].to_string();
        let ghost before = tallies@;
        let ghost seen = names.take(index as int);
        let ghost upto = names.take(index + 1);
        proof {
            assert(upto.drop_last() == seen);
            assert(upto.last() == name@);
        }
        let mut entry: usize = 0;
        while entry < tallies.len() && !(tallies[entry].0 == name)
            invariant
                entry <= tallies.len(),
                forall|other: int| 0 <= other < entry ==> (#[trigger] tallies@[other]).0@ != name@,
            decreases tallies.len() - entry,
        {
            entry += 1;
        }
        if entry < tallies.len() {
            let count = tallies[entry].1;
            proof {
                lemma_occurrences_bounds(seen, name@);
            }
            tallies.set(entry, (name, count + 1));
            proof {
                assert forall|earlier: int| 0 <= earlier < index + 1 implies is_listed(
                    entries_of(tallies@),
                    #[trigger] names[earlier],
                ) by {
                    if earlier < index {
                        assert(is_listed(entries_of(before), names[earlier]));
                        let listed = choose|listed: int|
                            0 <= listed < entries_of(before).len() && (#[trigger] entries_of(
                                before,
                            )[listed]).0 == names[earlier];
                        assert(entries_of(tallies@)[listed].0 == names[earlier]);
                    } else {
                        assert(entries_of(tallies@)[entry as int].0 == names[earlier]);
                    }
                }
            }
        } else {
            proof {
                lemma_occurrences_bounds(seen, name@);
                if seen.contains(name@) {
                    let earlier = choose|earlier: int|
                        0 <= earlier < seen.len() && seen[earlier] == name@;
                    assert(names[earlier] == name@);
                    assert(is_listed(entries_of(before), names[earlier]));
                    let listed = choose|listed: int|
                        0 <= listed < entries_of(before).len() && (#[trigger] entries_of(
                            before,
                        )[listed]).0 == names[earlier];
                    assert(before[listed].0@ == name@);
                }
            }
            tallies.push((name, 1));
            proof {
                assert forall|earlier: int| 0 <= earlier < index + 1 implies is_listed(
                    entries_of(tallies@),
                    #[trigger] names[earlier],
                ) by {
                    if earlier < index {
                        assert(is_listed(entries_of(before), names[earlier]));
                        let listed = choose|listed: int|
                            0 <= listed < entries_of(before).len() && (#[trigger] entries_of(
                                before,
                            )[listed]).0 == names[earlier];
                        assert(entries_of(tallies@)[listed].0 == names[earlier]);
                    } else {
                        assert(entries_of(tallies@)[before.len() as int].0 == names[earlier]);
                    }
                }
            }
        }
        index += 1;
    }
    assert(names.take(compounds.len() as int) == names);
    tallies
}

/// Whether `entry` is one of the first `upto` entries of `entries`.
spec fn is_among(entries: Seq<(String, usize)>, upto: int, entry: (String, usize)) -> bool {
    exists|from: int| 0 <= from < upto && from < entries.len() && #[trigger] entries[from] == entry
}

/// The ranking of the notations of `compounds`: each notation that occurs,
/// once, with the number of its occurrences. The more frequent comes first;
/// of two that are equally frequent, the one that is later in the order of
/// texts does.
pub fn compound_ranking(compounds: &Vec<Compound>) -> (ranking: Vec<(String, usize)>)
    ensures
        is_ranking(notations_of(compounds@), entries_of(ranking@)),
{
    let ghost names = notations_of(compounds@);
    let tallies = tally(compounds);
    let ghost given = tallies@;
    let mut ranking: Vec<(String, usize)> = Vec::new();
    for entry in it: tallies.into_iter()
        invariant
            it.seq() == given,
            forall|first: int, second: int|
                0 <= first < second < given.len() ==> (#[trigger] given[first]).0@
                    != (#[trigger] given[second]).0@,
            is_ranked(entries_of(ranking@)),
            0 <= it.index() <= given.len(),
            forall|index: int|
                0 <= index < ranking.len() ==> is_among(
                    given,
                    it.index(),
                    #[trigger] ranking@[index],
                ),
            forall|from: int|
                0 <= from < it.index() ==> is_among(
                    ranking@,
                    ranking.len() as int,
                    #[trigger] given[from],
                ),
    {
        let ghost before = ranking@;
        let ghost done = it.index();
        let mut position: usize = 0;
        while position < ranking.len() && ranks_higher(&ranking[position], &entry)
            invariant
                position <= ranking.len(),
                ranking@ == before,
                forall|above: int|
                    0 <= above < position ==> ranks_above(
                        #[trigger] entries_of(before)[above],
                        (entry.0@, entry.1 as nat),
                    ),
            decreases ranking.len() - position,
        {
            position += 1;
        }
        ranking.insert(position, entry);
        proof {
            let new = (entry.0@, entry.1 as nat);
            let old_entries = entries_of(before);
            let entries = entries_of(ranking@);
            assert(entries =~= old_entries.insert(position as int, new));
            assert forall|first: int, second: int|
                0 <= first < second < entries.len() implies ranks_above(
                #[trigger] entries[first],
                #[trigger] entries[second],
            ) by {
                if first == position {
                    // What stood at the position or after it ranks below.
                    let below = second - 1;
                    assert(is_among(given, done, before[below]));
                    let from = choose|from: int|
                        0 <= from < done && from < given.len() && #[trigger] given[from]
                            == before[below];
                    assert(given[from].0@ != given[done].0@);
                    assert(old_entries[below].0 != new.0);
                    assert(is_among(given, done, before[position as int]));
                    let at = choose|at: int|
                        0 <= at < done && at < given.len() && #[trigger] given[at]
                            == before[position as int];
                    assert(given[at].0@ != given[done].0@);
                    lemma_below_the_position(old_entries, position as int, below, new);
                } else if second == position {
                    assert(entries[first] == old_entries[first]);
                } else {
                    let old_first = if first < position {
                        first
                    } else {
                        first - 1
                    };
                    let old_second = if second < position {
                        second
                    } else {
                        second - 1
                    };
                    assert(entries[first] == old_entries[old_first]);
                    assert(entries[second] == old_entries[old_second]);
                }
            }
            assert forall|index: int| 0 <= index < ranking.len() implies is_among(
                given,
                done + 1,
                #[trigger] ranking@[index],
            ) by {
                if index < position {
                    assert(ranking@[index] == before[index]);
                    assert(is_among(given, done, before[index]));
                    let from = choose|from: int|
                        0 <= from < done && from < given.len() && #[trigger] given[from]
                            == before[index];
                    assert(given[from] == ranking@[index]);
                } else if index == position {
                    assert(given[done] == ranking@[index]);
                } else {
                    assert(ranking@[index] == before[index - 1]);
                    assert(is_among(given, done, before[index - 1]));
                    let from = choose|from: int|
                        0 <= from < done && from < given.len() && #[trigger] given[from]
                            == before[index - 1];
                    assert(given[from] == ranking@[index]);
                }
            }
            assert forall|from: int| 0 <= from < done + 1 implies is_among(
                ranking@,
                ranking.len() as int,
                #[trigger] given[from],
            ) by {
                if from < done {
                    assert(is_among(before, before.len() as int, given[from]));
                    let index = choose|index: int|
                        0 <= index < before.len() && #[trigger] before[index] == given[from];
                    if index < position {
                        assert(ranking@[index] == given[from]);
                    } else {
                        assert(ranking@[index + 1] == given[from]);
                    }
                } else {
                    assert(ranking@[position as int] == given[from]);
                }
            }
        }
    }
    proof {
        let entries = entries_of(ranking@);
        assert forall|index: int| 0 <= index < entries.len() implies (#[trigger] entries[index]).1
            > 0 && entries[index].1 == occurrences(names, entries[index].0) by {
            assert(is_among(given, given.len() as int, ranking@[index]));
            let from = choose|from: int|
                0 <= from < given.len() && #[trigger] given[from] == ranking@[index];
            assert(given[from].1 > 0);
        }
        assert forall|index: int| 0 <= index < names.len() implies is_listed(
            entries,
            #[trigger] names[index],
        ) by {
            assert(is_listed(entries_of(given), names[index]));
            let from = choose|from: int|
                0 <= from < entries_of(given).len() && (#[trigger] entries_of(given)[from]).0
                    == names[index];
            assert(is_among(ranking@, ranking.len() as int, given[from]));
            let listed = choose|listed: int|
                0 <= listed < ranking.len() && #[trigger] ranking@[listed] == given[from];
            assert(entries[listed].0 == names[index]);
        }
    }
    ranking
}

/// An entry that the one at the position of a ranking does not rank above
/// ranks above that one and all after it, where no two have one notation.
proof fn lemma_below_the_position(
    ranking: Seq<(Seq<char>, nat)>,
    position: int,
    below: int,
    entry: (Seq<char>, nat),
)
    requires
        is_ranked(ranking),
        0 <= position <= below < ranking.len(),
        !ranks_above(ranking[position], entry),
        ranking[position].0 != entry.0,
    ensures
        ranks_above(entry, ranking[below]),
{
    let at = ranking[position];
    if at.1 == entry.1 {
        lemma_text_precedes_is_total(at.0, entry.0);
    }
    assert(ranks_above(entry, at));
    if position < below {
        let lower = ranking[below];
        assert(ranks_above(at, lower));
        if entry.1 == at.1 && at.1 == lower.1 {
            lemma_text_precedes_is_transitive(lower.0, at.0, entry.0);
        }
    }
}

/// Writes the ranking of `compounds`, a line for each notation that occurs:
/// the number of its occurrences, a dash between two spaces, and the
/// notation.
pub fn compound_rank_display(compounds: &Vec<Compound>) -> (text: String)
    ensures
        exists|ranking: Seq<(Seq<char>, nat)>| #[trigger]
            is_ranking(notations_of(compounds@), ranking) && text@ == rank_lines(ranking),
{
    let ranking = compound_ranking(compounds);
    let mut text = String::new();
    let mut index: usize = 0;
    while index < ranking.len()
        invariant
            index <= ranking.len(),
            text@ == rank_lines(entries_of(ranking@).take(index as int)),
        decreases ranking.len() - index,
    {
        let ghost before = text@;
        let ghost upto = entries_of(ranking@).take(index + 1);
        proof {
            assert(upto.drop_last() == entries_of(ranking@).take(index as int));
            assert(upto.last() == (ranking@[index as int].0@, ranking@[index as int].1 as nat));
        }
        push_decimal(&mut text, ranking[index].1 as u64);
        text.push(' ');
        text.push('-');
        text.push(' ');
        text.append(ranking[index].0.as_str());
        text.push('\n');
        assert(text@ =~= before + rank_line(upto.last()));
        index += 1;
    }
    assert(entries_of(ranking@).take(ranking.len() as int) == entries_of(ranking@));
    text
}

} // verus!
