//! The table of reactions: which compounds of the reaction rules react with
//! which, and to what.

use crate::alchemy::compound::{
    lemma_same_counts_same_compound, possible_reactions_of, reactions_of, Compound,
};
use crate::alchemy::element::Element;
use crate::alchemy::notation::notation_of;
use crate::alchemy::resources::ReactionRule;
use crate::alchemy::systems::{get_reactive_compounds, is_reactive, reactive_compounds};
use vstd::prelude::*;
use vstd::string::StringExecFns;

verus! {

/// Whether `reaction` leaves the pair of `row` and `column` as it is, in
/// either order.
pub open spec fn is_unchanged(
    row: Map<Element, nat>,
    column: Map<Element, nat>,
    reaction: (Map<Element, nat>, Map<Element, nat>),
) -> bool {
    reaction == (row, column) || reaction == (column, row)
}

/// The reactions of `reactions` that change the pair of `row` and `column`,
/// in their order.
pub open spec fn shown(
    reactions: Seq<(Map<Element, nat>, Map<Element, nat>)>,
    row: Map<Element, nat>,
    column: Map<Element, nat>,
) -> Seq<(Map<Element, nat>, Map<Element, nat>)>
    decreases reactions.len(),
{
    if reactions.len() == 0 {
        Seq::empty()
    } else if is_unchanged(row, column, reactions.last()) {
        shown(reactions.drop_last(), row, column)
    } else {
        shown(reactions.drop_last(), row, column).push(reactions.last())
    }
}

/// A reaction as text: the notations of its two sides with a plus sign
/// between them.
pub open spec fn reaction_text(reaction: (Map<Element, nat>, Map<Element, nat>)) -> Seq<char> {
    notation_of(reaction.0) + seq!['+'] + notation_of(reaction.1)
}

/// Reactions as text: each as text, with a comma and a space between one and
/// the next.
pub open spec fn reactions_text(reactions: Seq<(Map<Element, nat>, Map<Element, nat>)>) -> Seq<
    char,
>
    decreases reactions.len(),
{
    if reactions.len() == 0 {
        Seq::empty()
    } else if reactions.len() == 1 {
        reaction_text(reactions[0])
    } else {
        reactions_text(reactions.drop_last()) + seq![',', ' '] + reaction_text(reactions.last())
    }
}

/// What the table shows where the row of `row` meets the column of `column`:
/// the possible reactions of the two that change them.
pub open spec fn cell_text(row: Map<Element, nat>, column: Map<Element, nat>) -> Seq<char> {
    reactions_text(shown(possible_reactions_of(row, column, 7), row, column))
}

/// What the table shows in the cell of the rules at `row` and `column`: the
/// reactions of their compounds where the compound of the column reacts
/// under the conditions of the row, or under anarchy; else nothing.
pub open spec fn table_cell(
    reaction_rules: Seq<ReactionRule>,
    anarchy: bool,
    row: int,
    column: int,
) -> Seq<char> {
    if anarchy || reactive_compounds(
        reaction_rules,
        reaction_rules[row].stir_method,
        reaction_rules[row].heat,
    ).contains(reaction_rules[column].compound) {
        cell_text(reaction_rules[row].compound@, reaction_rules[column].compound@)
    } else {
        Seq::empty()
    }
}

/// Writes the possible reactions of `row` with `column` that change the two,
/// with a comma and a space between one and the next.
pub fn reaction_cell(row: &Compound, column: &Compound) -> (text: String)
    ensures
        text@ == cell_text(row@, column@),
{
    let reactions = row.set_of_possible_reactions(column);
    let mut text = String::new();
    let mut written: usize = 0;
    let mut index: usize = 0;
    while index < reactions.len()
        invariant
            index <= reactions.len(),
            written <= index,
            written == shown(reactions_of(reactions@).take(index as int), row@, column@).len(),
            text@ == reactions_text(
                shown(reactions_of(reactions@).take(index as int), row@, column@),
            ),
        decreases reactions.len() - index,
    {
        let (left, right) = reactions[index];
        let ghost before = shown(reactions_of(reactions@).take(index as int), row@, column@);
        let ghost upto = reactions_of(reactions@).take(index + 1);
        proof {
            assert(upto.drop_last() == reactions_of(reactions@).take(index as int));
            assert(upto.last() == (left@, right@));
            if left@ == row@ {
                lemma_same_counts_same_compound(left, *row);
            }
            if right@ == column@ {
                lemma_same_counts_same_compound(right, *column);
            }
            if left@ == column@ {
                lemma_same_counts_same_compound(left, *column);
            }
            if right@ == row@ {
                lemma_same_counts_same_compound(right, *row);
            }
        }
        let unchanged = (left == *row && right == *column) || (left == *column && right == *row);
        if !unchanged {
            if written > 0 {
                text.push(',');
                text.push(' ');
            }
            text.append(left.to_string().as_str());
            text.push('+');
            text.append(right.to_string().as_str());
            written += 1;
            proof {
                let after = before.push((left@, right@));
                assert(after.drop_last() == before);
                assert(text@ =~= reactions_text(after));
            }
        }
        index += 1;
    }
    assert(reactions_of(reactions@).take(reactions.len() as int) == reactions_of(reactions@));
    text
}

/// The row of the table for the rule at `row`: the notation of its compound,
/// then a cell for the compound of each rule.
fn table_row(reaction_rules: &Vec<ReactionRule>, anarchy: bool, row: usize) -> (cells: Vec<String>)
    requires
        row < reaction_rules.len(),
    ensures
        cells.len() == reaction_rules.len() + 1,
        cells@[0]@ == notation_of(reaction_rules@[row as int].compound@),
        forall|column: int|
            0 <= column < reaction_rules.len() ==> (#[trigger] cells@[column + 1])@ == table_cell(
                reaction_rules@,
                anarchy,
                row as int,
                column,
            ),
{
    let rule = &reaction_rules[row];
    let reactive = get_reactive_compounds(reaction_rules, rule.stir_method, rule.heat);
    let mut cells: Vec<String> = Vec::new();
    cells.push(rule.compound.to_string());
    let mut column: usize = 0;
    while column < reaction_rules.len()
        invariant
            column <= reaction_rules.len(),
            row < reaction_rules.len(),
            *rule == reaction_rules@[row as int],
            reactive@ == reactive_compounds(reaction_rules@, rule.stir_method, rule.heat),
            cells.len() == column + 1,
            cells@[0]@ == notation_of(reaction_rules@[row as int].compound@),
            forall|earlier: int|
                0 <= earlier < column ==> (#[trigger] cells@[earlier + 1])@ == table_cell(
                    reaction_rules@,
                    anarchy,
                    row as int,
                    earlier,
                ),
        decreases reaction_rules.len() - column,
    {
        let other = &reaction_rules[column].compound;
        let ghost before = cells@;
        if is_reactive(&reactive, other) || anarchy {
            cells.push(reaction_cell(&rule.compound, other));
        } else {
            cells.push(String::new());
        }
        proof {
            assert forall|earlier: int| 0 <= earlier < column + 1 implies (
            #[trigger] cells@[earlier + 1])@ == table_cell(
                reaction_rules@,
                anarchy,
                row as int,
                earlier,
            ) by {
                if earlier < column {
                    assert(cells@[earlier + 1] == before[earlier + 1]);
                }
            }
        }
        column += 1;
    }
    cells
}

/// The table of reactions as rows of cells.
///
/// The first row is the head: an empty cell, then the notation of the
/// compound of each rule. Then comes a row for each rule: the notation of its
/// compound, then, for the compound of each rule, the possible reactions of
/// the two that change them. A cell stays empty where the compound of the
/// column does not react under the conditions of the row, unless `anarchy`
/// lets every compound react with every other.
pub fn reactable(reaction_rules: &Vec<ReactionRule>, anarchy: bool) -> (rows: Vec<Vec<String>>)
    ensures
        rows.len() == reaction_rules.len() + 1,
        forall|row: int|
            0 <= row < rows.len() ==> (#[trigger] rows@[row]).len() == reaction_rules.len() + 1,
        rows@[0]@[0]@ == Seq::<char>::empty(),
        forall|column: int|
            0 <= column < reaction_rules.len() ==> (#[trigger] rows@[0]@[column + 1])@
                == notation_of(reaction_rules@[column].compound@),
        forall|row: int|
            0 <= row < reaction_rules.len() ==> (#[trigger] rows@[row + 1])@[0]@ == notation_of(
                reaction_rules@[row].compound@,
            ),
        forall|row: int, column: int|
            0 <= row < reaction_rules.len() && 0 <= column < reaction_rules.len() ==> (
            #[trigger] rows@[row + 1]@[column + 1])@ == table_cell(
                reaction_rules@,
                anarchy,
                row,
                column,
            ),
{
    let mut first_row: Vec<String> = Vec::new();
    first_row.push(String::new());
    let mut column: usize = 0;
    while column < reaction_rules.len()
        invariant
            column <= reaction_rules.len(),
            first_row.len() == column + 1,
            first_row@[0]@ == Seq::<char>::empty(),
            forall|earlier: int|
                0 <= earlier < column ==> (#[trigger] first_row@[earlier + 1])@ == notation_of(
                    reaction_rules@[earlier].compound@,
                ),
        decreases reaction_rules.len() - column,
    {
        let ghost before = first_row@;
        first_row.push(reaction_rules[column].compound.to_string());
        proof {
            assert forall|earlier: int| 0 <= earlier < column + 1 implies (
            #[trigger] first_row@[earlier + 1])@ == notation_of(
                reaction_rules@[earlier].compound@,
            ) by {
                if earlier < column {
                    assert(first_row@[earlier + 1] == before[earlier + 1]);
                }
            }
        }
        column += 1;
    }
    let mut rows: Vec<Vec<String>> = Vec::new();
    rows.push(first_row);
    let mut row: usize = 0;
    while row < reaction_rules.len()
        invariant
            row <= reaction_rules.len(),
            rows.len() == row + 1,
            forall|earlier: int|
                0 <= earlier < rows.len() ==> (#[trigger] rows@[earlier]).len()
                    == reaction_rules.len() + 1,
            rows@[0]@[0]@ == Seq::<char>::empty(),
            forall|column: int|
                0 <= column < reaction_rules.len() ==> (#[trigger] rows@[0]@[column + 1])@
                    == notation_of(reaction_rules@[column].compound@),
            forall|earlier: int|
                0 <= earlier < row ==> (#[trigger] rows@[earlier + 1])@[0]@ == notation_of(
                    reaction_rules@[earlier].compound@,
                ),
            forall|earlier: int, column: int|
                0 <= earlier < row && 0 <= column < reaction_rules.len() ==> (
                #[trigger] rows@[earlier + 1]@[column + 1])@ == table_cell(
                    reaction_rules@,
                    anarchy,
                    earlier,
                    column,
                ),
        decreases reaction_rules.len() - row,
    {
        let ghost before = rows@;
        let cells = table_row(reaction_rules, anarchy, row);
        rows.push(cells);
        proof {
            assert(rows@[0] == before[0]);
            assert forall|earlier: int| 0 <= earlier < rows.len() implies (
            #[trigger] rows@[earlier]).len() == reaction_rules.len() + 1 by {
                if earlier < before.len() {
                    assert(rows@[earlier] == before[earlier]);
                }
            }
            assert forall|earlier: int| 0 <= earlier < row + 1 implies (
            #[trigger] rows@[earlier + 1])@[0]@ == notation_of(
                reaction_rules@[earlier].compound@,
            ) by {
                if earlier < row {
                    assert(rows@[earlier + 1] == before[earlier + 1]);
                }
            }
            assert forall|earlier: int, column: int|
                0 <= earlier < row + 1 && 0 <= column < reaction_rules.len() implies (
            #[trigger] rows@[earlier + 1]@[column + 1])@ == table_cell(
                reaction_rules@,
                anarchy,
                earlier,
                column,
            ) by {
                if earlier < row {
                    assert(rows@[earlier + 1] == before[earlier + 1]);
                }
            }
        }
        row += 1;
    }
    rows
}

} // verus!
