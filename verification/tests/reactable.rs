use witchcraft::alchemy::components::{Heat, StirMethod};
use witchcraft::alchemy::compound::Compound;
use witchcraft::alchemy::resources::ReactionRule;
use witchcraft::reactable::{reactable, reaction_cell};

fn compound(text: &str) -> Compound {
    Compound::from_str(text).unwrap()
}

fn rule(text: &str, heat: Option<Heat>, stir_method: Option<StirMethod>) -> ReactionRule {
    ReactionRule {
        compound: compound(text),
        heat,
        stir_method,
    }
}

#[test]
fn cell_lists_the_reactions_that_change_the_pair() {
    assert_eq!(reaction_cell(&compound("2ae"), &compound("a3b")), "be+3a2b");
    assert_eq!(reaction_cell(&compound("a3b"), &compound("2ae")), "be+3a2b");
    assert_eq!(reaction_cell(&compound("be"), &compound("3a2b")), "2ae+a3b");
    assert_eq!(reaction_cell(&compound("3a2b"), &compound("be")), "2ae+a3b");
    assert_eq!(reaction_cell(&compound("7a"), &compound("7a")), "");
    assert_eq!(reaction_cell(&compound("2ae"), &compound("2ae")), "");
    assert_eq!(reaction_cell(&compound("a3b"), &compound("3a2b")), "");
    assert_eq!(reaction_cell(&compound("cd"), &compound("7a")), "3ad+4ac");
    assert_eq!(reaction_cell(&compound("2ae"), &compound("3a2b")), "be+5ab");
    assert_eq!(reaction_cell(&compound("3a2b"), &compound("3a2b")), "a3b+5ab");
}

#[test]
fn cell_separates_reactions_with_a_comma_and_a_space() {
    assert_eq!(
        reaction_cell(&compound("2abc"), &compound("2abc")),
        "a2c+3a2b, 2bc+4ac"
    );
    assert_eq!(
        reaction_cell(&compound("cd"), &compound("3a2b")),
        "abd+2abc, 3ad+2bc"
    );
    assert_eq!(
        reaction_cell(&compound("2abc"), &compound("3a2b")),
        "2bc+5ab, 4ac+a3b"
    );
    assert_eq!(reaction_cell(&compound("2abc"), &compound("cd")), "abd+a2c");
}

#[test]
fn table_has_a_head_and_a_row_for_each_rule() {
    let rules = vec![
        rule("2ae", None, None),
        rule("a3b", Some(Heat::Boiling), None),
        rule("be", Some(Heat::Simmering), Some(StirMethod::SingleStir)),
        rule("3a2b", None, Some(StirMethod::SingleStir)),
    ];
    let table = vec![
        vec!["", "2ae", "a3b", "be", "3a2b"],
        vec!["2ae", "", "be+3a2b", "", "be+5ab"],
        vec!["a3b", "be+3a2b", "", "", ""],
        vec!["be", "", "", "", "2ae+a3b"],
        vec!["3a2b", "be+5ab", "", "2ae+a3b", "a3b+5ab"],
    ];
    assert_eq!(reactable(&rules, false), table);
    assert_eq!(reactable(&rules, true), table);
}

#[test]
fn table_leaves_cells_empty_where_the_conditions_forbid_a_reaction() {
    let rules = vec![
        rule("2abc", Some(Heat::Boiling), None),
        rule("2abc", Some(Heat::Simmering), None),
        rule("cd", None, Some(StirMethod::DoubleStir)),
        rule("3a2b", None, Some(StirMethod::ZeroStir)),
        rule("7a", Some(Heat::Boiling), Some(StirMethod::ZeroStir)),
    ];
    let both = "a2c+3a2b, 2bc+4ac";
    let with_cd = "abd+a2c";
    let with_3a2b = "2bc+5ab, 4ac+a3b";
    let mixed = "abd+2abc, 3ad+2bc";
    let with_7a = "4ac+5ab";
    assert_eq!(
        reactable(&rules, false),
        vec![
            vec!["", "2abc", "2abc", "cd", "3a2b", "7a"],
            vec!["2abc", both, both, with_cd, with_3a2b, with_7a],
            vec!["2abc", both, both, with_cd, with_3a2b, ""],
            vec!["cd", with_cd, with_cd, "", "", ""],
            vec!["3a2b", with_3a2b, with_3a2b, "", "a3b+5ab", "5ab+5ab"],
            vec!["7a", with_7a, with_7a, "", "5ab+5ab", ""],
        ]
    );
    assert_eq!(
        reactable(&rules, true),
        vec![
            vec!["", "2abc", "2abc", "cd", "3a2b", "7a"],
            vec!["2abc", both, both, with_cd, with_3a2b, with_7a],
            vec!["2abc", both, both, with_cd, with_3a2b, with_7a],
            vec!["cd", with_cd, with_cd, "", mixed, "3ad+4ac"],
            vec!["3a2b", with_3a2b, with_3a2b, mixed, "a3b+5ab", "5ab+5ab"],
            vec!["7a", with_7a, with_7a, "3ad+4ac", "5ab+5ab", ""],
        ]
    );
    assert_eq!(reactable(&Vec::new(), false), vec![vec![""]]);
}
