use ergo::conditions::{
    is_condition_true, parse_rule, rule_is_parsable, split_conditions, Condition, ConditionNode, DisplayState,
};

fn rule(text: &str) -> (ConditionNode, String) {
    assert!(rule_is_parsable(text));
    parse_rule(text.to_string()).unwrap()
}

fn state(names: &[&str], added: bool, removed: bool) -> DisplayState {
    DisplayState {
        current_displays: names.iter().map(|s| s.to_string()).collect(),
        added,
        removed,
    }
}

fn is_leaf(node: &ConditionNode, cond: Condition) -> bool {
    node.condition == cond && node.left.is_none() && node.right.is_none()
}

#[test]
fn readme_example_tree() {
    let (tree, cmd) = rule("+ and \"G27QC A\" and =1 -> echo 'hello'");
    assert_eq!(cmd, "echo 'hello'");
    assert_eq!(tree.condition, Condition::And);
    let left = tree.left.as_ref().unwrap();
    let right = tree.right.as_ref().unwrap();
    assert!(is_leaf(left, Condition::AddedDisplay));
    assert_eq!(right.condition, Condition::And);
    assert!(is_leaf(right.left.as_ref().unwrap(), Condition::DisplayName("G27QC A".to_string())));
    assert!(is_leaf(right.right.as_ref().unwrap(), Condition::NumDisplays(1)));
}

#[test]
fn single_condition_rule() {
    let (tree, cmd) = rule("\"G27QC A\" -> open /Applications/DisplayCenter.app");
    assert!(is_leaf(&tree, Condition::DisplayName("G27QC A".to_string())));
    assert_eq!(cmd, "open /Applications/DisplayCenter.app");
}

#[test]
fn rule_without_arrow_is_refused() {
    let r = parse_rule("+ echo hi".to_string());
    assert_eq!(r.unwrap_err(), "invalid rule format");
}

#[test]
fn rule_with_two_arrows_is_refused() {
    let r = parse_rule("+ -> echo -> hi".to_string());
    assert_eq!(r.unwrap_err(), "invalid rule format");
}

#[test]
fn comment_rule_gives_empty_command() {
    let (tree, cmd) = rule("   # + -> echo hi");
    assert!(is_leaf(&tree, Condition::NoCondition));
    assert_eq!(cmd, "");
}

#[test]
fn number_conditions() {
    assert!(is_leaf(&rule("=2 -> x").0, Condition::NumDisplays(2)));
    assert!(is_leaf(&rule(">3 -> x").0, Condition::MoreThanNumDisplays(3)));
    assert!(is_leaf(&rule("<4 -> x").0, Condition::LessThanNumDisplays(4)));
    assert!(is_leaf(&rule("=+5 -> x").0, Condition::NumDisplays(5)));
}

#[test]
fn unreadable_numbers_fall_back() {
    assert!(is_leaf(&rule("=abc -> x").0, Condition::NumDisplays(0xffffffff)));
    assert!(is_leaf(&rule(">-1 -> x").0, Condition::MoreThanNumDisplays(0xffffffff)));
    assert!(is_leaf(&rule("< -> x").0, Condition::LessThanNumDisplays(0)));
    assert!(is_leaf(
        &rule("=99999999999999999999999999 -> x").0,
        Condition::NumDisplays(0xffffffff)
    ));
    assert!(is_leaf(&rule("=+ -> x").0, Condition::NumDisplays(0xffffffff)));
}

#[test]
fn added_and_removed_conditions() {
    assert!(is_leaf(&rule("+ -> x").0, Condition::AddedDisplay));
    assert!(is_leaf(&rule("- -> x").0, Condition::RemovedDisplay));
}

#[test]
fn unclosed_quote_is_accepted() {
    let (tree, _) = rule("\"Built-in Display -> x");
    assert!(is_leaf(&tree, Condition::DisplayName("Built-in Display".to_string())));
}

#[test]
fn bare_name_is_a_display_name() {
    let (tree, _) = rule("DELL -> x");
    assert!(is_leaf(&tree, Condition::DisplayName("DELL".to_string())));
}

#[test]
fn command_is_trimmed() {
    let (_, cmd) = rule("  +   ->    say hello   ");
    assert_eq!(cmd, "say hello");
}

#[test]
fn unicode_white_space_separates_words() {
    let (tree, cmd) = rule("+\u{a0}and\u{2003}- ->\u{3000}x\u{85}");
    assert_eq!(tree.condition, Condition::And);
    assert!(is_leaf(tree.left.as_ref().unwrap(), Condition::AddedDisplay));
    assert!(is_leaf(tree.right.as_ref().unwrap(), Condition::RemovedDisplay));
    assert_eq!(cmd, "x");
}

#[test]
fn operators_join_from_left_to_right() {
    // a or b and c or d  is  a or (b and (c or d))
    let (tree, _) = rule("A or B and C or D -> x");
    assert_eq!(tree.condition, Condition::Or);
    assert!(is_leaf(tree.left.as_ref().unwrap(), Condition::DisplayName("A".to_string())));
    let r1 = tree.right.as_ref().unwrap();
    assert_eq!(r1.condition, Condition::And);
    assert!(is_leaf(r1.left.as_ref().unwrap(), Condition::DisplayName("B".to_string())));
    let r2 = r1.right.as_ref().unwrap();
    assert_eq!(r2.condition, Condition::Or);
    assert!(is_leaf(r2.left.as_ref().unwrap(), Condition::DisplayName("C".to_string())));
    assert!(is_leaf(r2.right.as_ref().unwrap(), Condition::DisplayName("D".to_string())));

    assert!(is_condition_true(&tree, &state(&["A"], false, false)));
    assert!(!is_condition_true(&tree, &state(&["B"], false, false)));
    assert!(is_condition_true(&tree, &state(&["B", "D"], false, false)));
}

#[test]
fn extra_conditions_without_operators_are_dropped() {
    // with fewer operators than the conditions need, the conditions are
    // reduced as a queue from the back, and the last node built is the tree
    let (tree, _) = rule("A B -> x");
    assert!(is_leaf(&tree, Condition::DisplayName("A".to_string())));
    let (tree, _) = rule("A B C -> x");
    assert!(is_leaf(&tree, Condition::DisplayName("A".to_string())));
    let (tree, _) = rule("A and B C -> x");
    assert_eq!(tree.condition, Condition::And);
    assert!(is_leaf(tree.left.as_ref().unwrap(), Condition::DisplayName("B".to_string())));
    assert!(is_leaf(tree.right.as_ref().unwrap(), Condition::DisplayName("C".to_string())));
    let (tree, _) = rule("A and B C D -> x");
    assert_eq!(tree.condition, Condition::And);
    assert!(is_leaf(tree.left.as_ref().unwrap(), Condition::DisplayName("C".to_string())));
    assert!(is_leaf(tree.right.as_ref().unwrap(), Condition::DisplayName("D".to_string())));
    let (tree, _) = rule("A and B or C D -> x");
    assert_eq!(tree.condition, Condition::And);
    assert!(is_leaf(tree.left.as_ref().unwrap(), Condition::DisplayName("A".to_string())));
    assert!(is_leaf(tree.right.as_ref().unwrap(), Condition::DisplayName("B".to_string())));
    let (tree, _) = rule("A and B or C D E -> x");
    assert_eq!(tree.condition, Condition::And);
    assert!(is_leaf(tree.left.as_ref().unwrap(), Condition::DisplayName("B".to_string())));
    assert!(is_leaf(tree.right.as_ref().unwrap(), Condition::DisplayName("C".to_string())));
    let (tree, _) = rule("A and B or C and D E -> x");
    assert_eq!(tree.condition, Condition::And);
    let left = tree.left.as_ref().unwrap();
    assert_eq!(left.condition, Condition::And);
    assert!(is_leaf(left.left.as_ref().unwrap(), Condition::DisplayName("D".to_string())));
    assert!(is_leaf(left.right.as_ref().unwrap(), Condition::DisplayName("E".to_string())));
    assert!(is_leaf(tree.right.as_ref().unwrap(), Condition::DisplayName("A".to_string())));
    assert!(is_condition_true(&tree, &state(&["A", "D", "E"], false, false)));
    assert!(!is_condition_true(&tree, &state(&["A", "B", "C"], false, false)));
}

#[test]
fn words_join_across_a_space() {
    let (tree, _) = rule("\"Built-in Display\" and \"G27QC A\" -> x");
    assert!(is_leaf(tree.left.as_ref().unwrap(), Condition::DisplayName("Built-in Display".to_string())));
    assert!(is_leaf(tree.right.as_ref().unwrap(), Condition::DisplayName("G27QC A".to_string())));
}

#[test]
fn rules_without_an_answer_are_reported() {
    assert!(!rule_is_parsable("-> echo"));
    assert!(!rule_is_parsable("and -> echo"));
    assert!(!rule_is_parsable("+ and and - -> echo"));
    assert!(!rule_is_parsable("+ and \" -> echo"));
    assert!(rule_is_parsable("+ and - -> echo"));
    assert!(rule_is_parsable("no arrow at all"));
    assert!(rule_is_parsable("# -> comment"));
}

#[test]
fn readme_rule_evaluation() {
    let (tree, _) = rule("+ and \"Built-in\" and =2 -> echo 'external display connected'");
    assert!(is_condition_true(&tree, &state(&["Built-in", "G27QC A"], true, false)));
    assert!(!is_condition_true(&tree, &state(&["Built-in", "G27QC A"], false, false)));
    assert!(!is_condition_true(&tree, &state(&["Built-in"], true, false)));
    assert!(!is_condition_true(&tree, &state(&["DELL", "G27QC A"], true, false)));

    let (tree, _) = rule("- and =1 -> echo 'back to single display'");
    assert!(is_condition_true(&tree, &state(&["Built-in"], false, true)));
    assert!(!is_condition_true(&tree, &state(&["Built-in"], true, false)));
}

#[test]
fn count_comparisons() {
    let two = state(&["a", "b"], false, false);
    assert!(is_condition_true(&rule(">1 -> x").0, &two));
    assert!(!is_condition_true(&rule(">2 -> x").0, &two));
    assert!(is_condition_true(&rule("<3 -> x").0, &two));
    assert!(!is_condition_true(&rule("<2 -> x").0, &two));
    assert!(is_condition_true(&rule("=2 -> x").0, &two));
}

#[test]
fn or_rule_evaluation() {
    let (tree, _) = rule("+ or - -> x");
    assert!(is_condition_true(&tree, &state(&[], false, true)));
    assert!(is_condition_true(&tree, &state(&[], true, false)));
    assert!(!is_condition_true(&tree, &state(&[], false, false)));
}

#[test]
fn none_and_not_conditions_never_hold() {
    let st = state(&["a"], true, true);
    let none = ConditionNode { condition: Condition::NoCondition, left: None, right: None };
    assert!(!is_condition_true(&none, &st));
    let not = ConditionNode { condition: Condition::Not, left: None, right: None };
    assert!(!is_condition_true(&not, &st));
}

#[test]
fn debug_print_lists_nodes_in_pre_order() {
    let (tree, _) = rule("+ and \"G27QC A\" and =1 -> echo 'hello'");
    let lines = tree.debug_print(0);
    let got: Vec<(usize, Condition)> = lines.iter().map(|(l, c)| (*l, (*c).clone())).collect();
    assert_eq!(
        got,
        vec![
            (0, Condition::And),
            (1, Condition::AddedDisplay),
            (1, Condition::And),
            (2, Condition::DisplayName("G27QC A".to_string())),
            (2, Condition::NumDisplays(1)),
        ]
    );
    let lines = tree.debug_print(3);
    assert_eq!(lines[0].0, 3);
    assert_eq!(lines[4].0, 5);
}

#[test]
fn tree_clone_keeps_the_tree() {
    let (tree, _) = rule("+ and - -> x");
    let copy = tree.clone();
    assert_eq!(copy.condition, Condition::And);
    assert!(is_leaf(copy.left.as_ref().unwrap(), Condition::AddedDisplay));
    assert!(is_leaf(copy.right.as_ref().unwrap(), Condition::RemovedDisplay));
}

fn node(cond: Condition, left: Option<ConditionNode>, right: Option<ConditionNode>) -> ConditionNode {
    ConditionNode { condition: cond, left: left.map(Box::new), right: right.map(Box::new) }
}

#[test]
fn short_circuit_on_half_formed_trees() {
    let added = || Some(node(Condition::AddedDisplay, None, None));
    let or_no_right = node(Condition::Or, added(), None);
    assert!(is_condition_true(&or_no_right, &state(&[], true, false)));
    let and_no_right = node(Condition::And, added(), None);
    assert!(!is_condition_true(&and_no_right, &state(&[], false, false)));
}

#[test]
fn split_conditions_joins_across_a_space() {
    let a: Vec<char> = "\"G27QC A\" and".chars().collect();
    let b: Vec<char> = "=1 or -".chars().collect();
    let ab: Vec<char> = "\"G27QC A\" and =1 or -".chars().collect();
    let mut joined = split_conditions(&a);
    joined.extend(split_conditions(&b));
    assert_eq!(split_conditions(&ab), joined);
    assert_eq!(
        split_conditions(&ab),
        vec![
            Condition::DisplayName("G27QC A".to_string()),
            Condition::And,
            Condition::NumDisplays(1),
            Condition::Or,
            Condition::RemovedDisplay,
        ]
    );
}
