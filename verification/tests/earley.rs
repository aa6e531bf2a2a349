use linked_hash_set::LinkedHashSet;
use santiago::forest::{build_forest, intern_state, rule_index, Forest, Item, ParseState};
use santiago::grammar::{Rule, Symbol};

fn nt(name: &str) -> Symbol {
    Symbol::NonTerminal(name.to_string())
}

fn t(kind: &str) -> Symbol {
    Symbol::Terminal(kind.to_string())
}

fn rule(from: &str, to: Vec<Symbol>) -> Rule {
    Rule { from: nt(from), to }
}

/// A ::= x B;  B ::= y;  B ::= z;  B ::= y (again).
fn grammar() -> Vec<Rule> {
    vec![
        rule("A", vec![t("x"), nt("B")]),
        rule("B", vec![t("y")]),
        rule("B", vec![t("z")]),
        rule("B", vec![t("y")]),
    ]
}

fn set(items: &[Item]) -> LinkedHashSet<Item> {
    let mut s = LinkedHashSet::new();
    for item in items {
        s.insert(*item);
    }
    s
}

fn items(s: &LinkedHashSet<Item>) -> Vec<Item> {
    s.iter().copied().collect()
}

fn is_leaf_x(forest: &Forest) -> bool {
    matches!(forest, Forest::Leaf { kind } if kind == "X")
}

#[test]
fn rule_index_finds_the_first_equal_rule() {
    let g = grammar();
    assert_eq!(rule_index(&g, &rule("B", vec![t("y")])), Some(1));
    assert_eq!(rule_index(&g, &g[3]), Some(1));
    assert_eq!(rule_index(&g, &rule("B", vec![t("z")])), Some(2));
    assert_eq!(rule_index(&g, &rule("C", vec![])), None);
}

#[test]
fn intern_state_names_the_rule_by_its_first_position() {
    let g = grammar();
    let s = ParseState { rule: g[3].clone(), dot_index: 1, end_lexeme_index: 4 };
    assert_eq!(intern_state(&g, &s), Some((1, 1, 4)));
    let s = ParseState { rule: rule("C", vec![]), dot_index: 0, end_lexeme_index: 0 };
    assert_eq!(intern_state(&g, &s), None);
}

#[test]
fn first_set_keeps_only_items_starting_at_origin() {
    let g = grammar();
    let sv = vec![set(&[(1, 0, 0), (0, 1, 0), (0, 0, 0), (2, 0, 1)]), set(&[])];
    let (forest, sets) = build_forest(&g, &sv);
    assert!(is_leaf_x(&forest));
    assert_eq!(sets.len(), 2);
    assert_eq!(items(&sets[0]), vec![(1, 0, 0), (0, 0, 0)]);
    assert_eq!(items(&sets[1]), vec![]);
}

#[test]
fn second_set_advances_items_with_successors() {
    let g = grammar();
    let sv = vec![set(&[(0, 0, 0), (1, 0, 0), (2, 0, 0)]), set(&[(2, 1, 1), (0, 1, 1), (0, 1, 5)])];
    let (forest, sets) = build_forest(&g, &sv);
    assert!(is_leaf_x(&forest));
    assert_eq!(items(&sets[0]), vec![(0, 0, 0), (1, 0, 0), (2, 0, 0)]);
    // Without a later lexeme nothing is predicted.
    assert_eq!(items(&sets[1]), vec![(0, 1, 0), (2, 1, 0)]);
}

#[test]
fn predictions_follow_advanced_items_and_repeat_moves_to_back() {
    let g = grammar();
    let sv = vec![set(&[(0, 0, 0)]), set(&[(0, 1, 1)]), set(&[(1, 1, 2)])];
    let (forest, sets) = build_forest(&g, &sv);
    assert!(is_leaf_x(&forest));
    assert_eq!(sets.len(), 3);
    assert_eq!(items(&sets[0]), vec![(0, 0, 0)]);
    // A ::= x • B expects B: rules 1, 2 and 3 (equal to 1) are predicted;
    // predicting rule 1 a second time moves it to the back.
    assert_eq!(items(&sets[1]), vec![(0, 1, 0), (2, 0, 1), (1, 0, 1)]);
    assert_eq!(items(&sets[2]), vec![]);
}

#[test]
fn no_prediction_for_a_lexeme_or_a_completed_item() {
    let g = grammar();
    let sv = vec![set(&[(1, 0, 0), (0, 0, 0)]), set(&[(1, 1, 0)]), set(&[]), set(&[])];
    let (_, sets) = build_forest(&g, &sv);
    // B ::= y • is completed: nothing follows the dot.
    assert_eq!(items(&sets[1]), vec![(1, 1, 0)]);
    assert_eq!(sets.len(), 4);
    assert!(items(&sets[3]).is_empty());
}

#[test]
fn single_column_without_initial_items() {
    let g = grammar();
    let sv = vec![set(&[(0, 1, 0)])];
    let (forest, sets) = build_forest(&g, &sv);
    assert!(is_leaf_x(&forest));
    assert_eq!(sets.len(), 1);
    assert!(items(&sets[0]).is_empty());
}
