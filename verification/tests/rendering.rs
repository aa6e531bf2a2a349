use santiago::grammar::{Production, Rule, Symbol};
use santiago::lexer::{Lexeme, Position};
use santiago::parser::state::State;

fn nt(name: &str) -> Symbol {
    Symbol::NonTerminal(name.to_string())
}

fn t(kind: &str) -> Symbol {
    Symbol::Terminal(kind.to_string())
}

fn state(symbols: Vec<Symbol>, dot: usize, start: usize, end: usize) -> State {
    State {
        name: "S".to_string(),
        production: Production { symbols },
        dot_index: dot,
        start_column: start,
        end_column: end,
    }
}

#[test]
fn position_is_line_colon_column() {
    assert_eq!(Position { line: 1, column: 1 }.to_string(), "1:1");
    assert_eq!(Position { line: 0, column: 1234567 }.to_string(), "0:1234567");
    assert_eq!(Position { line: 10, column: 100 }.to_string(), "10:100");
}

#[test]
fn lexeme_shows_position_kind_and_raw_quoted() {
    let lexeme = Lexeme {
        kind: "INT".to_string(),
        raw: "11".to_string(),
        position: Position { line: 1, column: 1 },
    };
    assert_eq!(lexeme.to_string(), "1:1 \"INT\" \"11\"");
}

#[test]
fn lexeme_escapes_quotes_and_newlines() {
    let lexeme = Lexeme {
        kind: "STR".to_string(),
        raw: "a\"b\n".to_string(),
        position: Position { line: 3, column: 12 },
    };
    assert_eq!(lexeme.to_string(), "3:12 \"STR\" \"a\\\"b\\n\"");
}

#[test]
fn symbol_rules_are_quoted_and_lexemes_are_not() {
    assert_eq!(nt("S").to_string(), "\"S\"");
    assert_eq!(t("PLUS").to_string(), "PLUS");
}

#[test]
fn symbol_comparison_and_copy() {
    assert!(nt("S").same_as(&nt("S")));
    assert!(!nt("S").same_as(&t("S")));
    assert!(!t("A").same_as(&t("B")));
    assert!(nt("S").is_non_terminal());
    assert!(!t("S").is_non_terminal());
    assert_eq!(t("INT").duplicate(), t("INT"));
}

#[test]
fn rule_comparison() {
    let a = Rule { from: nt("S"), to: vec![nt("S"), t("PLUS"), nt("S")] };
    let b = Rule { from: nt("S"), to: vec![nt("S"), t("PLUS"), nt("S")] };
    let c = Rule { from: nt("S"), to: vec![nt("S"), t("PLUS")] };
    let d = Rule { from: nt("S"), to: vec![nt("S"), t("MINUS"), nt("S")] };
    assert!(a.same_as(&b));
    assert!(!a.same_as(&c));
    assert!(!a.same_as(&d));
}

#[test]
fn state_shows_the_dot_between_symbols() {
    let s = state(vec![nt("S"), t("PLUS"), nt("S")], 1, 0, 1);
    assert_eq!(s.to_string(), "S := \"S\" • PLUS \"S\" [0-1]");
}

#[test]
fn state_with_dot_at_the_ends() {
    let s = state(vec![nt("S"), t("PLUS")], 0, 3, 12);
    assert_eq!(s.to_string(), "S := • \"S\" PLUS [3-12]");
    let s = state(vec![nt("S"), t("PLUS")], 2, 3, 12);
    assert_eq!(s.to_string(), "S := \"S\" PLUS • [3-12]");
    let s = state(vec![], 0, 0, 0);
    assert_eq!(s.to_string(), "S := • [0-0]");
}

#[test]
fn completed_and_next_symbol_agree() {
    let s = state(vec![nt("S"), t("PLUS")], 1, 0, 0);
    assert!(!s.completed());
    assert_eq!(s.next_symbol(), Some(t("PLUS")));
    let s = state(vec![nt("S"), t("PLUS")], 2, 0, 0);
    assert!(s.completed());
    assert_eq!(s.next_symbol(), None);
    let s = state(vec![], 5, 0, 0);
    assert!(s.completed());
    assert_eq!(s.next_symbol(), None);
}

#[test]
fn equal_states_hash_alike() {
    let a = state(vec![nt("S"), t("PLUS")], 1, 0, 2);
    let b = a.clone();
    assert_eq!(a.hash_me(), b.hash_me());
    assert_eq!(a.hash_me(), a.hash_me());
}
