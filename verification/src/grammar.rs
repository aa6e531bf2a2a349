//! Grammar symbols, rules and productions.

use vstd::prelude::*;

use crate::lexer::LexemeKind;
use crate::text::{debug_quote, debug_text};

verus! {

/// A grammar symbol: a rule to expand, or a kind of lexeme to match.
#[derive(Clone, Debug, PartialEq, Eq, Hash)]
pub enum Symbol {
    NonTerminal(String),
    Terminal(LexemeKind),
}

/// A symbol as a value: its variant and the characters of its name.
pub enum SymbolView {
    NonTerminal(Seq<char>),
    Terminal(Seq<char>),
}

impl View for Symbol {
    type V = SymbolView;

    open spec fn view(&self) -> SymbolView {
        match self {
            Symbol::NonTerminal(name) => SymbolView::NonTerminal(name@),
            Symbol::Terminal(kind) => SymbolView::Terminal(kind@),
        }
    }
}

/// How a symbol is displayed: a rule's name quoted as Rust's `Debug`
/// quotes a string, a lexeme kind as it is.
pub open spec fn symbol_text(symbol: SymbolView) -> Seq<char> {
    match symbol {
        SymbolView::NonTerminal(name) => debug_text(name),
        SymbolView::Terminal(kind) => kind,
    }
}

/// Law: a rule's name is always displayed quoted as Rust's `Debug` quotes
/// it, whatever the name, and a lexeme kind always as it is.
pub proof fn lemma_symbol_text(name: Seq<char>)
    ensures
        symbol_text(SymbolView::NonTerminal(name)) == debug_text(name),
        symbol_text(SymbolView::Terminal(name)) == name,
{
}

impl Symbol {
    /// The displayed form of the symbol.
    pub fn to_string(&self) -> (text: String)
        ensures
            text@ == symbol_text(self@),
            match self {
                Symbol::NonTerminal(name) => text@ == debug_text(name@),
                Symbol::Terminal(kind) => text@ == kind@,
            },
    {
        match self {
            Symbol::NonTerminal(name) => debug_quote(name.as_str()),
            Symbol::Terminal(kind) => kind.clone(),
        }
    }

    /// A copy of the symbol.
    pub fn duplicate(&self) -> (copy: Symbol)
        ensures
            copy@ == self@,
    {
        match self {
            Symbol::NonTerminal(name) => Symbol::NonTerminal(name.clone()),
            Symbol::Terminal(kind) => Symbol::Terminal(kind.clone()),
        }
    }

    /// Whether the two symbols are the same variant with the same name.
    pub fn same_as(&self, other: &Symbol) -> (same: bool)
        ensures
            same == (self@ == other@),
    {
        match (self, other) {
            (Symbol::NonTerminal(a), Symbol::NonTerminal(b)) => a.eq(b),
            (Symbol::Terminal(a), Symbol::Terminal(b)) => a.eq(b),
            _ => false,
        }
    }

    /// Whether the symbol names a rule rather than a lexeme kind.
    pub fn is_non_terminal(&self) -> (non_terminal: bool)
        ensures
            non_terminal == (self@ is NonTerminal),
    {
        match self {
            Symbol::NonTerminal(_) => true,
            Symbol::Terminal(_) => false,
        }
    }
}

/// A grammar rule `from ::= to`.
#[derive(Clone, Debug, PartialEq, Eq, Hash)]
pub struct Rule {
    pub from: Symbol,
    pub to: Vec<Symbol>,
}

/// A rule as a value.
pub struct RuleView {
    pub from: SymbolView,
    pub to: Seq<SymbolView>,
}

impl View for Rule {
    type V = RuleView;

    open spec fn view(&self) -> RuleView {
        RuleView { from: self.from@, to: self.to@.map_values(|s: Symbol| s@) }
    }
}

impl Rule {
    /// Whether the two rules have equal left-hand sides and equal
    /// right-hand sides.
    pub fn same_as(&self, other: &Rule) -> (same: bool)
        ensures
            same == (self@ == other@),
    {
        if !self.from.same_as(&other.from) {
            return false;
        }
        let n = self.to.len();
        if n != other.to.len() {
            assert(self@.to.len() != other@.to.len());
            return false;
        }
        for i in 0..n
            invariant
                n == self.to.len(),
                n == other.to.len(),
                forall|j: int| 0 <= j < i ==> self.to@[j]@ == other.to@[j]@,
        {
            if !self.to[i].same_as(&other.to[i]) {
                assert(self@.to[i as int] != other@.to[i as int]);
                return false;
            }
        }
        assert(self@.to =~= other@.to);
        true
    }
}

/// The right-hand side of a rule, as an Earley state walks through it.
#[derive(Clone, Debug, PartialEq, Eq, Hash)]
pub struct Production {
    pub symbols: Vec<Symbol>,
}

} // verus!
