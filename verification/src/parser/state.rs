//! An Earley state: a rule's production with a dot marking how much of it
//! has been recognised, and the columns the recognised part spans.

use std::collections::hash_map::DefaultHasher;
use std::hash::Hash;
use std::hash::Hasher;

use vstd::prelude::*;
use vstd::std_specs::hash::DefaultHasherAdditionalSpecFns;

use crate::grammar::{symbol_text, Production, Symbol, SymbolView};
use crate::text::{decimal, joined, push_decimal, push_joined};

verus! {

/// A rule being recognised: `name := production`, with the dot before
/// the symbol at `dot_index`, over the columns `start_column..end_column`.
#[derive(Clone, Debug, PartialEq, Eq, Hash)]
pub struct State {
    pub name: String,
    pub production: Production,
    pub dot_index: usize,
    pub start_column: usize,
    pub end_column: usize,
}

/// The displayed symbols of a production with the dot `•` inserted before
/// the symbol at `dot`.
pub open spec fn dotted_parts(symbols: Seq<SymbolView>, dot: int) -> Seq<Seq<char>> {
    let texts = symbols.map_values(|s: SymbolView| symbol_text(s));
    texts.take(dot) + seq![seq!['•']] + texts.skip(dot)
}

/// The displayed form of a state: `name := s1 • s2 [start-end]`.
pub open spec fn state_text(
    name: Seq<char>,
    symbols: Seq<SymbolView>,
    dot: int,
    start: nat,
    end: nat,
) -> Seq<char> {
    name + seq![' ', ':', '=', ' '] + joined(dotted_parts(symbols, dot), seq![' ']) + seq![
        ' ',
        '[',
    ] + decimal(start) + seq!['-'] + decimal(end) + seq![']']
}

/// Law: a displayed state shows every symbol of its production, in order,
/// with the dot `•` as one more part standing right before the symbol at
/// `dot`: the parts are one more than the symbols, those before the dot are
/// the first `dot` symbols' texts, and those after it the rest.
pub proof fn lemma_state_text(
    name: Seq<char>,
    symbols: Seq<SymbolView>,
    dot: int,
    start: nat,
    end: nat,
)
    requires
        0 <= dot <= symbols.len(),
    ensures
        dotted_parts(symbols, dot).len() == symbols.len() + 1,
        forall|i: int| 0 <= i < dot ==> #[trigger] dotted_parts(symbols, dot)[i] == symbol_text(symbols[i]),
        dotted_parts(symbols, dot)[dot] == seq!['•'],
        forall|i: int|
            dot <= i < symbols.len() ==> #[trigger] dotted_parts(symbols, dot)[i + 1] == symbol_text(
                symbols[i],
            ),
        state_text(name, symbols, dot, start, end) == name + seq![' ', ':', '=', ' '] + joined(
            dotted_parts(symbols, dot),
            seq![' '],
        ) + seq![' ', '['] + decimal(start) + seq!['-'] + decimal(end) + seq![']'],
{
    let texts = symbols.map_values(|s: SymbolView| symbol_text(s));
    assert forall|i: int| dot <= i < symbols.len() implies #[trigger] dotted_parts(symbols, dot)[i
        + 1] == symbol_text(symbols[i]) by {
        assert(texts.skip(dot)[i - dot] == texts[i]);
    }
}

impl State {
    /// The symbols of the state's production, as values.
    pub open spec fn symbols(&self) -> Seq<SymbolView> {
        self.production.symbols@.map_values(|s: Symbol| s@)
    }

    /// Whether the dot has reached the end of the production.
    pub fn completed(&self) -> (done: bool)
        ensures
            done == (self.dot_index >= self.production.symbols.len()),
    {
        self.dot_index >= self.production.symbols.len()
    }

    /// The symbol right after the dot, or `None` once the state is completed.
    pub fn next_symbol(&self) -> (next: Option<Symbol>)
        ensures
            self.dot_index >= self.production.symbols.len() ==> next is None,
            self.dot_index < self.production.symbols.len() ==> (next matches Some(s) && s@
                == self.symbols()[self.dot_index as int]),
    {
        if self.completed() {
            None
        } else {
            Some(self.production.symbols[self.dot_index].duplicate())
        }
    }

    /// A 64-bit hash of the whole state: what a fresh `DefaultHasher`
    /// finishes with after the state's derived `Hash` has written to it.
    pub fn hash_me(&self) -> (hash: u64)
        ensures
            exists|writes: Seq<Seq<u8>>|
                writes.len() > 0 && hash == #[trigger] DefaultHasher::spec_finish(writes),
    {
        let mut hasher = DefaultHasher::new();
        feed_state(self, &mut hasher);
        let hash = hasher.finish();
        assert(hasher@.len() > 0 && hash == DefaultHasher::spec_finish(hasher@));
        hash
    }

    /// The displayed form of the state, such as `S := "S" • PLUS "S" [0-1]`.
    pub fn to_string(&self) -> (text: String)
        requires
            self.dot_index <= self.production.symbols.len(),
        ensures
            text@ == state_text(
                self.name@,
                self.symbols(),
                self.dot_index as int,
                self.start_column as nat,
                self.end_column as nat,
            ),
            text@ == self.name@ + seq![' ', ':', '=', ' '] + joined(
                self.symbols().map_values(|s: SymbolView| symbol_text(s)).take(
                    self.dot_index as int,
                ) + seq![seq!['•']] + self.symbols().map_values(|s: SymbolView| symbol_text(s)).skip(
                    self.dot_index as int,
                ),
                seq![' '],
            ) + seq![' ', '['] + decimal(self.start_column as nat) + seq!['-'] + decimal(
                self.end_column as nat,
            ) + seq![']'],
    {
        let symbols = &self.production.symbols;
        let n = symbols.len();
        let dot = self.dot_index;
        let ghost texts = self.symbols().map_values(|s: SymbolView| symbol_text(s));
        let mut parts: Vec<String> = Vec::new();
        for i in 0..dot
            invariant
                dot <= n == symbols.len(),
                symbols == self.production.symbols,
                texts == self.symbols().map_values(|s: SymbolView| symbol_text(s)),
                parts@.map_values(|p: String| p@) =~= texts.take(i as int),
        {
            let text = symbols[i].to_string();
            assert(text@ == texts[i as int]);
            parts.push(text);
            assert(texts.take(i + 1) =~= texts.take(i as int).push(texts[i as int]));
        }
        let bullet = "•";
        proof {
            reveal_strlit("•");
        }
        let bullet_text = bullet.to_owned();
        assert(bullet_text@ =~= seq!['•']);
        parts.push(bullet_text);
        assert(texts.subrange(dot as int, dot as int) =~= Seq::<Seq<char>>::empty());
        for i in dot..n
            invariant
                dot <= n == symbols.len(),
                symbols == self.production.symbols,
                texts == self.symbols().map_values(|s: SymbolView| symbol_text(s)),
                parts@.map_values(|p: String| p@) =~= texts.take(dot as int) + seq![seq!['•']]
                    + texts.subrange(dot as int, i as int),
        {
            let text = symbols[i].to_string();
            assert(text@ == texts[i as int]);
            parts.push(text);
            assert(texts.take(dot as int) + seq![seq!['•']] + texts.subrange(dot as int, i + 1)
                =~= (texts.take(dot as int) + seq![seq!['•']] + texts.subrange(
                dot as int,
                i as int,
            )).push(texts[i as int]));
        }
        assert(texts.subrange(dot as int, n as int) =~= texts.skip(dot as int));
        let mut out = self.name.clone();
        let assign = " := ";
        let open = " [";
        let dash = "-";
        let close = "]";
        proof {
            reveal_strlit(" := ");
            reveal_strlit(" [");
            reveal_strlit("-");
            reveal_strlit("]");
        }
        out.append(assign);
        push_joined(&mut out, &parts);
        out.append(open);
        push_decimal(&mut out, self.start_column);
        out.append(dash);
        push_decimal(&mut out, self.end_column);
        out.append(close);
        out
    }
}

/// `<State as Hash>::hash`: feeds the state's fields to the hasher, as the
/// derived `Hash` does.
///
/// Trusted: in vstd's model of `DefaultHasher` (its view is the sequence of
/// byte writes made to it), hashing a state appends writes and keeps the
/// earlier ones; it always writes something, since every field of `State`
/// writes at least one byte string. Which bytes are written is left unsaid:
/// it depends on the machine (a `usize` is written in its native width and
/// byte order).
#[verifier::external_body]
fn feed_state(state: &State, hasher: &mut DefaultHasher)
    ensures
        final(hasher)@.len() > old(hasher)@.len(),
        final(hasher)@.take(old(hasher)@.len() as int) == old(hasher)@,
{
    state.hash(hasher)
}

} // verus!
