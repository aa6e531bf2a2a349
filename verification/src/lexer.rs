//! Lexemes: the tokens a lexer produces, with their kind, text and position.

use vstd::prelude::*;

use crate::text::{debug_quote, debug_text, decimal, push_decimal};

verus! {

/// The kind of a lexeme, such as `"INT"` or `"PLUS"`.
pub type LexemeKind = String;

/// A place in the input: line and column, both counted from one.
#[derive(Clone, Copy, Debug, PartialEq, Eq, Hash)]
pub struct Position {
    pub line: usize,
    pub column: usize,
}

/// `line:column`, as the position is displayed.
pub open spec fn position_text(line: nat, column: nat) -> Seq<char> {
    decimal(line) + seq![':'] + decimal(column)
}

impl Position {
    /// The displayed form `line:column`.
    pub fn to_string(&self) -> (text: String)
        ensures
            text@ == position_text(self.line as nat, self.column as nat),
    {
        let mut out = String::new();
        push_decimal(&mut out, self.line);
        let colon = ":";
        proof {
            reveal_strlit(":");
        }
        out.append(colon);
        push_decimal(&mut out, self.column);
        out
    }
}

/// A token: its kind, the raw text it matched, and where it starts.
#[derive(Clone, Debug)]
pub struct Lexeme {
    pub kind: LexemeKind,
    pub raw: String,
    pub position: Position,
}

/// The displayed form of a lexeme: its position, then its kind and its raw
/// text, each quoted as Rust's `Debug` quotes a string, separated by spaces.
pub open spec fn lexeme_text(kind: Seq<char>, raw: Seq<char>, line: nat, column: nat) -> Seq<
    char,
> {
    position_text(line, column) + seq![' '] + debug_text(kind) + seq![' '] + debug_text(raw)
}

/// Law: a displayed lexeme starts with its line and column numerals and
/// ends with its raw text quoted as Rust's `Debug` quotes it, whatever that
/// text is, after its kind, quoted the same way.
pub proof fn lemma_lexeme_text(kind: Seq<char>, raw: Seq<char>, line: nat, column: nat)
    ensures
        lexeme_text(kind, raw, line, column) == decimal(line) + seq![':'] + decimal(column)
            + seq![' '] + debug_text(kind) + seq![' '] + debug_text(raw),
        lexeme_text(kind, raw, line, column).skip(
            lexeme_text(kind, raw, line, column).len() - debug_text(raw).len(),
        ) == debug_text(raw),
        lexeme_text(kind, raw, line, column).take(decimal(line).len() as int) == decimal(line),
{
    let text = lexeme_text(kind, raw, line, column);
    let head = decimal(line) + seq![':'] + decimal(column) + seq![' '] + debug_text(kind) + seq![
        ' ',
    ];
    assert(text =~= head + debug_text(raw));
    assert(text.skip(text.len() - debug_text(raw).len()) =~= debug_text(raw));
    assert(text.take(decimal(line).len() as int) =~= decimal(line));
}

impl Lexeme {
    /// The displayed form of the lexeme, such as `1:1 "INT" "11"`.
    pub fn to_string(&self) -> (text: String)
        ensures
            text@ == lexeme_text(
                self.kind@,
                self.raw@,
                self.position.line as nat,
                self.position.column as nat,
            ),
            text@ == decimal(self.position.line as nat) + seq![':'] + decimal(
                self.position.column as nat,
            ) + seq![' '] + debug_text(self.kind@) + seq![' '] + debug_text(self.raw@),
    {
        let mut out = self.position.to_string();
        let space = " ";
        proof {
            reveal_strlit(" ");
        }
        out.append(space);
        let kind = debug_quote(self.kind.as_str());
        out.append(kind.as_str());
        out.append(space);
        let raw = debug_quote(self.raw.as_str());
        out.append(raw.as_str());
        out
    }
}

} // verus!
