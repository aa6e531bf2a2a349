# santiago

Pieces of a lexing and parsing toolkit, verified with Verus.

- `src/lexer.rs`: lexemes and positions, and how they are displayed.
- `src/grammar.rs`: grammar symbols, rules and productions.
- `src/parser/state.rs`: Earley states: whether a state is complete, the
  symbol after its dot, its hash, and how it is displayed.
- `src/forest.rs`: parse forests and the first Earley sets they are built
  from, kept in `linked_hash_set` sets of integer items.
- `src/text.rs`: decimal numerals, Rust-style quoting, joining.
- `app/lib.rs`: the same forest construction for sets of parse states,
  writing the Earley sets to standard error.
