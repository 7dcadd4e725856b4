# emit

Verified building blocks of a Go code emitter for Lisette programs, written in
Verus. Every function in `src/` carries a contract. Verus proves each one,
except the small `#[verifier::external_body]` wrappers: those make one call
into std (`String::push`, `str` equality, `u32::from_str_radix`) or into the
`rustc-hash` maps and sets, and their contracts are trusted, as their doc
comments say.

- `patterns/` — pattern-match compilation: access paths into a match subject,
  the checks a pattern performs, the decision tree built from the arms (Go
  `switch` or `if` chain), its lowering helpers, and what a tree selects for a
  value (`semantics.rs`).
- `plan/` — the lowered body IR, divergence analysis, structural validation,
  and planned Go values with their evaluation facts.
- `expressions/` — Go text for literals, escape sequences, doc comments,
  struct literals and range-variable slices.
- `names/` — constraints on generic parameters.
- `module_state.rs`, `effects.rs`, `options.rs`, `text.rs` — emitter state,
  accumulated effects, options and text helpers.

`tests/` exercises the library on concrete inputs.
