# neon_compiler

The Neon toolchain's compiler library, with its behaviour stated as contracts and proved.

## Layout

- `src/ir/` — the SSA form (`ssa`), the effect analysis (`effects`: the greatest consistent
  purity assignment), the optimiser (`opt`: constant folding, dead-code elimination and
  unreachable-block removal, run to a fixpoint), reference-count insertion (`refcount`:
  the least solution of the liveness equations, then a backward walk per block), what the
  inserted counts add up to (`balance`: every use finds a reference, and a value is
  released exactly once along a route to the exit), the pipeline (`compile`), and that each
  stage has one outcome (`pipeline`).
- `src/lexer/` — tokens and spans, lexer errors and their messages, comments and the line
  table.
- `src/parser/` — declarations from tokens, with recovery: a broken declaration is
  swallowed up to the next one and reported, and parsing goes on.
- `src/ast.rs` — the syntax tree.
- `src/stdlib.rs` — module prefixes from stdlib paths.
- `src/typecheck/` — what type checking records, by expression.
- `src/lsp/` — byte offsets to editor positions, when an edited document is checked, and
  parser errors as diagnostics.
- `src/sysroot.rs`, `src/source.rs` — paths under the toolchain root; line numbers.
- `src/bench/` — the binary-trees workload.
- `app/` — the `neon` command line: locating the toolchain on disk.
- `tests/` — scenarios, run against the compiled library.
