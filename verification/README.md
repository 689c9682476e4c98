# mut_gen

Mutation generation for Rust sources, with its decisions verified by Verus.

- `src/text.rs`: character-level text operations (splitting, joining,
  trimming, UTF-8 byte offsets, decimal numbers) and their specifications.
- `src/parse.rs`: recognising statements with `syn`, and the search for the
  smallest group of lines around a line that forms one statement.
- `src/mutate.rs`: line mutations (negating a binding or a return value,
  cutting before an arithmetic operator, replacing a constant, commenting out
  a call) and the set of results a mutation of a line can give.
- `src/ast_mutation.rs`: the state and decisions of the syntax-tree pass that
  replaces binary operators and swaps `match` arms.
- `src/mutants.rs`: mutant records, mutant file names and reading back the
  kind of a line mutation.
- `app/lib.rs`: reading files, walking the syntax tree, writing the mutant
  files and running `rustfmt`.
