# windydec

The core of a decompiler for x86 code, verified with Verus. It takes the p-code
of a function and gives back structured, C-like text.

- `src/pcode.rs`, `src/lift.rs`: p-code operations, and the walk over a code
  region that collects them.
- `src/ssa/`: SSA construction (dominators, frontiers, phis, renaming, reaching
  definitions) and simplification.
- `src/analysis/`: points-to classification of memory operands.
- `src/hir/`: the typed semantic representation, its validation, and the Win64
  calling convention.
- `src/structure/`: regions, region rewrites, the printed text and the passes
  over it.
- `src/cache.rs`: keys and contents of the output cache.
- `src/text.rs`, `src/lines.rs`, `src/numbers.rs`, `src/sets.rs`, `src/maps.rs`,
  `src/graph.rs`: the vocabulary that the contracts are written in.

Every public function states what it returns. What spans several functions stands
in proof functions whose names start with `law_`.

`app/` holds what does I/O: the HTTP client, the SLEIGH decoder, JSON copies of
the semantic representation, and error messages.
