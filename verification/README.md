# dge

A verified core for a floating-point kernel toolchain built around Σ, a
small term language of IEEE-754 binary64 operations (arithmetic, libm
calls, comparisons, selects, and folds over sequences).

The library (`src/`, proved with Verus) holds the logic:

- `term`, `sigma`, `denote`: the term arena, the operator set, and the
  mathematical reading of a term that the contracts speak of;
- `lift`, `fold`: reading LLVM IR text into Σ — straight-line bodies, branch
  trees, and the single counted loop that becomes a fold — with a refusal
  naming its reason for everything outside that subset;
- `syntax`, `extract`, `scopes`, `names`: reading a Rust function (as a
  plain syntax tree) into Σ;
- `emit`, `fmt`, `text`, `lex`: printing Σ back as Rust source;
- `inplace`, `optimize`, `pipeline`, `trial`, `locate`, `memo`, `gp`,
  `mutate`, `rules`, `harness`, `jit`: planning source edits, rule
  translation, certificates and the bookkeeping around search and repair.

`app/` is the command line: it reads files, runs `rustc` to obtain IR,
parses Rust source with `syn` into the library's syntax tree, formats
binary64 literals, and prints. Evaluation of terms on floats, sampling and
native code generation stay outside the library.

`tests/` exercises the library from outside, including the source door end
to end (`syn` parse, conversion, extraction).
