# neyuki

The verified core of the toolchain for Neyuki, a small Lua-like scripting
language. The functions in `src/` carry contracts that Verus proves; the
calls into `num-bigint` and a few `std` string functions go through small
wrappers whose contracts are trusted (marked `#[verifier::external_body]`
and documented where they stand).

## Layout

- `src/lexer.rs`, `src/parser.rs`: tokens and the statement tree of a source
  file. `lex` states the token list of a source text as a spec function
  (maximal munch, comments and white space skipped), and the tokenizer's
  contract is that list; `src/grammar.rs` states the grammar the parser
  reads as spec functions over the tokens, and `src/parse_model.rs` gives
  the tree as mathematical values, so that each parsing function's contract
  says which tree it returns over its tokens and when it fails.
- `src/diagnostics/`: spans, labels and rendered diagnostics.
- `src/module_loader/`: module path resolution, search patterns, sandboxing
  and the module cache.
- `src/compiler/`: table-constructor shapes, the cost model, constant
  folding (`constant_fold.rs`, `builtins_folding.rs`: integer arithmetic
  and bitwise operators, comparisons, concatenation, short-circuit
  operators, built-in calls on literals with local names hiding built-ins,
  dead `while` and decided `if` statements; floating-point literals are
  typed and negated but floating-point results are left unfolded), and the
  three-address IR in `compiler/ir/`: control-flow graph construction and
  checks, dominators and dominance frontiers (with a check that the
  dominator tree's children lists are acyclic, as SSA construction
  requires), liveness and live intervals, register allocation, SSA
  construction and lowering, constant propagation,
  and the optimization passes in `compiler/ir/opt/` (dead code, common
  subexpressions, loop-invariant code motion, CFG simplification, inlining).
- `src/dap_json.rs`, `src/dap_json/`: debug-adapter message framing and the
  JSON values it carries (parser, serializer, and the proof that a rendered
  value parses back to itself).
- `src/bytecode.rs`, `src/text.rs`: instruction and prototype types, and
  character-level helpers.
- `app/`: the command-line front end (`neyuki lint [path]`).
- `tests/`: tests on concrete values.
