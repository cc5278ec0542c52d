# guard2mask

Compiles GUARD safety constraints into a FLUX-LUCID via mask.

    GUARD source → parse → compile (FLUX bytecode)
                         → solve (ternary CSP) → via patterns → GDSII

The library is written in Verus: every function in `src/` carries a
`requires`/`ensures` contract that the verifier proves, but for one trusted
wrapper, `push_char` in `src/text.rs`, whose contract (appending a character
with std's `String::push`) is taken on trust.

- `src/parser.rs` – the GUARD line grammar (`constraint`, `@priority`,
  `range`, `whitelist`, `bitmask`, `thermal`, `sparsity`); `scan.rs` and
  `numeral.rs` hold the text scanning and numeral reading it is built on.
- `src/number.rs` – the real numbers of the checks (NaN or not, sign, saturated integer
  part, nonzero fraction).
- `src/compiler.rs`, `src/op.rs` – FLUX bytecode for the checks.
- `src/solver.rs`, `src/domain.rs` – AC-3 propagation and MRV backtracking
  over the domains {Neg, Zero, Pos}.
- `src/types.rs` – assignments, name maps, via patterns, the GDSII writer and
  the layout summary.
- `src/via_gen.rs` – placing one via per variable.
- `app/main.rs` – the command line tool (file I/O, argument parsing).
- `tests/` – the test suite.
