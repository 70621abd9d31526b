# bounded-model

Bounded model checking with a DPLL SAT solver, with each function proved
against its contract.

- `src/cnf.rs`: CNF formulas and their semantics (`formula_holds`, `satisfiable`).
- `src/solver.rs`: DPLL with unit propagation and pure literal elimination;
  `solve` is proved sound and complete.
- `src/encoding.rs`: unrolling a transition relation into CNF; the encoding
  for `k` steps is satisfiable exactly when a violating run of `k` steps exists.
- `src/bound.rs`: the bounded checking loop, which reports the first
  satisfiable bound.
- `src/counterexample.rs`: reading assignments back as traces, and rendering
  traces as text and tables.
- `src/system.rs`: explicit transition systems, their builder, reachability
  and the one-hot encoding.
- `src/one_hot.rs`: the clauses of the one-hot encoding, and the proof that
  its `k`-step formula is satisfiable exactly when a path of `k` steps leads
  from an initial state to a violating one.
- `app/`: serde-enabled copies of the public data types, with conversions.
- `tests/`: scenario tests run against the compiled library.
