//! Bounded model checking with a DPLL SAT solver.
//!
//! - `cnf`: CNF formulas and their propositional semantics
//! - `solver`: the DPLL satisfiability procedure
//! - `encoding`: unrolling a transition relation into CNF
//! - `bound`: the bounded model checking loop
//! - `counterexample`: turning assignments into readable traces
//! - `system`: explicit finite-state transition systems
//! - `one_hot`: the one-hot encoding of a transition system and its meaning

pub mod cnf;
pub mod solver;
pub mod encoding;
pub mod bound;
pub mod system;
pub mod counterexample;
pub mod one_hot;
