//! Bounded model checking loop.
//!
//! Unrolls the transition relation for increasing bounds k = 0, 1, 2, ...
//! until either a counterexample is found (a satisfiable encoding) or the
//! maximum bound is reached.

use vstd::prelude::*;
use crate::cnf::{CnfFormula, deep, formula_holds, satisfiable, lits_ok, is_max_abs};
use crate::encoding::{TransitionEncoding, lemma_encoding_describes_runs};
use crate::solver;
use crate::solver::{valuation_of, solved_values};

verus! {

/// Result of bounded model checking.
#[derive(Debug, Clone, PartialEq)]
pub struct BmcResult {
    /// Whether a counterexample was found (SAT means property violation).
    pub sat: bool,
    /// The bound at which the result was determined.
    pub k: usize,
    /// The satisfying assignment (counterexample), if any.
    pub assignment: Option<Vec<bool>>,
}

/// Configuration for the bounded checker.
#[derive(Debug, Clone)]
pub struct BmcConfig {
    /// Maximum bound to check.
    pub max_k: usize,
    /// Whether to stop at the first counterexample.
    pub stop_on_sat: bool,
}

impl Default for BmcConfig {
    fn default() -> (c: Self)
        ensures
            c.max_k == 10,
            c.stop_on_sat,
    {
        BmcConfig { max_k: 10, stop_on_sat: true }
    }
}

impl BmcConfig {
    /// Create a new config with the given maximum bound.
    pub fn new(max_k: usize) -> (c: Self)
        ensures
            c.max_k == max_k,
            c.stop_on_sat,
    {
        BmcConfig { max_k, stop_on_sat: true }
    }
}

/// Run bounded model checking on the given encoding.
///
/// Returns the first bound `k <= max_k` whose encoding is satisfiable,
/// with a satisfying assignment of that encoding; or, when there is none,
/// `sat == false` at `k == max_k`. A counterexample found describes a run
/// of `k` steps from an initial state to a violation, and no shorter run
/// violates the property; when none is found, no run of at most `max_k`
/// steps violates it. A bound whose moved literals would leave `i32` is
/// not encoded: the search stops there, reporting no counterexample at
/// that bound and having found none below it.
pub fn check(encoding: &TransitionEncoding, config: &BmcConfig) -> (r: BmcResult)
    requires
        lits_ok(deep(encoding.initial@)),
    ensures
        r.k <= config.max_k,
        forall|j: nat| j < r.k ==> !satisfiable(#[trigger] encoding.spec_encode(j)),
        forall|j: nat, val: spec_fn(int) -> bool| j < r.k ==> !#[trigger] encoding.is_violating_run(j, val),
        r.sat ==> {
            &&& encoding.encodable(r.k as nat)
            &&& r.assignment matches Some(v) && formula_holds(encoding.spec_encode(r.k as nat), valuation_of(v@))
                && is_max_abs(encoding.spec_encode(r.k as nat), v@.len() as int)
                && v@ == solved_values(encoding.spec_encode(r.k as nat), v@.len() as int)
            &&& r.assignment matches Some(v) && encoding.is_violating_run(r.k as nat, valuation_of(v@))
        },
        !r.sat ==> {
            &&& r.assignment is None
            &&& encoding.encodable(r.k as nat) ==> r.k == config.max_k && !satisfiable(
                encoding.spec_encode(r.k as nat),
            ) && forall|val: spec_fn(int) -> bool| !#[trigger] encoding.is_violating_run(r.k as nat, val)
            &&& encoding.encodable(config.max_k as nat) ==> r.k == config.max_k
        },
{
    let mut k: usize = 0;
    loop
        invariant
            k <= config.max_k,
            lits_ok(deep(encoding.initial@)),
            forall|j: nat| j < k ==> !satisfiable(#[trigger] encoding.spec_encode(j)),
            forall|j: nat, val: spec_fn(int) -> bool| j < k ==> !#[trigger] encoding.is_violating_run(j, val),
            forall|j: nat| j < k ==> #[trigger] encoding.encodable(j),
        decreases config.max_k - k,
    {
        if !encoding.encodable_at(k) {
            proof {
                if encoding.encodable(config.max_k as nat) {
                    encoding.lemma_encodable(config.max_k as nat, k as nat);
                }
            }
            return BmcResult { sat: false, k, assignment: None };
        }
        proof {
            encoding.lemma_encodable(k as nat, k as nat);
        }
        let formula = encoding.encode(k);
        let result = solver::solve(&formula);
        proof {
            assert forall|val: spec_fn(int) -> bool| #[trigger] encoding.is_violating_run(k as nat, val)
                == formula_holds(encoding.spec_encode(k as nat), val) by {
                lemma_encoding_describes_runs(*encoding, k as nat, val);
            }
        }
        if result.sat {
            return BmcResult { sat: true, k, assignment: result.assignment };
        }
        if k == config.max_k {
            return BmcResult { sat: false, k: config.max_k, assignment: None };
        }
        k += 1;
    }
}

/// Some formula the generator may return for bound `k` is unsatisfiable.
pub open spec fn refuted_at<F: Fn(usize) -> CnfFormula>(formula_gen: F, k: usize) -> bool {
    exists|f: CnfFormula| #[trigger] formula_gen.ensures((k,), f) && !satisfiable(f.spec_clauses())
}

/// Run bounded model checking with a formula generator: the formula for
/// each bound `k` is `formula_gen(k)`.
pub fn check_with<F>(max_k: usize, formula_gen: F) -> (r: BmcResult)
    where
        F: Fn(usize) -> CnfFormula,
    requires
        forall|k: usize| k <= max_k ==> #[trigger] formula_gen.requires((k,)),
        forall|k: usize, f: CnfFormula| #[trigger] formula_gen.ensures((k,), f) ==> lits_ok(f.spec_clauses()),
    ensures
        r.sat ==> {
            &&& r.k <= max_k
            &&& exists|f: CnfFormula|
                #[trigger] formula_gen.ensures((r.k,), f) && (r.assignment matches Some(v)
                    && formula_holds(f.spec_clauses(), valuation_of(v@))
                    && is_max_abs(f.spec_clauses(), v@.len() as int)
                    && v@ == solved_values(f.spec_clauses(), v@.len() as int))
        },
        !r.sat ==> r.k == max_k && r.assignment is None,
        forall|j: usize| j < r.k || (!r.sat && j == r.k) ==> #[trigger] refuted_at(formula_gen, j),
{
    let mut k: usize = 0;
    loop
        invariant
            k <= max_k,
            forall|k: usize| k <= max_k ==> #[trigger] formula_gen.requires((k,)),
            forall|k: usize, f: CnfFormula| #[trigger] formula_gen.ensures((k,), f) ==> lits_ok(f.spec_clauses()),
            forall|j: usize| j < k ==> #[trigger] refuted_at(formula_gen, j),
        decreases max_k - k,
    {
        let formula = formula_gen(k);
        let result = solver::solve(&formula);
        if result.sat {
            let r = BmcResult { sat: true, k, assignment: result.assignment };
            assert(formula_gen.ensures((r.k,), formula) && (r.assignment matches Some(v)
                && formula_holds(formula.spec_clauses(), valuation_of(v@))
                && is_max_abs(formula.spec_clauses(), v@.len() as int)
                && v@ == solved_values(formula.spec_clauses(), v@.len() as int)));
            return r;
        }
        assert(refuted_at(formula_gen, k));
        if k == max_k {
            return BmcResult { sat: false, k: max_k, assignment: None };
        }
        k += 1;
    }
}

} // verus!
