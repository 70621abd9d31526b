//! DPLL SAT solver with unit propagation and pure literal elimination.
//!
//! Partial assignments map variables (as `i32`) to truth values.

use vstd::prelude::*;
use std::collections::HashMap;
use std::collections::HashSet;
use crate::cnf::{
    CnfFormula, deep, lit_holds, clause_holds, formula_holds, satisfiable, lit_ok, lits_ok, var_of,
    occurs, occurs_before, abs_lit, is_max_abs, copy_clause, lemma_occurs_before_step, lemma_occurs_before_row,
    lemma_occurs_before_end,
};

verus! {

broadcast use {vstd::std_specs::hash::group_hash_axioms, vstd::map_lib::lemma_submap_of_trans};

// ---------------------------------------------------------------------------
// Literals under partial assignments
// ---------------------------------------------------------------------------

/// The truth value of a literal under a partial assignment, `None` if its
/// variable is unassigned.
pub open spec fn lit_value(l: i32, a: Map<i32, bool>) -> Option<bool> {
    if a.contains_key(var_of(l)) {
        Some(if l > 0 { a[var_of(l)] } else { !a[var_of(l)] })
    } else {
        None
    }
}

/// A total valuation extends a partial assignment.
pub open spec fn agrees(val: spec_fn(int) -> bool, a: Map<i32, bool>) -> bool {
    forall|x: i32| #[trigger] a.contains_key(x) ==> val(x as int) == a[x]
}

/// Some literal of the clause is true under the partial assignment.
pub open spec fn clause_true(c: Seq<i32>, a: Map<i32, bool>) -> bool {
    exists|k: int| 0 <= k < c.len() && #[trigger] lit_value(c[k], a) == Some(true)
}

/// The literals of a clause that are not false under the assignment.
pub open spec fn keep_lits(c: Seq<i32>, a: Map<i32, bool>) -> Seq<i32>
    decreases c.len(),
{
    if c.len() == 0 {
        seq![]
    } else {
        let rest = keep_lits(c.drop_last(), a);
        if lit_value(c.last(), a) == Some(false) {
            rest
        } else {
            rest.push(c.last())
        }
    }
}

/// Clauses that are true under the assignment are dropped, and false
/// literals are removed from the others.
pub open spec fn simplify_spec(cs: Seq<Seq<i32>>, a: Map<i32, bool>) -> Seq<Seq<i32>>
    decreases cs.len(),
{
    if cs.len() == 0 {
        seq![]
    } else {
        let rest = simplify_spec(cs.drop_last(), a);
        if clause_true(cs.last(), a) {
            rest
        } else {
            rest.push(keep_lits(cs.last(), a))
        }
    }
}

/// The literals of the unit clauses, in clause order.
pub open spec fn units_spec(cs: Seq<Seq<i32>>) -> Seq<i32>
    decreases cs.len(),
{
    if cs.len() == 0 {
        seq![]
    } else {
        let rest = units_spec(cs.drop_last());
        if cs.last().len() == 1 {
            rest.push(cs.last()[0])
        } else {
            rest
        }
    }
}

/// Some clause is empty.
pub open spec fn has_empty(cs: Seq<Seq<i32>>) -> bool {
    exists|i: int| 0 <= i < cs.len() && #[trigger] cs[i].len() == 0
}

/// Variable `v` occurs positively: some literal `l > 0` equals `v`.
pub open spec fn occurs_pos(cs: Seq<Seq<i32>>, v: i32) -> bool {
    v > 0 && occurs(cs, v)
}

/// Variable `v` occurs negatively: some literal `l <= 0` has `-l == v`.
pub open spec fn occurs_neg(cs: Seq<Seq<i32>>, v: i32) -> bool {
    v >= 0 && occurs(cs, (-v) as i32)
}

/// Literal `p` occurs and its variable occurs with one polarity only: the
/// opposite literal `-p` does not occur (the literal `0` has no opposite).
pub open spec fn is_pure(cs: Seq<Seq<i32>>, p: i32) -> bool {
    &&& lit_ok(p)
    &&& occurs(cs, p)
    &&& (p == 0 || !occurs(cs, (-p) as i32))
}

// ---------------------------------------------------------------------------
// Lemmas on literals and simplification
// ---------------------------------------------------------------------------

proof fn lemma_lit_value_holds(l: i32, a: Map<i32, bool>, val: spec_fn(int) -> bool)
    requires
        lit_ok(l),
        agrees(val, a),
        lit_value(l, a) is Some,
    ensures
        lit_holds(l as int, val) == lit_value(l, a)->0,
{
    assert(a.contains_key(var_of(l)));
}

proof fn lemma_keep_lits(c: Seq<i32>, a: Map<i32, bool>)
    ensures
        keep_lits(c, a).len() <= c.len(),
        forall|k: int| 0 <= k < keep_lits(c, a).len() ==> c.contains(#[trigger] keep_lits(c, a)[k]),
        forall|k: int|
            0 <= k < keep_lits(c, a).len() ==> lit_value(#[trigger] keep_lits(c, a)[k], a)
                != Some(false),
        forall|k: int|
            0 <= k < c.len() && lit_value(#[trigger] c[k], a) != Some(false) ==> keep_lits(
                c,
                a,
            ).contains(c[k]),
    decreases c.len(),
{
    if c.len() > 0 {
        lemma_keep_lits(c.drop_last(), a);
        let r = keep_lits(c, a);
        let rest = keep_lits(c.drop_last(), a);
        assert forall|k: int| 0 <= k < r.len() implies c.contains(#[trigger] r[k]) by {
            if k < rest.len() {
                let w = choose|w: int| 0 <= w < c.drop_last().len() && c.drop_last()[w] == rest[k];
                assert(c[w] == r[k]);
            } else {
                assert(r[k] == c[c.len() - 1]);
            }
        }
        assert forall|k: int|
            0 <= k < c.len() && lit_value(#[trigger] c[k], a) != Some(false) implies r.contains(
            c[k],
        ) by {
            if k < c.len() - 1 {
                assert(c.drop_last()[k] == c[k]);
                let w = choose|w: int| 0 <= w < rest.len() && rest[w] == c[k];
                assert(r[w] == c[k]);
            } else {
                assert(r[r.len() - 1] == c[k]);
            }
        }
    }
}

/// Dropping false literals does not change the truth of a clause under any
/// valuation that extends the assignment.
proof fn lemma_keep_lits_holds(c: Seq<i32>, a: Map<i32, bool>, val: spec_fn(int) -> bool)
    requires
        forall|k: int| 0 <= k < c.len() ==> lit_ok(#[trigger] c[k]),
        agrees(val, a),
    ensures
        clause_holds(keep_lits(c, a), val) == clause_holds(c, val),
{
    lemma_keep_lits(c, a);
    let r = keep_lits(c, a);
    if clause_holds(c, val) {
        let k = choose|k: int| 0 <= k < c.len() && lit_holds(c[k] as int, val);
        if lit_value(c[k], a) == Some(false) {
            lemma_lit_value_holds(c[k], a, val);
        } else {
            let w = choose|w: int| 0 <= w < r.len() && r[w] == c[k];
            assert(lit_holds(r[w] as int, val));
        }
    }
    if clause_holds(r, val) {
        let w = choose|w: int| 0 <= w < r.len() && lit_holds(r[w] as int, val);
        assert(c.contains(r[w]));
        let k = choose|k: int| 0 <= k < c.len() && c[k] == r[w];
        assert(lit_holds(c[k] as int, val));
    }
}

/// What `simplify_spec` keeps: a clause of the output is a not-true clause
/// of the input with its false literals removed.
pub proof fn lemma_simplify_shape(cs: Seq<Seq<i32>>, a: Map<i32, bool>)
    ensures
        simplify_spec(cs, a).len() <= cs.len(),
        forall|i: int|
            0 <= i < simplify_spec(cs, a).len() ==> exists|j: int|
                0 <= j < cs.len() && !clause_true(cs[j], a) && #[trigger] simplify_spec(cs, a)[i]
                    == keep_lits(cs[j], a),
        forall|j: int|
            0 <= j < cs.len() && !clause_true(#[trigger] cs[j], a) ==> simplify_spec(
                cs,
                a,
            ).contains(keep_lits(cs[j], a)),
    decreases cs.len(),
{
    if cs.len() > 0 {
        lemma_simplify_shape(cs.drop_last(), a);
        let r = simplify_spec(cs, a);
        let rest = simplify_spec(cs.drop_last(), a);
        assert forall|i: int| 0 <= i < r.len() implies exists|j: int|
            0 <= j < cs.len() && !clause_true(cs[j], a) && #[trigger] r[i] == keep_lits(
                cs[j],
                a,
            ) by {
            if i < rest.len() {
                let j = choose|j: int|
                    0 <= j < cs.drop_last().len() && !clause_true(cs.drop_last()[j], a)
                        && rest[i] == keep_lits(cs.drop_last()[j], a);
                assert(cs[j] == cs.drop_last()[j]);
            } else {
                assert(r[i] == keep_lits(cs[cs.len() - 1], a));
            }
        }
        assert forall|j: int|
            0 <= j < cs.len() && !clause_true(#[trigger] cs[j], a) implies r.contains(
            keep_lits(cs[j], a),
        ) by {
            if j < cs.len() - 1 {
                assert(cs.drop_last()[j] == cs[j]);
                let w = choose|w: int| 0 <= w < rest.len() && rest[w] == keep_lits(cs[j], a);
                assert(r[w] == rest[w]);
            } else {
                assert(r[r.len() - 1] == keep_lits(cs[j], a));
            }
        }
    }
}

/// Facts about simplification that the search relies on.
proof fn lemma_simplify(cs: Seq<Seq<i32>>, a: Map<i32, bool>)
    requires
        lits_ok(cs),
    ensures
        simplify_spec(cs, a).len() <= cs.len(),
        lits_ok(simplify_spec(cs, a)),
        forall|l: i32| occurs(simplify_spec(cs, a), l) ==> occurs(cs, l),
        forall|l: i32| occurs(simplify_spec(cs, a), l) ==> !a.contains_key(#[trigger] var_of(l)),
        forall|val: spec_fn(int) -> bool|
            agrees(val, a) ==> (formula_holds(simplify_spec(cs, a), val) == formula_holds(
                cs,
                val,
            )),
{
    lemma_simplify_shape(cs, a);
    let r = simplify_spec(cs, a);
    assert forall|l: i32| occurs(r, l) implies occurs(cs, l) && !a.contains_key(var_of(l)) by {
        let (i, k) = choose|i: int, k: int| 0 <= i < r.len() && 0 <= k < r[i].len() && r[i][k] == l;
        let j = choose|j: int| 0 <= j < cs.len() && !clause_true(cs[j], a) && r[i] == keep_lits(cs[j], a);
        lemma_keep_lits(cs[j], a);
        assert(cs[j].contains(r[i][k]));
        let w = choose|w: int| 0 <= w < cs[j].len() && cs[j][w] == l;
        assert(cs[j][w] == l);
        assert(lit_value(l, a) != Some(false));
        if a.contains_key(var_of(l)) {
            assert(lit_value(cs[j][w], a) == Some(true));
        }
    }
    assert forall|i: int, k: int| 0 <= i < r.len() && 0 <= k < r[i].len() implies lit_ok(
        #[trigger] r[i][k],
    ) by {
        assert(occurs(r, r[i][k]));
        let (i2, k2) = choose|i2: int, k2: int|
            0 <= i2 < cs.len() && 0 <= k2 < cs[i2].len() && cs[i2][k2] == r[i][k];
        assert(lit_ok(cs[i2][k2]));
    }
    assert forall|val: spec_fn(int) -> bool| agrees(val, a) implies (formula_holds(r, val)
        == formula_holds(cs, val)) by {
        if formula_holds(cs, val) {
            assert forall|i: int| 0 <= i < r.len() implies #[trigger] clause_holds(r[i], val) by {
                let j = choose|j: int|
                    0 <= j < cs.len() && !clause_true(cs[j], a) && r[i] == keep_lits(cs[j], a);
                assert(clause_holds(cs[j], val));
                lemma_keep_lits_holds(cs[j], a, val);
            }
        }
        if formula_holds(r, val) {
            assert forall|j: int| 0 <= j < cs.len() implies #[trigger] clause_holds(cs[j], val) by {
                if clause_true(cs[j], a) {
                    let k = choose|k: int| 0 <= k < cs[j].len() && lit_value(cs[j][k], a) == Some(true);
                    lemma_lit_value_holds(cs[j][k], a, val);
                } else {
                    let w = choose|w: int| 0 <= w < r.len() && r[w] == keep_lits(cs[j], a);
                    assert(clause_holds(r[w], val));
                    lemma_keep_lits_holds(cs[j], a, val);
                }
            }
        }
    }
}

// ---------------------------------------------------------------------------
// Search invariants
// ---------------------------------------------------------------------------

/// No literal of the clauses has an assigned variable.
pub open spec fn vars_free(cs: Seq<Seq<i32>>, a: Map<i32, bool>) -> bool {
    forall|l: i32| #[trigger] occurs(cs, l) ==> !a.contains_key(var_of(l))
}

/// Variable 0 (only ever read through the literal `0`) is never set to true.
pub open spec fn zero_ok(a: Map<i32, bool>) -> bool {
    a.contains_key(0) ==> a[0] == false
}

/// The variables other than 0 of the literals of the clauses: those the
/// search may branch on.
pub open spec fn var_set(cs: Seq<Seq<i32>>) -> Set<int> {
    Set::new(|x: int| x != 0 && exists|l: i32| #[trigger] occurs(cs, l) && var_of(l) == x)
}

proof fn lemma_var_set_finite(cs: Seq<Seq<i32>>)
    ensures
        var_set(cs).finite(),
{
    vstd::set_lib::lemma_int_range(i32::MIN as int, i32::MAX + 1);
    assert(var_set(cs).subset_of(vstd::set_lib::set_int_range(i32::MIN as int, i32::MAX + 1))) by {
        assert forall|x: int| var_set(cs).contains(x) implies i32::MIN <= x < i32::MAX + 1 by {
            let l = choose|l: i32| #[trigger] occurs(cs, l) && var_of(l) == x;
        }
    }
    vstd::set_lib::lemma_len_subset(var_set(cs), vstd::set_lib::set_int_range(i32::MIN as int, i32::MAX + 1));
}

/// Clauses whose literals come from `cs0` and avoid variable `v` of `cs0`
/// have fewer variables.
proof fn lemma_var_set_shrink(cs0: Seq<Seq<i32>>, c: Seq<Seq<i32>>, v: i32)
    requires
        forall|l: i32| #[trigger] occurs(c, l) ==> occurs(cs0, l) && var_of(l) != v,
        mentions(cs0, v),
        v != 0,
    ensures
        var_set(c).len() + 1 <= var_set(cs0).len(),
{
    lemma_var_set_finite(cs0);
    let l0 = choose|l: i32| #[trigger] occurs(cs0, l) && var_of(l) == v;
    assert(var_set(cs0).contains(v as int));
    assert(var_set(c).subset_of(var_set(cs0).remove(v as int))) by {
        assert forall|x: int| var_set(c).contains(x) implies var_set(cs0).remove(v as int).contains(x) by {
            let l = choose|l: i32| #[trigger] occurs(c, l) && var_of(l) == x;
            assert(occurs(cs0, l));
        }
    }
    vstd::set_lib::lemma_len_subset(var_set(c), var_set(cs0).remove(v as int));
}

proof fn lemma_agrees_submap(val: spec_fn(int) -> bool, a1: Map<i32, bool>, a2: Map<i32, bool>)
    requires
        a1.submap_of(a2),
        agrees(val, a2),
    ensures
        agrees(val, a1),
{
    assert forall|x: i32| #[trigger] a1.contains_key(x) implies val(x as int) == a1[x] by {
        assert(a2.contains_key(x));
    }
}

proof fn lemma_lit_holds_local(l: i32, v1: spec_fn(int) -> bool, v2: spec_fn(int) -> bool)
    requires
        lit_ok(l),
        v1(var_of(l) as int) == v2(var_of(l) as int),
    ensures
        lit_holds(l as int, v1) == lit_holds(l as int, v2),
{
}

proof fn lemma_has_empty_unsat(cs: Seq<Seq<i32>>, val: spec_fn(int) -> bool)
    requires
        has_empty(cs),
    ensures
        !formula_holds(cs, val),
{
    let i = choose|i: int| 0 <= i < cs.len() && cs[i].len() == 0;
    assert(!clause_holds(cs[i], val));
}

/// `u` is the literal of a unit clause.
pub open spec fn unit_lit(cs: Seq<Seq<i32>>, u: i32) -> bool {
    exists|i: int| 0 <= i < cs.len() && cs[i].len() == 1 && #[trigger] cs[i][0] == u
}

pub proof fn lemma_units(cs: Seq<Seq<i32>>)
    ensures
        forall|k: int| 0 <= k < units_spec(cs).len() ==> unit_lit(cs, #[trigger] units_spec(cs)[k]),
        forall|i: int| 0 <= i < cs.len() && #[trigger] cs[i].len() == 1 ==> units_spec(cs).len() > 0,
    decreases cs.len(),
{
    if cs.len() > 0 {
        lemma_units(cs.drop_last());
        let u = units_spec(cs);
        let rest = units_spec(cs.drop_last());
        assert forall|k: int| 0 <= k < units_spec(cs).len() implies unit_lit(cs, #[trigger] units_spec(cs)[k]) by {
            if k < rest.len() {
                let i = choose|i: int|
                    0 <= i < cs.drop_last().len() && cs.drop_last()[i].len() == 1 && cs.drop_last()[i][0] == rest[k];
                assert(cs[i] == cs.drop_last()[i]);
                assert(u[k] == rest[k]);
                assert(cs[i][0] == u[k]);
            } else {
                assert(cs[cs.len() - 1][0] == u[k]);
                assert(cs[cs.len() - 1].len() == 1);
            }
        }
        assert forall|i: int| 0 <= i < cs.len() && #[trigger] cs[i].len() == 1 implies u.len() > 0 by {
            if i < cs.len() - 1 {
                assert(cs.drop_last()[i] == cs[i]);
            }
        }
    } else {
        assert(units_spec(cs).len() == 0);
    }
}

/// A unit clause forces the value of its variable.
proof fn lemma_unit_forced(cs: Seq<Seq<i32>>, i: int, val: spec_fn(int) -> bool)
    requires
        0 <= i < cs.len(),
        cs[i].len() == 1,
        lit_ok(cs[i][0]),
        formula_holds(cs, val),
    ensures
        val(var_of(cs[i][0]) as int) == (cs[i][0] > 0),
{
    assert(clause_holds(cs[i], val));
}

/// Simplifying under an assignment that covers the variable of a unit
/// clause either produces an empty clause or drops a clause.
pub proof fn lemma_simplify_progress(cs: Seq<Seq<i32>>, a: Map<i32, bool>, i: int)
    requires
        0 <= i < cs.len(),
        cs[i].len() == 1,
        a.contains_key(var_of(cs[i][0])),
    ensures
        has_empty(simplify_spec(cs, a)) || simplify_spec(cs, a).len() < cs.len(),
    decreases cs.len(),
{
    lemma_simplify_shape(cs.drop_last(), a);
    let r = simplify_spec(cs, a);
    let rest = simplify_spec(cs.drop_last(), a);
    if i == cs.len() - 1 {
        let c = cs.last();
        if !clause_true(c, a) {
            assert(lit_value(c[0], a) != Some(true));
            assert(c.last() == c[0]);
            assert(lit_value(c.last(), a) == Some(false));
            assert(c.drop_last().len() == 0);
            assert(keep_lits(c.drop_last(), a) =~= Seq::<i32>::empty());
            assert(keep_lits(c, a) =~= Seq::<i32>::empty());
            assert(r[r.len() - 1].len() == 0);
        }
    } else {
        assert(cs.drop_last()[i] == cs[i]);
        lemma_simplify_progress(cs.drop_last(), a, i);
        if has_empty(rest) {
            let w = choose|w: int| 0 <= w < rest.len() && rest[w].len() == 0;
            assert(r[w] == rest[w]);
        }
    }
}

/// When every assigned literal that occurs is true, simplification cannot
/// create an empty clause.
proof fn lemma_simplify_no_empty(cs: Seq<Seq<i32>>, a: Map<i32, bool>)
    requires
        !has_empty(cs),
        forall|l: i32| occurs(cs, l) && a.contains_key(#[trigger] var_of(l)) ==> lit_value(l, a) == Some(true),
    ensures
        !has_empty(simplify_spec(cs, a)),
{
    lemma_simplify_shape(cs, a);
    let r = simplify_spec(cs, a);
    assert forall|i: int| 0 <= i < r.len() implies #[trigger] r[i].len() != 0 by {
        let j = choose|j: int| 0 <= j < cs.len() && !clause_true(cs[j], a) && r[i] == keep_lits(cs[j], a);
        assert(cs[j].len() != 0);
        let l = cs[j][0];
        assert(occurs(cs, l));
        if a.contains_key(var_of(l)) {
            assert(lit_value(cs[j][0], a) == Some(true));
        }
        lemma_keep_lits(cs[j], a);
        assert(keep_lits(cs[j], a).contains(cs[j][0]));
    }
}

/// Two representable literals with the same variable are equal or opposite.
proof fn lemma_same_var(l: i32, p: i32)
    requires
        lit_ok(l),
        lit_ok(p),
        var_of(l) == var_of(p),
    ensures
        l == p || l == -p,
{
}

// ---------------------------------------------------------------------------
// Executable helpers
// ---------------------------------------------------------------------------

/// The variable of a literal (its absolute value).
fn var_of_lit(lit: i32) -> (v: i32)
    requires
        lit_ok(lit),
    ensures
        v == var_of(lit),
        v >= 0,
{
    if lit < 0 {
        -lit
    } else {
        lit
    }
}

/// Check if a literal is satisfied under the current assignment.
fn lit_satisfied(lit: i32, assignment: &HashMap<i32, bool>) -> (r: Option<bool>)
    requires
        lit_ok(lit),
    ensures
        r == lit_value(lit, assignment@),
{
    let var = var_of_lit(lit);
    match assignment.get(&var) {
        Some(val) => {
            if lit > 0 {
                Some(*val)
            } else {
                Some(!*val)
            }
        },
        None => None,
    }
}

/// Evaluate a clause: `Some(true)` if satisfied, `Some(false)` if every
/// literal is false, `None` if undetermined.
fn _eval_clause(clause: &[i32], assignment: &HashMap<i32, bool>) -> (r: Option<bool>)
    requires
        forall|k: int| 0 <= k < clause@.len() ==> lit_ok(#[trigger] clause@[k]),
    ensures
        r == (if clause_true(clause@, assignment@) {
            Some(true)
        } else if exists|k: int| 0 <= k < clause@.len() && #[trigger] lit_value(clause@[k], assignment@) is None {
            None::<bool>
        } else {
            Some(false)
        }),
{
    let mut has_unassigned = false;
    let mut k: usize = 0;
    while k < clause.len()
        invariant
            k <= clause@.len(),
            forall|k2: int| 0 <= k2 < clause@.len() ==> lit_ok(#[trigger] clause@[k2]),
            forall|k2: int| 0 <= k2 < k ==> #[trigger] lit_value(clause@[k2], assignment@) != Some(true),
            has_unassigned == exists|k2: int| 0 <= k2 < k && #[trigger] lit_value(clause@[k2], assignment@) is None,
        decreases clause@.len() - k,
    {
        match lit_satisfied(clause[k], assignment) {
            Some(true) => {
                return Some(true);
            },
            Some(false) => {},
            None => {
                has_unassigned = true;
            },
        }
        k += 1;
    }
    if has_unassigned {
        None
    } else {
        Some(false)
    }
}

/// Copy a clause, keeping the literals that are not false; `None` if some
/// literal is true.
fn simplify_clause(clause: &Vec<i32>, assignment: &HashMap<i32, bool>) -> (r: Option<Vec<i32>>)
    requires
        forall|k: int| 0 <= k < clause@.len() ==> lit_ok(#[trigger] clause@[k]),
    ensures
        clause_true(clause@, assignment@) ==> r is None,
        !clause_true(clause@, assignment@) ==> r is Some && r->0@ == keep_lits(clause@, assignment@),
{
    let mut k: usize = 0;
    while k < clause.len()
        invariant
            k <= clause@.len(),
            forall|k2: int| 0 <= k2 < clause@.len() ==> lit_ok(#[trigger] clause@[k2]),
            forall|k2: int| 0 <= k2 < k ==> #[trigger] lit_value(clause@[k2], assignment@) != Some(true),
        decreases clause@.len() - k,
    {
        if lit_satisfied(clause[k], assignment) == Some(true) {
            return None;
        }
        k += 1;
    }
    let mut out: Vec<i32> = Vec::new();
    let mut k: usize = 0;
    while k < clause.len()
        invariant
            k <= clause@.len(),
            forall|k2: int| 0 <= k2 < clause@.len() ==> lit_ok(#[trigger] clause@[k2]),
            out@ == keep_lits(clause@.take(k as int), assignment@),
        decreases clause@.len() - k,
    {
        assert(clause@.take(k + 1).drop_last() =~= clause@.take(k as int));
        if lit_satisfied(clause[k], assignment) != Some(false) {
            out.push(clause[k]);
        }
        k += 1;
    }
    assert(clause@.take(clause@.len() as int) =~= clause@);
    Some(out)
}

/// Simplify clauses by removing satisfied clauses and falsified literals.
fn simplify(clauses: &[Vec<i32>], assignment: &HashMap<i32, bool>) -> (r: Vec<Vec<i32>>)
    requires
        lits_ok(deep(clauses@)),
    ensures
        deep(r@) == simplify_spec(deep(clauses@), assignment@),
{
    let ghost cs = deep(clauses@);
    let mut out: Vec<Vec<i32>> = Vec::new();
    let mut i: usize = 0;
    while i < clauses.len()
        invariant
            i <= clauses@.len(),
            cs == deep(clauses@),
            lits_ok(cs),
            deep(out@) == simplify_spec(cs.take(i as int), assignment@),
        decreases clauses@.len() - i,
    {
        assert(cs.take(i + 1).drop_last() =~= cs.take(i as int));
        assert(cs.take(i + 1).last() == clauses@[i as int]@);
        assert forall|k: int| 0 <= k < clauses@[i as int]@.len() implies lit_ok(#[trigger] clauses@[i as int]@[k]) by {
            assert(cs[i as int][k] == clauses@[i as int]@[k]);
        }
        match simplify_clause(&clauses[i], assignment) {
            Some(c) => {
                let ghost before = out@;
                out.push(c);
                assert(deep(out@) =~= deep(before).push(c@));
            },
            None => {},
        }
        i += 1;
    }
    assert(cs.take(clauses@.len() as int) =~= cs);
    out
}

/// Some clause is empty.
fn has_empty_clause(clauses: &[Vec<i32>]) -> (r: bool)
    ensures
        r == has_empty(deep(clauses@)),
{
    let mut i: usize = 0;
    while i < clauses.len()
        invariant
            i <= clauses@.len(),
            forall|i2: int| 0 <= i2 < i ==> #[trigger] clauses@[i2]@.len() != 0,
        decreases clauses@.len() - i,
    {
        if clauses[i].len() == 0 {
            assert(deep(clauses@)[i as int].len() == 0);
            return true;
        }
        i += 1;
    }
    assert forall|i2: int| 0 <= i2 < deep(clauses@).len() implies #[trigger] deep(clauses@)[i2].len() != 0 by {
        assert(clauses@[i2]@.len() != 0);
    }
    false
}

/// Find all unit clauses (clauses with exactly one literal) and return their literals.
fn find_unit_clauses(clauses: &[Vec<i32>]) -> (r: Vec<i32>)
    ensures
        r@ == units_spec(deep(clauses@)),
{
    let ghost cs = deep(clauses@);
    let mut out: Vec<i32> = Vec::new();
    let mut i: usize = 0;
    while i < clauses.len()
        invariant
            i <= clauses@.len(),
            cs == deep(clauses@),
            out@ == units_spec(cs.take(i as int)),
        decreases clauses@.len() - i,
    {
        assert(cs.take(i + 1).drop_last() =~= cs.take(i as int));
        assert(cs.take(i + 1).last() == clauses@[i as int]@);
        if clauses[i].len() == 1 {
            out.push(clauses[i][0]);
        }
        i += 1;
    }
    assert(cs.take(clauses@.len() as int) =~= cs);
    out
}

/// Pick the next unassigned variable from the clauses: the variable of the
/// first literal, in clause order, whose variable is unassigned.
fn pick_variable(clauses: &[Vec<i32>], assignment: &HashMap<i32, bool>) -> (r: Option<i32>)
    requires
        lits_ok(deep(clauses@)),
    ensures
        r is None <==> forall|l: i32| occurs(deep(clauses@), l) ==> assignment@.contains_key(#[trigger] var_of(l)),
        r matches Some(v) ==> exists|l: i32| occurs(deep(clauses@), l) && v == var_of(l) && !assignment@.contains_key(v),
        r matches Some(v) ==> exists|i: int, j: int|
            #[trigger] first_free_at(deep(clauses@), assignment@, i, j) && v == var_of(deep(clauses@)[i][j]),
{
    let ghost cs = deep(clauses@);
    let mut i: usize = 0;
    while i < clauses.len()
        invariant
            i <= clauses@.len(),
            cs == deep(clauses@),
            lits_ok(cs),
            forall|l: i32| occurs_before(cs, i as int, 0, l) ==> assignment@.contains_key(#[trigger] var_of(l)),
        decreases clauses@.len() - i,
    {
        let clause = &clauses[i];
        assert(clause@ == cs[i as int]);
        let mut j: usize = 0;
        while j < clause.len()
            invariant
                i < clauses@.len(),
                j <= clause@.len(),
                clause@ == cs[i as int],
                cs == deep(clauses@),
                lits_ok(cs),
                forall|l: i32| occurs_before(cs, i as int, j as int, l) ==> assignment@.contains_key(#[trigger] var_of(l)),
            decreases clause@.len() - j,
        {
            assert(lit_ok(cs[i as int][j as int]));
            let var = var_of_lit(clause[j]);
            if !assignment.contains_key(&var) {
                assert(occurs(cs, clause@[j as int]));
                assert(var == var_of(cs[i as int][j as int]));
                assert(first_free_at(cs, assignment@, i as int, j as int));
                return Some(var);
            }
            proof {
                lemma_occurs_before_step(cs, i as int, j as int);
            }
            j += 1;
        }
        proof {
            lemma_occurs_before_row(cs, i as int);
        }
        i += 1;
    }
    proof {
        lemma_occurs_before_end(cs);
    }
    None
}

/// Find pure literals: literals whose variable appears with only one polarity.
/// Each pure literal is listed once.
fn find_pure_literals(clauses: &[Vec<i32>]) -> (r: Vec<i32>)
    requires
        lits_ok(deep(clauses@)),
    ensures
        forall|p: i32| r@.contains(p) <==> is_pure(deep(clauses@), p),
        r@.no_duplicates(),
{
    let ghost cs = deep(clauses@);
    let mut pos: HashSet<i32> = HashSet::new();
    let mut neg: HashSet<i32> = HashSet::new();
    let mut i: usize = 0;
    while i < clauses.len()
        invariant
            i <= clauses@.len(),
            cs == deep(clauses@),
            lits_ok(cs),
            forall|v: i32| pos@.contains(v) <==> v > 0 && occurs_before(cs, i as int, 0, v),
            forall|v: i32| neg@.contains(v) <==> v >= 0 && occurs_before(cs, i as int, 0, (-v) as i32),
        decreases clauses@.len() - i,
    {
        let clause = &clauses[i];
        assert(clause@ == cs[i as int]);
        let mut j: usize = 0;
        while j < clause.len()
            invariant
                i < clauses@.len(),
                j <= clause@.len(),
                clause@ == cs[i as int],
                cs == deep(clauses@),
                lits_ok(cs),
                forall|v: i32| pos@.contains(v) <==> v > 0 && occurs_before(cs, i as int, j as int, v),
                forall|v: i32| neg@.contains(v) <==> v >= 0 && occurs_before(cs, i as int, j as int, (-v) as i32),
            decreases clause@.len() - j,
        {
            let lit = clause[j];
            assert(lit == cs[i as int][j as int]);
            assert(lit_ok(cs[i as int][j as int]));
            proof {
                lemma_occurs_before_step(cs, i as int, j as int);
            }
            if lit > 0 {
                pos.insert(lit);
            } else {
                neg.insert(-lit);
            }
            j += 1;
        }
        proof {
            lemma_occurs_before_row(cs, i as int);
        }
        i += 1;
    }
    proof {
        lemma_occurs_before_end(cs);
    }
    assert(forall|v: i32| pos@.contains(v) <==> occurs_pos(cs, v));
    assert(forall|v: i32| neg@.contains(v) <==> occurs_neg(cs, v));
    let mut pure: Vec<i32> = Vec::new();
    let mut seen: HashSet<i32> = HashSet::new();
    let mut i: usize = 0;
    while i < clauses.len()
        invariant
            i <= clauses@.len(),
            cs == deep(clauses@),
            lits_ok(cs),
            forall|v: i32| pos@.contains(v) <==> occurs_pos(cs, v),
            forall|v: i32| neg@.contains(v) <==> occurs_neg(cs, v),
            forall|p: i32| #![trigger pure@.contains(p)] #![trigger is_pure(cs, p)] pure@.contains(p) <==> is_pure(cs, p) && occurs_before(cs, i as int, 0, p),
            forall|p: i32| seen@.contains(p) <==> pure@.contains(p),
            pure@.no_duplicates(),
        decreases clauses@.len() - i,
    {
        let clause = &clauses[i];
        assert(clause@ == cs[i as int]);
        let mut j: usize = 0;
        while j < clause.len()
            invariant
                i < clauses@.len(),
                j <= clause@.len(),
                clause@ == cs[i as int],
                cs == deep(clauses@),
                lits_ok(cs),
                forall|v: i32| pos@.contains(v) <==> occurs_pos(cs, v),
                forall|v: i32| neg@.contains(v) <==> occurs_neg(cs, v),
                forall|p: i32| #![trigger pure@.contains(p)] #![trigger is_pure(cs, p)] pure@.contains(p) <==> is_pure(cs, p) && occurs_before(cs, i as int, j as int, p),
                forall|p: i32| seen@.contains(p) <==> pure@.contains(p),
                pure@.no_duplicates(),
            decreases clause@.len() - j,
        {
            let lit = clause[j];
            assert(lit == cs[i as int][j as int]);
            assert(lit_ok(cs[i as int][j as int]));
            assert(occurs(cs, lit));
            proof {
                lemma_occurs_before_step(cs, i as int, j as int);
            }
            let pure_here = if lit > 0 {
                let b = !neg.contains(&lit);
                assert(b == !occurs_neg(cs, lit));
                assert(b == !occurs(cs, (-lit) as i32));
                b
            } else {
                let b = !pos.contains(&(-lit));
                assert(b == !occurs_pos(cs, (-lit) as i32));
                assert(b == (lit == 0 || !occurs(cs, (-lit) as i32)));
                b
            };
            assert(pure_here == is_pure(cs, lit));
            let ghost before_all = pure@;
            assert(forall|p: i32| pure@.contains(p) <==> is_pure(cs, p) && occurs_before(cs, i as int, j as int, p));
            assert(forall|p: i32| before_all.contains(p) <==> is_pure(cs, p) && occurs_before(cs, i as int, j as int, p));
            if pure_here && !seen.contains(&lit) {
                let ghost before = pure@;
                pure.push(lit);
                seen.insert(lit);
                assert forall|p: i32| pure@.contains(p) <==> before.contains(p) || p == lit by {
                    if pure@.contains(p) {
                        let w = choose|w: int| 0 <= w < pure@.len() && pure@[w] == p;
                        if w < before.len() {
                            assert(before[w] == p);
                        }
                    }
                    if before.contains(p) {
                        let w = choose|w: int| 0 <= w < before.len() && before[w] == p;
                        assert(pure@[w] == p);
                    }
                    if p == lit {
                        assert(pure@[before.len() as int] == p);
                    }
                }
            }
            let ghost oj = j as int;
            j += 1;
            assert forall|p: i32| #![trigger pure@.contains(p)] #![trigger is_pure(cs, p)] pure@.contains(p) <==> is_pure(cs, p) && occurs_before(cs, i as int, j as int, p) by {
                assert(occurs_before(cs, i as int, j as int, p) <==> (occurs_before(cs, i as int, oj, p) || p == lit));
                assert(before_all.contains(p) <==> is_pure(cs, p) && occurs_before(cs, i as int, oj, p));
                if p == lit {
                    assert(occurs_before(cs, i as int, j as int, p));
                    if pure_here {
                        assert(pure@.contains(p));
                    } else {
                        assert(!before_all.contains(p));
                        assert(pure@ == before_all);
                    }
                } else {
                    assert(pure@.contains(p) <==> before_all.contains(p));
                }
            }
        }
        proof {
            lemma_occurs_before_row(cs, i as int);
        }
        i += 1;
        assert(forall|p: i32| #![trigger pure@.contains(p)] #![trigger is_pure(cs, p)] pure@.contains(p) <==> is_pure(cs, p) && occurs_before(cs, i as int, 0, p));
    }
    pure
}

/// Copy a list of clauses.
fn copy_clauses(clauses: &[Vec<i32>]) -> (r: Vec<Vec<i32>>)
    ensures
        deep(r@) == deep(clauses@),
{
    let mut out: Vec<Vec<i32>> = Vec::new();
    let mut i: usize = 0;
    while i < clauses.len()
        invariant
            i <= clauses@.len(),
            deep(out@) == deep(clauses@).take(i as int),
        decreases clauses@.len() - i,
    {
        let c = copy_clause(&clauses[i]);
        let ghost before = out@;
        out.push(c);
        assert(deep(out@) =~= deep(before).push(c@));
        assert(deep(clauses@).take(i + 1) =~= deep(clauses@).take(i as int).push(clauses@[i as int]@));
        i += 1;
    }
    assert(deep(clauses@).take(clauses@.len() as int) =~= deep(clauses@));
    out
}

/// Solver statistics.
#[derive(Debug, Clone, Default, PartialEq)]
pub struct SolverStats {
    pub num_decisions: u64,
    pub num_propagations: u64,
}

/// The state the search is in: representable literals, none of whose
/// variables is assigned yet, and variable 0 not set to true.
pub open spec fn search_ok(cs: Seq<Seq<i32>>, a: Map<i32, bool>) -> bool {
    &&& lits_ok(cs)
    &&& vars_free(cs, a)
    &&& zero_ok(a)
}

/// Some clause is a unit clause.
pub open spec fn has_unit(cs: Seq<Seq<i32>>) -> bool {
    exists|i: int| 0 <= i < cs.len() && #[trigger] cs[i].len() == 1
}

/// A saturating counter went up from `before` to `after` (or was full).
pub open spec fn grew(before: u64, after: u64) -> bool {
    after > before || before == u64::MAX
}

/// The counters only grow.
pub open spec fn stats_grow(s1: SolverStats, s2: SolverStats) -> bool {
    &&& s1.num_decisions <= s2.num_decisions
    &&& s1.num_propagations <= s2.num_propagations
}

/// Some literal of the clauses has variable `x`.
pub open spec fn mentions(cs: Seq<Seq<i32>>, x: i32) -> bool {
    exists|l: i32| #[trigger] occurs(cs, l) && var_of(l) == x
}

/// Every key of `a` is a key of `a0` or a variable of the clauses.
pub open spec fn keys_from(a0: Map<i32, bool>, a: Map<i32, bool>, cs: Seq<Seq<i32>>) -> bool {
    forall|x: i32| #[trigger] a.contains_key(x) ==> a0.contains_key(x) || mentions(cs, x)
}

/// Every clause has a literal that the assignment makes true.
pub open spec fn all_true(cs: Seq<Seq<i32>>, a: Map<i32, bool>) -> bool {
    forall|j: int| 0 <= j < cs.len() ==> #[trigger] clause_true(cs[j], a)
}

/// Any extension of `a` that makes every clause of `cs` true makes every
/// clause of `cs0` true.
pub open spec fn covers(cs0: Seq<Seq<i32>>, cs: Seq<Seq<i32>>, a: Map<i32, bool>) -> bool {
    forall|a2: Map<i32, bool>| #![trigger all_true(cs, a2)] a.submap_of(a2) && all_true(cs, a2) ==> all_true(cs0, a2)
}

proof fn lemma_lit_value_mono(l: i32, a: Map<i32, bool>, a2: Map<i32, bool>)
    requires
        a.submap_of(a2),
        lit_value(l, a) is Some,
    ensures
        lit_value(l, a2) == lit_value(l, a),
{
    assert(a2.contains_key(var_of(l)) && a2[var_of(l)] == a[var_of(l)]);
}

/// Making every simplified clause true under an extension of the
/// assignment makes every original clause true.
proof fn lemma_simplify_true(cs: Seq<Seq<i32>>, a: Map<i32, bool>, a2: Map<i32, bool>)
    requires
        a.submap_of(a2),
        all_true(simplify_spec(cs, a), a2),
    ensures
        all_true(cs, a2),
{
    lemma_simplify_shape(cs, a);
    let r = simplify_spec(cs, a);
    assert forall|j: int| 0 <= j < cs.len() implies #[trigger] clause_true(cs[j], a2) by {
        if clause_true(cs[j], a) {
            let k = choose|k: int| 0 <= k < cs[j].len() && #[trigger] lit_value(cs[j][k], a) == Some(true);
            lemma_lit_value_mono(cs[j][k], a, a2);
        } else {
            let w = choose|w: int| 0 <= w < r.len() && r[w] == keep_lits(cs[j], a);
            assert(clause_true(r[w], a2));
            let c = keep_lits(cs[j], a);
            let k = choose|k: int| 0 <= k < c.len() && #[trigger] lit_value(c[k], a2) == Some(true);
            lemma_keep_lits(cs[j], a);
            assert(cs[j].contains(c[k]));
            let k2 = choose|k2: int| 0 <= k2 < cs[j].len() && cs[j][k2] == c[k];
            assert(lit_value(cs[j][k2], a2) == Some(true));
        }
    }
}

/// Simplifying under a larger assignment keeps the coverage of the
/// original clauses.
proof fn lemma_covers_step(cs0: Seq<Seq<i32>>, cs: Seq<Seq<i32>>, a: Map<i32, bool>, a1: Map<i32, bool>)
    requires
        covers(cs0, cs, a),
        a.submap_of(a1),
    ensures
        covers(cs0, simplify_spec(cs, a1), a1),
        covers(cs0, cs, a1),
{
    assert forall|a2: Map<i32, bool>| #![trigger all_true(simplify_spec(cs, a1), a2)]
        a1.submap_of(a2) && all_true(simplify_spec(cs, a1), a2) implies all_true(cs0, a2) by {
        lemma_simplify_true(cs, a1, a2);
        assert(a.submap_of(a2));
        assert(all_true(cs, a2));
    }
    assert forall|a2: Map<i32, bool>| #![trigger all_true(cs, a2)]
        a1.submap_of(a2) && all_true(cs, a2) implies all_true(cs0, a2) by {
        assert(a.submap_of(a2));
    }
}

// ---------------------------------------------------------------------------
// The search, step by step
// ---------------------------------------------------------------------------

/// The assignment after setting each unit literal true, in order.
pub open spec fn insert_units(a: Map<i32, bool>, us: Seq<i32>) -> Map<i32, bool>
    decreases us.len(),
{
    if us.len() == 0 {
        a
    } else {
        insert_units(a, us.drop_last()).insert(var_of(us.last()), us.last() > 0)
    }
}

pub proof fn lemma_insert_units(a: Map<i32, bool>, us: Seq<i32>)
    ensures
        forall|k: int| 0 <= k < us.len() ==> insert_units(a, us).contains_key(#[trigger] var_of(us[k])),
    decreases us.len(),
{
    if us.len() > 0 {
        lemma_insert_units(a, us.drop_last());
        assert forall|k: int| 0 <= k < us.len() implies insert_units(a, us).contains_key(#[trigger] var_of(us[k])) by {
            if k < us.len() - 1 {
                assert(us.drop_last()[k] == us[k]);
            }
        }
    }
}

/// Unit propagation to a fixpoint. The result is a status (0: no unit
/// clause is left, 1: a clause became false, 2: every clause became
/// true), the clauses and assignment reached, and the number of unit
/// literals set.
pub open spec fn unit_phase(cs: Seq<Seq<i32>>, a: Map<i32, bool>) -> (int, Seq<Seq<i32>>, Map<i32, bool>, nat)
    decreases cs.len(),
{
    let us = units_spec(cs);
    if us.len() == 0 {
        (0, cs, a, 0)
    } else {
        let a2 = insert_units(a, us);
        let cs2 = simplify_spec(cs, a2);
        if has_empty(cs2) {
            (1, cs2, a2, us.len())
        } else if cs2.len() == 0 {
            (2, cs2, a2, us.len())
        } else {
            proof {
                lemma_units(cs);
                lemma_insert_units(a, us);
                let i0 = choose|i: int| 0 <= i < cs.len() && cs[i].len() == 1 && #[trigger] cs[i][0] == us[0];
                assert(a2.contains_key(var_of(cs[i0][0])));
                lemma_simplify_progress(cs, a2, i0);
            }
            let r = unit_phase(cs2, a2);
            (r.0, r.1, r.2, us.len() + r.3)
        }
    }
}

/// The assignment after setting every pure literal whose variable is
/// unassigned true.
pub open spec fn pure_assign(cs: Seq<Seq<i32>>, a: Map<i32, bool>) -> Map<i32, bool> {
    Map::new(
        |x: i32| a.contains_key(x) || exists|p: i32| #[trigger] is_pure(cs, p) && var_of(p) == x,
        |x: i32|
            if a.contains_key(x) {
                a[x]
            } else {
                (choose|p: i32| #[trigger] is_pure(cs, p) && var_of(p) == x) > 0
            },
    )
}

/// The pure literals whose variable the assignment leaves open.
pub open spec fn pure_new(cs: Seq<Seq<i32>>, a: Map<i32, bool>) -> Set<i32> {
    Set::new(|p: i32| is_pure(cs, p) && !a.contains_key(var_of(p)))
}

/// The assignment with the variables of the pure literals removed.
pub open spec fn pure_undo(cs: Seq<Seq<i32>>, a: Map<i32, bool>) -> Map<i32, bool> {
    a.remove_keys(Set::new(|x: i32| exists|p: i32| #[trigger] is_pure(cs, p) && var_of(p) == x))
}

/// The variable the search branches on: that of the first literal, in
/// clause order, whose variable is unassigned.
pub open spec fn first_free(cs: Seq<Seq<i32>>, a: Map<i32, bool>) -> Option<i32> {
    if exists|i: int, j: int| #[trigger] first_free_at(cs, a, i, j) {
        let (i, j) = choose|i: int, j: int| #[trigger] first_free_at(cs, a, i, j);
        Some(var_of(cs[i][j]))
    } else {
        None
    }
}

/// Position `(i, j)` holds the first literal whose variable is unassigned.
pub open spec fn first_free_at(cs: Seq<Seq<i32>>, a: Map<i32, bool>, i: int, j: int) -> bool {
    &&& 0 <= i < cs.len()
    &&& 0 <= j < cs[i].len()
    &&& !a.contains_key(var_of(cs[i][j]))
    &&& forall|l: i32| occurs_before(cs, i, j, l) ==> a.contains_key(#[trigger] var_of(l))
}

/// A counter of `c` after `b` more steps, saturating at `u64::MAX`.
pub open spec fn sat_add(c: u64, b: nat) -> u64 {
    if c + b > u64::MAX {
        u64::MAX
    } else {
        (c + b) as u64
    }
}

/// The outcome of the search on clauses `cs` from assignment `a` at
/// `depth` with limit `max_depth`: whether it succeeds, the assignment it
/// leaves, and the numbers of decisions and propagations it makes.
pub open spec fn search(cs: Seq<Seq<i32>>, a: Map<i32, bool>, max_depth: int, depth: int) -> (
    bool,
    Map<i32, bool>,
    nat,
    nat,
)
    decreases max_depth + 1 - depth,
{
    if depth > max_depth {
        (false, a, 0, 0)
    } else if cs.len() == 0 {
        (true, a, 0, 0)
    } else if has_empty(cs) {
        (false, a, 0, 0)
    } else {
        let up = unit_phase(cs, a);
        if up.0 == 1 {
            (false, up.2, 0, up.3)
        } else if up.0 == 2 {
            (true, up.2, 0, up.3)
        } else {
            let c1 = up.1;
            let a1 = up.2;
            let a2 = pure_assign(c1, a1);
            let props = up.3 + pure_new(c1, a1).len();
            let any_pure = exists|p: i32| #[trigger] is_pure(c1, p);
            let c2 = if any_pure { simplify_spec(c1, a2) } else { c1 };
            if any_pure && has_empty(c2) {
                (false, pure_undo(c1, a2), 0, props)
            } else if any_pure && c2.len() == 0 {
                (true, a2, 0, props)
            } else {
                match first_free(c2, a2) {
                    None => (!has_empty(c2), a2, 0, props),
                    Some(v) => {
                        let t = search(simplify_spec(c2, a2.insert(v, true)), a2.insert(v, true), max_depth, depth + 1);
                        if t.0 {
                            (true, t.1, 1 + t.2, props + t.3)
                        } else {
                            let f = search(
                                simplify_spec(c2, a2.insert(v, false)),
                                a2.insert(v, false),
                                max_depth,
                                depth + 1,
                            );
                            if f.0 {
                                (true, f.1, 1 + t.2 + f.2, props + t.3 + f.3)
                            } else {
                                (false, pure_undo(c1, a2), 1 + t.2 + f.2, props + t.3 + f.3)
                            }
                        }
                    },
                }
            }
        }
    }
}

/// The literals of `ps` whose variable `a` leaves open.
pub open spec fn open_lits(ps: Seq<i32>, a: Map<i32, bool>) -> Set<i32> {
    Set::new(|p: i32| ps.contains(p) && !a.contains_key(var_of(p)))
}

/// The variables of the first `k` literals of `ps`.
pub open spec fn lit_vars(ps: Seq<i32>, k: int) -> Set<i32> {
    Set::new(|x: i32| exists|k2: int| 0 <= k2 < k && #[trigger] var_of(ps[k2]) == x)
}

proof fn lemma_open_lits_finite(ps: Seq<i32>, a: Map<i32, bool>)
    ensures
        open_lits(ps, a).finite(),
{
    assert(open_lits(ps, a).subset_of(ps.to_set()));
    vstd::set_lib::lemma_len_subset(open_lits(ps, a), ps.to_set());
}

proof fn lemma_sat_add(c: u64, b1: nat, b2: nat)
    ensures
        sat_add(sat_add(c, b1), b2) == sat_add(c, b1 + b2),
        sat_add(c, 0) == c,
{
}

/// Two pure literals with the same variable are the same literal.
proof fn lemma_pure_same(cs: Seq<Seq<i32>>, p: i32, q: i32)
    requires
        is_pure(cs, p),
        is_pure(cs, q),
        var_of(p) == var_of(q),
    ensures
        p == q,
{
    lemma_same_var(p, q);
    if p != q {
        assert(p == -q);
        assert(q != 0);
        assert((-q) as i32 == p);
    }
}

/// What a successful branch on `v` gives back to the clauses it came from.
proof fn lemma_branch_success(
    cs0: Seq<Seq<i32>>,
    c2: Seq<Seq<i32>>,
    a0: Map<i32, bool>,
    a2: Map<i32, bool>,
    v: i32,
    b: bool,
    fin: Map<i32, bool>,
    free: bool,
)
    requires
        lits_ok(c2),
        keys_from(a0, a2, cs0),
        mentions(cs0, v),
        forall|l: i32| #[trigger] occurs(c2, l) ==> occurs(cs0, l),
        keys_from(a2.insert(v, b), fin, simplify_spec(c2, a2.insert(v, b))),
        free ==> covers(cs0, c2, a2) && a2.insert(v, b).submap_of(fin) && all_true(
            simplify_spec(c2, a2.insert(v, b)),
            fin,
        ) && a2.submap_of(a2.insert(v, b)),
    ensures
        free ==> all_true(cs0, fin),
        keys_from(a0, fin, cs0),
{
    let ab = a2.insert(v, b);
    if free {
        lemma_simplify_true(c2, ab, fin);
        assert(a2.submap_of(fin));
        assert(all_true(c2, fin));
    }
    lemma_simplify(c2, ab);
    assert forall|x: i32| #[trigger] fin.contains_key(x) implies a0.contains_key(x) || mentions(cs0, x) by {
        if !ab.contains_key(x) {
            let l = choose|l: i32| #[trigger] occurs(simplify_spec(c2, ab), l) && var_of(l) == x;
            assert(occurs(c2, l));
            assert(occurs(cs0, l));
        } else if x != v {
            assert(a2.contains_key(x));
        }
    }
}

/// The core DPLL recursive solver.
///
/// Its answer, the assignment it leaves and the counts it adds are those
/// of `search`. Every variable it assigns occurs in the clauses; past the
/// depth limit, or with an empty clause, it fails at once and changes
/// nothing. When no variable of the clauses is assigned yet: on success the
/// final assignment extends the initial one and makes a literal of every
/// clause true; on failure with at least as much depth left as the clauses
/// have variables, no valuation that extends the initial assignment
/// satisfies the clauses.
#[verifier::spinoff_prover]
#[verifier::rlimit(100)]
fn dpll(
    clauses: &[Vec<i32>],
    assignment: &mut HashMap<i32, bool>,
    stats: &mut SolverStats,
    max_depth: usize,
    depth: usize,
) -> (sat: bool)
    requires
        max_depth < usize::MAX,
        lits_ok(deep(clauses@)),
    ensures
        ({
            let o = search(deep(clauses@), old(assignment)@, max_depth as int, depth as int);
            &&& sat == o.0
            &&& final(assignment)@ == o.1
            &&& final(stats).num_decisions == sat_add(old(stats).num_decisions, o.2)
            &&& final(stats).num_propagations == sat_add(old(stats).num_propagations, o.3)
        }),
        stats_grow(*old(stats), *final(stats)),
        depth > max_depth || has_empty(deep(clauses@)) ==> !sat && final(assignment)@ == old(assignment)@
            && *final(stats) == *old(stats),
        keys_from(old(assignment)@, final(assignment)@, deep(clauses@)),
        sat && search_ok(deep(clauses@), old(assignment)@) ==> {
            &&& old(assignment)@.submap_of(final(assignment)@)
            &&& all_true(deep(clauses@), final(assignment)@)
            &&& zero_ok(final(assignment)@)
            &&& forall|val: spec_fn(int) -> bool|
                agrees(val, final(assignment)@) ==> formula_holds(deep(clauses@), val)
        },
        !sat && search_ok(deep(clauses@), old(assignment)@) && depth + var_set(deep(clauses@)).len() <= max_depth ==> forall|val: spec_fn(int) -> bool|
            agrees(val, old(assignment)@) ==> !formula_holds(deep(clauses@), val),
        depth <= max_depth && !has_empty(deep(clauses@)) && has_unit(deep(clauses@)) ==> grew(
            old(stats).num_propagations,
            final(stats).num_propagations,
        ),
        search_ok(deep(clauses@), old(assignment)@) && depth <= max_depth && deep(clauses@).len() > 0 && !has_empty(
            deep(clauses@),
        ) && !has_unit(deep(clauses@))
            && (forall|p: i32| !is_pure(deep(clauses@), p)) ==> grew(old(stats).num_decisions, final(stats).num_decisions),
    decreases max_depth + 1 - depth,
{
    let ghost cs0 = deep(clauses@);
    let ghost a0 = assignment@;
    let ghost s0 = *stats;
    let ghost free = search_ok(cs0, a0);
    let ghost o = search(cs0, a0, max_depth as int, depth as int);
    let ghost up0 = unit_phase(cs0, a0);
    let ghost mut pdone: nat = 0;
    proof {
        lemma_sat_add(s0.num_decisions, 0, 0);
        lemma_sat_add(s0.num_propagations, 0, 0);
        lemma_var_set_finite(cs0);
        lemma_units(cs0);
        if units_spec(cs0).len() > 0 {
            assert(unit_lit(cs0, units_spec(cs0)[0]));
        }
    }
    // Enforce max recursion depth = number of variables
    if depth > max_depth {
        return false;
    }
    // Check for empty clause set: all satisfied
    if clauses.len() == 0 {
        assert forall|val: spec_fn(int) -> bool| agrees(val, assignment@) implies formula_holds(cs0, val) by {}
        return true;
    }
    // Check for any empty clause (falsified)
    if has_empty_clause(clauses) {
        assert forall|val: spec_fn(int) -> bool| agrees(val, a0) implies !formula_holds(cs0, val) by {
            lemma_has_empty_unsat(cs0, val);
        }
        return false;
    }
    // Unit propagation
    let mut current_clauses = copy_clauses(clauses);
    loop
        invariant
            cs0 == deep(clauses@),
            a0 == old(assignment)@,
            free == search_ok(cs0, a0),
            s0 == *old(stats),
            depth <= max_depth,
            up0 == unit_phase(cs0, a0),
            up0.0 == unit_phase(deep(current_clauses@), assignment@).0,
            up0.1 == unit_phase(deep(current_clauses@), assignment@).1,
            up0.2 == unit_phase(deep(current_clauses@), assignment@).2,
            up0.3 == pdone + unit_phase(deep(current_clauses@), assignment@).3,
            stats.num_propagations == sat_add(s0.num_propagations, pdone),
            stats.num_decisions == s0.num_decisions,
            deep(current_clauses@).len() > 0,
            !has_empty(deep(current_clauses@)),
            lits_ok(deep(current_clauses@)),
            free ==> search_ok(deep(current_clauses@), assignment@),
            free ==> a0.submap_of(assignment@),
            stats_grow(s0, *stats),
            free ==> forall|val: spec_fn(int) -> bool|
                agrees(val, assignment@) ==> (formula_holds(deep(current_clauses@), val) == formula_holds(cs0, val)),
            free ==> forall|val: spec_fn(int) -> bool|
                agrees(val, a0) && formula_holds(cs0, val) ==> agrees(val, assignment@),
            has_unit(cs0) == (units_spec(cs0).len() > 0),
            has_unit(cs0) ==> (deep(current_clauses@) == cs0 || grew(s0.num_propagations, stats.num_propagations)),
            !has_unit(cs0) ==> deep(current_clauses@) == cs0 && assignment@ == a0,
            !has_empty(cs0),
            keys_from(a0, assignment@, cs0),
            forall|l: i32| #[trigger] occurs(deep(current_clauses@), l) ==> occurs(cs0, l),
            free ==> covers(cs0, deep(current_clauses@), assignment@),
        ensures
            up0.0 == 0 && up0.1 == deep(current_clauses@) && up0.2 == assignment@ && up0.3 == pdone,
            stats.num_propagations == sat_add(s0.num_propagations, pdone),
            stats.num_decisions == s0.num_decisions,
            keys_from(a0, assignment@, cs0),
            forall|l: i32| #[trigger] occurs(deep(current_clauses@), l) ==> occurs(cs0, l),
            free ==> covers(cs0, deep(current_clauses@), assignment@),
            has_unit(cs0) ==> grew(s0.num_propagations, stats.num_propagations),
            !has_unit(cs0) ==> deep(current_clauses@) == cs0 && assignment@ == a0,
            deep(current_clauses@).len() > 0,
            !has_empty(deep(current_clauses@)),
            units_spec(deep(current_clauses@)).len() == 0,
            lits_ok(deep(current_clauses@)),
            free ==> search_ok(deep(current_clauses@), assignment@),
            free ==> a0.submap_of(assignment@),
            stats_grow(s0, *stats),
            free ==> forall|val: spec_fn(int) -> bool|
                agrees(val, assignment@) ==> (formula_holds(deep(current_clauses@), val) == formula_holds(cs0, val)),
            free ==> forall|val: spec_fn(int) -> bool|
                agrees(val, a0) && formula_holds(cs0, val) ==> agrees(val, assignment@),
        decreases deep(current_clauses@).len(),
    {
        let units = find_unit_clauses(&current_clauses);
        if units.len() == 0 {
            break;
        }
        let ghost cur = deep(current_clauses@);
        let ghost a_round = assignment@;
        proof {
            lemma_units(cur);
        }
        let mut k: usize = 0;
        while k < units.len()
            invariant
                k <= units@.len(),
                units@ == units_spec(cur),
                forall|k2: int| 0 <= k2 < units@.len() ==> unit_lit(cur, #[trigger] units@[k2]),
                cur == deep(current_clauses@),
                lits_ok(cur),
                free == search_ok(cs0, a0),
                assignment@ == insert_units(a_round, units@.take(k as int)),
                stats.num_propagations == sat_add(s0.num_propagations, pdone + k as nat),
                stats.num_decisions == s0.num_decisions,
                free ==> search_ok(cur, a_round),
                free ==> a_round.submap_of(assignment@),
                free ==> zero_ok(assignment@),
                forall|x: i32| #[trigger] assignment@.contains_key(x) ==> a_round.contains_key(x) || exists|k2: int| 0 <= k2 < k && var_of(units@[k2]) == x,
                forall|k2: int| 0 <= k2 < k ==> assignment@.contains_key(#[trigger] var_of(units@[k2])),
                stats_grow(s0, *stats),
                free ==> forall|val: spec_fn(int) -> bool|
                    agrees(val, a_round) ==> (formula_holds(cur, val) == formula_holds(cs0, val)),
                free ==> forall|val: spec_fn(int) -> bool|
                    agrees(val, a0) && formula_holds(cs0, val) ==> agrees(val, assignment@),
                k > 0 ==> grew(s0.num_propagations, stats.num_propagations),
                keys_from(a0, assignment@, cs0),
                forall|l: i32| #[trigger] occurs(cur, l) ==> occurs(cs0, l),
            decreases units@.len() - k,
        {
            let unit_lit_k = units[k];
            assert(unit_lit(cur, units@[k as int]));
            let ghost iu = choose|i: int| 0 <= i < cur.len() && cur[i].len() == 1 && cur[i][0] == unit_lit_k;
            assert(occurs(cur, cur[iu][0]));
            assert(occurs(cs0, unit_lit_k));
            let var = var_of_lit(unit_lit_k);
            let val = unit_lit_k > 0;
            let ghost a_before = assignment@;
            assignment.insert(var, val);
            stats.num_propagations = stats.num_propagations.saturating_add(1);
            proof {
                assert(units@.take(k + 1).drop_last() =~= units@.take(k as int));
                lemma_sat_add(s0.num_propagations, pdone + k as nat, 1);
                if free {
                    assert(!a_round.contains_key(var));
                    assert(a_round.submap_of(assignment@));
                    assert forall|v: spec_fn(int) -> bool|
                        agrees(v, a0) && formula_holds(cs0, v) implies agrees(v, assignment@) by {
                        assert(agrees(v, a_before));
                        lemma_agrees_submap(v, a_round, a_before);
                        assert(formula_holds(cur, v));
                        lemma_unit_forced(cur, iu, v);
                    }
                }
                assert forall|x: i32| #[trigger] assignment@.contains_key(x) implies a_round.contains_key(x) || exists|k2: int| 0 <= k2 < k + 1 && var_of(units@[k2]) == x by {
                    if x != var && !a_round.contains_key(x) {
                        assert(a_before.contains_key(x));
                        let k2 = choose|k2: int| 0 <= k2 < k && var_of(units@[k2]) == x;
                        assert(0 <= k2 < k + 1 && var_of(units@[k2]) == x);
                    }
                    if x == var {
                        assert(var_of(units@[k as int]) == x);
                    }
                }
            }
            k += 1;
        }
        let new_clauses = simplify(&current_clauses, assignment);
        proof {
            assert(units@.take(units@.len() as int) =~= units@);
            assert(assignment@ == insert_units(a_round, units_spec(cur)));
            lemma_simplify(cur, assignment@);
            assert(unit_lit(cur, units@[0]));
            let i0 = choose|i: int| 0 <= i < cur.len() && cur[i].len() == 1 && cur[i][0] == units@[0];
            assert(assignment@.contains_key(var_of(units@[0])));
            lemma_simplify_progress(cur, assignment@, i0);
            assert(free ==> covers(cs0, simplify_spec(cur, assignment@), assignment@)) by {
                if free {
                    lemma_covers_step(cs0, cur, a_round, assignment@);
                }
            }
            assert(free ==> forall|v: spec_fn(int) -> bool| agrees(v, assignment@) ==> agrees(v, a_round)) by {
                if free {
                    assert forall|v: spec_fn(int) -> bool| agrees(v, assignment@) implies agrees(v, a_round) by {
                        lemma_agrees_submap(v, a_round, assignment@);
                    }
                }
            }
            assert forall|l: i32| #[trigger] occurs(simplify_spec(cur, assignment@), l) implies occurs(cs0, l) by {
                assert(occurs(cur, l));
            }
        }
        current_clauses = new_clauses;
        if has_empty_clause(&current_clauses) {
            assert forall|val: spec_fn(int) -> bool| free && agrees(val, a0) implies !formula_holds(cs0, val) by {
                lemma_has_empty_unsat(deep(current_clauses@), val);
                if formula_holds(cs0, val) {
                    assert(agrees(val, assignment@));
                    assert(agrees(val, a_round));
                    assert(formula_holds(cur, val));
                }
            }
            return false;
        }
        if current_clauses.len() == 0 {
            assert forall|val: spec_fn(int) -> bool| free && agrees(val, assignment@) implies formula_holds(cs0, val) by {
                assert(formula_holds(deep(current_clauses@), val));
                assert(agrees(val, a_round));
            }
            assert(all_true(deep(current_clauses@), assignment@));
            assert(free ==> all_true(cs0, assignment@));
            return true;
        }
        proof {
            pdone = pdone + units@.len();
        }
    }
    let ghost a1 = assignment@;
    let ghost c1 = deep(current_clauses@);
    // Pure literal elimination
    let pure = find_pure_literals(&current_clauses);
    assert forall|k2: int| 0 <= k2 < pure@.len() implies lit_ok(#[trigger] pure@[k2]) by {
        assert(pure@.contains(pure@[k2]));
    }
    if pure.len() > 0 {
        assert(pure@.contains(pure@[0]));
        assert(is_pure(c1, pure@[0]));
    }
    let ghost mut cnt: nat = 0;
    proof {
        assert(open_lits(pure@.take(0), a1) =~= Set::<i32>::empty());
        lemma_sat_add(s0.num_propagations, pdone, 0);
    }
    let mut k: usize = 0;
    while k < pure.len()
        invariant
            k <= pure@.len(),
            forall|p: i32| pure@.contains(p) <==> is_pure(c1, p),
            c1 == deep(current_clauses@),
            free ==> search_ok(c1, a1),
            a1.submap_of(assignment@),
            free ==> zero_ok(assignment@),
            forall|x: i32| #[trigger] assignment@.contains_key(x) && !a1.contains_key(x) ==> exists|k2: int|
                0 <= k2 < k && var_of(pure@[k2]) == x && assignment@[x] == (pure@[k2] > 0),
            forall|k2: int| 0 <= k2 < k ==> assignment@.contains_key(#[trigger] var_of(pure@[k2])),
            stats_grow(s0, *stats),
            has_unit(cs0) ==> grew(s0.num_propagations, stats.num_propagations),
            keys_from(a0, assignment@, cs0),
            forall|l: i32| #[trigger] occurs(c1, l) ==> occurs(cs0, l),
            pure@.no_duplicates(),
            stats.num_decisions == s0.num_decisions,
            stats.num_propagations == sat_add(s0.num_propagations, pdone + cnt),
            cnt == open_lits(pure@.take(k as int), a1).len(),
        decreases pure@.len() - k,
    {
        let lit = pure[k];
        proof {
            lemma_open_lits_finite(pure@.take(k as int), a1);
            assert(pure@.take(k + 1) =~= pure@.take(k as int).push(lit));
            assert(!pure@.take(k as int).contains(lit)) by {
                if pure@.take(k as int).contains(lit) {
                    let w = choose|w: int| 0 <= w < k && pure@.take(k as int)[w] == lit;
                    assert(pure@[w] == pure@[k as int]);
                }
            }
            // The variable is open exactly when `a1` leaves it open.
            if assignment@.contains_key(var_of(lit)) && !a1.contains_key(var_of(lit)) {
                let k2 = choose|k2: int| 0 <= k2 < k && var_of(pure@[k2]) == var_of(lit) && assignment@[var_of(lit)] == (pure@[k2] > 0);
                assert(pure@.contains(pure@[k2]));
                lemma_pure_same(c1, pure@[k2], lit);
                assert(pure@[k2] == pure@[k as int]);
            }
        }
        assert(pure@.contains(pure@[k as int]));
        assert(is_pure(c1, lit));
        let var = var_of_lit(lit);
        let ghost a_before = assignment@;
        assert(occurs(cs0, lit));
        if !assignment.contains_key(&var) {
            let val = lit > 0;
            assignment.insert(var, val);
            stats.num_propagations = stats.num_propagations.saturating_add(1);
            assert(a_before.submap_of(assignment@));
            proof {
                lemma_sat_add(s0.num_propagations, pdone + cnt, 1);
                assert(!a1.contains_key(var));
                assert forall|p: i32| #[trigger] pure@.take(k + 1).contains(p) <==> (pure@.take(k as int).contains(p) || p == lit) by {
                    if pure@.take(k + 1).contains(p) {
                        let w = choose|w: int| 0 <= w < k + 1 && #[trigger] pure@.take(k + 1)[w] == p;
                        if w < k {
                            assert(pure@.take(k as int)[w] == p);
                        }
                    }
                    if pure@.take(k as int).contains(p) {
                        let w = choose|w: int| 0 <= w < k && #[trigger] pure@.take(k as int)[w] == p;
                        assert(pure@.take(k + 1)[w] == p);
                    }
                    if p == lit {
                        assert(pure@.take(k + 1)[k as int] == p);
                    }
                }
                assert(open_lits(pure@.take(k + 1), a1) =~= open_lits(pure@.take(k as int), a1).insert(lit));
                cnt = cnt + 1;
            }
        } else {
            proof {
                assert(a1.contains_key(var));
                assert forall|p: i32| #[trigger] pure@.take(k + 1).contains(p) <==> (pure@.take(k as int).contains(p) || p == lit) by {
                    if pure@.take(k + 1).contains(p) {
                        let w = choose|w: int| 0 <= w < k + 1 && #[trigger] pure@.take(k + 1)[w] == p;
                        if w < k {
                            assert(pure@.take(k as int)[w] == p);
                        }
                    }
                    if pure@.take(k as int).contains(p) {
                        let w = choose|w: int| 0 <= w < k && #[trigger] pure@.take(k as int)[w] == p;
                        assert(pure@.take(k + 1)[w] == p);
                    }
                    if p == lit {
                        assert(pure@.take(k + 1)[k as int] == p);
                    }
                }
                assert(open_lits(pure@.take(k + 1), a1) =~= open_lits(pure@.take(k as int), a1));
            }
        }
        proof {
            assert forall|x: i32| #[trigger] assignment@.contains_key(x) && !a1.contains_key(x) implies exists|k2: int|
                0 <= k2 < k + 1 && var_of(pure@[k2]) == x && assignment@[x] == (pure@[k2] > 0) by {
                if a_before.contains_key(x) {
                    let k2 = choose|k2: int| 0 <= k2 < k && var_of(pure@[k2]) == x && a_before[x] == (pure@[k2] > 0);
                    assert(0 <= k2 < k + 1 && var_of(pure@[k2]) == x && assignment@[x] == (pure@[k2] > 0));
                } else {
                    assert(x == var);
                    assert(0 <= k < k + 1 && var_of(pure@[k as int]) == x && assignment@[x] == (pure@[k as int] > 0));
                }
            }
        }
        k += 1;
    }
    let ghost a2 = assignment@;
    proof {
        assert(pure@.take(pure@.len() as int) =~= pure@);
        assert(open_lits(pure@, a1) =~= pure_new(c1, a1));
        assert(a2 =~= pure_assign(c1, a1)) by {
            assert forall|x: i32| #[trigger] a2.contains_key(x) == pure_assign(c1, a1).contains_key(x) by {
                if !a1.contains_key(x) && exists|p: i32| #[trigger] is_pure(c1, p) && var_of(p) == x {
                    let p = choose|p: i32| #[trigger] is_pure(c1, p) && var_of(p) == x;
                    assert(pure@.contains(p));
                    let w = choose|w: int| 0 <= w < pure@.len() && pure@[w] == p;
                    assert(a2.contains_key(var_of(pure@[w])));
                }
                if a2.contains_key(x) && !a1.contains_key(x) {
                    let k2 = choose|k2: int| 0 <= k2 < pure@.len() && var_of(pure@[k2]) == x && a2[x] == (pure@[k2] > 0);
                    assert(pure@.contains(pure@[k2]));
                    assert(is_pure(c1, pure@[k2]));
                }
            }
            assert forall|x: i32| #[trigger] a2.contains_key(x) implies a2[x] == pure_assign(c1, a1)[x] by {
                if !a1.contains_key(x) {
                    let k2 = choose|k2: int| 0 <= k2 < pure@.len() && var_of(pure@[k2]) == x && a2[x] == (pure@[k2] > 0);
                    assert(pure@.contains(pure@[k2]));
                    assert(is_pure(c1, pure@[k2]));
                    let p = choose|p: i32| #[trigger] is_pure(c1, p) && var_of(p) == x;
                    lemma_pure_same(c1, p, pure@[k2]);
                }
            }
        }
        if exists|p: i32| #[trigger] is_pure(c1, p) {
            let p = choose|p: i32| #[trigger] is_pure(c1, p);
            assert(pure@.contains(p));
        }
    }
    // Every assigned literal that occurs is made true by the pure assignments.
    proof {
        assert forall|l: i32| free && occurs(c1, l) && a2.contains_key(#[trigger] var_of(l)) implies lit_value(l, a2) == Some(true) by {
            let x = var_of(l);
            assert(!a1.contains_key(x));
            let k2 = choose|k2: int| 0 <= k2 < pure@.len() && var_of(pure@[k2]) == x && a2[x] == (pure@[k2] > 0);
            let p = pure@[k2];
            assert(pure@.contains(p));
            assert(is_pure(c1, p));
            assert(lit_ok(l));
            lemma_same_var(l, p);
            if l != p {
                assert(occurs(c1, (-p) as i32));
            }
        }
    }
    if pure.len() > 0 {
        current_clauses = simplify(&current_clauses, assignment);
        proof {
            lemma_simplify(c1, a2);
            if free {
                lemma_simplify_no_empty(c1, a2);
                lemma_covers_step(cs0, c1, a1, a2);
            }
        }
        if has_empty_clause(&current_clauses) {
            // Undo pure literal assignments
            let mut k: usize = 0;
            assert(assignment@ =~= a2.remove_keys(lit_vars(pure@, 0)));
            while k < pure.len()
                invariant
                    forall|k2: int| 0 <= k2 < pure@.len() ==> lit_ok(#[trigger] pure@[k2]),
                    keys_from(a0, assignment@, cs0),
                    k <= pure@.len(),
                    assignment@ == a2.remove_keys(lit_vars(pure@, k as int)),
                decreases pure@.len() - k,
            {
                let ghost before = assignment@;
                assignment.remove(&var_of_lit(pure[k]));
                k += 1;
                proof {
                    assert(lit_vars(pure@, k as int) =~= lit_vars(pure@, k - 1).insert(var_of(pure@[k - 1])));
                    assert(assignment@ =~= a2.remove_keys(lit_vars(pure@, k as int)));
                }
            }
            proof {
                assert(lit_vars(pure@, pure@.len() as int) =~= Set::new(
                    |x: i32| exists|p: i32| #[trigger] is_pure(c1, p) && var_of(p) == x,
                )) by {
                    assert forall|x: i32| #[trigger] lit_vars(pure@, pure@.len() as int).contains(x) implies exists|p: i32|
                        #[trigger] is_pure(c1, p) && var_of(p) == x by {
                        let k2 = choose|k2: int| 0 <= k2 < pure@.len() && #[trigger] var_of(pure@[k2]) == x;
                        assert(pure@.contains(pure@[k2]));
                    }
                    assert forall|x: i32| (exists|p: i32| #[trigger] is_pure(c1, p) && var_of(p) == x) implies #[trigger] lit_vars(
                        pure@,
                        pure@.len() as int,
                    ).contains(x) by {
                        let p = choose|p: i32| #[trigger] is_pure(c1, p) && var_of(p) == x;
                        assert(pure@.contains(p));
                        let w = choose|w: int| 0 <= w < pure@.len() && pure@[w] == p;
                        assert(var_of(pure@[w]) == x);
                    }
                }
                assert(assignment@ == pure_undo(c1, a2));
            }
            return false;
        }
        if current_clauses.len() == 0 {
            assert forall|val: spec_fn(int) -> bool| free && agrees(val, assignment@) implies formula_holds(cs0, val) by {
                assert(formula_holds(deep(current_clauses@), val));
                lemma_agrees_submap(val, a1, a2);
            }
            assert(all_true(deep(current_clauses@), assignment@));
            return true;
        }
    }
    let ghost c2 = deep(current_clauses@);
    proof {
        if pure.len() > 0 {
            lemma_simplify(c1, a2);
        }
        assert forall|l: i32| #[trigger] occurs(c2, l) implies occurs(cs0, l) by {
            if pure.len() > 0 {
                assert(occurs(c1, l));
            }
        }
    }
    proof {
        if free {
        lemma_covers_step(cs0, c1, a1, a2);
        // The state the branching starts from.
        if pure.len() > 0 {
            assert forall|l: i32| #[trigger] occurs(c2, l) implies l != 0 by {
                assert(occurs(c1, l));
                if l == 0 {
                    assert(is_pure(c1, 0));
                    assert(pure@.contains(0));
                    let k0 = choose|k0: int| 0 <= k0 < pure@.len() && pure@[k0] == 0;
                    assert(a2.contains_key(var_of(pure@[k0])));
                }
            }
        } else {
            assert forall|l: i32| #[trigger] occurs(c2, l) implies l != 0 by {
                if l == 0 {
                    assert(is_pure(c1, 0));
                    assert(pure@.contains(0));
                }
            }
        }
        assert forall|val: spec_fn(int) -> bool| agrees(val, a2) implies (formula_holds(c2, val) == formula_holds(cs0, val)) by {
            lemma_agrees_submap(val, a1, a2);
            if pure.len() > 0 {
                lemma_simplify(c1, a2);
            }
        }
        // Any valuation that satisfies the clauses and extends the initial
        // assignment can be changed on the pure variables to extend `a2`.
        assert forall|val: spec_fn(int) -> bool| agrees(val, a0) && formula_holds(cs0, val) implies
            exists|val2: spec_fn(int) -> bool| agrees(val2, a2) && formula_holds(c2, val2) by {
            let val2 = |x: int| if i32::MIN <= x <= i32::MAX && a2.contains_key(x as i32) { a2[x as i32] } else { val(x) };
            assert(agrees(val2, a2));
            assert(agrees(val, a1));
            assert(formula_holds(c1, val));
            assert forall|j: int| 0 <= j < c1.len() implies #[trigger] clause_holds(c1[j], val2) by {
                assert(clause_holds(c1[j], val));
                let w = choose|w: int| 0 <= w < c1[j].len() && lit_holds(c1[j][w] as int, val);
                let l = c1[j][w];
                assert(occurs(c1, l));
                if a2.contains_key(var_of(l)) {
                    lemma_lit_value_holds(l, a2, val2);
                } else {
                    lemma_lit_holds_local(l, val, val2);
                }
                assert(lit_holds(c1[j][w] as int, val2));
            }
            if pure.len() > 0 {
                lemma_simplify(c1, a2);
            }
            assert(formula_holds(c2, val2));
        }
    }
    }
    // Pick a variable to branch on
    match pick_variable(&current_clauses, assignment) {
        Some(var) => {
            stats.num_decisions = stats.num_decisions.saturating_add(1);
            let ghost v = var;
            proof {
                let l = choose|l: i32| occurs(c2, l) && v == var_of(l) && !a2.contains_key(v);
                assert(occurs(cs0, l));
                assert(mentions(cs0, v));
                assert forall|l2: i32| #[trigger] occurs(simplify_spec(c2, a2.insert(v, true)), l2) implies occurs(cs0, l2)
                    && var_of(l2) != v by {
                    lemma_simplify(c2, a2.insert(v, true));
                    assert(occurs(c2, l2));
                    assert(!a2.insert(v, true).contains_key(var_of(l2)));
                }
                assert forall|l2: i32| #[trigger] occurs(simplify_spec(c2, a2.insert(v, false)), l2) implies occurs(cs0, l2)
                    && var_of(l2) != v by {
                    lemma_simplify(c2, a2.insert(v, false));
                    assert(occurs(c2, l2));
                    assert(!a2.insert(v, false).contains_key(var_of(l2)));
                }
                if free {
                    assert(l != 0);
                    lemma_var_set_shrink(cs0, simplify_spec(c2, a2.insert(v, true)), v);
                    lemma_var_set_shrink(cs0, simplify_spec(c2, a2.insert(v, false)), v);
                }
            }
            // Try true first
            let mut assign_true = assignment.clone();
            assign_true.insert(var, true);
            let simplified = simplify(&current_clauses, &assign_true);
            proof {
                lemma_simplify(c2, assign_true@);
                assert(assign_true@ == a2.insert(v, true));
                if free {
                    assert(search_ok(deep(simplified@), assign_true@));
                }
            }
            if dpll(&simplified, &mut assign_true, stats, max_depth, depth + 1) {
                proof {
                    assert(a2.submap_of(a2.insert(v, true)));
                    lemma_branch_success(cs0, c2, a0, a2, v, true, assign_true@, free);
                    assert forall|val: spec_fn(int) -> bool| free && agrees(val, assign_true@) implies formula_holds(cs0, val) by {
                        lemma_agrees_submap(val, a2.insert(v, true), assign_true@);
                        lemma_agrees_submap(val, a2, a2.insert(v, true));
                    }
                }
                *assignment = assign_true;
                return true;
            }
            // Try false
            let mut assign_false = assignment.clone();
            assign_false.insert(var, false);
            let simplified = simplify(&current_clauses, &assign_false);
            proof {
                lemma_simplify(c2, assign_false@);
                assert(assign_false@ == a2.insert(v, false));
                if free {
                    assert(search_ok(deep(simplified@), assign_false@));
                }
            }
            if dpll(&simplified, &mut assign_false, stats, max_depth, depth + 1) {
                proof {
                    assert(a2.submap_of(a2.insert(v, false)));
                    lemma_branch_success(cs0, c2, a0, a2, v, false, assign_false@, free);
                    assert forall|val: spec_fn(int) -> bool| free && agrees(val, assign_false@) implies formula_holds(cs0, val) by {
                        lemma_agrees_submap(val, a2.insert(v, false), assign_false@);
                        lemma_agrees_submap(val, a2, a2.insert(v, false));
                    }
                }
                *assignment = assign_false;
                return true;
            }
            proof {
                assert forall|val: spec_fn(int) -> bool|
                    free && depth + var_set(cs0).len() <= max_depth && agrees(val, a0) implies !formula_holds(cs0, val) by {
                    if formula_holds(cs0, val) {
                        let val2 = choose|val2: spec_fn(int) -> bool| agrees(val2, a2) && formula_holds(c2, val2);
                        let b = val2(v as int);
                        assert(agrees(val2, a2.insert(v, b)));
                        lemma_simplify(c2, a2.insert(v, b));
                    }
                }
            }
            // Undo pure literal assignments on failure
            let mut k: usize = 0;
            assert(assignment@ =~= a2.remove_keys(lit_vars(pure@, 0)));
            while k < pure.len()
                invariant
                    forall|k2: int| 0 <= k2 < pure@.len() ==> lit_ok(#[trigger] pure@[k2]),
                    keys_from(a0, assignment@, cs0),
                    k <= pure@.len(),
                    assignment@ == a2.remove_keys(lit_vars(pure@, k as int)),
                decreases pure@.len() - k,
            {
                let ghost before = assignment@;
                assignment.remove(&var_of_lit(pure[k]));
                k += 1;
                proof {
                    assert(lit_vars(pure@, k as int) =~= lit_vars(pure@, k - 1).insert(var_of(pure@[k - 1])));
                    assert(assignment@ =~= a2.remove_keys(lit_vars(pure@, k as int)));
                }
            }
            proof {
                assert(lit_vars(pure@, pure@.len() as int) =~= Set::new(
                    |x: i32| exists|p: i32| #[trigger] is_pure(c1, p) && var_of(p) == x,
                )) by {
                    assert forall|x: i32| #[trigger] lit_vars(pure@, pure@.len() as int).contains(x) implies exists|p: i32|
                        #[trigger] is_pure(c1, p) && var_of(p) == x by {
                        let k2 = choose|k2: int| 0 <= k2 < pure@.len() && #[trigger] var_of(pure@[k2]) == x;
                        assert(pure@.contains(pure@[k2]));
                    }
                    assert forall|x: i32| (exists|p: i32| #[trigger] is_pure(c1, p) && var_of(p) == x) implies #[trigger] lit_vars(
                        pure@,
                        pure@.len() as int,
                    ).contains(x) by {
                        let p = choose|p: i32| #[trigger] is_pure(c1, p) && var_of(p) == x;
                        assert(pure@.contains(p));
                        let w = choose|w: int| 0 <= w < pure@.len() && pure@[w] == p;
                        assert(var_of(pure@[w]) == x);
                    }
                }
                assert(assignment@ == pure_undo(c1, a2));
            }
            false
        },
        None => {
            // All variables assigned: the clauses left cannot hold literals.
            proof {
                if free {
                    assert(c2[0].len() > 0);
                    assert(occurs(c2, c2[0][0]));
                }
            }
            !has_empty_clause(&current_clauses)
        },
    }
}

/// Result of a SAT solver invocation.
#[derive(Debug, Clone, PartialEq)]
pub struct SatResult {
    /// Whether the formula is satisfiable.
    pub sat: bool,
    /// Variable assignment (index = variable number - 1).
    /// `None` if unsatisfiable.
    pub assignment: Option<Vec<bool>>,
    /// Number of branching decisions made.
    pub num_decisions: u64,
    /// Number of unit propagations performed.
    pub num_propagations: u64,
}

/// The valuation an assignment vector describes: variable `x` in
/// `1..=v.len()` has value `v[x - 1]`, every other variable is false.
pub open spec fn valuation_of(v: Seq<bool>) -> spec_fn(int) -> bool {
    |x: int| if 1 <= x <= v.len() { v[x - 1] } else { false }
}

/// The largest absolute literal value is unique.
proof fn lemma_max_abs_unique(cs: Seq<Seq<i32>>, m1: int, m2: int)
    requires
        is_max_abs(cs, m1),
        is_max_abs(cs, m2),
    ensures
        m1 == m2,
{
    if m1 != 0 {
        let l = choose|l: i32| occurs(cs, l) && abs_lit(l) == m1;
    }
    if m2 != 0 {
        let l = choose|l: i32| occurs(cs, l) && abs_lit(l) == m2;
    }
}

/// The values that an assignment gives variables `1..=n`, unassigned ones
/// reading as false.
pub open spec fn assignment_values(a: Map<i32, bool>, n: nat) -> Seq<bool> {
    Seq::new(n, |i: int| if a.contains_key((i + 1) as i32) { a[(i + 1) as i32] } else { false })
}

/// The values the search gives variables `1..=m` of the clauses, from the
/// empty assignment with depth limit `m`.
pub open spec fn solved_values(cs: Seq<Seq<i32>>, m: int) -> Seq<bool> {
    assignment_values(search(cs, Map::<i32, bool>::empty(), m, 0).1, m as nat)
}

/// Solve a CNF formula using DPLL.
///
/// The result is satisfiable exactly when some valuation satisfies every
/// clause; the assignment returned then has one entry per variable
/// `1..=num_variables()` and satisfies the formula. The assignment and the
/// counters are those of the search (`search`) from the empty assignment
/// with the number of variables as depth limit.
pub fn solve(formula: &CnfFormula) -> (r: SatResult)
    requires
        lits_ok(formula.spec_clauses()),
    ensures
        r.sat == satisfiable(formula.spec_clauses()),
        r.sat ==> r.assignment is Some,
        r.assignment matches Some(v) ==> {
            &&& is_max_abs(formula.spec_clauses(), v@.len() as int)
            &&& formula_holds(formula.spec_clauses(), valuation_of(v@))
            &&& v@ == solved_values(formula.spec_clauses(), v@.len() as int)
        },
        !r.sat ==> r.assignment is None,
        is_max_abs(formula.spec_clauses(), 0) ==> r.num_decisions == 0 && r.num_propagations == 0,
        !is_max_abs(formula.spec_clauses(), 0) && !has_empty(formula.spec_clauses()) && has_unit(formula.spec_clauses())
            ==> r.num_propagations > 0,
        !is_max_abs(formula.spec_clauses(), 0) && !has_empty(formula.spec_clauses()) && !has_unit(formula.spec_clauses())
            && (forall|p: i32| !is_pure(formula.spec_clauses(), p)) ==> r.num_decisions > 0,
        forall|m: int|
            #[trigger] is_max_abs(formula.spec_clauses(), m) && m > 0 ==> {
                let o = search(formula.spec_clauses(), Map::<i32, bool>::empty(), m, 0);
                &&& r.num_decisions == sat_add(0, o.2)
                &&& r.num_propagations == sat_add(0, o.3)
                &&& r.assignment matches Some(v) ==> v@ == assignment_values(o.1, m as nat)
            },
{
    let ghost cs = formula.spec_clauses();
    let num_vars = formula.num_variables() as usize;
    if num_vars == 0 {
        // Empty formula or all literals are 0
        proof {
            assert forall|l: i32| occurs(cs, l) implies l == 0 by {}
        }
        if has_empty_clause(formula.clauses()) {
            proof {
                assert forall|val: spec_fn(int) -> bool| !formula_holds(cs, val) by {
                    lemma_has_empty_unsat(cs, val);
                }
            }
            return SatResult { sat: false, assignment: None, num_decisions: 0, num_propagations: 0 };
        }
        proof {
            let val = valuation_of(Seq::<bool>::empty());
            assert forall|j: int| 0 <= j < cs.len() implies #[trigger] clause_holds(cs[j], val) by {
                assert(cs[j].len() != 0);
                assert(occurs(cs, cs[j][0]));
                assert(lit_holds(cs[j][0] as int, val));
            }
            assert(formula_holds(cs, val));
        }
        let empty: Vec<bool> = Vec::new();
        assert(empty@ =~= Seq::<bool>::empty());
        assert(solved_values(cs, 0) =~= Seq::<bool>::empty());
        return SatResult { sat: true, assignment: Some(empty), num_decisions: 0, num_propagations: 0 };
    }
    let mut stats = SolverStats { num_decisions: 0, num_propagations: 0 };
    let mut assignment: HashMap<i32, bool> = HashMap::new();
    let ghost n = num_vars as int;
    proof {
        assert forall|l: i32| #[trigger] occurs(cs, l) implies var_of(l) <= n by {}
        assert(assignment@ =~= Map::<i32, bool>::empty());
        lemma_var_set_finite(cs);
        vstd::set_lib::lemma_int_range(1, n + 1);
        assert(var_set(cs).subset_of(vstd::set_lib::set_int_range(1, n + 1))) by {
            assert forall|x: int| var_set(cs).contains(x) implies 1 <= x < n + 1 by {
                let l = choose|l: i32| #[trigger] occurs(cs, l) && var_of(l) == x;
            }
        }
        vstd::set_lib::lemma_len_subset(var_set(cs), vstd::set_lib::set_int_range(1, n + 1));
    }
    let sat = dpll(formula.clauses(), &mut assignment, &mut stats, num_vars, 0);
    proof {
        assert forall|m: int| #[trigger] is_max_abs(cs, m) && m > 0 implies m == num_vars by {
            lemma_max_abs_unique(cs, m, num_vars as int);
        }
    }
    let assignment_vec = if sat {
        // Read each variable's value; unassigned variables default to false.
        let mut v: Vec<bool> = Vec::new();
        let ghost m = assignment@;
        let mut x: usize = 0;
        while x < num_vars
            invariant
                x <= num_vars,
                n == num_vars as int,
                n <= i32::MAX,
                m == assignment@,
                v@.len() == x,
                forall|i: int| 0 <= i < x ==> #[trigger] v@[i] == (if m.contains_key((i + 1) as i32) { m[(i + 1) as i32] } else { false }),
            decreases num_vars - x,
        {
            let var = (x + 1) as i32;
            let val = match assignment.get(&var) {
                Some(b) => *b,
                None => false,
            };
            assert(val == (if m.contains_key(var) { m[var] } else { false }));
            let ghost before = v@;
            v.push(val);
            x += 1;
            assert forall|i: int| 0 <= i < x implies #[trigger] v@[i] == (if m.contains_key((i + 1) as i32) { m[(i + 1) as i32] } else { false }) by {
                if i < x - 1 {
                    assert(v@[i] == before[i]);
                } else {
                    assert((i + 1) as i32 == var);
                }
            }
        }
        proof {
            assert forall|y: i32| #[trigger] m.contains_key(y) implies valuation_of(v@)(y as int) == m[y] by {
                assert(mentions(cs, y));
                let l = choose|l: i32| #[trigger] occurs(cs, l) && var_of(l) == y;
                assert(0 <= y <= n);
                if y > 0 {
                    assert(v@[y - 1] == m[y]);
                }
            }
            assert(agrees(valuation_of(v@), m));
            assert(formula_holds(cs, valuation_of(v@)));
            assert(v@ =~= assignment_values(m, num_vars as nat));
        }
        Some(v)
    } else {
        None
    };
    proof {
        if !sat {
            assert forall|val: spec_fn(int) -> bool| !formula_holds(cs, val) by {
                assert(agrees(val, Map::<i32, bool>::empty()));
            }
        }
    }
    SatResult {
        sat,
        assignment: assignment_vec,
        num_decisions: stats.num_decisions,
        num_propagations: stats.num_propagations,
    }
}

} // verus!
