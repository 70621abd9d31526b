//! Encoding of state transition systems into CNF for bounded model checking.
//!
//! For `n` state variables, state variable `i` (1-based) at timestep `t` is
//! the CNF variable `i + t * n`. The encoding of `k` steps is the initial
//! constraints at step 0, the transition relation between each step `t` and
//! `t + 1` for `t < k`, and the negated property at step `k`.

use vstd::prelude::*;
use crate::cnf::{
    CnfFormula, deep, lit_holds, clause_holds, formula_holds, lit_ok, lits_ok, occurs, abs_lit, occurs_before,
    lemma_occurs_before_step, lemma_occurs_before_row, lemma_occurs_before_end,
    copy_clause, satisfiable,
};

verus! {

/// A literal moved forward by `off` variables: `+v` becomes `+(v + off)` and
/// any other literal `l` becomes `l - off`.
pub open spec fn shift_lit(l: i32, off: int) -> int {
    if l > 0 {
        l + off
    } else {
        l - off
    }
}

/// A clause with every literal moved forward by `off`.
pub open spec fn shift_clause(c: Seq<i32>, off: int) -> Seq<i32> {
    c.map_values(|l: i32| shift_lit(l, off) as i32)
}

/// Clauses with every literal moved forward by `off`.
pub open spec fn shift_clauses(cs: Seq<Seq<i32>>, off: int) -> Seq<Seq<i32>> {
    cs.map_values(|c: Seq<i32>| shift_clause(c, off))
}

/// The transition relation unrolled for steps `0..k`: the copy for step `t`
/// is moved forward by `t * n`.
pub open spec fn unroll(trans: Seq<Seq<i32>>, n: int, k: nat) -> Seq<Seq<i32>>
    decreases k,
{
    if k == 0 {
        seq![]
    } else {
        unroll(trans, n, (k - 1) as nat) + shift_clauses(trans, (k - 1) * n)
    }
}

/// The valuation of the state variables at timestep `t`: state variable `x`
/// reads CNF variable `x + t * n`.
pub open spec fn state_at(val: spec_fn(int) -> bool, n: int, t: int) -> spec_fn(int) -> bool {
    |x: int| val(x + t * n)
}

proof fn lemma_mul_mono(a: int, b: int, n: int)
    requires
        0 <= a <= b,
        0 <= n,
    ensures
        a * n <= b * n,
{
    assert(a * n <= b * n) by (nonlinear_arith)
        requires
            0 <= a <= b,
            0 <= n,
    ;
}

pub(crate) proof fn lemma_holds_concat(a: Seq<Seq<i32>>, b: Seq<Seq<i32>>, val: spec_fn(int) -> bool)
    ensures
        formula_holds(a + b, val) == (formula_holds(a, val) && formula_holds(b, val)),
{
    if formula_holds(a + b, val) {
        assert forall|j: int| 0 <= j < a.len() implies #[trigger] clause_holds(a[j], val) by {
            assert((a + b)[j] == a[j]);
        }
        assert forall|j: int| 0 <= j < b.len() implies #[trigger] clause_holds(b[j], val) by {
            assert((a + b)[a.len() + j] == b[j]);
        }
    }
    if formula_holds(a, val) && formula_holds(b, val) {
        assert forall|j: int| 0 <= j < (a + b).len() implies #[trigger] clause_holds((a + b)[j], val) by {
            if j < a.len() {
                assert((a + b)[j] == a[j]);
            } else {
                assert((a + b)[j] == b[j - a.len()]);
            }
        }
    }
}

/// Moving every literal forward by `t * n` is the same as reading the
/// valuation at timestep `t`.
proof fn lemma_shift_clauses(cs: Seq<Seq<i32>>, val: spec_fn(int) -> bool, n: int, t: int)
    requires
        0 <= n,
        0 <= t,
        forall|l: i32| #[trigger] occurs(cs, l) ==> lit_ok(l) && abs_lit(l) + t * n <= i32::MAX,
    ensures
        formula_holds(shift_clauses(cs, t * n), val) == formula_holds(cs, state_at(val, n, t)),
{
    let off = t * n;
    assert(0 <= t * n) by (nonlinear_arith)
        requires
            0 <= n,
            0 <= t,
    ;
    let sv = state_at(val, n, t);
    assert forall|j: int| 0 <= j < cs.len() implies #[trigger] clause_holds(shift_clauses(cs, off)[j], val)
        == clause_holds(cs[j], sv) by {
        let c = cs[j];
        let sc = shift_clauses(cs, off)[j];
        assert(sc == shift_clause(c, off));
        assert forall|w: int| 0 <= w < c.len() implies #[trigger] lit_holds(sc[w] as int, val) == lit_holds(
            c[w] as int,
            sv,
        ) by {
            assert(occurs(cs, c[w]));
            assert(sc[w] == shift_lit(c[w], off) as i32);
        }
        if clause_holds(sc, val) {
            let w = choose|w: int| 0 <= w < sc.len() && lit_holds(sc[w] as int, val);
            assert(lit_holds(c[w] as int, sv));
        }
        if clause_holds(c, sv) {
            let w = choose|w: int| 0 <= w < c.len() && lit_holds(c[w] as int, sv);
            assert(lit_holds(sc[w] as int, val));
        }
    }
    if formula_holds(shift_clauses(cs, off), val) {
        assert forall|j: int| 0 <= j < cs.len() implies #[trigger] clause_holds(cs[j], sv) by {
            assert(clause_holds(shift_clauses(cs, off)[j], val));
        }
    }
    if formula_holds(cs, sv) {
        assert forall|j: int| 0 <= j < shift_clauses(cs, off).len() implies #[trigger] clause_holds(
            shift_clauses(cs, off)[j],
            val,
        ) by {
            assert(clause_holds(cs[j], sv));
        }
    }
}

proof fn lemma_unroll(trans: Seq<Seq<i32>>, n: int, k: nat, val: spec_fn(int) -> bool)
    requires
        0 <= n,
        k >= 1 ==> forall|l: i32| #[trigger] occurs(trans, l) ==> lit_ok(l) && abs_lit(l) + (k - 1) * n <= i32::MAX,
    ensures
        formula_holds(unroll(trans, n, k), val) == forall|t: int|
            0 <= t < k ==> #[trigger] formula_holds(trans, state_at(val, n, t)),
    decreases k,
{
    if k == 0 {
        assert(unroll(trans, n, k) =~= Seq::<Seq<i32>>::empty());
    } else {
        let km = (k - 1) as nat;
        if km >= 1 {
            lemma_mul_mono(km - 1, k - 1, n);
        }
        lemma_unroll(trans, n, km, val);
        lemma_holds_concat(unroll(trans, n, km), shift_clauses(trans, km * n), val);
        lemma_shift_clauses(trans, val, n, km as int);
        if formula_holds(unroll(trans, n, k), val) {
            assert forall|t: int| 0 <= t < k implies #[trigger] formula_holds(trans, state_at(val, n, t)) by {
                if t < km {
                    assert(formula_holds(trans, state_at(val, n, t)));
                }
            }
        }
    }
}

/// Move a transition clause to step `t`: a current-state variable `v`
/// (at most `num_vars`) becomes `v + t * num_vars` and a next-state variable
/// `v` becomes `(v - num_vars) + (t + 1) * num_vars`, keeping the sign.
fn shift_transition_clause(clause: &Vec<i32>, num_vars: usize, t: usize) -> (r: Vec<i32>)
    requires
        t < usize::MAX,
        forall|j: int| 0 <= j < clause@.len() ==> lit_ok(#[trigger] clause@[j]) && abs_lit(clause@[j]) + t * num_vars <= i32::MAX,
    ensures
        r@ == shift_clause(clause@, t * num_vars),
{
    let mut out: Vec<i32> = Vec::new();
    let mut j: usize = 0;
    while j < clause.len()
        invariant
            j <= clause@.len(),
            t < usize::MAX,
            forall|j: int| 0 <= j < clause@.len() ==> lit_ok(#[trigger] clause@[j]) && abs_lit(clause@[j]) + t * num_vars <= i32::MAX,
            out@ == shift_clause(clause@.take(j as int), t * num_vars),
        decreases clause@.len() - j,
    {
        let lit = clause[j];
        assert(lit_ok(clause@[j as int]));
        let var: usize = if lit < 0 {
            (-lit) as usize
        } else {
            lit as usize
        };
        assert(var == abs_lit(lit));
        let shifted: i32 = if var <= num_vars {
            (var + t * num_vars) as i32
        } else {
            assert((t + 1) * num_vars == t * num_vars + num_vars) by (nonlinear_arith);
            ((var - num_vars) + (t + 1) * num_vars) as i32
        };
        assert(shifted == abs_lit(lit) + t * num_vars);
        let s = if lit > 0 {
            shifted
        } else {
            -shifted
        };
        assert(s == shift_lit(lit, t * num_vars));
        out.push(s);
        j += 1;
        assert(out@ =~= shift_clause(clause@.take(j as int), t * num_vars));
    }
    assert(clause@.take(clause@.len() as int) =~= clause@);
    out
}

/// Move a property clause to step `k`: variable `v` becomes
/// `v + k * num_vars`, keeping the sign.
fn shift_property_clause(clause: &Vec<i32>, num_vars: usize, k: usize) -> (r: Vec<i32>)
    requires
        forall|j: int| 0 <= j < clause@.len() ==> lit_ok(#[trigger] clause@[j]) && abs_lit(clause@[j]) + k * num_vars <= i32::MAX,
    ensures
        r@ == shift_clause(clause@, k * num_vars),
{
    let mut out: Vec<i32> = Vec::new();
    let mut j: usize = 0;
    while j < clause.len()
        invariant
            j <= clause@.len(),
            forall|j: int| 0 <= j < clause@.len() ==> lit_ok(#[trigger] clause@[j]) && abs_lit(clause@[j]) + k * num_vars <= i32::MAX,
            out@ == shift_clause(clause@.take(j as int), k * num_vars),
        decreases clause@.len() - j,
    {
        let lit = clause[j];
        assert(lit_ok(clause@[j as int]));
        let var: usize = if lit < 0 {
            (-lit) as usize
        } else {
            lit as usize
        };
        let shifted = (var + k * num_vars) as i32;
        let s = if lit > 0 {
            shifted
        } else {
            -shifted
        };
        assert(s == shift_lit(lit, k * num_vars));
        out.push(s);
        j += 1;
        assert(out@ =~= shift_clause(clause@.take(j as int), k * num_vars));
    }
    assert(clause@.take(clause@.len() as int) =~= clause@);
    out
}

/// Encoding of a transition system into CNF.
#[derive(Debug, Clone)]
pub struct TransitionEncoding {
    /// Number of boolean state variables.
    pub num_vars: usize,
    /// Clauses constraining the initial state (at timestep 0).
    pub initial: Vec<Vec<i32>>,
    /// Transition relation clauses: variables `1..=num_vars` are the current
    /// state and `num_vars+1..=2*num_vars` the next state.
    pub transition: Vec<Vec<i32>>,
    /// Negated property clauses at the final timestep.
    pub property: Vec<Vec<i32>>,
}

impl TransitionEncoding {
    /// The BMC formula for `k` steps.
    pub open spec fn spec_encode(&self, k: nat) -> Seq<Seq<i32>> {
        deep(self.initial@) + unroll(deep(self.transition@), self.num_vars as int, k)
            + shift_clauses(deep(self.property@), k * self.num_vars)
    }

    /// Every moved literal of the `k`-step encoding fits in an `i32`: moving
    /// the transition literals by `(k - 1) * num_vars` and the property
    /// literals by `k * num_vars` stays within `i32::MAX`.
    pub open spec fn encodable(&self, k: nat) -> bool {
        &&& k >= 1 ==> forall|l: i32|
            #[trigger] occurs(deep(self.transition@), l) ==> lit_ok(l) && abs_lit(l) + (k - 1)
                * self.num_vars <= i32::MAX
        &&& forall|l: i32|
            #[trigger] occurs(deep(self.property@), l) ==> lit_ok(l) && abs_lit(l) + k
                * self.num_vars <= i32::MAX
    }

    /// `val` describes a run of `k` steps that starts in an initial state,
    /// takes a transition at every step and violates the property at the end.
    pub open spec fn is_violating_run(&self, k: nat, val: spec_fn(int) -> bool) -> bool {
        let n = self.num_vars as int;
        &&& formula_holds(deep(self.initial@), val)
        &&& forall|t: int|
            0 <= t < k ==> #[trigger] formula_holds(deep(self.transition@), state_at(val, n, t))
        &&& formula_holds(deep(self.property@), state_at(val, n, k as int))
    }

    /// Create a new encoding with the given number of state variables.
    pub fn new(num_vars: usize) -> (e: Self)
        ensures
            e.num_vars == num_vars,
            e.initial@.len() == 0,
            e.transition@.len() == 0,
            e.property@.len() == 0,
    {
        TransitionEncoding {
            num_vars,
            initial: Vec::new(),
            transition: Vec::new(),
            property: Vec::new(),
        }
    }

    /// Set the initial state constraints.
    pub fn initial(self, clauses: Vec<Vec<i32>>) -> (e: Self)
        ensures
            e.num_vars == self.num_vars,
            e.initial@ == clauses@,
            e.transition@ == self.transition@,
            e.property@ == self.property@,
    {
        let mut s = self;
        s.initial = clauses;
        s
    }

    /// Set the transition relation clauses.
    ///
    /// Variables `1..=num_vars` represent the current state,
    /// variables `num_vars+1..=2*num_vars` represent the next state.
    pub fn transition(self, clauses: Vec<Vec<i32>>) -> (e: Self)
        ensures
            e.num_vars == self.num_vars,
            e.initial@ == self.initial@,
            e.transition@ == clauses@,
            e.property@ == self.property@,
    {
        let mut s = self;
        s.transition = clauses;
        s
    }

    /// Set the negated property clauses (checked at the final timestep).
    pub fn negated_property(self, clauses: Vec<Vec<i32>>) -> (e: Self)
        ensures
            e.num_vars == self.num_vars,
            e.initial@ == self.initial@,
            e.transition@ == self.transition@,
            e.property@ == clauses@,
    {
        let mut s = self;
        s.property = clauses;
        s
    }

    /// Encode the BMC problem for `k` steps: the initial clauses, the
    /// transition clauses moved to each step `t < k`, and the property
    /// clauses moved to step `k`.
    pub fn encode(&self, k: usize) -> (f: CnfFormula)
        requires
            self.encodable(k as nat),
        ensures
            f.spec_clauses() == self.spec_encode(k as nat),
    {
        let ghost init = deep(self.initial@);
        let ghost trans = deep(self.transition@);
        let ghost prop = deep(self.property@);
        let ghost n = self.num_vars as int;
        let mut formula = CnfFormula::new();
        // Initial state at timestep 0
        let mut i: usize = 0;
        while i < self.initial.len()
            invariant
                i <= self.initial@.len(),
                init == deep(self.initial@),
                formula.spec_clauses() == init.take(i as int),
            decreases self.initial@.len() - i,
        {
            formula = formula.add_clause(copy_clause(&self.initial[i]));
            i += 1;
            assert(formula.spec_clauses() =~= init.take(i as int));
        }
        assert(init.take(init.len() as int) =~= init);
        // Unroll the transition relation for k steps
        let mut t: usize = 0;
        while t < k
            invariant
                t <= k,
                init == deep(self.initial@),
                trans == deep(self.transition@),
                n == self.num_vars as int,
                self.encodable(k as nat),
                formula.spec_clauses() == init + unroll(trans, n, t as nat),
            decreases k - t,
        {
            proof {
                lemma_mul_mono(t as int, k - 1, n);
            }
            let mut ci: usize = 0;
            while ci < self.transition.len()
                invariant
                    t < k,
                    ci <= self.transition@.len(),
                    init == deep(self.initial@),
                    trans == deep(self.transition@),
                    n == self.num_vars as int,
                    self.encodable(k as nat),
                    t * n <= (k - 1) * n,
                    formula.spec_clauses() == init + unroll(trans, n, t as nat) + shift_clauses(trans, t * n).take(ci as int),
                decreases self.transition@.len() - ci,
            {
                let clause = &self.transition[ci];
                assert forall|j: int| 0 <= j < clause@.len() implies lit_ok(#[trigger] clause@[j]) && abs_lit(clause@[j]) + t * self.num_vars <= i32::MAX by {
                    assert(trans[ci as int][j] == clause@[j]);
                    assert(occurs(trans, clause@[j]));
                }
                let shifted = shift_transition_clause(clause, self.num_vars, t);
                let ghost before = formula.spec_clauses();
                formula = formula.add_clause(shifted);
                ci += 1;
                assert(shift_clauses(trans, t * n).take(ci as int) =~= shift_clauses(trans, t * n).take(ci - 1).push(shift_clause(trans[ci - 1], t * n)));
                assert(formula.spec_clauses() =~= init + unroll(trans, n, t as nat) + shift_clauses(trans, t * n).take(ci as int));
            }
            assert(shift_clauses(trans, t * n).take(trans.len() as int) =~= shift_clauses(trans, t * n));
            assert(unroll(trans, n, (t + 1) as nat) == unroll(trans, n, t as nat) + shift_clauses(trans, t * n));
            t += 1;
        }
        // Negated property at the final step
        let mut ci: usize = 0;
        while ci < self.property.len()
            invariant
                ci <= self.property@.len(),
                init == deep(self.initial@),
                trans == deep(self.transition@),
                prop == deep(self.property@),
                n == self.num_vars as int,
                self.encodable(k as nat),
                formula.spec_clauses() == init + unroll(trans, n, k as nat) + shift_clauses(prop, k * n).take(ci as int),
            decreases self.property@.len() - ci,
        {
            let clause = &self.property[ci];
            assert forall|j: int| 0 <= j < clause@.len() implies lit_ok(#[trigger] clause@[j]) && abs_lit(clause@[j]) + k * self.num_vars <= i32::MAX by {
                assert(prop[ci as int][j] == clause@[j]);
                assert(occurs(prop, clause@[j]));
            }
            let shifted = shift_property_clause(clause, self.num_vars, k);
            formula = formula.add_clause(shifted);
            ci += 1;
            assert(shift_clauses(prop, k * n).take(ci as int) =~= shift_clauses(prop, k * n).take(ci - 1).push(shift_clause(prop[ci - 1], k * n)));
            assert(formula.spec_clauses() =~= init + unroll(trans, n, k as nat) + shift_clauses(prop, k * n).take(ci as int));
        }
        assert(shift_clauses(prop, k * n).take(prop.len() as int) =~= shift_clauses(prop, k * n));
        formula
    }
}

proof fn lemma_lits_ok_concat(a: Seq<Seq<i32>>, b: Seq<Seq<i32>>)
    requires
        lits_ok(a),
        lits_ok(b),
    ensures
        lits_ok(a + b),
{
    assert forall|i: int, j: int| 0 <= i < (a + b).len() && 0 <= j < (a + b)[i].len() implies lit_ok(
        #[trigger] (a + b)[i][j],
    ) by {
        if i < a.len() {
            assert((a + b)[i] == a[i]);
        } else {
            assert((a + b)[i] == b[i - a.len()]);
        }
    }
}

proof fn lemma_lits_ok_shift(cs: Seq<Seq<i32>>, off: int)
    requires
        0 <= off,
        forall|l: i32| #[trigger] occurs(cs, l) ==> lit_ok(l) && abs_lit(l) + off <= i32::MAX,
    ensures
        lits_ok(shift_clauses(cs, off)),
{
    assert forall|i: int, j: int|
        0 <= i < shift_clauses(cs, off).len() && 0 <= j < shift_clauses(cs, off)[i].len() implies lit_ok(
        #[trigger] shift_clauses(cs, off)[i][j],
    ) by {
        assert(shift_clauses(cs, off)[i] == shift_clause(cs[i], off));
        assert(occurs(cs, cs[i][j]));
    }
}

proof fn lemma_lits_ok_unroll(trans: Seq<Seq<i32>>, n: int, k: nat)
    requires
        0 <= n,
        k >= 1 ==> forall|l: i32| #[trigger] occurs(trans, l) ==> lit_ok(l) && abs_lit(l) + (k - 1) * n <= i32::MAX,
    ensures
        lits_ok(unroll(trans, n, k)),
    decreases k,
{
    if k == 0 {
        assert(unroll(trans, n, k) =~= Seq::<Seq<i32>>::empty());
    } else {
        let km = (k - 1) as nat;
        if km >= 1 {
            lemma_mul_mono(km - 1, k - 1, n);
        }
        lemma_lits_ok_unroll(trans, n, km);
        assert(0 <= km * n) by (nonlinear_arith)
            requires
                0 <= n,
        ;
        lemma_lits_ok_shift(trans, km * n);
        lemma_lits_ok_concat(unroll(trans, n, km), shift_clauses(trans, km * n));
    }
}

impl TransitionEncoding {
    /// An encodable system is encodable for fewer steps, and the literals of
    /// its encoding are representable when the initial ones are.
    pub proof fn lemma_encodable(&self, k: nat, j: nat)
        requires
            self.encodable(k),
            j <= k,
        ensures
            self.encodable(j),
            lits_ok(deep(self.initial@)) ==> lits_ok(self.spec_encode(k)),
    {
        let n = self.num_vars as int;
        if j >= 1 {
            lemma_mul_mono(j - 1, k - 1, n);
        }
        lemma_mul_mono(j as int, k as int, n);
        lemma_lits_ok_unroll(deep(self.transition@), n, k);
        assert(0 <= k * n) by (nonlinear_arith)
            requires
                0 <= n,
        ;
        lemma_lits_ok_shift(deep(self.property@), k * n);
        if lits_ok(deep(self.initial@)) {
            lemma_lits_ok_concat(deep(self.initial@), unroll(deep(self.transition@), n, k));
            lemma_lits_ok_concat(
                deep(self.initial@) + unroll(deep(self.transition@), n, k),
                shift_clauses(deep(self.property@), k * n),
            );
        }
    }
}

/// The `k`-step encoding holds under a valuation exactly when the valuation
/// describes a run of `k` steps from an initial state to a violation of the
/// property. So the encoding is satisfiable exactly when such a run exists.
pub proof fn lemma_encoding_describes_runs(enc: TransitionEncoding, k: nat, val: spec_fn(int) -> bool)
    requires
        enc.encodable(k),
    ensures
        formula_holds(enc.spec_encode(k), val) == enc.is_violating_run(k, val),
        satisfiable(enc.spec_encode(k)) == exists|v: spec_fn(int) -> bool| enc.is_violating_run(k, v),
{
    let n = enc.num_vars as int;
    let init = deep(enc.initial@);
    let trans = deep(enc.transition@);
    let prop = deep(enc.property@);
    assert forall|v: spec_fn(int) -> bool| #[trigger] formula_holds(enc.spec_encode(k), v) == enc.is_violating_run(k, v) by {
        lemma_holds_concat(init + unroll(trans, n, k), shift_clauses(prop, k * n), v);
        lemma_holds_concat(init, unroll(trans, n, k), v);
        lemma_unroll(trans, n, k, v);
        lemma_shift_clauses(prop, v, n, k as int);
        assert(state_at(v, n, 0) =~= v);
    }
    if satisfiable(enc.spec_encode(k)) {
        let v = choose|v: spec_fn(int) -> bool| formula_holds(enc.spec_encode(k), v);
        assert(enc.is_violating_run(k, v));
    }
    if exists|v: spec_fn(int) -> bool| enc.is_violating_run(k, v) {
        let v = choose|v: spec_fn(int) -> bool| enc.is_violating_run(k, v);
        assert(formula_holds(enc.spec_encode(k), v));
    }
}

proof fn lemma_unroll_len(trans: Seq<Seq<i32>>, n: int, k: nat)
    ensures
        unroll(trans, n, k).len() == k * trans.len(),
    decreases k,
{
    if k > 0 {
        lemma_unroll_len(trans, n, (k - 1) as nat);
        assert(shift_clauses(trans, (k - 1) * n).len() == trans.len());
        assert(k * trans.len() == (k - 1) * trans.len() + trans.len()) by (nonlinear_arith);
    } else {
        assert(k * trans.len() == 0) by (nonlinear_arith)
            requires
                k == 0,
        ;
    }
}

/// The encoding grows linearly with the bound: for `k` steps it holds the
/// initial clauses, `k` copies of the transition clauses and the property
/// clauses.
pub proof fn lemma_encoding_size(enc: TransitionEncoding, k: nat)
    ensures
        enc.spec_encode(k).len() == enc.initial@.len() + k * enc.transition@.len() + enc.property@.len(),
{
    lemma_unroll_len(deep(enc.transition@), enc.num_vars as int, k);
}

/// Raising the bound by one appends one more moved copy of the transition
/// clauses and moves the property clauses to the new last step; the
/// clauses before the property are kept.
pub proof fn lemma_encoding_grows(enc: TransitionEncoding, k: nat)
    ensures
        enc.spec_encode(k + 1).len() == enc.spec_encode(k).len() + enc.transition@.len(),
        enc.spec_encode(k + 1).take(enc.spec_encode(k).len() - enc.property@.len()) == enc.spec_encode(k).take(
            enc.spec_encode(k).len() - enc.property@.len(),
        ),
{
    let init = deep(enc.initial@);
    let trans = deep(enc.transition@);
    let prop = deep(enc.property@);
    let n = enc.num_vars as int;
    let base = init + unroll(trans, n, k);
    assert(unroll(trans, n, k + 1) == unroll(trans, n, k) + shift_clauses(trans, k * n));
    assert(enc.spec_encode(k) == base + shift_clauses(prop, k * n));
    assert(enc.spec_encode(k + 1) =~= base + (shift_clauses(trans, k * n) + shift_clauses(prop, (k + 1) * n)));
    assert(enc.spec_encode(k + 1).take(base.len() as int) =~= base);
    assert(enc.spec_encode(k).take(base.len() as int) =~= base);
}

/// Every literal of the clauses is representable and stays within
/// `i32::MAX` when moved by `off`.
pub open spec fn lits_fit(cs: Seq<Seq<i32>>, off: int) -> bool {
    forall|l: i32| #[trigger] occurs(cs, l) ==> lit_ok(l) && abs_lit(l) + off <= i32::MAX
}

/// Whether every literal of the clauses fits when moved by `off`; `None`
/// stands for an offset beyond `usize::MAX`.
fn clauses_fit(clauses: &Vec<Vec<i32>>, off: Option<usize>, Ghost(off_int): Ghost<int>) -> (r: bool)
    requires
        off_int >= 0,
        off matches Some(o) ==> o == off_int,
        off is None ==> off_int > usize::MAX,
    ensures
        r == lits_fit(deep(clauses@), off_int),
{
    let ghost cs = deep(clauses@);
    let mut i: usize = 0;
    while i < clauses.len()
        invariant
            i <= clauses@.len(),
            cs == deep(clauses@),
            off_int >= 0,
            off matches Some(o) ==> o == off_int,
            off is None ==> off_int > usize::MAX,
            forall|l: i32| occurs_before(cs, i as int, 0, l) ==> lit_ok(l) && abs_lit(l) + off_int <= i32::MAX,
        decreases clauses@.len() - i,
    {
        let clause = &clauses[i];
        assert(clause@ == cs[i as int]);
        let mut j: usize = 0;
        while j < clause.len()
            invariant
                i < clauses@.len(),
                j <= clause@.len(),
                clause@ == cs[i as int],
                cs == deep(clauses@),
                off_int >= 0,
                off matches Some(o) ==> o == off_int,
                off is None ==> off_int > usize::MAX,
                forall|l: i32| occurs_before(cs, i as int, j as int, l) ==> lit_ok(l) && abs_lit(l) + off_int <= i32::MAX,
            decreases clause@.len() - j,
        {
            let lit = clause[j];
            assert(cs[i as int][j as int] == lit);
            assert(occurs(cs, lit));
            if lit == i32::MIN {
                return false;
            }
            let a: u64 = if lit < 0 { (-lit) as u64 } else { lit as u64 };
            assert(a == abs_lit(lit));
            match off {
                Some(o) => {
                    if o as u64 > 2147483647u64 || a + o as u64 > 2147483647u64 {
                        return false;
                    }
                },
                None => {
                    return false;
                },
            }
            assert(lit_ok(lit) && abs_lit(lit) + off_int <= i32::MAX);
            proof {
                lemma_occurs_before_step(cs, i as int, j as int);
                assert forall|l: i32| occurs_before(cs, i as int, j + 1, l) implies lit_ok(l) && abs_lit(l) + off_int
                    <= i32::MAX by {
                    if l != lit {
                        assert(occurs_before(cs, i as int, j as int, l));
                    }
                }
            }
            j += 1;
        }
        proof {
            lemma_occurs_before_row(cs, i as int);
            assert forall|l: i32| occurs_before(cs, i + 1, 0, l) implies lit_ok(l) && abs_lit(l) + off_int <= i32::MAX by {
                assert(occurs_before(cs, i as int, clause@.len() as int, l));
            }
        }
        i += 1;
    }
    proof {
        lemma_occurs_before_end(cs);
        assert forall|l: i32| #[trigger] occurs(cs, l) implies lit_ok(l) && abs_lit(l) + off_int <= i32::MAX by {
            assert(occurs_before(cs, cs.len() as int, 0, l));
        }
    }
    true
}

impl TransitionEncoding {
    /// Whether the encoding for `k` steps is encodable.
    pub(crate) fn encodable_at(&self, k: usize) -> (b: bool)
        ensures
            b == self.encodable(k as nat),
    {
        let trans_ok = if k >= 1 {
            let off = (k - 1).checked_mul(self.num_vars);
            clauses_fit(&self.transition, off, Ghost(((k - 1) * self.num_vars) as int))
        } else {
            true
        };
        let off = k.checked_mul(self.num_vars);
        let prop_ok = clauses_fit(&self.property, off, Ghost((k * self.num_vars) as int));
        proof {
            assert(0 <= k * self.num_vars) by (nonlinear_arith);
            if k >= 1 {
                assert(0 <= (k - 1) * self.num_vars) by (nonlinear_arith)
                    requires
                        k >= 1,
                ;
            }
        }
        trans_ok && prop_ok
    }
}

/// Convenience function: encode and return the CNF formula.
pub fn encode_bmc(
    num_vars: usize,
    initial: Vec<Vec<i32>>,
    transition: Vec<Vec<i32>>,
    property: Vec<Vec<i32>>,
    k: usize,
) -> (f: CnfFormula)
    requires
        (TransitionEncoding { num_vars, initial, transition, property }).encodable(k as nat),
    ensures
        f.spec_clauses() == (TransitionEncoding { num_vars, initial, transition, property }).spec_encode(k as nat),
{
    let ghost spec_enc = TransitionEncoding { num_vars, initial, transition, property };
    let enc = TransitionEncoding::new(num_vars).initial(initial).transition(transition).negated_property(
        property,
    );
    assert(enc.initial@ == spec_enc.initial@);
    assert(enc.transition@ == spec_enc.transition@);
    assert(enc.property@ == spec_enc.property@);
    assert(enc.encodable(k as nat) == spec_enc.encodable(k as nat));
    assert(enc.spec_encode(k as nat) == spec_enc.spec_encode(k as nat));
    enc.encode(k)
}

} // verus!
