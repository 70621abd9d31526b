//! The one-hot encoding of an explicit transition system, and why it is
//! right: one variable per state and step, exactly one state active at
//! each step, transitions followed along successor lists, and a violating
//! state active at the last step.

use vstd::prelude::*;
use crate::cnf::{lit_holds, clause_holds, formula_holds, satisfiable, deep, copy_clause, occurs, lit_ok, abs_lit};
use crate::encoding::{TransitionEncoding, state_at, lemma_encoding_describes_runs, lemma_holds_concat};

verus! {

/// The variable of state `s` at the current step: `s + 1`.
pub open spec fn cur_var(s: int) -> i32 {
    (s + 1) as i32
}

/// The variable of state `s` at the next step: `s + 1 + n`.
pub open spec fn next_var(s: int, n: int) -> i32 {
    (s + 1 + n) as i32
}

/// The negated current-step variables of the states `0..n`.
pub open spec fn neg_cur_vars(n: nat) -> Seq<i32> {
    Seq::new(n, |s: int| (-(s + 1)) as i32)
}

/// The negated next-step variables of the states `0..n`.
pub open spec fn neg_next_vars(n: nat) -> Seq<i32> {
    Seq::new(n, |s: int| (-(s + 1 + n)) as i32)
}

/// The clauses `prefix + [s[i], s[j]]` for `j` from `i + 1` on.
pub open spec fn pair_row(prefix: Seq<i32>, s: Seq<i32>, i: int) -> Seq<Seq<i32>> {
    Seq::new((s.len() - i - 1) as nat, |d: int| prefix + seq![s[i], s[i + 1 + d]])
}

/// The rows of pair clauses for `i` below `k`.
pub open spec fn pair_rows(prefix: Seq<i32>, s: Seq<i32>, k: nat) -> Seq<Seq<i32>>
    decreases k,
{
    if k == 0 {
        seq![]
    } else {
        pair_rows(prefix, s, (k - 1) as nat) + pair_row(prefix, s, k - 1)
    }
}

/// The clauses `prefix + [s[i], s[j]]` for every pair `i < j`, ordered by
/// `i` and then by `j`.
pub open spec fn pair_clauses(prefix: Seq<i32>, s: Seq<i32>) -> Seq<Seq<i32>> {
    pair_rows(prefix, s, s.len())
}

/// The current-step variables of the initial states below `n`, in order.
pub open spec fn init_lits(init: Seq<usize>, n: int) -> Seq<i32>
    decreases init.len(),
{
    if init.len() == 0 {
        seq![]
    } else {
        let r = init_lits(init.drop_last(), n);
        if init.last() < n {
            r.push(cur_var(init.last() as int))
        } else {
            r
        }
    }
}

/// The next-step variables of the successors below `n`, in order.
pub open spec fn succ_lits(tos: Seq<usize>, n: int) -> Seq<i32>
    decreases tos.len(),
{
    if tos.len() == 0 {
        seq![]
    } else {
        let r = succ_lits(tos.drop_last(), n);
        if tos.last() < n {
            r.push(next_var(tos.last() as int, n))
        } else {
            r
        }
    }
}

/// The current-step variables of the states below `k` that are bad, in order.
pub open spec fn bad_lits(bad: spec_fn(usize) -> bool, k: nat) -> Seq<i32>
    decreases k,
{
    if k == 0 {
        seq![]
    } else {
        bad_lits(bad, (k - 1) as nat) + (if bad((k - 1) as usize) {
            seq![cur_var(k - 1)]
        } else {
            seq![]
        })
    }
}

/// The successors of state `s` (none when it has no entry).
pub open spec fn succs(m: Map<usize, Seq<usize>>, s: usize) -> Seq<usize> {
    if m.contains_key(s) {
        m[s]
    } else {
        Seq::<usize>::empty()
    }
}

/// The clause for leaving state `s`: if `s` is active now, one of its
/// successors below `n` is active next (so a state without successors
/// cannot be active before a step).
pub open spec fn step_clause(m: Map<usize, Seq<usize>>, n: nat, s: int) -> Seq<i32> {
    seq![(-(s + 1)) as i32] + succ_lits(succs(m, s as usize), n as int)
}

/// Initial clauses: some initial state is active, and no two states are.
pub open spec fn one_hot_initial(init: Seq<usize>, n: nat) -> Seq<Seq<i32>> {
    seq![init_lits(init, n as int)] + pair_clauses(seq![], neg_cur_vars(n))
}

/// Transition clauses: no two states are active next, and an active state
/// moves to one of its successors.
pub open spec fn one_hot_transition(m: Map<usize, Seq<usize>>, n: nat) -> Seq<Seq<i32>> {
    pair_clauses(seq![], neg_next_vars(n)) + Seq::new(n, |s: int| step_clause(m, n, s))
}

/// `path` is a run of `k` steps through the states below `n`: it starts
/// in an initial state, follows successor lists and ends in a bad state.
pub open spec fn is_violating_path(
    init: Seq<usize>,
    m: Map<usize, Seq<usize>>,
    bad: spec_fn(usize) -> bool,
    n: nat,
    k: nat,
    path: Seq<usize>,
) -> bool {
    &&& path.len() == k + 1
    &&& forall|t: int| 0 <= t <= k ==> #[trigger] path[t] < n
    &&& init.contains(path[0])
    &&& forall|t: int| 0 <= t < k ==> #[trigger] succs(m, path[t]).contains(path[t + 1])
    &&& bad(path[k as int])
}

// ---------------------------------------------------------------------------
// Clauses under one step's valuation
// ---------------------------------------------------------------------------

proof fn lemma_clause_push(c: Seq<i32>, x: i32, v: spec_fn(int) -> bool)
    ensures
        clause_holds(c.push(x), v) == (clause_holds(c, v) || lit_holds(x as int, v)),
{
    if clause_holds(c.push(x), v) {
        let i = choose|i: int| 0 <= i < c.push(x).len() && lit_holds(c.push(x)[i] as int, v);
        if i < c.len() {
            assert(lit_holds(c[i] as int, v));
        }
    }
    if clause_holds(c, v) {
        let i = choose|i: int| 0 <= i < c.len() && lit_holds(c[i] as int, v);
        assert(c.push(x)[i] == c[i]);
    }
    if lit_holds(x as int, v) {
        assert(c.push(x)[c.len() as int] == x);
    }
}

proof fn lemma_clause_concat(a: Seq<i32>, b: Seq<i32>, v: spec_fn(int) -> bool)
    ensures
        clause_holds(a + b, v) == (clause_holds(a, v) || clause_holds(b, v)),
{
    if clause_holds(a + b, v) {
        let i = choose|i: int| 0 <= i < (a + b).len() && lit_holds((a + b)[i] as int, v);
        if i < a.len() {
            assert(lit_holds(a[i] as int, v));
        } else {
            assert(lit_holds(b[i - a.len()] as int, v));
        }
    }
    if clause_holds(a, v) {
        let i = choose|i: int| 0 <= i < a.len() && lit_holds(a[i] as int, v);
        assert((a + b)[i] == a[i]);
    }
    if clause_holds(b, v) {
        let i = choose|i: int| 0 <= i < b.len() && lit_holds(b[i] as int, v);
        assert((a + b)[a.len() + i] == b[i]);
    }
}

proof fn lemma_clause_unit(x: i32, v: spec_fn(int) -> bool)
    ensures
        clause_holds(seq![x], v) == lit_holds(x as int, v),
{
    lemma_clause_push(seq![], x, v);
    assert(seq![x] =~= Seq::<i32>::empty().push(x));
}

proof fn lemma_init_lits(init: Seq<usize>, n: int, v: spec_fn(int) -> bool)
    requires
        n < i32::MAX,
    ensures
        clause_holds(init_lits(init, n), v) == exists|i: usize| #[trigger] init.contains(i) && i < n && v(i + 1),
    decreases init.len(),
{
    if init.len() > 0 {
        let r = init_lits(init.drop_last(), n);
        lemma_init_lits(init.drop_last(), n, v);
        let x = init.last();
        if x < n {
            lemma_clause_push(r, cur_var(x as int), v);
        }
        if exists|i: usize| #[trigger] init.contains(i) && i < n && v(i + 1) {
            let i = choose|i: usize| #[trigger] init.contains(i) && i < n && v(i + 1);
            let w = choose|w: int| 0 <= w < init.len() && init[w] == i;
            if w < init.len() - 1 {
                assert(init.drop_last()[w] == i);
                assert(init.drop_last().contains(i));
            }
        }
        if exists|i: usize| #[trigger] init.drop_last().contains(i) && i < n && v(i + 1) {
            let i = choose|i: usize| #[trigger] init.drop_last().contains(i) && i < n && v(i + 1);
            let w = choose|w: int| 0 <= w < init.drop_last().len() && init.drop_last()[w] == i;
            assert(init[w] == i);
            assert(init.contains(i));
        }
        if x < n && v(x + 1) {
            assert(init[init.len() - 1] == x);
            assert(init.contains(x));
        }
    }
}

proof fn lemma_succ_lits(tos: Seq<usize>, n: int, v: spec_fn(int) -> bool)
    requires
        0 <= n,
        2 * n < i32::MAX,
    ensures
        clause_holds(succ_lits(tos, n), v) == exists|t: usize| #[trigger] tos.contains(t) && t < n && v(t + 1 + n),
    decreases tos.len(),
{
    if tos.len() > 0 {
        let r = succ_lits(tos.drop_last(), n);
        lemma_succ_lits(tos.drop_last(), n, v);
        let x = tos.last();
        if x < n {
            lemma_clause_push(r, next_var(x as int, n), v);
        }
        if exists|t: usize| #[trigger] tos.contains(t) && t < n && v(t + 1 + n) {
            let t = choose|t: usize| #[trigger] tos.contains(t) && t < n && v(t + 1 + n);
            let w = choose|w: int| 0 <= w < tos.len() && tos[w] == t;
            if w < tos.len() - 1 {
                assert(tos.drop_last()[w] == t);
                assert(tos.drop_last().contains(t));
            }
        }
        if exists|t: usize| #[trigger] tos.drop_last().contains(t) && t < n && v(t + 1 + n) {
            let t = choose|t: usize| #[trigger] tos.drop_last().contains(t) && t < n && v(t + 1 + n);
            let w = choose|w: int| 0 <= w < tos.drop_last().len() && tos.drop_last()[w] == t;
            assert(tos[w] == t);
            assert(tos.contains(t));
        }
        if x < n && v(x + 1 + n) {
            assert(tos[tos.len() - 1] == x);
            assert(tos.contains(x));
        }
    }
}

proof fn lemma_bad_lits(bad: spec_fn(usize) -> bool, k: nat, v: spec_fn(int) -> bool)
    requires
        k < i32::MAX,
    ensures
        clause_holds(bad_lits(bad, k), v) == exists|s: usize| s < k && #[trigger] bad(s) && v(s + 1),
    decreases k,
{
    if k > 0 {
        let r = bad_lits(bad, (k - 1) as nat);
        lemma_bad_lits(bad, (k - 1) as nat, v);
        let x = (k - 1) as usize;
        if bad(x) {
            lemma_clause_concat(r, seq![cur_var(k - 1)], v);
            lemma_clause_unit(cur_var(k - 1), v);
        } else {
            assert(r + seq![] =~= r);
        }
        if exists|s: usize| s < k && #[trigger] bad(s) && v(s + 1) {
            let s = choose|s: usize| s < k && #[trigger] bad(s) && v(s + 1);
            if s < k - 1 {
                assert(exists|s2: usize| s2 < k - 1 && #[trigger] bad(s2) && v(s2 + 1));
            }
        }
    }
}

/// Pair clauses hold exactly when, of each pair of literals, one holds.
proof fn lemma_pair_rows(s: Seq<i32>, k: nat, v: spec_fn(int) -> bool)
    requires
        k <= s.len(),
    ensures
        formula_holds(pair_rows(seq![], s, k), v) == forall|i: int, j: int|
            0 <= i < k && i < j < s.len() ==> lit_holds(#[trigger] s[i] as int, v) || lit_holds(#[trigger] s[j] as int, v),
    decreases k,
{
    if k > 0 {
        let i0 = k - 1;
        lemma_pair_rows(s, (k - 1) as nat, v);
        let rows = pair_rows(seq![], s, (k - 1) as nat);
        let row = pair_row(seq![], s, i0);
        lemma_holds_concat(rows, row, v);
        assert forall|d: int| 0 <= d < row.len() implies #[trigger] clause_holds(row[d], v) == (lit_holds(s[i0] as int, v)
            || lit_holds(s[i0 + 1 + d] as int, v)) by {
            assert(row[d] =~= seq![s[i0]].push(s[i0 + 1 + d]));
            lemma_clause_push(seq![s[i0]], s[i0 + 1 + d], v);
            lemma_clause_unit(s[i0], v);
        }
        if formula_holds(pair_rows(seq![], s, k), v) {
            assert forall|i: int, j: int| 0 <= i < k && i < j < s.len() implies lit_holds(#[trigger] s[i] as int, v)
                || lit_holds(#[trigger] s[j] as int, v) by {
                if i == i0 {
                    assert(clause_holds(row[j - i0 - 1], v));
                }
            }
        }
        if forall|i: int, j: int|
            0 <= i < k && i < j < s.len() ==> lit_holds(#[trigger] s[i] as int, v) || lit_holds(#[trigger] s[j] as int, v) {
            assert forall|d: int| 0 <= d < row.len() implies #[trigger] clause_holds(row[d], v) by {
                assert(lit_holds(s[i0] as int, v) || lit_holds(s[i0 + 1 + d] as int, v));
            }
        }
    }
}

/// No two of the states `0..n` are active, reading state `s` as `v(s + 1 + off)`.
pub open spec fn at_most_one(v: spec_fn(int) -> bool, n: nat, off: int) -> bool {
    forall|i: int, j: int| 0 <= i < j < n ==> !#[trigger] v(i + 1 + off) || !#[trigger] v(j + 1 + off)
}

proof fn lemma_amo_cur(n: nat, v: spec_fn(int) -> bool)
    requires
        n < i32::MAX,
    ensures
        formula_holds(pair_clauses(seq![], neg_cur_vars(n)), v) == at_most_one(v, n, 0),
{
    let s = neg_cur_vars(n);
    lemma_pair_rows(s, n, v);
    assert forall|i: int| 0 <= i < n implies lit_holds(#[trigger] s[i] as int, v) == !v(i + 1 + 0) by {}
    if formula_holds(pair_clauses(seq![], s), v) {
        assert forall|i: int, j: int| 0 <= i < j < n implies !#[trigger] v(i + 1 + 0) || !#[trigger] v(j + 1 + 0) by {
            assert(lit_holds(s[i] as int, v) || lit_holds(s[j] as int, v));
        }
    }
    if at_most_one(v, n, 0) {
        assert forall|i: int, j: int| 0 <= i < n && i < j < s.len() implies lit_holds(#[trigger] s[i] as int, v)
            || lit_holds(#[trigger] s[j] as int, v) by {
            assert(!v(i + 1 + 0) || !v(j + 1 + 0));
        }
    }
}

proof fn lemma_amo_next(n: nat, v: spec_fn(int) -> bool)
    requires
        2 * n < i32::MAX,
    ensures
        formula_holds(pair_clauses(seq![], neg_next_vars(n)), v) == at_most_one(v, n, n as int),
{
    let s = neg_next_vars(n);
    lemma_pair_rows(s, n, v);
    assert forall|i: int| 0 <= i < n implies lit_holds(#[trigger] s[i] as int, v) == !v(i + 1 + n) by {}
    if formula_holds(pair_clauses(seq![], s), v) {
        assert forall|i: int, j: int| 0 <= i < j < n implies !#[trigger] v(i + 1 + n) || !#[trigger] v(j + 1 + n) by {
            assert(lit_holds(s[i] as int, v) || lit_holds(s[j] as int, v));
        }
    }
    if at_most_one(v, n, n as int) {
        assert forall|i: int, j: int| 0 <= i < n && i < j < s.len() implies lit_holds(#[trigger] s[i] as int, v)
            || lit_holds(#[trigger] s[j] as int, v) by {
            assert(!v(i + 1 + n) || !v(j + 1 + n));
        }
    }
}

/// What the initial clauses say of the first step.
proof fn lemma_initial_holds(init: Seq<usize>, n: nat, v: spec_fn(int) -> bool)
    requires
        2 * n < i32::MAX,
    ensures
        formula_holds(one_hot_initial(init, n), v) == ((exists|i: usize| #[trigger] init.contains(i) && i < n && v(i + 1))
            && at_most_one(v, n, 0)),
{
    let first = seq![init_lits(init, n as int)];
    let pairs = pair_clauses(seq![], neg_cur_vars(n));
    lemma_holds_concat(first, pairs, v);
    lemma_init_lits(init, n as int, v);
    lemma_amo_cur(n, v);
    assert(formula_holds(first, v) == clause_holds(init_lits(init, n as int), v)) by {
        if clause_holds(init_lits(init, n as int), v) {
            assert forall|j: int| 0 <= j < first.len() implies #[trigger] clause_holds(first[j], v) by {}
        }
        if formula_holds(first, v) {
            assert(clause_holds(first[0], v));
        }
    }
}

/// What the transition clauses say of a step and the next.
proof fn lemma_transition_holds(m: Map<usize, Seq<usize>>, n: nat, v: spec_fn(int) -> bool)
    requires
        2 * n < i32::MAX,
    ensures
        formula_holds(one_hot_transition(m, n), v) == (at_most_one(v, n, n as int) && forall|s: usize|
            s < n && #[trigger] v(s + 1) ==> exists|t: usize| #[trigger] succs(m, s).contains(t) && t < n && v(t + 1 + n)),
{
    let pairs = pair_clauses(seq![], neg_next_vars(n));
    let steps = Seq::new(n, |s: int| step_clause(m, n, s));
    lemma_holds_concat(pairs, steps, v);
    lemma_amo_next(n, v);
    assert forall|s: int| 0 <= s < n implies #[trigger] clause_holds(steps[s], v) == (v(s + 1) ==> exists|t: usize|
        #[trigger] succs(m, s as usize).contains(t) && t < n && v(t + 1 + n)) by {
        let x = (-(s + 1)) as i32;
        assert(steps[s] == seq![x] + succ_lits(succs(m, s as usize), n as int));
        lemma_clause_concat(seq![x], succ_lits(succs(m, s as usize), n as int), v);
        lemma_clause_unit(x, v);
        lemma_succ_lits(succs(m, s as usize), n as int, v);
    }
    if formula_holds(steps, v) {
        assert forall|s: usize| s < n && #[trigger] v(s + 1) implies exists|t: usize|
            #[trigger] succs(m, s).contains(t) && t < n && v(t + 1 + n) by {
            assert(clause_holds(steps[s as int], v));
        }
    }
    if forall|s: usize| s < n && #[trigger] v(s + 1) ==> exists|t: usize|
        #[trigger] succs(m, s).contains(t) && t < n && v(t + 1 + n) {
        assert forall|j: int| 0 <= j < steps.len() implies #[trigger] clause_holds(steps[j], v) by {
            if v(j + 1) {
                assert(v((j as usize) + 1));
            }
        }
    }
}

/// What the property clause says of the last step.
proof fn lemma_property_holds(bad: spec_fn(usize) -> bool, n: nat, v: spec_fn(int) -> bool)
    requires
        n < i32::MAX,
    ensures
        formula_holds(seq![bad_lits(bad, n)], v) == exists|s: usize| s < n && #[trigger] bad(s) && v(s + 1),
{
    lemma_bad_lits(bad, n, v);
    let f = seq![bad_lits(bad, n)];
    if clause_holds(bad_lits(bad, n), v) {
        assert forall|j: int| 0 <= j < f.len() implies #[trigger] clause_holds(f[j], v) by {}
    }
    if formula_holds(f, v) {
        assert(clause_holds(f[0], v));
    }
}

// ---------------------------------------------------------------------------
// Runs of the encoding and paths of the system
// ---------------------------------------------------------------------------

/// Variable `s + 1 + t * n` names state `s < n` at step `t`, and no other.
proof fn lemma_decode(s1: int, t1: int, s2: int, t2: int, n: int)
    requires
        0 <= s1 < n,
        0 <= s2 < n,
        0 <= t1,
        0 <= t2,
        s1 + t1 * n == s2 + t2 * n,
    ensures
        s1 == s2,
        t1 == t2,
{
    if t1 < t2 {
        assert(t1 * n + n <= t2 * n) by (nonlinear_arith)
            requires
                t1 < t2,
                0 <= n,
        ;
    } else if t2 < t1 {
        assert(t2 * n + n <= t1 * n) by (nonlinear_arith)
            requires
                t2 < t1,
                0 <= n,
        ;
    }
}

proof fn lemma_step_offset(x: int, t: int, n: int)
    ensures
        x + n + t * n == x + (t + 1) * n,
        0 * n == 0,
{
    assert(x + n + t * n == x + (t + 1) * n) by (nonlinear_arith);
    assert(0 * n == 0) by (nonlinear_arith);
}

/// The valuation that makes exactly the states of `path` active, each at
/// its own step.
pub open spec fn path_valuation(path: Seq<usize>, n: nat) -> spec_fn(int) -> bool {
    |x: int| exists|t: int| 0 <= t < path.len() && x == #[trigger] path[t] + 1 + t * n
}

proof fn lemma_path_valuation(path: Seq<usize>, n: nat, t: int, s: int)
    requires
        forall|t2: int| 0 <= t2 < path.len() ==> #[trigger] path[t2] < n,
        0 <= t < path.len(),
        0 <= s < n,
    ensures
        path_valuation(path, n)(s + 1 + t * n) == (s == path[t]),
{
    let val = path_valuation(path, n);
    if val(s + 1 + t * n) {
        let t2 = choose|t2: int| 0 <= t2 < path.len() && s + 1 + t * n == #[trigger] path[t2] + 1 + t2 * n;
        lemma_decode(s, t, path[t2] as int, t2, n as int);
    }
    if s == path[t] {
        assert(s + 1 + t * n == path[t] + 1 + t * n);
    }
}

/// Some state is active at each step of a run of the encoding.
proof fn lemma_active_exists(
    init: Seq<usize>,
    m: Map<usize, Seq<usize>>,
    n: nat,
    val: spec_fn(int) -> bool,
    k: nat,
    t: nat,
)
    requires
        2 * n < i32::MAX,
        t <= k,
        formula_holds(one_hot_initial(init, n), val),
        forall|t2: int| 0 <= t2 < k ==> #[trigger] formula_holds(one_hot_transition(m, n), state_at(val, n as int, t2)),
    ensures
        exists|s: usize| s < n && #[trigger] val(s + 1 + t * n),
    decreases t,
{
    if t == 0 {
        lemma_initial_holds(init, n, val);
        let i = choose|i: usize| #[trigger] init.contains(i) && i < n && val(i + 1);
        lemma_step_offset(i + 1, 0, n as int);
        assert(val(i + 1 + 0 * n));
    } else {
        lemma_active_exists(init, m, n, val, k, (t - 1) as nat);
        let s = choose|s: usize| s < n && #[trigger] val(s + 1 + (t - 1) * n);
        let v = state_at(val, n as int, t - 1);
        assert(formula_holds(one_hot_transition(m, n), v));
        lemma_transition_holds(m, n, v);
        assert(v(s + 1));
        let u = choose|u: usize| #[trigger] succs(m, s).contains(u) && u < n && v(u + 1 + n);
        lemma_step_offset(u + 1, t - 1, n as int);
        assert(val(u + 1 + t * n));
    }
}

/// The state active at step `t` of a run of the encoding.
pub open spec fn active_state(val: spec_fn(int) -> bool, n: nat, t: int) -> usize {
    choose|s: usize| s < n && #[trigger] val(s + 1 + t * n)
}

/// At most one state is active at each step of a run of the encoding.
proof fn lemma_active_unique(
    init: Seq<usize>,
    m: Map<usize, Seq<usize>>,
    n: nat,
    val: spec_fn(int) -> bool,
    k: nat,
    t: int,
    s1: usize,
    s2: usize,
)
    requires
        2 * n < i32::MAX,
        0 <= t <= k,
        formula_holds(one_hot_initial(init, n), val),
        forall|t2: int| 0 <= t2 < k ==> #[trigger] formula_holds(one_hot_transition(m, n), state_at(val, n as int, t2)),
        s1 < n,
        s2 < n,
        val(s1 + 1 + t * n),
        val(s2 + 1 + t * n),
    ensures
        s1 == s2,
{
    if t == 0 {
        lemma_initial_holds(init, n, val);
        lemma_step_offset(s1 + 1, 0, n as int);
        lemma_step_offset(s2 + 1, 0, n as int);
        if s1 < s2 {
            assert(!val(s1 + 1 + 0) || !val(s2 + 1 + 0));
        } else if s2 < s1 {
            assert(!val(s2 + 1 + 0) || !val(s1 + 1 + 0));
        }
    } else {
        let v = state_at(val, n as int, t - 1);
        assert(formula_holds(one_hot_transition(m, n), v));
        lemma_transition_holds(m, n, v);
        lemma_step_offset(s1 + 1, t - 1, n as int);
        lemma_step_offset(s2 + 1, t - 1, n as int);
        assert(v(s1 + 1 + n) == val(s1 + 1 + t * n));
        assert(v(s2 + 1 + n) == val(s2 + 1 + t * n));
        if s1 < s2 {
            assert(!v(s1 + 1 + n) || !v(s2 + 1 + n));
        } else if s2 < s1 {
            assert(!v(s2 + 1 + n) || !v(s1 + 1 + n));
        }
    }
}

/// A literal of two clause lists occurs in one of them.
proof fn lemma_occurs_concat(a: Seq<Seq<i32>>, b: Seq<Seq<i32>>, l: i32)
    requires
        occurs(a + b, l),
    ensures
        occurs(a, l) || occurs(b, l),
{
    let (i, j) = choose|i: int, j: int| 0 <= i < (a + b).len() && 0 <= j < (a + b)[i].len() && #[trigger] (a + b)[i][j] == l;
    if i < a.len() {
        assert(a[i][j] == l);
    } else {
        assert(b[i - a.len()][j] == l);
    }
}

/// The pair clauses with an empty prefix use only literals of `s`.
proof fn lemma_pair_rows_lits(s: Seq<i32>, k: nat, l: i32)
    requires
        k <= s.len(),
        occurs(pair_rows(seq![], s, k), l),
    ensures
        s.contains(l),
    decreases k,
{
    if k > 0 {
        let rows = pair_rows(seq![], s, (k - 1) as nat);
        let row = pair_row(seq![], s, k - 1);
        lemma_occurs_concat(rows, row, l);
        if occurs(rows, l) {
            lemma_pair_rows_lits(s, (k - 1) as nat, l);
        } else {
            let (d, j) = choose|d: int, j: int| 0 <= d < row.len() && 0 <= j < row[d].len() && #[trigger] row[d][j] == l;
            assert(row[d] =~= seq![s[k - 1], s[k + d]]);
            if j == 0 {
                assert(s[k - 1] == l);
            } else {
                assert(s[k + d] == l);
            }
        }
    }
}

proof fn lemma_succ_lits_range(tos: Seq<usize>, n: int, x: i32)
    requires
        0 <= n,
        2 * n < i32::MAX,
        succ_lits(tos, n).contains(x),
    ensures
        n + 1 <= x <= 2 * n,
    decreases tos.len(),
{
    if tos.len() > 0 {
        let r = succ_lits(tos.drop_last(), n);
        if r.contains(x) {
            lemma_succ_lits_range(tos.drop_last(), n, x);
        }
    }
}

/// The property clause holds the variable of state `s` exactly when `s`
/// is bad.
pub proof fn lemma_bad_lits_contains(bad: spec_fn(usize) -> bool, k: nat, s: int)
    requires
        k < i32::MAX,
        0 <= s < k,
    ensures
        bad_lits(bad, k).contains(cur_var(s)) == bad(s as usize),
    decreases k,
{
    let r = bad_lits(bad, (k - 1) as nat);
    let tail = if bad((k - 1) as usize) { seq![cur_var(k - 1)] } else { Seq::<i32>::empty() };
    assert(bad_lits(bad, k) == r + tail);
    if s < k - 1 {
        lemma_bad_lits_contains(bad, (k - 1) as nat, s);
        if bad_lits(bad, k).contains(cur_var(s)) {
            let w = choose|w: int| 0 <= w < (r + tail).len() && (r + tail)[w] == cur_var(s);
            if w < r.len() {
                assert(r[w] == cur_var(s));
            } else {
                assert(tail[w - r.len()] == cur_var(s));
                assert(cur_var(s) == cur_var(k - 1));
            }
        }
        if r.contains(cur_var(s)) {
            let w = choose|w: int| 0 <= w < r.len() && r[w] == cur_var(s);
            assert((r + tail)[w] == cur_var(s));
        }
    } else {
        if bad(s as usize) {
            assert((r + tail)[r.len() as int] == cur_var(s));
        } else {
            assert(r + tail =~= r);
            if r.contains(cur_var(s)) {
                lemma_bad_lits_range(bad, (k - 1) as nat, cur_var(s));
            }
        }
    }
}

pub proof fn lemma_bad_lits_range(bad: spec_fn(usize) -> bool, k: nat, x: i32)
    requires
        k < i32::MAX,
        bad_lits(bad, k).contains(x),
    ensures
        1 <= x <= k,
    decreases k,
{
    if k > 0 {
        let r = bad_lits(bad, (k - 1) as nat);
        let tail = if bad((k - 1) as usize) { seq![cur_var(k - 1)] } else { Seq::<i32>::empty() };
        let w = choose|w: int| 0 <= w < (r + tail).len() && (r + tail)[w] == x;
        if w < r.len() {
            assert(r[w] == x);
            lemma_bad_lits_range(bad, (k - 1) as nat, x);
        } else {
            assert(tail[w - r.len()] == x);
        }
    }
}

/// The literals of the one-hot transition and property clauses are
/// representable, and at most `2 * n` and `n` in absolute value.
proof fn lemma_one_hot_literals(m: Map<usize, Seq<usize>>, bad: spec_fn(usize) -> bool, n: nat)
    requires
        2 * n < i32::MAX,
    ensures
        forall|l: i32| #[trigger] occurs(one_hot_transition(m, n), l) ==> lit_ok(l) && abs_lit(l) <= 2 * n,
        forall|l: i32| #[trigger] occurs(seq![bad_lits(bad, n)], l) ==> lit_ok(l) && abs_lit(l) <= n,
{
    let pairs = pair_clauses(seq![], neg_next_vars(n));
    let steps = Seq::new(n, |s: int| step_clause(m, n, s));
    assert forall|l: i32| #[trigger] occurs(one_hot_transition(m, n), l) implies lit_ok(l) && abs_lit(l) <= 2 * n by {
        lemma_occurs_concat(pairs, steps, l);
        if occurs(pairs, l) {
            lemma_pair_rows_lits(neg_next_vars(n), n, l);
            let w = choose|w: int| 0 <= w < neg_next_vars(n).len() && neg_next_vars(n)[w] == l;
        } else {
            let (i, j) = choose|i: int, j: int| 0 <= i < steps.len() && 0 <= j < steps[i].len() && #[trigger] steps[i][j] == l;
            let tos = succs(m, i as usize);
            assert(steps[i] == seq![(-(i + 1)) as i32] + succ_lits(tos, n as int));
            if j > 0 {
                assert(succ_lits(tos, n as int)[j - 1] == l);
                lemma_succ_lits_range(tos, n as int, l);
            }
        }
    }
    assert forall|l: i32| #[trigger] occurs(seq![bad_lits(bad, n)], l) implies lit_ok(l) && abs_lit(l) <= n by {
        let (i, j) = choose|i: int, j: int| 0 <= i < 1 && 0 <= j < seq![bad_lits(bad, n)][i].len()
            && #[trigger] seq![bad_lits(bad, n)][i][j] == l;
        assert(bad_lits(bad, n)[j] == l);
        lemma_bad_lits_range(bad, n, l);
    }
}

/// The one-hot encoding of a system with `n` states is satisfiable at
/// bound `k` exactly when some path of `k` steps leads from an initial
/// state to a bad state.
pub proof fn lemma_one_hot_runs(
    init: Seq<usize>,
    m: Map<usize, Seq<usize>>,
    bad: spec_fn(usize) -> bool,
    n: nat,
    e: TransitionEncoding,
    k: nat,
)
    requires
        2 * n < i32::MAX,
        e.num_vars == n,
        deep(e.initial@) == one_hot_initial(init, n),
        deep(e.transition@) == one_hot_transition(m, n),
        deep(e.property@) == seq![bad_lits(bad, n)],
        e.encodable(k),
    ensures
        satisfiable(e.spec_encode(k)) == exists|path: Seq<usize>| is_violating_path(init, m, bad, n, k, path),
{
    assert forall|val: spec_fn(int) -> bool| #[trigger] formula_holds(e.spec_encode(k), val) == e.is_violating_run(k, val) by {
        lemma_encoding_describes_runs(e, k, val);
    }
    if satisfiable(e.spec_encode(k)) {
        let val = choose|val: spec_fn(int) -> bool| formula_holds(e.spec_encode(k), val);
        assert(e.is_violating_run(k, val));
        let path = Seq::new(k + 1, |t: int| active_state(val, n, t));
        assert forall|t: int| 0 <= t <= k implies #[trigger] path[t] < n && val(path[t] + 1 + t * n) by {
            lemma_active_exists(init, m, n, val, k, t as nat);
        }
        // The first state is initial.
        lemma_initial_holds(init, n, val);
        let i = choose|i: usize| #[trigger] init.contains(i) && i < n && val(i + 1);
        lemma_step_offset(i + 1, 0, n as int);
        assert(path[0] < n && val(path[0] + 1 + 0 * n));
        lemma_active_unique(init, m, n, val, k, 0, i, path[0]);
        // Each step follows a successor list.
        assert forall|t: int| 0 <= t < k implies #[trigger] succs(m, path[t]).contains(path[t + 1]) by {
            let v = state_at(val, n as int, t);
            assert(formula_holds(one_hot_transition(m, n), v));
            lemma_transition_holds(m, n, v);
            assert(path[t] < n && val(path[t] + 1 + t * n));
            assert(v(path[t] + 1));
            let u = choose|u: usize| #[trigger] succs(m, path[t]).contains(u) && u < n && v(u + 1 + n);
            lemma_step_offset(u + 1, t, n as int);
            assert(path[t + 1] < n && val(path[t + 1] + 1 + (t + 1) * n));
            lemma_active_unique(init, m, n, val, k, t + 1, u, path[t + 1]);
        }
        // The last state is bad.
        let vk = state_at(val, n as int, k as int);
        lemma_property_holds(bad, n, vk);
        let b = choose|b: usize| b < n && #[trigger] bad(b) && vk(b + 1);
        assert(path[k as int] < n && val(path[k as int] + 1 + k * n));
        lemma_active_unique(init, m, n, val, k, k as int, b, path[k as int]);
        assert(is_violating_path(init, m, bad, n, k, path));
    }
    if exists|path: Seq<usize>| is_violating_path(init, m, bad, n, k, path) {
        let path = choose|path: Seq<usize>| is_violating_path(init, m, bad, n, k, path);
        let val = path_valuation(path, n);
        // Initial step.
        lemma_initial_holds(init, n, val);
        lemma_step_offset(path[0] + 1, 0, n as int);
        lemma_path_valuation(path, n, 0, path[0] as int);
        assert(val(path[0] + 1));
        assert forall|a: int, b: int| 0 <= a < b < n implies !#[trigger] val(a + 1 + 0) || !#[trigger] val(b + 1 + 0) by {
            lemma_step_offset(a + 1, 0, n as int);
            lemma_step_offset(b + 1, 0, n as int);
            lemma_path_valuation(path, n, 0, a);
            lemma_path_valuation(path, n, 0, b);
        }
        assert(formula_holds(deep(e.initial@), val));
        // Every step.
        assert forall|t: int| 0 <= t < k implies #[trigger] formula_holds(deep(e.transition@), state_at(val, n as int, t)) by {
            let v = state_at(val, n as int, t);
            lemma_transition_holds(m, n, v);
            assert forall|a: int, b: int| 0 <= a < b < n implies !#[trigger] v(a + 1 + n) || !#[trigger] v(b + 1 + n) by {
                lemma_step_offset(a + 1, t, n as int);
                lemma_step_offset(b + 1, t, n as int);
                lemma_path_valuation(path, n, t + 1, a);
                lemma_path_valuation(path, n, t + 1, b);
            }
            assert forall|s: usize| s < n && #[trigger] v(s + 1) implies exists|u: usize|
                #[trigger] succs(m, s).contains(u) && u < n && v(u + 1 + n) by {
                lemma_path_valuation(path, n, t, s as int);
                let u = path[t + 1];
                lemma_step_offset(u + 1, t, n as int);
                lemma_path_valuation(path, n, t + 1, u as int);
                assert(succs(m, s).contains(u) && u < n && v(u + 1 + n));
            }
        }
        // Last step.
        let vk = state_at(val, n as int, k as int);
        lemma_property_holds(bad, n, vk);
        lemma_path_valuation(path, n, k as int, path[k as int] as int);
        assert(vk(path[k as int] + 1));
        assert(e.is_violating_run(k, val));
        assert(formula_holds(e.spec_encode(k), val));
    }
}

/// Append the clauses `prefix + [lits[i], lits[j]]` for every pair `i < j`.
pub(crate) fn push_pair_clauses(prefix: &Vec<i32>, lits: &Vec<i32>, out: &mut Vec<Vec<i32>>)
    ensures
        deep(final(out)@) == deep(old(out)@) + pair_clauses(prefix@, lits@),
{
    let ghost base = deep(out@);
    let mut i: usize = 0;
    while i < lits.len()
        invariant
            i <= lits@.len(),
            deep(out@) == base + pair_rows(prefix@, lits@, i as nat),
        decreases lits@.len() - i,
    {
        let mut j: usize = i + 1;
        while j < lits.len()
            invariant
                i < lits@.len(),
                i + 1 <= j <= lits@.len(),
                deep(out@) == base + pair_rows(prefix@, lits@, i as nat) + pair_row(prefix@, lits@, i as int).take(j - i - 1),
            decreases lits@.len() - j,
        {
            let mut c = copy_clause(prefix);
            c.push(lits[i]);
            c.push(lits[j]);
            assert(c@ =~= prefix@ + seq![lits@[i as int], lits@[j as int]]);
            let ghost before = out@;
            out.push(c);
            j += 1;
            assert(pair_row(prefix@, lits@, i as int).take(j - i - 1) =~= pair_row(prefix@, lits@, i as int).take(j - i - 2).push(c@));
            assert(deep(out@) =~= deep(before).push(c@));
        }
        assert(pair_row(prefix@, lits@, i as int).take(lits@.len() - i - 1) =~= pair_row(prefix@, lits@, i as int));
        i += 1;
    }
}

/// The one-hot encoding is encodable for every bound `k` with
/// `(k + 1) * n` within `i32::MAX`.
pub proof fn lemma_one_hot_encodable(
    m: Map<usize, Seq<usize>>,
    bad: spec_fn(usize) -> bool,
    n: nat,
    e: TransitionEncoding,
    k: nat,
)
    requires
        2 * n < i32::MAX,
        e.num_vars == n,
        deep(e.transition@) == one_hot_transition(m, n),
        deep(e.property@) == seq![bad_lits(bad, n)],
        (k + 1) * n <= i32::MAX,
    ensures
        e.encodable(k),
{
    lemma_one_hot_literals(m, bad, n);
    assert(k * n + n == (k + 1) * n) by (nonlinear_arith);
    if k >= 1 {
        assert((k - 1) * n + 2 * n == (k + 1) * n) by (nonlinear_arith);
    }
}

} // verus!
