//! CNF formulas: a conjunction of clauses, each a disjunction of literals.
//! Literal `+v` says variable `v` is true, `-v` says it is false.

use vstd::prelude::*;

verus! {

/// Whether literal `l` holds under the total valuation `val`.
/// A positive literal reads its variable; any other literal `l` is the
/// negation of variable `-l` (so the literal `0` is the negation of variable 0).
pub open spec fn lit_holds(l: int, val: spec_fn(int) -> bool) -> bool {
    if l > 0 {
        val(l)
    } else {
        !val(-l)
    }
}

/// A clause holds when one of its literals holds.
pub open spec fn clause_holds(c: Seq<i32>, val: spec_fn(int) -> bool) -> bool {
    exists|i: int| 0 <= i < c.len() && lit_holds(c[i] as int, val)
}

/// A formula holds when every clause holds.
pub open spec fn formula_holds(cs: Seq<Seq<i32>>, val: spec_fn(int) -> bool) -> bool {
    forall|j: int| 0 <= j < cs.len() ==> #[trigger] clause_holds(cs[j], val)
}

/// The clauses of a list of vectors, each as a sequence of literals.
pub open spec fn deep(cs: Seq<Vec<i32>>) -> Seq<Seq<i32>> {
    cs.map_values(|c: Vec<i32>| c@)
}

/// Some valuation makes every clause true.
pub open spec fn satisfiable(cs: Seq<Seq<i32>>) -> bool {
    exists|val: spec_fn(int) -> bool| formula_holds(cs, val)
}

/// A literal other than `i32::MIN`, whose negation is again an `i32`.
pub open spec fn lit_ok(l: i32) -> bool {
    l != i32::MIN
}

/// Every literal of every clause is `lit_ok`.
pub open spec fn lits_ok(cs: Seq<Seq<i32>>) -> bool {
    forall|i: int, j: int| 0 <= i < cs.len() && 0 <= j < cs[i].len() ==> lit_ok(#[trigger] cs[i][j])
}

/// The variable of a literal: its absolute value.
pub open spec fn var_of(l: i32) -> i32 {
    if l < 0 {
        (-l) as i32
    } else {
        l
    }
}

/// Literal `l` occurs in some clause.
pub open spec fn occurs(cs: Seq<Seq<i32>>, l: i32) -> bool {
    exists|i: int, j: int| 0 <= i < cs.len() && 0 <= j < cs[i].len() && #[trigger] cs[i][j] == l
}

/// Literal `l` occurs at a position before clause `i`, literal `j`.
pub open spec fn occurs_before(cs: Seq<Seq<i32>>, i: int, j: int, l: i32) -> bool {
    exists|i2: int, j2: int|
        0 <= i2 < cs.len() && 0 <= j2 < cs[i2].len() && (i2 < i || (i2 == i && j2 < j))
            && #[trigger] cs[i2][j2] == l
}

/// Moving one literal forward: the literals before `(i, j + 1)` are those
/// before `(i, j)` and `cs[i][j]`.
pub proof fn lemma_occurs_before_step(cs: Seq<Seq<i32>>, i: int, j: int)
    requires
        0 <= i < cs.len(),
        0 <= j < cs[i].len(),
    ensures
        forall|l: i32| #[trigger] occurs_before(cs, i, j + 1, l) <==> (occurs_before(cs, i, j, l) || l == cs[i][j]),
{
    assert forall|l: i32| #[trigger] occurs_before(cs, i, j + 1, l) <==> (occurs_before(cs, i, j, l) || l == cs[i][j]) by {
        if occurs_before(cs, i, j + 1, l) {
            let (i2, j2) = choose|i2: int, j2: int|
                0 <= i2 < cs.len() && 0 <= j2 < cs[i2].len() && (i2 < i || (i2 == i && j2 < j + 1)) && cs[i2][j2] == l;
            if !(i2 == i && j2 == j) {
                assert(occurs_before(cs, i, j, l));
            }
        }
        if l == cs[i][j] {
            assert(cs[i][j] == l);
        }
    }
}

/// Moving to the next clause: the literals before `(i + 1, 0)` are those
/// before the end of clause `i`.
pub proof fn lemma_occurs_before_row(cs: Seq<Seq<i32>>, i: int)
    requires
        0 <= i < cs.len(),
    ensures
        forall|l: i32| #[trigger] occurs_before(cs, i + 1, 0, l) <==> occurs_before(cs, i, cs[i].len() as int, l),
{
    assert forall|l: i32| #[trigger] occurs_before(cs, i + 1, 0, l) <==> occurs_before(cs, i, cs[i].len() as int, l) by {
        if occurs_before(cs, i + 1, 0, l) {
            let (i2, j2) = choose|i2: int, j2: int|
                0 <= i2 < cs.len() && 0 <= j2 < cs[i2].len() && (i2 < i + 1 || (i2 == i + 1 && j2 < 0)) && cs[i2][j2] == l;
            assert(occurs_before(cs, i, cs[i].len() as int, l));
        }
    }
}

/// Past the last clause, the literals before are all the literals.
pub proof fn lemma_occurs_before_end(cs: Seq<Seq<i32>>)
    ensures
        forall|l: i32| #[trigger] occurs_before(cs, cs.len() as int, 0, l) <==> occurs(cs, l),
{
    assert forall|l: i32| #[trigger] occurs_before(cs, cs.len() as int, 0, l) <==> occurs(cs, l) by {
        if occurs(cs, l) {
            let (i2, j2) = choose|i2: int, j2: int| 0 <= i2 < cs.len() && 0 <= j2 < cs[i2].len() && cs[i2][j2] == l;
            assert(occurs_before(cs, cs.len() as int, 0, l));
        }
    }
}

/// The absolute value of a literal.
pub open spec fn abs_lit(l: i32) -> int {
    if l < 0 {
        -l
    } else {
        l as int
    }
}

/// `m` is the largest absolute value of a literal of the clauses, or 0 when
/// there are no literals.
pub open spec fn is_max_abs(cs: Seq<Seq<i32>>, m: int) -> bool {
    &&& m >= 0
    &&& forall|l: i32| occurs(cs, l) ==> abs_lit(l) <= m
    &&& m == 0 || exists|l: i32| occurs(cs, l) && abs_lit(l) == m
}

/// A CNF formula represented as a list of clauses.
#[derive(Debug, Clone, PartialEq)]
pub struct CnfFormula {
    clauses: Vec<Vec<i32>>,
}

impl CnfFormula {
    /// The clauses, each as a sequence of literals.
    pub closed spec fn spec_clauses(&self) -> Seq<Seq<i32>> {
        deep(self.clauses@)
    }

    /// Create a new empty CNF formula.
    pub fn new() -> (f: Self)
        ensures
            f.spec_clauses() == Seq::<Seq<i32>>::empty(),
    {
        let f = CnfFormula { clauses: Vec::new() };
        assert(f.spec_clauses() =~= Seq::<Seq<i32>>::empty());
        f
    }

    /// Add a clause (disjunction of literals).
    pub fn add_clause(self, clause: Vec<i32>) -> (f: Self)
        ensures
            f.spec_clauses() == self.spec_clauses().push(clause@),
    {
        let mut s = self;
        let ghost old_cs = s.spec_clauses();
        s.clauses.push(clause);
        assert(s.spec_clauses() =~= old_cs.push(clause@));
        s
    }

    /// Add multiple clauses at once.
    pub fn add_clauses(self, clauses: Vec<Vec<i32>>) -> (f: Self)
        ensures
            f.spec_clauses() == self.spec_clauses() + deep(clauses@),
    {
        let mut s = self;
        let ghost old_cs = s.clauses@;
        let mut more = clauses;
        let ghost added = more@;
        s.clauses.append(&mut more);
        assert(s.clauses@ == old_cs + added);
        assert(deep(s.clauses@) =~= deep(old_cs) + deep(added));
        s
    }

    /// Get a reference to the clauses.
    pub fn clauses(&self) -> (r: &[Vec<i32>])
        ensures
            deep(r@) == self.spec_clauses(),
    {
        self.clauses.as_slice()
    }

    /// Number of clauses.
    pub fn num_clauses(&self) -> (n: usize)
        ensures
            n == self.spec_clauses().len(),
    {
        self.clauses.len()
    }

    /// Number of distinct variables, determined by the maximum absolute literal
    /// value (0 when there are no literals).
    pub fn num_variables(&self) -> (m: u32)
        ensures
            is_max_abs(self.spec_clauses(), m as int),
    {
        let ghost cs = self.spec_clauses();
        let mut m: u32 = 0;
        let mut i: usize = 0;
        while i < self.clauses.len()
            invariant
                i <= self.clauses@.len(),
                cs == deep(self.clauses@),
                forall|l: i32| occurs_before(cs, i as int, 0, l) ==> abs_lit(l) <= m,
                m == 0 || exists|l: i32| occurs_before(cs, i as int, 0, l) && abs_lit(l) == m,
            decreases self.clauses@.len() - i,
        {
            let clause = &self.clauses[i];
            assert(clause@ == cs[i as int]);
            let mut j: usize = 0;
            while j < clause.len()
                invariant
                    i < self.clauses@.len(),
                    j <= clause@.len(),
                    clause@ == cs[i as int],
                    cs == deep(self.clauses@),
                    forall|l: i32| occurs_before(cs, i as int, j as int, l) ==> abs_lit(l) <= m,
                    m == 0 || exists|l: i32| occurs_before(cs, i as int, j as int, l) && abs_lit(l) == m,
                decreases clause@.len() - j,
            {
                let lit = clause[j];
                assert(cs[i as int][j as int] == lit);
                let a: u32 = if lit < 0 {
                    if lit == i32::MIN {
                        2147483648u32
                    } else {
                        (-lit) as u32
                    }
                } else {
                    lit as u32
                };
                assert(a == abs_lit(lit));
                let ghost old_m = m;
                if a > m {
                    m = a;
                }
                proof {
                    lemma_occurs_before_step(cs, i as int, j as int);
                    if m != 0 && m != a {
                        let l = choose|l: i32| occurs_before(cs, i as int, j as int, l) && abs_lit(l) == old_m;
                        assert(occurs_before(cs, i as int, j + 1, l));
                    }
                    if m == a && m != 0 {
                        assert(occurs_before(cs, i as int, j + 1, lit));
                    }
                }
                j += 1;
            }
            proof {
                lemma_occurs_before_row(cs, i as int);
                if m != 0 {
                    let l = choose|l: i32| occurs_before(cs, i as int, clause@.len() as int, l) && abs_lit(l) == m;
                    assert(occurs_before(cs, i + 1, 0, l));
                }
            }
            i += 1;
        }
        proof {
            lemma_occurs_before_end(cs);
            assert forall|l: i32| occurs(cs, l) implies abs_lit(l) <= m by {
                assert(occurs_before(cs, cs.len() as int, 0, l));
            }
            if m != 0 {
                let l = choose|l: i32| occurs_before(cs, cs.len() as int, 0, l) && abs_lit(l) == m;
                assert(occurs(cs, l));
            }
        }
        m
    }

    /// Check if the formula is empty (no clauses).
    pub fn is_empty(&self) -> (b: bool)
        ensures
            b == (self.spec_clauses().len() == 0),
    {
        self.clauses.len() == 0
    }
}

/// Copy a clause.
pub(crate) fn copy_clause(clause: &Vec<i32>) -> (c: Vec<i32>)
    ensures
        c@ == clause@,
{
    let mut c: Vec<i32> = Vec::new();
    let mut j: usize = 0;
    while j < clause.len()
        invariant
            j <= clause@.len(),
            c@ == clause@.take(j as int),
        decreases clause@.len() - j,
    {
        c.push(clause[j]);
        j += 1;
        assert(c@ =~= clause@.take(j as int));
    }
    assert(c@ =~= clause@);
    c
}

impl Default for CnfFormula {
    fn default() -> (f: Self)
        ensures
            f.spec_clauses() == Seq::<Seq<i32>>::empty(),
    {
        Self::new()
    }
}

} // verus!
