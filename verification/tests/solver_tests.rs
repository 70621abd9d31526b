use bounded_model::cnf::CnfFormula;
use bounded_model::solver::{solve, SatResult, SolverStats};

fn holds(clauses: &[Vec<i32>], assignment: &[bool]) -> bool {
    clauses.iter().all(|c| {
        c.iter().any(|&l| {
            let v = l.unsigned_abs() as usize;
            let val = if v >= 1 && v <= assignment.len() { assignment[v - 1] } else { false };
            if l > 0 { val } else { !val }
        })
    })
}

#[test]
fn trivially_sat_empty() {
    let f = CnfFormula::new();
    let result = solve(&f);
    assert!(result.sat);
}

#[test]
fn single_var_sat() {
    let f = CnfFormula::new().add_clause(vec![1]);
    let result = solve(&f);
    assert!(result.sat);
    assert_eq!(result.assignment.as_ref().unwrap()[0], true);
}

#[test]
fn single_var_unsat() {
    let f = CnfFormula::new().add_clause(vec![1]).add_clause(vec![-1]);
    let result = solve(&f);
    assert!(!result.sat);
}

#[test]
fn two_var_simple() {
    let f = CnfFormula::new().add_clause(vec![1]).add_clause(vec![2]);
    let result = solve(&f);
    assert!(result.sat);
    let a = result.assignment.unwrap();
    assert!(a[0]);
    assert!(a[1]);
}

#[test]
fn simple_unsat() {
    let f = CnfFormula::new().add_clause(vec![1]).add_clause(vec![-1]);
    let result = solve(&f);
    assert!(!result.sat);
}

#[test]
fn three_var_sat() {
    let f = CnfFormula::new()
        .add_clause(vec![1, 2, 3])
        .add_clause(vec![-1, -2, 3]);
    let result = solve(&f);
    assert!(result.sat);
}

#[test]
fn tracks_decisions() {
    let f = CnfFormula::new()
        .add_clause(vec![1, 2])
        .add_clause(vec![1, -2])
        .add_clause(vec![-1, 2])
        .add_clause(vec![-1, -2]);
    let result = solve(&f);
    assert!(!result.sat);
    assert!(result.num_decisions > 0);
}

#[test]
fn tracks_propagations() {
    let f = CnfFormula::new().add_clause(vec![1]).add_clause(vec![1, 2]);
    let result = solve(&f);
    assert!(result.sat);
    assert!(result.num_propagations > 0);
}

#[test]
fn empty_clause_unsat() {
    let f = CnfFormula::new().add_clause(vec![]);
    let result = solve(&f);
    assert!(!result.sat);
}

#[test]
fn pure_literal() {
    let f = CnfFormula::new()
        .add_clause(vec![1, 2])
        .add_clause(vec![1, -2]);
    let result = solve(&f);
    assert!(result.sat);
}

#[test]
fn tautology_clause() {
    let f = CnfFormula::new().add_clause(vec![1, -1]);
    let result = solve(&f);
    assert!(result.sat);
}

#[test]
fn complex_formula_sat() {
    let f = CnfFormula::new()
        .add_clause(vec![1, 2, 3])
        .add_clause(vec![-1, -2])
        .add_clause(vec![-1, -3])
        .add_clause(vec![-2, -3]);
    let result = solve(&f);
    assert!(result.sat);
}

#[test]
fn complex_formula_unsat() {
    let f = CnfFormula::new()
        .add_clause(vec![1, 2])
        .add_clause(vec![3, 4])
        .add_clause(vec![5, 6])
        .add_clause(vec![-1, -3])
        .add_clause(vec![-1, -5])
        .add_clause(vec![-3, -5])
        .add_clause(vec![-2, -4])
        .add_clause(vec![-2, -6])
        .add_clause(vec![-4, -6]);
    let result = solve(&f);
    assert!(!result.sat);
}

#[test]
fn stats_default() {
    let s = SolverStats::default();
    assert_eq!(s.num_decisions, 0);
    assert_eq!(s.num_propagations, 0);
}

#[test]
fn many_unit_propagations() {
    let mut f = CnfFormula::new().add_clause(vec![1]);
    for i in 1..5 {
        f = f.add_clause(vec![i, -(i + 1)]);
    }
    let result = solve(&f);
    assert!(result.sat);
}

#[test]
fn assignment_size_matches_vars() {
    let f = CnfFormula::new()
        .add_clause(vec![1, 2])
        .add_clause(vec![-1, 3])
        .add_clause(vec![-2, -3]);
    let result = solve(&f);
    assert!(result.sat);
    assert_eq!(result.assignment.as_ref().unwrap().len(), 3);
}

#[test]
fn satisfying_assignments_satisfy() {
    let formulas: Vec<Vec<Vec<i32>>> = vec![
        vec![vec![1, 2, 3], vec![-1, -2], vec![-1, -3], vec![-2, -3]],
        vec![vec![1, -4], vec![-1, 4], vec![4, 2], vec![-2, -3], vec![3, 5]],
        vec![vec![-1], vec![1, 2], vec![-2, 3], vec![-3, 4, 6], vec![-6]],
        vec![vec![2, -5], vec![5, -2], vec![1, 5, 3], vec![-3, -1]],
    ];
    for clauses in formulas {
        let f = CnfFormula::new().add_clauses(clauses.clone());
        let result = solve(&f);
        assert!(result.sat);
        let a = result.assignment.unwrap();
        assert_eq!(a.len(), f.num_variables() as usize);
        assert!(holds(&clauses, &a));
    }
}

#[test]
fn unsat_has_no_assignment() {
    let f = CnfFormula::new()
        .add_clause(vec![1, 2])
        .add_clause(vec![-1, 2])
        .add_clause(vec![1, -2])
        .add_clause(vec![-1, -2])
        .add_clause(vec![3]);
    let result = solve(&f);
    assert!(!result.sat);
    assert!(result.assignment.is_none());
}

#[test]
fn no_variables_no_work() {
    // The literal 0 reads as the negation of a variable that is always false.
    let f = CnfFormula::new().add_clause(vec![0]);
    let result = solve(&f);
    assert!(result.sat);
    assert_eq!(result.assignment, Some(vec![]));
    assert_eq!(result.num_decisions, 0);
    assert_eq!(result.num_propagations, 0);
    let e = solve(&CnfFormula::new().add_clause(vec![0]).add_clause(vec![]));
    assert!(!e.sat);
    assert_eq!(e.assignment, None);
    let g = CnfFormula::new();
    let r = solve(&g);
    assert_eq!(
        r,
        SatResult { sat: true, assignment: Some(vec![]), num_decisions: 0, num_propagations: 0 }
    );
}

#[test]
fn unassigned_variables_default_false() {
    let f = CnfFormula::new().add_clause(vec![3]);
    let result = solve(&f);
    assert!(result.sat);
    assert_eq!(result.assignment.unwrap(), vec![false, false, true]);
}

#[test]
fn search_counts_exact() {
    let f = CnfFormula::new()
        .add_clause(vec![-1, 2])
        .add_clause(vec![-1, -2])
        .add_clause(vec![1, 2]);
    let result = solve(&f);
    assert_eq!(
        result,
        SatResult { sat: true, assignment: Some(vec![false, true]), num_decisions: 1, num_propagations: 3 }
    );
}

#[test]
fn pure_literals_counted_once_each() {
    let f = CnfFormula::new().add_clause(vec![1, 2]);
    let result = solve(&f);
    assert_eq!(
        result,
        SatResult { sat: true, assignment: Some(vec![true, true]), num_decisions: 0, num_propagations: 2 }
    );
}
