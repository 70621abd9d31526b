use bounded_model::cnf::CnfFormula;

#[test]
fn empty_formula() {
    let f = CnfFormula::new();
    assert!(f.is_empty());
    assert_eq!(f.num_clauses(), 0);
    assert_eq!(f.num_variables(), 0);
}

#[test]
fn single_clause() {
    let f = CnfFormula::new().add_clause(vec![1, -2, 3]);
    assert_eq!(f.num_clauses(), 1);
    assert_eq!(f.num_variables(), 3);
}

#[test]
fn multiple_clauses() {
    let f = CnfFormula::new()
        .add_clause(vec![1])
        .add_clause(vec![-1, 2])
        .add_clause(vec![-2, 3]);
    assert_eq!(f.num_clauses(), 3);
    assert_eq!(f.num_variables(), 3);
}

#[test]
fn builder_chain() {
    let f = CnfFormula::new()
        .add_clause(vec![1, 2])
        .add_clause(vec![-1, -2]);
    assert_eq!(f.clauses().len(), 2);
}

#[test]
fn add_clauses_batch() {
    let f = CnfFormula::new().add_clauses(vec![vec![1, 2], vec![-1, -2]]);
    assert_eq!(f.num_clauses(), 2);
}

#[test]
fn default_is_new() {
    let f1 = CnfFormula::new();
    let f2 = CnfFormula::default();
    assert_eq!(f1, f2);
}

#[test]
fn num_variables_with_gaps() {
    let f = CnfFormula::new()
        .add_clause(vec![1, 3])
        .add_clause(vec![-7]);
    assert_eq!(f.num_variables(), 7);
}

#[test]
fn clauses_kept_in_order() {
    let f = CnfFormula::new()
        .add_clause(vec![2, -1])
        .add_clauses(vec![vec![], vec![5]])
        .add_clause(vec![-3]);
    let expected: Vec<Vec<i32>> = vec![vec![2, -1], vec![], vec![5], vec![-3]];
    assert_eq!(f.clauses(), expected.as_slice());
    assert_eq!(f.num_clauses(), 4);
    assert!(!f.is_empty());
}

#[test]
fn num_variables_of_negative_extremes() {
    let f = CnfFormula::new().add_clause(vec![-2147483647, 4]);
    assert_eq!(f.num_variables(), 2147483647);
    let g = CnfFormula::new().add_clause(vec![0]).add_clause(vec![]);
    assert_eq!(g.num_variables(), 0);
}
