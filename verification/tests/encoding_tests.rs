use bounded_model::encoding::{encode_bmc, TransitionEncoding};
use bounded_model::solver::solve;

#[test]
fn basic_encoding() {
    let enc = TransitionEncoding::new(2)
        .initial(vec![vec![1], vec![2]])
        .transition(vec![vec![-1, 3], vec![-2, 4]])
        .negated_property(vec![vec![-3]]);
    let f = enc.encode(1);
    assert!(f.num_clauses() > 0);
}

#[test]
fn encoding_zero_steps() {
    let enc = TransitionEncoding::new(1)
        .initial(vec![vec![1]])
        .transition(vec![])
        .negated_property(vec![vec![-1]]);
    let f = enc.encode(0);
    assert_eq!(f.num_clauses(), 2);
}

#[test]
fn encoding_two_steps() {
    let enc = TransitionEncoding::new(2)
        .initial(vec![vec![1]])
        .transition(vec![vec![-1, 3]])
        .negated_property(vec![vec![-3]]);
    let f = enc.encode(2);
    assert!(f.num_clauses() >= 3);
}

#[test]
fn encode_bmc_function() {
    let f = encode_bmc(1, vec![vec![1]], vec![vec![-1, 2]], vec![vec![-1]], 1);
    assert!(f.num_clauses() > 0);
}

#[test]
fn encoding_preserves_satisfiability() {
    let enc = TransitionEncoding::new(1)
        .initial(vec![vec![1]])
        .transition(vec![vec![-1, 2]])
        .negated_property(vec![vec![1]]);
    let f = enc.encode(1);
    let result = solve(&f);
    assert!(result.sat);
}

#[test]
fn encoding_exact_clauses() {
    let enc = TransitionEncoding::new(2)
        .initial(vec![vec![1]])
        .transition(vec![vec![-1, 3], vec![-2, -4]])
        .negated_property(vec![vec![-3]]);
    let f = enc.encode(2);
    let expected: Vec<Vec<i32>> = vec![
        vec![1],
        vec![-1, 3],
        vec![-2, -4],
        vec![-3, 5],
        vec![-4, -6],
        vec![-7],
    ];
    assert_eq!(f.clauses(), expected.as_slice());
    assert_eq!(f.num_variables(), 7);
}

#[test]
fn encoding_clause_count_formula() {
    let enc = TransitionEncoding::new(3)
        .initial(vec![vec![1], vec![-2], vec![3]])
        .transition(vec![vec![-1, 4], vec![2, -5]])
        .negated_property(vec![vec![1, 2]]);
    for k in 0..6usize {
        let f = enc.encode(k);
        assert_eq!(f.num_clauses(), 3 + 2 * k + 1);
    }
}

#[test]
fn encoding_zero_literal_shifts_negative() {
    let enc = TransitionEncoding::new(2)
        .initial(vec![vec![0, 1]])
        .transition(vec![vec![0, -3]])
        .negated_property(vec![vec![0]]);
    let f = enc.encode(1);
    // A literal 0 reads as negative: it moves to -(k * n) like any other.
    let expected: Vec<Vec<i32>> = vec![vec![0, 1], vec![0, -3], vec![-2]];
    assert_eq!(f.clauses(), expected.as_slice());
}

#[test]
fn encoding_sat_iff_violating_run() {
    // x1 starts true and the transition forces it false; the violation is
    // x1 false at the last step, which only a run of one step or more shows.
    let enc = TransitionEncoding::new(1)
        .initial(vec![vec![1]])
        .transition(vec![vec![-1, -2]])
        .negated_property(vec![vec![-1]]);
    assert!(!solve(&enc.encode(0)).sat);
    let r = solve(&enc.encode(1));
    assert!(r.sat);
    let a = r.assignment.unwrap();
    assert_eq!(a, vec![true, false]);
}
