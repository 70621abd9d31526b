use bounded_model::bound::{check, check_with, BmcConfig, BmcResult};
use bounded_model::cnf::CnfFormula;
use bounded_model::encoding::TransitionEncoding;

#[test]
fn immediate_counterexample() {
    let enc = TransitionEncoding::new(1)
        .initial(vec![vec![1]])
        .transition(vec![])
        .negated_property(vec![vec![1]]);
    let result = check(&enc, &BmcConfig::new(5));
    assert!(result.sat);
    assert_eq!(result.k, 0);
}

#[test]
fn no_counterexample_within_bound() {
    let enc = TransitionEncoding::new(1)
        .initial(vec![vec![1]])
        .transition(vec![vec![-1, 2]])
        .negated_property(vec![vec![1], vec![-1]]);
    let result = check(&enc, &BmcConfig::new(3));
    assert!(!result.sat);
}

#[test]
fn counterexample_at_k1() {
    let enc = TransitionEncoding::new(1)
        .initial(vec![vec![1]])
        .transition(vec![vec![-1, -2]])
        .negated_property(vec![vec![-1]]);
    let result = check(&enc, &BmcConfig::new(5));
    assert!(result.sat);
}

#[test]
fn check_with_closure() {
    let result = check_with(3, |_k| CnfFormula::new().add_clause(vec![1, 2]));
    assert!(result.sat);
}

#[test]
fn default_config() {
    let config = BmcConfig::default();
    assert_eq!(config.max_k, 10);
    assert!(config.stop_on_sat);
}

#[test]
fn first_violating_bound_reported() {
    let enc = TransitionEncoding::new(1)
        .initial(vec![vec![1]])
        .transition(vec![vec![-1, -2]])
        .negated_property(vec![vec![-1]]);
    let result = check(&enc, &BmcConfig::new(5));
    assert_eq!(
        result,
        BmcResult { sat: true, k: 1, assignment: Some(vec![true, false]) }
    );
}

#[test]
fn unsat_reports_max_bound() {
    let enc = TransitionEncoding::new(1)
        .initial(vec![vec![1]])
        .transition(vec![vec![-1, 2]])
        .negated_property(vec![vec![-1]]);
    let result = check(&enc, &BmcConfig::new(4));
    assert_eq!(result, BmcResult { sat: false, k: 4, assignment: None });
    let zero = check(&enc, &BmcConfig::new(0));
    assert_eq!(zero, BmcResult { sat: false, k: 0, assignment: None });
}

#[test]
fn check_with_first_satisfiable_bound() {
    let result = check_with(6, |k| {
        if k < 3 {
            CnfFormula::new().add_clause(vec![1]).add_clause(vec![-1])
        } else {
            CnfFormula::new().add_clause(vec![-2])
        }
    });
    assert_eq!(result, BmcResult { sat: true, k: 3, assignment: Some(vec![false, false]) });
    let none = check_with(2, |_k| CnfFormula::new().add_clause(vec![]));
    assert_eq!(none, BmcResult { sat: false, k: 2, assignment: None });
}

#[test]
fn config_new_sets_bound() {
    let c = BmcConfig::new(7);
    assert_eq!(c.max_k, 7);
    assert!(c.stop_on_sat);
}

#[test]
fn large_bound_finds_early_counterexample() {
    let enc = TransitionEncoding::new(1)
        .initial(vec![vec![1]])
        .transition(vec![])
        .negated_property(vec![vec![1]]);
    let result = check(&enc, &BmcConfig::new(usize::MAX));
    assert_eq!(result, BmcResult { sat: true, k: 0, assignment: Some(vec![true]) });
}

#[test]
fn search_stops_at_first_unencodable_bound() {
    let n: i32 = 1 << 30;
    let enc = TransitionEncoding::new(n as usize)
        .initial(vec![vec![1]])
        .transition(vec![vec![-1, n + 1]])
        .negated_property(vec![vec![-1]]);
    let result = check(&enc, &BmcConfig::new(10));
    assert_eq!(result, BmcResult { sat: false, k: 2, assignment: None });
}

#[test]
fn check_with_closure_exact() {
    let result = check_with(3, |_k| CnfFormula::new().add_clause(vec![1, 2]));
    assert_eq!(result, BmcResult { sat: true, k: 0, assignment: Some(vec![true, true]) });
}
