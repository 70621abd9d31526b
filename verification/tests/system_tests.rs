use std::collections::HashMap;

use bounded_model::bound::{check, BmcConfig};
use bounded_model::system::{PropertyFn, TransitionSystem};

fn build_simple_system() -> TransitionSystem {
    let mut b = TransitionSystem::builder();
    let s0 = b.add_state("idle");
    let s1 = b.add_state("running");
    let s2 = b.add_state("error");
    b.add_initial(s0);
    b.add_transition(s0, s1);
    b.add_transition(s1, s1);
    b.add_transition(s1, s2);
    b.add_transition(s2, s2);
    b.property(PropertyFn::NeverReach(s2));
    b.build()
}

#[test]
fn builder_creates_system() {
    let sys = build_simple_system();
    assert_eq!(sys.num_states(), 3);
    assert_eq!(sys.num_transitions(), 4);
}

#[test]
fn initial_state() {
    let sys = build_simple_system();
    assert!(sys.is_initial(0));
    assert!(!sys.is_initial(1));
}

#[test]
fn state_names() {
    let sys = build_simple_system();
    assert_eq!(sys.state_name(0), Some("idle"));
    assert_eq!(sys.state_name(1), Some("running"));
    assert_eq!(sys.state_name(2), Some("error"));
}

#[test]
fn successors() {
    let sys = build_simple_system();
    assert_eq!(sys.successors(0), &[1]);
    assert_eq!(sys.successors(1), &[1, 2]);
    assert_eq!(sys.successors(2), &[2]);
}

#[test]
fn property_violation() {
    let sys = build_simple_system();
    assert!(!sys.violates_property(0));
    assert!(!sys.violates_property(1));
    assert!(sys.violates_property(2));
}

#[test]
fn reachable_states() {
    let sys = build_simple_system();
    let reachable = sys.reachable_states();
    assert_eq!(reachable, vec![0, 1, 2]);
}

#[test]
fn to_encoding() {
    let sys = build_simple_system();
    let enc = sys.to_encoding();
    assert!(enc.num_vars > 0);
    assert!(!enc.initial.is_empty());
    assert!(!enc.transition.is_empty());
}

#[test]
fn property_never_contain() {
    let prop = PropertyFn::NeverContain("err".to_string());
    assert!(prop.check(2, "error"));
    assert!(!prop.check(0, "idle"));
}

#[test]
fn custom_property() {
    let prop = PropertyFn::Custom {
        name: "my_prop".to_string(),
        params: vec!["1".to_string()],
    };
    assert!(!prop.check(0, "anything"));
}

#[test]
fn no_property_no_violation() {
    let sys = TransitionSystem {
        states: vec!["a".to_string()],
        initial: vec![0],
        transitions: HashMap::new(),
        property: None,
    };
    assert!(!sys.violates_property(0));
}

#[test]
fn always_reach_property() {
    let prop = PropertyFn::AlwaysReach(1);
    assert!(!prop.check(0, "idle"));
}

#[test]
fn unknown_state_has_no_name_and_no_successors() {
    let sys = build_simple_system();
    assert_eq!(sys.state_name(3), None);
    assert_eq!(sys.successors(7), &[] as &[usize]);
    assert!(!sys.is_initial(9));
}

#[test]
fn out_of_range_state_is_named_question_mark() {
    let mut b = TransitionSystem::builder();
    b.add_state("a");
    b.property(PropertyFn::NeverContain("?".to_string()));
    let sys = b.build();
    assert!(!sys.violates_property(0));
    assert!(sys.violates_property(5));
}

#[test]
fn never_contain_edge_cases() {
    let empty = PropertyFn::NeverContain(String::new());
    assert!(empty.check(0, ""));
    assert!(empty.check(0, "x"));
    let long = PropertyFn::NeverContain("errors".to_string());
    assert!(!long.check(0, "error"));
    assert!(PropertyFn::NeverContain("or".to_string()).check(0, "error"));
    assert!(PropertyFn::NeverContain("é".to_string()).check(0, "café"));
}

#[test]
fn builder_initial_deduplicated_and_transitions_kept() {
    let mut b = TransitionSystem::builder();
    let a = b.add_state("a");
    let c = b.add_state("c");
    b.add_initial(c);
    b.add_initial(a);
    b.add_initial(c);
    b.add_transition(a, c);
    b.add_transition(a, c);
    b.add_transition(c, 9);
    let sys = b.build();
    assert_eq!(sys.initial, vec![1, 0]);
    assert_eq!(sys.successors(0), &[1, 1]);
    assert_eq!(sys.successors(1), &[9]);
    assert_eq!(sys.num_transitions(), 3);
    assert!(sys.property.is_none());
}

#[test]
fn reachable_follows_edges_only() {
    let mut b = TransitionSystem::builder();
    for name in ["s0", "s1", "s2", "s3", "s4", "s5"] {
        b.add_state(name);
    }
    b.add_initial(4);
    b.add_initial(2);
    b.add_transition(4, 1);
    b.add_transition(1, 4);
    b.add_transition(3, 0);
    b.add_transition(2, 2);
    let sys = b.build();
    assert_eq!(sys.reachable_states(), vec![1, 2, 4]);
    let none = TransitionSystem::builder().build();
    assert!(none.reachable_states().is_empty());
}

#[test]
fn to_encoding_exact() {
    let sys = build_simple_system();
    let enc = sys.to_encoding();
    assert_eq!(enc.num_vars, 3);
    assert_eq!(enc.initial, vec![vec![1], vec![-1, -2], vec![-1, -3], vec![-2, -3]]);
    assert_eq!(
        enc.transition,
        vec![vec![-4, -5], vec![-4, -6], vec![-5, -6], vec![-1, 5], vec![-2, 5, 6], vec![-3, 6]]
    );
    assert_eq!(enc.property, vec![vec![3]]);
}

#[test]
fn to_encoding_initial_exactly_one() {
    let mut b = TransitionSystem::builder();
    b.add_state("a");
    b.add_state("b");
    b.add_state("c");
    b.add_initial(0);
    b.add_initial(2);
    b.add_initial(1);
    let sys = b.build();
    let enc = sys.to_encoding();
    assert_eq!(enc.initial, vec![vec![1, 3, 2], vec![-1, -2], vec![-1, -3], vec![-2, -3]]);
    assert_eq!(
        enc.transition,
        vec![vec![-4, -5], vec![-4, -6], vec![-5, -6], vec![-1], vec![-2], vec![-3]]
    );
    assert_eq!(enc.property, vec![Vec::<i32>::new()]);
}

#[test]
fn to_encoding_skips_indices_without_state() {
    let mut b = TransitionSystem::builder();
    b.add_state("a");
    b.add_state("b");
    b.add_initial(7);
    b.add_initial(0);
    b.add_transition(0, 9);
    b.add_transition(0, 1);
    b.add_transition(5, 0);
    let sys = b.build();
    let enc = sys.to_encoding();
    assert_eq!(enc.initial, vec![vec![1], vec![-1, -2]]);
    assert_eq!(enc.transition, vec![vec![-3, -4], vec![-1, 4], vec![-2]]);
}

#[test]
fn system_violation_found_at_first_reachable_bound() {
    let sys = build_simple_system();
    let enc = sys.to_encoding();
    let result = check(&enc, &BmcConfig::new(5));
    assert!(result.sat);
    assert_eq!(result.k, 2);
    assert_eq!(
        result.assignment,
        Some(vec![true, false, false, false, true, false, false, false, true])
    );
}

#[test]
fn system_without_reachable_violation_passes() {
    let mut b = TransitionSystem::builder();
    let idle = b.add_state("idle");
    let busy = b.add_state("busy");
    let fault = b.add_state("fault");
    b.add_initial(idle);
    b.add_transition(idle, busy);
    b.add_transition(busy, idle);
    b.add_transition(fault, fault);
    b.property(PropertyFn::NeverReach(fault));
    let sys = b.build();
    let result = check(&sys.to_encoding(), &BmcConfig::new(6));
    assert!(!result.sat);
    assert_eq!(result.k, 6);
}

#[test]
fn any_of_several_violating_states_found() {
    let mut b = TransitionSystem::builder();
    let start = b.add_state("start");
    let err_a = b.add_state("error_a");
    let err_b = b.add_state("error_b");
    b.add_initial(start);
    b.add_transition(start, err_a);
    b.add_transition(start, err_b);
    b.add_transition(err_a, err_a);
    b.add_transition(err_b, err_b);
    b.property(PropertyFn::NeverContain("error".to_string()));
    let sys = b.build();
    let result = check(&sys.to_encoding(), &BmcConfig::new(3));
    assert!(result.sat);
    assert_eq!(result.k, 1);
}

#[test]
fn dead_end_state_cannot_step() {
    // "stuck" has no successors, so no run passes through it to "bad".
    let mut b = TransitionSystem::builder();
    let start = b.add_state("start");
    let stuck = b.add_state("stuck");
    let bad = b.add_state("bad");
    b.add_initial(start);
    b.add_transition(start, stuck);
    b.add_transition(bad, bad);
    b.property(PropertyFn::NeverReach(bad));
    let sys = b.build();
    let result = check(&sys.to_encoding(), &BmcConfig::new(4));
    assert!(!result.sat);
}
