use bounded_model::counterexample::{extract_trace, format_trace, trace_to_table, State, Trace};

fn make_var_names(names: &[&str]) -> Vec<String> {
    names.iter().map(|s| s.to_string()).collect()
}

#[test]
fn empty_assignment() {
    let trace = extract_trace(&[], 2, &make_var_names(&["x", "y"]));
    assert!(trace.states.is_empty());
}

#[test]
fn single_step() {
    let assignment = vec![true, false];
    let trace = extract_trace(&assignment, 2, &make_var_names(&["x", "y"]));
    assert_eq!(trace.states.len(), 1);
    assert_eq!(trace.states[0].timestep, 0);
    assert_eq!(trace.states[0].description, "x=T, y=F");
}

#[test]
fn two_steps() {
    let assignment = vec![true, false, false, true];
    let trace = extract_trace(&assignment, 2, &make_var_names(&["x", "y"]));
    assert_eq!(trace.states.len(), 2);
    assert_eq!(trace.states[0].description, "x=T, y=F");
    assert_eq!(trace.states[1].description, "x=F, y=T");
}

#[test]
fn default_var_names() {
    let assignment = vec![true];
    let trace = extract_trace(&assignment, 1, &[]);
    assert_eq!(trace.states[0].description, "?=T");
}

#[test]
fn format_empty_trace() {
    let trace = Trace { states: vec![] };
    assert_eq!(format_trace(&trace), "Empty trace");
}

#[test]
fn format_single_step() {
    let trace = Trace {
        states: vec![State {
            timestep: 0,
            variables: vec![(1, true)],
            description: "x=T".to_string(),
        }],
    };
    let output = format_trace(&trace);
    assert!(output.contains("Step 0"));
    assert!(output.contains("x=T"));
}

#[test]
fn trace_to_table_format() {
    let trace = Trace {
        states: vec![
            State {
                timestep: 0,
                variables: vec![(1, true), (2, false)],
                description: "x=T, y=F".to_string(),
            },
            State {
                timestep: 1,
                variables: vec![(1, false), (2, true)],
                description: "x=F, y=T".to_string(),
            },
        ],
    };
    let table = trace_to_table(&trace);
    assert_eq!(table.len(), 2);
    assert!(table[0].contains(&"Step 0".to_string()));
    assert!(table[1].contains(&"Step 1".to_string()));
}

#[test]
fn partial_assignment_pads_false() {
    let assignment = vec![true];
    let trace = extract_trace(&assignment, 1, &make_var_names(&["x"]));
    assert_eq!(trace.states[0].variables[0], (1, true));
}

#[test]
fn incomplete_last_step_padded() {
    let assignment = vec![true, false, true, true, false];
    let trace = extract_trace(&assignment, 2, &make_var_names(&["a"]));
    assert_eq!(trace.states.len(), 3);
    assert_eq!(trace.states[1].timestep, 1);
    assert_eq!(trace.states[1].variables, vec![(1, true), (2, true)]);
    assert_eq!(trace.states[2].variables, vec![(1, false), (2, false)]);
    assert_eq!(trace.states[0].description, "a=T, ?=F");
    assert_eq!(trace.states[1].description, "a=T, ?=T");
    assert_eq!(trace.states[2].description, "a=F, ?=F");
}

#[test]
fn partial_step_of_two_vars() {
    let trace = extract_trace(&[true, false, true], 2, &make_var_names(&["x", "y"]));
    assert_eq!(trace.states.len(), 2);
    assert_eq!(
        trace.states[1],
        State { timestep: 1, variables: vec![(1, true), (2, false)], description: "x=T, y=F".to_string() }
    );
}

#[test]
fn zero_state_vars_gives_empty_trace() {
    let trace = extract_trace(&[true, false], 0, &make_var_names(&["x"]));
    assert_eq!(trace, Trace { states: vec![] });
}

#[test]
fn format_full_text() {
    let trace = Trace {
        states: vec![
            State { timestep: 0, variables: vec![], description: "x=T".to_string() },
            State { timestep: 12, variables: vec![], description: "x=F, y=T".to_string() },
        ],
    };
    let expected = format!(
        "Execution trace (2 steps):\n{}\nStep 0: x=T\nStep 12: x=F, y=T",
        "-".repeat(50)
    );
    assert_eq!(format_trace(&trace), expected);
}

#[test]
fn table_rows_exact() {
    let trace = Trace {
        states: vec![
            State { timestep: 105, variables: vec![(1, true), (10, false)], description: String::new() },
            State { timestep: 3, variables: vec![], description: String::new() },
        ],
    };
    let table = trace_to_table(&trace);
    assert_eq!(
        table,
        vec![
            vec!["Step 105".to_string(), "var1=T".to_string(), "var10=F".to_string()],
            vec!["Step 3".to_string()],
        ]
    );
    assert!(trace_to_table(&Trace { states: vec![] }).is_empty());
}
