//! Counterexample extraction: reading a satisfying assignment back as an
//! execution trace, one state per time step, and rendering traces as text.

use vstd::prelude::*;
use vstd::string::StringExecFns;

verus! {

broadcast use vstd::string::group_string_axioms;

/// A single state in an execution trace.
#[derive(Debug, Clone, PartialEq)]
pub struct State {
    /// Time step of this state.
    pub timestep: usize,
    /// Variable values as `(variable number, value)` pairs.
    pub variables: Vec<(usize, bool)>,
    /// Human-readable description.
    pub description: String,
}

/// An execution trace: states ordered by time step.
#[derive(Debug, Clone, PartialEq)]
pub struct Trace {
    /// The states of the trace.
    pub states: Vec<State>,
}

/// The decimal digit character for `d < 10`.
pub open spec fn digit_char(d: nat) -> char {
    (48 + d) as char
}

/// The decimal representation of `n`, without leading zeros.
pub open spec fn decimal(n: nat) -> Seq<char>
    decreases n,
{
    if n < 10 {
        seq![digit_char(n)]
    } else {
        decimal(n / 10).push(digit_char(n % 10))
    }
}

/// `"T"` for true, `"F"` for false.
pub open spec fn flag(b: bool) -> Seq<char> {
    if b {
        seq!['T']
    } else {
        seq!['F']
    }
}

/// The items joined with `sep` between neighbours.
pub open spec fn join(items: Seq<Seq<char>>, sep: Seq<char>) -> Seq<char>
    decreases items.len(),
{
    if items.len() == 0 {
        seq![]
    } else if items.len() == 1 {
        items[0]
    } else {
        join(items.drop_last(), sep) + sep + items.last()
    }
}

/// The character sequences of a list of strings.
pub open spec fn views(items: Seq<String>) -> Seq<Seq<char>> {
    items.map_values(|s: String| s@)
}

/// The value at position `idx` of an assignment; `false` past its end.
pub open spec fn value_at(assignment: Seq<bool>, idx: int) -> bool {
    if idx < assignment.len() {
        assignment[idx]
    } else {
        false
    }
}

/// The name of state variable `var`: its entry in `names`, or `"?"`.
pub open spec fn var_label(names: Seq<Seq<char>>, var: int) -> Seq<char> {
    if var < names.len() {
        names[var]
    } else {
        seq!['?']
    }
}

/// The variables of time step `step`: `(var + 1, value)` for each state
/// variable `var`, reading the block of `nvars` values for that step.
pub open spec fn step_variables(assignment: Seq<bool>, nvars: nat, step: int) -> Seq<(usize, bool)> {
    Seq::new(nvars, |var: int| ((var + 1) as usize, value_at(assignment, step * nvars + var)))
}

/// The description of time step `step`: `name=T` or `name=F` for each
/// state variable, joined with `", "`.
pub open spec fn step_description(
    assignment: Seq<bool>,
    nvars: nat,
    names: Seq<Seq<char>>,
    step: int,
) -> Seq<char> {
    join(
        Seq::new(
            nvars,
            |var: int| var_label(names, var) + seq!['='] + flag(value_at(assignment, step * nvars + var)),
        ),
        seq![',', ' '],
    )
}

/// Joining puts `sep` before every item but the first.
pub proof fn lemma_join_flatten(items: Seq<Seq<char>>, sep: Seq<char>)
    requires
        items.len() > 0,
    ensures
        join(items, sep) == items[0] + Seq::new((items.len() - 1) as nat, |v: int| sep + items[v + 1]).flatten(),
    decreases items.len(),
{
    let rest = Seq::new((items.len() - 1) as nat, |v: int| sep + items[v + 1]);
    if items.len() == 1 {
        assert(rest =~= Seq::<Seq<char>>::empty());
        assert(rest.flatten() =~= Seq::<char>::empty());
        assert(items[0] + rest.flatten() =~= items[0]);
    } else {
        let init = items.drop_last();
        lemma_join_flatten(init, sep);
        let rest0 = Seq::new((init.len() - 1) as nat, |v: int| sep + init[v + 1]);
        assert(rest0.push(sep + items.last()) =~= rest);
        rest0.lemma_flatten_push(sep + items.last());
        assert(init[0] == items[0]);
        assert(join(items, sep) =~= items[0] + rest.flatten());
    }
}

/// The description of a step lists `name=T` or `name=F` for each state
/// variable in order, the name read from `names` (`?` past its end) and
/// the value from the assignment (`false` past its end), with `", "`
/// between neighbours and nowhere else.
pub proof fn lemma_step_description(assignment: Seq<bool>, nvars: nat, names: Seq<Seq<char>>, step: int)
    requires
        nvars > 0,
    ensures
        step_description(assignment, nvars, names, step) == (if 0 < names.len() { names[0] } else { seq!['?'] })
            + seq!['='] + (if (if step * nvars < assignment.len() { assignment[step * nvars] } else { false }) {
            seq!['T']
        } else {
            seq!['F']
        }) + Seq::new(
            (nvars - 1) as nat,
            |v: int|
                seq![',', ' '] + (if v + 1 < names.len() { names[v + 1] } else { seq!['?'] }) + seq!['='] + (if (if step
                    * nvars + v + 1 < assignment.len() {
                    assignment[step * nvars + v + 1]
                } else {
                    false
                }) {
                    seq!['T']
                } else {
                    seq!['F']
                }),
        ).flatten(),
{
    let items = Seq::new(
        nvars,
        |var: int| var_label(names, var) + seq!['='] + flag(value_at(assignment, step * nvars + var)),
    );
    lemma_join_flatten(items, seq![',', ' ']);
    let lhs_rest = Seq::new((nvars - 1) as nat, |v: int| seq![',', ' '] + items[v + 1]);
    let rhs_rest = Seq::new(
        (nvars - 1) as nat,
        |v: int|
            seq![',', ' '] + (if v + 1 < names.len() { names[v + 1] } else { seq!['?'] }) + seq!['='] + (if (if step
                * nvars + v + 1 < assignment.len() {
                assignment[step * nvars + v + 1]
            } else {
                false
            }) {
                seq!['T']
            } else {
                seq!['F']
            }),
    );
    assert forall|v: int| 0 <= v < nvars - 1 implies #[trigger] lhs_rest[v] == rhs_rest[v] by {
        assert(step * nvars + (v + 1) == step * nvars + v + 1);
        assert(lhs_rest[v] =~= rhs_rest[v]);
    }
    assert(lhs_rest =~= rhs_rest);
    assert(step * nvars + 0 == step * nvars);
}

/// Step `step` of a trace holds, for each state variable `v`, the pair of
/// its number `v + 1` and the value at position `step * nvars + v` of the
/// assignment, `false` past its end.
pub proof fn lemma_step_variables(assignment: Seq<bool>, nvars: nat, step: int, v: int)
    requires
        0 <= v < nvars,
        0 <= step,
        nvars + 1 <= usize::MAX,
    ensures
        step_variables(assignment, nvars, step).len() == nvars,
        step_variables(assignment, nvars, step)[v].0 == v + 1,
        step_variables(assignment, nvars, step)[v].1 == (step * nvars + v < assignment.len()
            && assignment[step * nvars + v]),
{
    assert(0 <= step * nvars) by (nonlinear_arith)
        requires
            0 <= step,
    ;
}

/// The steps cover the assignment in blocks of `nvars` values: the last
/// step starts inside it and the steps reach its end.
pub proof fn lemma_num_steps(len: nat, nvars: nat)
    requires
        len > 0,
        nvars > 0,
    ensures
        (num_steps(len, nvars) - 1) * nvars < len <= num_steps(len, nvars) * nvars,
{
    let q = len / nvars;
    let r = len % nvars;
    assert(len == nvars * q + r && 0 <= r < nvars) by (nonlinear_arith)
        requires
            nvars > 0,
            q == len / nvars,
            r == len % nvars,
    ;
    if r == 0 {
        assert((q - 1) * nvars < len <= q * nvars) by (nonlinear_arith)
            requires
                len == nvars * q,
                nvars > 0,
                len > 0,
        ;
    } else {
        assert(q * nvars < len <= (q + 1) * nvars) by (nonlinear_arith)
            requires
                len == nvars * q + r,
                0 < r < nvars,
        ;
    }
}

/// The number of time steps in an assignment: one per block of `nvars`
/// values, a partial last block included.
pub open spec fn num_steps(len: nat, nvars: nat) -> nat {
    if nvars == 0 || len == 0 {
        0
    } else {
        len / nvars + (if len % nvars == 0 { 0nat } else { 1nat })
    }
}

/// A step before the last starts inside the assignment.
proof fn lemma_step_start(step: int, nvars: int, len: int)
    requires
        nvars > 0,
        len > 0,
        0 <= step < len / nvars + (if len % nvars == 0 { 0int } else { 1int }),
    ensures
        0 <= step * nvars < len,
{
    let q = len / nvars;
    let r = len % nvars;
    assert(len == nvars * q + r && 0 <= r < nvars) by (nonlinear_arith)
        requires
            nvars > 0,
            q == len / nvars,
            r == len % nvars,
    ;
    assert(0 <= step * nvars < len) by (nonlinear_arith)
        requires
            nvars > 0,
            len == nvars * q + r,
            0 <= r < nvars,
            0 <= step,
            step < q || (step == q && r != 0),
    ;
}

/// Append the decimal representation of `n`.
fn push_decimal(out: &mut String, n: usize)
    ensures
        final(out)@ == old(out)@ + decimal(n as nat),
    decreases n,
{
    if n >= 10 {
        push_decimal(out, n / 10);
    }
    let d = n % 10;
    let ghost before = out@;
    if d == 0 {
        out.append("0");
        proof { reveal_strlit("0"); }
    } else if d == 1 {
        out.append("1");
        proof { reveal_strlit("1"); }
    } else if d == 2 {
        out.append("2");
        proof { reveal_strlit("2"); }
    } else if d == 3 {
        out.append("3");
        proof { reveal_strlit("3"); }
    } else if d == 4 {
        out.append("4");
        proof { reveal_strlit("4"); }
    } else if d == 5 {
        out.append("5");
        proof { reveal_strlit("5"); }
    } else if d == 6 {
        out.append("6");
        proof { reveal_strlit("6"); }
    } else if d == 7 {
        out.append("7");
        proof { reveal_strlit("7"); }
    } else if d == 8 {
        out.append("8");
        proof { reveal_strlit("8"); }
    } else {
        out.append("9");
        proof { reveal_strlit("9"); }
    }
    assert(out@ =~= before + seq![digit_char(d as nat)]);
    assert(old(out)@ + decimal(n as nat) =~= out@);
}

/// Append `"T"` or `"F"`.
fn push_flag(out: &mut String, b: bool)
    ensures
        final(out)@ == old(out)@ + flag(b),
{
    if b {
        out.append("T");
        proof { reveal_strlit("T"); }
    } else {
        out.append("F");
        proof { reveal_strlit("F"); }
    }
}

/// Join strings with `sep` between neighbours.
fn join_strings(parts: &Vec<String>, sep: &str) -> (r: String)
    ensures
        r@ == join(views(parts@), sep@),
{
    let mut out = String::new();
    let mut i: usize = 0;
    while i < parts.len()
        invariant
            i <= parts@.len(),
            out@ == join(views(parts@.take(i as int)), sep@),
        decreases parts@.len() - i,
    {
        let ghost before = out@;
        if i > 0 {
            out.append(sep);
        }
        out.append(parts[i].as_str());
        i += 1;
        proof {
            let t = views(parts@.take(i as int));
            assert(t.drop_last() =~= views(parts@.take(i - 1)));
            assert(t.last() == parts@[i - 1]@);
            if i == 1 {
                assert(out@ =~= t[0]);
            } else {
                assert(out@ =~= before + sep@ + t.last());
            }
        }
    }
    assert(parts@.take(parts@.len() as int) =~= parts@);
    out
}

/// Extract an execution trace from a satisfying assignment.
///
/// The assignment holds `num_state_vars` values per time step; each
/// complete block becomes one state. A value past the end of the
/// assignment reads as `false`; a variable without a name is shown as `?`.
pub fn extract_trace(assignment: &[bool], num_state_vars: usize, var_names: &[String]) -> (t: Trace)
    ensures
        t.states@.len() == num_steps(assignment@.len(), num_state_vars as nat),
        forall|s: int|
            0 <= s < t.states@.len() ==> {
                &&& (#[trigger] t.states@[s]).timestep == s
                &&& t.states@[s].variables@ == step_variables(assignment@, num_state_vars as nat, s)
                &&& t.states@[s].description@ == step_description(
                    assignment@,
                    num_state_vars as nat,
                    views(var_names@),
                    s,
                )
            },
{
    let mut states: Vec<State> = Vec::new();
    if num_state_vars == 0 || assignment.len() == 0 {
        return Trace { states };
    }
    let nvars = num_state_vars;
    let ghost a = assignment@;
    let ghost names = views(var_names@);
    let alen = assignment.len();
    let steps = if alen % nvars == 0 {
        alen / nvars
    } else {
        assert(alen / nvars < alen) by (nonlinear_arith)
            requires
                nvars >= 2,
                alen > 0,
        ;
        alen / nvars + 1
    };
    assert(steps == num_steps(a.len(), nvars as nat));
    let mut step: usize = 0;
    while step < steps
        invariant
            nvars == num_state_vars,
            nvars > 0,
            a == assignment@,
            alen == a.len(),
            names == views(var_names@),
            steps == num_steps(a.len(), nvars as nat),
            a.len() > 0,
            step <= steps,
            states@.len() == step,
            forall|s: int|
                0 <= s < step ==> {
                    &&& (#[trigger] states@[s]).timestep == s
                    &&& states@[s].variables@ == step_variables(a, nvars as nat, s)
                    &&& states@[s].description@ == step_description(a, nvars as nat, names, s)
                },
        decreases steps - step,
    {
        let mut variables: Vec<(usize, bool)> = Vec::new();
        let mut descriptions: Vec<String> = Vec::new();
        let mut var: usize = 0;
        while var < nvars
            invariant
                nvars == num_state_vars,
                nvars > 0,
                a == assignment@,
                alen == a.len(),
                names == views(var_names@),
                steps == num_steps(a.len(), nvars as nat),
                a.len() > 0,
                step < steps,
                var <= nvars,
                variables@ == step_variables(a, nvars as nat, step as int).take(var as int),
                views(descriptions@) == Seq::new(
                    nvars as nat,
                    |v: int| var_label(names, v) + seq!['='] + flag(value_at(a, step * nvars + v)),
                ).take(var as int),
            decreases nvars - var,
        {
            proof {
                lemma_step_start(step as int, nvars as int, alen as int);
            }
            let base = step * nvars;
            let val = if var < alen - base {
                assignment[base + var]
            } else {
                false
            };
            variables.push((var + 1, val));
            let mut item = if var < var_names.len() {
                var_names[var].clone()
            } else {
                let q = String::from_str("?");
                proof { reveal_strlit("?"); }
                q
            };
            item.append("=");
            proof { reveal_strlit("="); }
            push_flag(&mut item, val);
            assert(val == value_at(a, step * nvars + var));
            assert(item@ == var_label(names, var as int) + seq!['='] + flag(value_at(a, step * nvars + var)));
            let ghost before = descriptions@;
            descriptions.push(item);
            var += 1;
            proof {
                assert(variables@ =~= step_variables(a, nvars as nat, step as int).take(var as int));
                assert(views(descriptions@) =~= views(before).push(item@));
                assert(views(descriptions@) =~= Seq::new(
                    nvars as nat,
                    |v: int| var_label(names, v) + seq!['='] + flag(value_at(a, step * nvars + v)),
                ).take(var as int));
            }
        }
        let description = join_strings(&descriptions, ", ");
        proof {
            reveal_strlit(", ");
            assert(variables@ =~= step_variables(a, nvars as nat, step as int));
            assert(views(descriptions@) =~= Seq::new(
                nvars as nat,
                |v: int| var_label(names, v) + seq!['='] + flag(value_at(a, step * nvars + v)),
            ));
        }
        assert(", "@ =~= seq![',', ' ']);
        assert(description@ == step_description(a, nvars as nat, names, step as int));
        let ghost before = states@;
        states.push(State { timestep: step, variables, description });
        step += 1;
        proof {
            assert forall|s: int| 0 <= s < step implies {
                &&& (#[trigger] states@[s]).timestep == s
                &&& states@[s].variables@ == step_variables(a, nvars as nat, s)
                &&& states@[s].description@ == step_description(a, nvars as nat, names, s)
            } by {
                if s < step - 1 {
                    assert(states@[s] == before[s]);
                }
            }
        }
    }
    Trace { states }
}

/// `"Step "` followed by the decimal time step.
pub open spec fn step_label(timestep: usize) -> Seq<char> {
    seq!['S', 't', 'e', 'p', ' '] + decimal(timestep as nat)
}

/// One line of a formatted trace: `"Step t: description"`.
pub open spec fn step_line(s: State) -> Seq<char> {
    step_label(s.timestep) + seq![':', ' '] + s.description@
}

/// The header line of a formatted trace of `n` states.
pub open spec fn trace_header(n: nat) -> Seq<char> {
    seq!['E', 'x', 'e', 'c', 'u', 't', 'i', 'o', 'n', ' ', 't', 'r', 'a', 'c', 'e', ' ', '(']
        + decimal(n) + seq![' ', 's', 't', 'e', 'p', 's', ')', ':']
}

/// A rule of 50 dashes.
pub open spec fn rule() -> Seq<char> {
    Seq::new(50, |i: int| '-')
}

/// The text of a formatted trace.
pub open spec fn formatted(states: Seq<State>) -> Seq<char> {
    if states.len() == 0 {
        seq!['E', 'm', 'p', 't', 'y', ' ', 't', 'r', 'a', 'c', 'e']
    } else {
        join(
            seq![trace_header(states.len()), rule()] + Seq::new(states.len(), |i: int| step_line(states[i])),
            seq!['\n'],
        )
    }
}

/// The number a string of decimal digits stands for.
pub open spec fn digits_value(s: Seq<char>) -> int
    decreases s.len(),
{
    if s.len() == 0 {
        0
    } else {
        digits_value(s.drop_last()) * 10 + (s.last() as int - 48)
    }
}

/// `decimal(n)` is a non-empty string of decimal digits that stands for
/// `n`, with no leading zero unless `n` is 0.
pub proof fn lemma_decimal(n: nat)
    ensures
        decimal(n).len() > 0,
        forall|i: int| 0 <= i < decimal(n).len() ==> '0' <= #[trigger] decimal(n)[i] <= '9',
        digits_value(decimal(n)) == n,
        decimal(n)[0] == '0' ==> n == 0,
    decreases n,
{
    if n >= 10 {
        lemma_decimal(n / 10);
        let d = decimal(n / 10);
        assert(decimal(n).drop_last() =~= d);
        assert forall|i: int| 0 <= i < decimal(n).len() implies '0' <= #[trigger] decimal(n)[i] <= '9' by {
            if i < d.len() {
                assert(decimal(n)[i] == d[i]);
            }
        }
        assert(decimal(n)[0] == d[0]);
        assert(decimal(n).last() == digit_char(n % 10));
        assert(digit_char(n % 10) as int == 48 + n % 10);
        assert(n == (n / 10) * 10 + n % 10) by (nonlinear_arith);
        assert(digits_value(decimal(n)) == digits_value(decimal(n).drop_last()) * 10 + (decimal(n).last() as int - 48));
        assert(digits_value(decimal(n)) == digits_value(d) * 10 + (n % 10) as int);
    } else {
        assert(decimal(n).drop_last() =~= Seq::<char>::empty());
        assert(decimal(n).last() == digit_char(n));
        assert(digit_char(n) as int == 48 + n);
        assert(digits_value(decimal(n)) == digits_value(decimal(n).drop_last()) * 10 + (decimal(n).last() as int - 48));
    }
}

/// A formatted trace of one or more states is its header line
/// `Execution trace (N steps):`, then a line of 50 dashes, then one line
/// `Step t: description` per state in order, each line after the first
/// preceded by a newline.
pub proof fn lemma_formatted(states: Seq<State>)
    requires
        states.len() > 0,
    ensures
        formatted(states) == trace_header(states.len()) + (seq!['\n'] + Seq::new(50, |i: int| '-')) + Seq::new(
            states.len(),
            |i: int|
                seq!['\n'] + (seq!['S', 't', 'e', 'p', ' '] + decimal(states[i].timestep as nat) + seq![':', ' ']
                    + states[i].description@),
        ).flatten(),
{
    let lines = seq![trace_header(states.len()), rule()] + Seq::new(states.len(), |i: int| step_line(states[i]));
    lemma_join_flatten(lines, seq!['\n']);
    let rest = Seq::new((lines.len() - 1) as nat, |v: int| seq!['\n'] + lines[v + 1]);
    let tail = Seq::new(
        states.len(),
        |i: int|
            seq!['\n'] + (seq!['S', 't', 'e', 'p', ' '] + decimal(states[i].timestep as nat) + seq![':', ' ']
                + states[i].description@),
    );
    assert(rest =~= seq![seq!['\n'] + rule()] + tail);
    assert(seq![seq!['\n'] + rule()].flatten() =~= seq!['\n'] + rule()) by {
        seq![seq!['\n'] + rule()].lemma_flatten_one_element();
    }
    vstd::seq_lib::lemma_flatten_concat(seq![seq!['\n'] + rule()], tail);
    assert(rule() =~= Seq::new(50, |i: int| '-'));
}

/// Format a trace as text: a header with the number of steps, a rule of
/// dashes, then one `Step t: description` line per state, separated by
/// newlines; `"Empty trace"` for a trace without states.
pub fn format_trace(trace: &Trace) -> (r: String)
    ensures
        r@ == formatted(trace.states@),
{
    if trace.states.len() == 0 {
        let r = String::from_str("Empty trace");
        proof { reveal_strlit("Empty trace"); }
        assert(r@ =~= formatted(trace.states@));
        return r;
    }
    let mut lines: Vec<String> = Vec::new();
    let mut header = String::from_str("Execution trace (");
    proof { reveal_strlit("Execution trace ("); }
    push_decimal(&mut header, trace.states.len());
    header.append(" steps):");
    proof { reveal_strlit(" steps):"); }
    assert(header@ =~= trace_header(trace.states@.len()));
    lines.push(header);
    let mut dashes = String::new();
    let mut i: usize = 0;
    while i < 50
        invariant
            i <= 50,
            dashes@ == Seq::new(i as nat, |j: int| '-'),
        decreases 50 - i,
    {
        dashes.append("-");
        proof { reveal_strlit("-"); }
        i += 1;
        assert(dashes@ =~= Seq::new(i as nat, |j: int| '-'));
    }
    lines.push(dashes);
    let ghost head = views(lines@);
    assert(head =~= seq![trace_header(trace.states@.len()), rule()]);
    let mut k: usize = 0;
    while k < trace.states.len()
        invariant
            k <= trace.states@.len(),
            head == seq![trace_header(trace.states@.len()), rule()],
            views(lines@) == head + Seq::new(trace.states@.len(), |i: int| step_line(trace.states@[i])).take(
                k as int,
            ),
        decreases trace.states@.len() - k,
    {
        let state = &trace.states[k];
        let mut line = String::from_str("Step ");
        proof { reveal_strlit("Step "); }
        push_decimal(&mut line, state.timestep);
        line.append(": ");
        proof { reveal_strlit(": "); }
        line.append(state.description.as_str());
        assert(line@ =~= step_line(trace.states@[k as int]));
        let ghost before = lines@;
        lines.push(line);
        k += 1;
        assert(views(lines@) =~= views(before).push(line@));
        assert(views(lines@) =~= head + Seq::new(trace.states@.len(), |i: int| step_line(trace.states@[i])).take(
            k as int,
        ));
    }
    let r = join_strings(&lines, "\n");
    proof {
        reveal_strlit("\n");
        assert("\n"@ =~= seq!['\n']);
        assert(views(lines@) =~= seq![trace_header(trace.states@.len()), rule()] + Seq::new(
            trace.states@.len(),
            |i: int| step_line(trace.states@[i]),
        ));
    }
    r
}

/// `"var"`, the variable number, `"="` and `T` or `F`.
pub open spec fn var_cell(var: usize, val: bool) -> Seq<char> {
    seq!['v', 'a', 'r'] + decimal(var as nat) + seq!['='] + flag(val)
}

/// The table row of a state: its step label, then one cell per variable.
pub open spec fn table_row(s: State) -> Seq<Seq<char>> {
    seq![step_label(s.timestep)] + s.variables@.map_values(|p: (usize, bool)| var_cell(p.0, p.1))
}

/// Convert a trace to a table: one row per state, holding `"Step t"`
/// and then `"var{v}=T"` or `"var{v}=F"` for each of its variables.
pub fn trace_to_table(trace: &Trace) -> (rows: Vec<Vec<String>>)
    ensures
        rows@.len() == trace.states@.len(),
        forall|i: int| 0 <= i < rows@.len() ==> views(#[trigger] rows@[i]@) == table_row(trace.states@[i]),
{
    let mut rows: Vec<Vec<String>> = Vec::new();
    let mut k: usize = 0;
    while k < trace.states.len()
        invariant
            k <= trace.states@.len(),
            rows@.len() == k,
            forall|i: int| 0 <= i < k ==> views(#[trigger] rows@[i]@) == table_row(trace.states@[i]),
        decreases trace.states@.len() - k,
    {
        let state = &trace.states[k];
        let mut row: Vec<String> = Vec::new();
        let mut label = String::from_str("Step ");
        proof { reveal_strlit("Step "); }
        push_decimal(&mut label, state.timestep);
        assert(label@ =~= step_label(state.timestep));
        row.push(label);
        assert(views(row@) =~= seq![step_label(state.timestep)]);
        let ghost cells = state.variables@.map_values(|p: (usize, bool)| var_cell(p.0, p.1));
        assert(seq![step_label(state.timestep)] + cells.take(0) =~= seq![step_label(state.timestep)]);
        let mut j: usize = 0;
        while j < state.variables.len()
            invariant
                j <= state.variables@.len(),
                cells == state.variables@.map_values(|p: (usize, bool)| var_cell(p.0, p.1)),
                views(row@) == seq![step_label(state.timestep)] + cells.take(j as int),
            decreases state.variables@.len() - j,
        {
            let (v, val) = state.variables[j];
            let mut cell = String::from_str("var");
            proof { reveal_strlit("var"); }
            push_decimal(&mut cell, v);
            cell.append("=");
            proof { reveal_strlit("="); }
            push_flag(&mut cell, val);
            assert(cell@ =~= var_cell(v, val));
            let ghost before = row@;
            row.push(cell);
            j += 1;
            assert(views(row@) =~= views(before).push(cell@));
            assert(views(row@) =~= seq![step_label(state.timestep)] + cells.take(j as int));
        }
        assert(cells.take(cells.len() as int) =~= cells);
        let ghost before = rows@;
        rows.push(row);
        k += 1;
        assert forall|i: int| 0 <= i < k implies views(#[trigger] rows@[i]@) == table_row(trace.states@[i]) by {
            if i < k - 1 {
                assert(rows@[i] == before[i]);
            }
        }
    }
    rows
}

} // verus!
