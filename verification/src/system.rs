//! Explicit finite-state transition systems: named states, initial states,
//! a successor relation and a property to check.

use vstd::prelude::*;
use std::collections::HashMap;
use std::collections::HashSet;
use vstd::string::StrSliceExecFns;
use vstd::std_specs::iter::IteratorSpec;
use vstd::std_specs::hash::{spec_hash_map_iter, spec_hash_keys_iter};
use crate::cnf::deep;
use crate::encoding::TransitionEncoding;
use crate::cnf::satisfiable;
use crate::one_hot::{
    one_hot_initial, one_hot_transition, bad_lits, init_lits, succ_lits, succs, step_clause, neg_cur_vars,
    neg_next_vars, pair_clauses, is_violating_path, push_pair_clauses, lemma_one_hot_runs, lemma_one_hot_encodable,
    lemma_bad_lits_contains, lemma_bad_lits_range,
};

verus! {

broadcast use {vstd::std_specs::hash::group_hash_axioms, vstd::string::group_string_axioms};

/// `needle` occurs as a contiguous run of characters in `hay`.
pub open spec fn contains_sub(hay: Seq<char>, needle: Seq<char>) -> bool {
    exists|i: int| 0 <= i <= hay.len() - needle.len() && #[trigger] hay.subrange(i, i + needle.len()) == needle
}

/// `needle` occurs in `hay` exactly when `hay` is `needle` with some text
/// before and after it.
pub proof fn lemma_contains_sub(hay: Seq<char>, needle: Seq<char>)
    ensures
        contains_sub(hay, needle) == exists|a: Seq<char>, b: Seq<char>| hay == #[trigger] (a + needle + b),
{
    let m = needle.len() as int;
    if contains_sub(hay, needle) {
        let i = choose|i: int| 0 <= i <= hay.len() - m && #[trigger] hay.subrange(i, i + m) == needle;
        let a = hay.take(i);
        let b = hay.skip(i + m);
        assert(hay =~= a + needle + b);
    }
    if exists|a: Seq<char>, b: Seq<char>| hay == #[trigger] (a + needle + b) {
        let (a, b) = choose|a: Seq<char>, b: Seq<char>| hay == #[trigger] (a + needle + b);
        let i = a.len() as int;
        assert(hay.subrange(i, i + m) =~= needle);
    }
}

/// Whether `needle` occurs in `hay`.
fn str_contains(hay: &str, needle: &str) -> (r: bool)
    ensures
        r == contains_sub(hay@, needle@),
{
    let h = hay.unicode_len();
    let m = needle.unicode_len();
    if m > h {
        return false;
    }
    let mut i: usize = 0;
    while i <= h - m
        invariant
            h == hay@.len(),
            m == needle@.len(),
            m <= h,
            forall|i2: int| 0 <= i2 < i ==> #[trigger] hay@.subrange(i2, i2 + m) != needle@,
        decreases h - m + 1 - i,
    {
        let mut j: usize = 0;
        let mut same = true;
        while j < m
            invariant
                h == hay@.len(),
                m == needle@.len(),
                i + m <= h,
                j <= m,
                same == forall|j2: int| 0 <= j2 < j ==> hay@[i + j2] == needle@[j2],
            decreases m - j,
        {
            if hay.get_char(i + j) != needle.get_char(j) {
                same = false;
            }
            j += 1;
        }
        if same {
            assert(hay@.subrange(i as int, i + m) =~= needle@);
            return true;
        }
        assert(hay@.subrange(i as int, i + m) != needle@) by {
            let j2 = choose|j2: int| 0 <= j2 < m && hay@[i + j2] != needle@[j2];
            assert(hay@.subrange(i as int, i + m)[j2] == hay@[i + j2]);
        }
        i += 1;
    }
    false
}

/// A property of states, given by a description rather than a closure.
#[derive(Debug, Clone)]
pub enum PropertyFn {
    /// Check that the state index never equals the given value.
    NeverReach(usize),
    /// Check that the state name never contains the given substring.
    NeverContain(String),
    /// Always eventually reaches the given state.
    AlwaysReach(usize),
    /// Custom property identified by name with parameters.
    Custom { name: String, params: Vec<String> },
}

impl PropertyFn {
    /// The state with this index and name violates the property.
    /// `AlwaysReach` and `Custom` are not checked state by state, so no
    /// state violates them.
    pub open spec fn violated_by(&self, state_idx: usize, state_name: Seq<char>) -> bool {
        match self {
            PropertyFn::NeverReach(idx) => state_idx == *idx,
            PropertyFn::NeverContain(s) => contains_sub(state_name, s@),
            PropertyFn::AlwaysReach(_) => false,
            PropertyFn::Custom { .. } => false,
        }
    }

    /// Evaluate the property. Returns `true` if the state **violates** the spec.
    pub fn check(&self, state_idx: usize, state_name: &str) -> (r: bool)
        ensures
            r == self.violated_by(state_idx, state_name@),
            self matches PropertyFn::NeverReach(i) ==> r == (state_idx == i),
            self matches PropertyFn::NeverContain(s) ==> r == exists|a: Seq<char>, b: Seq<char>|
                state_name@ == #[trigger] (a + s@ + b),
            self is AlwaysReach || self is Custom ==> !r,
    {
        proof {
            if let PropertyFn::NeverContain(s) = self {
                lemma_contains_sub(state_name@, s@);
            }
        }
        match self {
            PropertyFn::NeverReach(idx) => state_idx == *idx,
            PropertyFn::NeverContain(s) => str_contains(state_name, s.as_str()),
            PropertyFn::AlwaysReach(_) => false,
            PropertyFn::Custom { .. } => false,
        }
    }
}

/// `NeverReach(i)` is violated exactly by state `i`, whatever its name.
pub proof fn lemma_never_reach_violated(i: usize, j: usize, name: Seq<char>)
    ensures
        PropertyFn::NeverReach(i).violated_by(j, name) == (j == i),
{
}

/// `NeverContain(s)` is violated exactly by the names in which `s` occurs,
/// at any position: those of the form `a + s + b`.
pub proof fn lemma_never_contain_violated(s: String, j: usize, name: Seq<char>)
    ensures
        PropertyFn::NeverContain(s).violated_by(j, name) == exists|a: Seq<char>, b: Seq<char>|
            name == #[trigger] (a + s@ + b),
{
    lemma_contains_sub(name, s@);
}

/// `AlwaysReach` and `Custom` are violated by no state.
pub proof fn lemma_unchecked_never_violated(p: PropertyFn, j: usize, name: Seq<char>)
    requires
        p is AlwaysReach || p is Custom,
    ensures
        !p.violated_by(j, name),
{
}

/// The successor lists of a transition map, as sequences.
pub open spec fn succ_map(m: Map<usize, Vec<usize>>) -> Map<usize, Seq<usize>> {
    m.map_values(|v: Vec<usize>| v@)
}

/// The names of a list of states, as character sequences.
pub open spec fn names_of(states: Seq<String>) -> Seq<Seq<char>> {
    states.map_values(|s: String| s@)
}

/// The total length of the successor lists of a finite map.
pub open spec fn total_len(m: Map<usize, Seq<usize>>) -> nat
    decreases m.dom().len(),
    when m.dom().finite()
{
    if m.dom().len() == 0 {
        0
    } else {
        let k = m.dom().choose();
        proof {
            assert(m.dom().contains(k));
            assert(m.remove(k).dom() =~= m.dom().remove(k));
        }
        m[k].len() + total_len(m.remove(k))
    }
}

/// The total length does not depend on which key is taken out first.
proof fn lemma_total_len_remove(m: Map<usize, Seq<usize>>, k: usize)
    requires
        m.dom().finite(),
        m.contains_key(k),
    ensures
        total_len(m) == m[k].len() + total_len(m.remove(k)),
    decreases m.dom().len(),
{
    assert(m.remove(k).dom() =~= m.dom().remove(k));
    let c = m.dom().choose();
    if c != k {
        assert(m.remove(c).dom() =~= m.dom().remove(c));
        lemma_total_len_remove(m.remove(c), k);
        lemma_total_len_remove(m.remove(k), c);
        assert(m.remove(c).remove(k) =~= m.remove(k).remove(c));
    }
}

/// The sum of the lengths of the lists in a sequence of map entries.
pub open spec fn entries_total(s: Seq<(&usize, &Vec<usize>)>) -> nat
    decreases s.len(),
{
    if s.len() == 0 {
        0
    } else {
        entries_total(s.drop_last()) + s.last().1@.len()
    }
}

proof fn lemma_entries_total_prefix(s: Seq<(&usize, &Vec<usize>)>, i: int)
    requires
        0 <= i <= s.len(),
    ensures
        entries_total(s.take(i)) <= entries_total(s),
    decreases s.len() - i,
{
    if i < s.len() {
        lemma_entries_total_prefix(s, i + 1);
        assert(s.take(i + 1).drop_last() =~= s.take(i));
    } else {
        assert(s.take(i) =~= s);
    }
}

/// Summing over every entry of the map once, in any order, gives the total.
proof fn lemma_entries_total(s: Seq<(&usize, &Vec<usize>)>, m: Map<usize, Seq<usize>>)
    requires
        m.dom().finite(),
        s.len() == m.dom().len(),
        forall|i: int| 0 <= i < s.len() ==> m.contains_key(*s[i].0) && m[*s[i].0] == s[i].1@,
        forall|i: int, j: int| 0 <= i < j < s.len() ==> *s[i].0 != *s[j].0,
    ensures
        entries_total(s) == total_len(m),
    decreases s.len(),
{
    if s.len() == 0 {
    } else {
        let k = *s.last().0;
        lemma_total_len_remove(m, k);
        assert(m.remove(k).dom() =~= m.dom().remove(k));
        let s2 = s.drop_last();
        assert forall|i: int| 0 <= i < s2.len() implies m.remove(k).contains_key(*s2[i].0) && m.remove(k)[*s2[i].0] == s2[i].1@ by {
            assert(s2[i] == s[i]);
            assert(*s[i].0 != *s[s.len() - 1].0);
        }
        assert forall|i: int, j: int| 0 <= i < j < s2.len() implies *s2[i].0 != *s2[j].0 by {
            assert(s2[i] == s[i] && s2[j] == s[j]);
        }
        lemma_entries_total(s2, m.remove(k));
    }
}

/// `b` is a successor of `a`.
pub open spec fn edge(m: Map<usize, Seq<usize>>, a: usize, b: usize) -> bool {
    m.contains_key(a) && m[a].contains(b)
}

/// Consecutive states of the path are connected by transitions.
pub open spec fn edge_at(m: Map<usize, Seq<usize>>, path: Seq<usize>, i: int) -> bool {
    edge(m, path[i], path[i + 1])
}

/// State `x` is reachable: some path of transitions leads from an initial
/// state to it.
pub open spec fn reachable(m: Map<usize, Seq<usize>>, init: Seq<usize>, x: usize) -> bool {
    exists|path: Seq<usize>|
        #![trigger path.last()]
        path.len() > 0 && init.contains(path[0]) && path.last() == x && forall|i: int|
            0 <= i < path.len() - 1 ==> #[trigger] edge_at(m, path, i)
}

/// A finite set of `usize` values has at most `usize::MAX + 1` elements.
proof fn lemma_usize_set_len(s: Set<usize>)
    requires
        s.finite(),
    ensures
        s.len() <= usize::MAX + 1,
{
    let f = |x: usize| x as int;
    let t = s.map(f);
    assert(vstd::relations::injective_on(f, s));
    vstd::set_lib::lemma_map_size(s, t, f);
    vstd::set_lib::lemma_int_range(0, usize::MAX + 1);
    assert forall|y: int| #[trigger] t.contains(y) implies vstd::set_lib::set_int_range(0, usize::MAX + 1).contains(y) by {
        let x = choose|x: usize| s.contains(x) && f(x) == y;
    }
    vstd::set_lib::lemma_len_subset(t, vstd::set_lib::set_int_range(0, usize::MAX + 1));
}

/// A set that holds the initial states and is closed under transitions holds
/// every reachable state.
proof fn lemma_closed_has_reachable(m: Map<usize, Seq<usize>>, init: Seq<usize>, vis: Set<usize>, x: usize)
    requires
        forall|y: usize| init.contains(y) ==> vis.contains(y),
        forall|a: usize, b: usize| vis.contains(a) && #[trigger] edge(m, a, b) ==> vis.contains(b),
        reachable(m, init, x),
    ensures
        vis.contains(x),
{
    let path = choose|path: Seq<usize>|
        path.len() > 0 && init.contains(path[0]) && path.last() == x && forall|i: int|
            0 <= i < path.len() - 1 ==> #[trigger] edge_at(m, path, i);
    lemma_path_in(m, vis, path, path.len() - 1);
}

proof fn lemma_path_in(m: Map<usize, Seq<usize>>, vis: Set<usize>, path: Seq<usize>, k: int)
    requires
        0 <= k < path.len(),
        vis.contains(path[0]),
        forall|a: usize, b: usize| vis.contains(a) && #[trigger] edge(m, a, b) ==> vis.contains(b),
        forall|i: int| 0 <= i < path.len() - 1 ==> #[trigger] edge_at(m, path, i),
    ensures
        vis.contains(path[k]),
    decreases k,
{
    if k > 0 {
        lemma_path_in(m, vis, path, k - 1);
        assert(edge_at(m, path, k - 1));
    }
}

/// Copy a list of state indices.
fn copy_indices(v: &Vec<usize>) -> (c: Vec<usize>)
    ensures
        c@ == v@,
{
    let mut c: Vec<usize> = Vec::new();
    let mut i: usize = 0;
    while i < v.len()
        invariant
            i <= v@.len(),
            c@ == v@.take(i as int),
        decreases v@.len() - i,
    {
        c.push(v[i]);
        i += 1;
        assert(c@ =~= v@.take(i as int));
    }
    assert(c@ =~= v@);
    c
}


/// A finite-state transition system.
#[derive(Debug, Clone)]
pub struct TransitionSystem {
    /// Named states of the system.
    pub states: Vec<String>,
    /// Indices of initial states.
    pub initial: Vec<usize>,
    /// Transition relation: from_state to its successor states.
    pub transitions: HashMap<usize, Vec<usize>>,
    /// Property to check: a state for which it holds VIOLATES the specification.
    pub property: Option<PropertyFn>,
}

/// Builder for constructing transition systems.
#[derive(Debug, Clone)]
pub struct TransitionSystemBuilder {
    states: Vec<String>,
    initial: Vec<usize>,
    transitions: HashMap<usize, Vec<usize>>,
    property: Option<PropertyFn>,
}

/// Whether `x` is an element of `v`.
fn vec_contains(v: &Vec<usize>, x: usize) -> (r: bool)
    ensures
        r == v@.contains(x),
{
    let mut i: usize = 0;
    while i < v.len()
        invariant
            i <= v@.len(),
            forall|i2: int| 0 <= i2 < i ==> v@[i2] != x,
        decreases v@.len() - i,
    {
        if v[i] == x {
            return true;
        }
        i += 1;
    }
    false
}

impl TransitionSystemBuilder {
    /// The names of the states added so far, in order.
    pub closed spec fn spec_states(&self) -> Seq<Seq<char>> {
        names_of(self.states@)
    }

    /// The initial states marked so far.
    pub closed spec fn spec_initial(&self) -> Seq<usize> {
        self.initial@
    }

    /// The successor lists added so far.
    pub closed spec fn spec_transitions(&self) -> Map<usize, Seq<usize>> {
        succ_map(self.transitions@)
    }

    /// The property set, if any.
    pub closed spec fn spec_property(&self) -> Option<PropertyFn> {
        self.property
    }

    /// An empty builder.
    pub fn new() -> (b: Self)
        ensures
            b.spec_states() == Seq::<Seq<char>>::empty(),
            b.spec_initial() == Seq::<usize>::empty(),
            b.spec_transitions() == Map::<usize, Seq<usize>>::empty(),
            b.spec_property() is None,
    {
        let b = TransitionSystemBuilder {
            states: Vec::new(),
            initial: Vec::new(),
            transitions: HashMap::new(),
            property: None,
        };
        assert(b.spec_states() =~= Seq::<Seq<char>>::empty());
        assert(b.spec_transitions() =~= Map::<usize, Seq<usize>>::empty());
        b
    }

    /// Add a named state. Returns the state's index.
    pub fn add_state(&mut self, name: &str) -> (idx: usize)
        ensures
            idx == old(self).spec_states().len(),
            final(self).spec_states() == old(self).spec_states().push(name@),
            final(self).spec_initial() == old(self).spec_initial(),
            final(self).spec_transitions() == old(self).spec_transitions(),
            final(self).spec_property() == old(self).spec_property(),
    {
        let idx = self.states.len();
        let ghost before = self.states@;
        self.states.push(name.to_string());
        assert(names_of(self.states@) =~= names_of(before).push(name@));
        idx
    }

    /// Mark a state as initial (once).
    pub fn add_initial(&mut self, state_idx: usize)
        ensures
            final(self).spec_initial() == (if old(self).spec_initial().contains(state_idx) {
                old(self).spec_initial()
            } else {
                old(self).spec_initial().push(state_idx)
            }),
            final(self).spec_states() == old(self).spec_states(),
            final(self).spec_transitions() == old(self).spec_transitions(),
            final(self).spec_property() == old(self).spec_property(),
            old(self).spec_initial().no_duplicates() ==> final(self).spec_initial().no_duplicates(),
    {
        if !vec_contains(&self.initial, state_idx) {
            let ghost before = self.initial@;
            self.initial.push(state_idx);
            assert forall|i: int, j: int| 0 <= i < j < self.initial@.len() && before.no_duplicates()
                implies self.initial@[i] != self.initial@[j] by {
                if j == before.len() {
                    assert(before.contains(before[i]));
                }
            }
        }
    }

    /// Add a transition from one state to another.
    pub fn add_transition(&mut self, from: usize, to: usize)
        ensures
            final(self).spec_transitions() == old(self).spec_transitions().insert(
                from,
                (if old(self).spec_transitions().contains_key(from) {
                    old(self).spec_transitions()[from]
                } else {
                    Seq::<usize>::empty()
                }).push(to),
            ),
            final(self).spec_states() == old(self).spec_states(),
            final(self).spec_initial() == old(self).spec_initial(),
            final(self).spec_property() == old(self).spec_property(),
    {
        let ghost m0 = self.transitions@;
        let mut succs = match self.transitions.remove(&from) {
            Some(v) => v,
            None => Vec::new(),
        };
        let ghost before = succs@;
        succs.push(to);
        self.transitions.insert(from, succs);
        assert(succ_map(self.transitions@) =~= succ_map(m0).insert(from, before.push(to)));
    }

    /// Set the property function.
    pub fn property(&mut self, prop: PropertyFn)
        ensures
            final(self).spec_property() == Some(prop),
            final(self).spec_states() == old(self).spec_states(),
            final(self).spec_initial() == old(self).spec_initial(),
            final(self).spec_transitions() == old(self).spec_transitions(),
    {
        self.property = Some(prop);
    }

    /// Build the transition system.
    pub fn build(self) -> (ts: TransitionSystem)
        ensures
            names_of(ts.states@) == self.spec_states(),
            ts.initial@ == self.spec_initial(),
            succ_map(ts.transitions@) == self.spec_transitions(),
            ts.property == self.spec_property(),
    {
        TransitionSystem {
            states: self.states,
            initial: self.initial,
            transitions: self.transitions,
            property: self.property,
        }
    }
}

impl Default for TransitionSystemBuilder {
    fn default() -> (b: Self)
        ensures
            b.spec_states() == Seq::<Seq<char>>::empty(),
            b.spec_initial() == Seq::<usize>::empty(),
            b.spec_transitions() == Map::<usize, Seq<usize>>::empty(),
            b.spec_property() is None,
    {
        Self::new()
    }
}

impl TransitionSystem {
    /// The name the property is checked against for a state index: the
    /// state's name, or `"?"` for an index with no state.
    pub open spec fn name_for(&self, idx: usize) -> Seq<char> {
        if idx < self.states@.len() {
            self.states@[idx as int]@
        } else {
            seq!['?']
        }
    }

    /// The state with this index violates the property (never, when there
    /// is no property).
    pub open spec fn spec_violates(&self, idx: usize) -> bool {
        match self.property {
            Some(p) => p.violated_by(idx, self.name_for(idx)),
            None => false,
        }
    }

    /// Create using a builder.
    pub fn builder() -> (b: TransitionSystemBuilder)
        ensures
            b.spec_states() == Seq::<Seq<char>>::empty(),
            b.spec_initial() == Seq::<usize>::empty(),
            b.spec_transitions() == Map::<usize, Seq<usize>>::empty(),
            b.spec_property() is None,
    {
        TransitionSystemBuilder::new()
    }

    /// Get the name of a state by index.
    pub fn state_name(&self, idx: usize) -> (r: Option<&str>)
        ensures
            idx < self.states@.len() ==> (r matches Some(s) && s@ == self.states@[idx as int]@),
            idx >= self.states@.len() ==> r is None,
    {
        if idx < self.states.len() {
            Some(self.states[idx].as_str())
        } else {
            None
        }
    }

    /// Check if a state is initial.
    pub fn is_initial(&self, idx: usize) -> (r: bool)
        ensures
            r == self.initial@.contains(idx),
    {
        vec_contains(&self.initial, idx)
    }

    /// Get the successors of a state (none when it has no entry).
    pub fn successors(&self, idx: usize) -> (r: &[usize])
        ensures
            r@ == (if succ_map(self.transitions@).contains_key(idx) {
                succ_map(self.transitions@)[idx]
            } else {
                Seq::<usize>::empty()
            }),
    {
        match self.transitions.get(&idx) {
            Some(v) => v.as_slice(),
            None => {
                let e: &[usize] = &[];
                e
            },
        }
    }

    /// Count total states.
    pub fn num_states(&self) -> (n: usize)
        ensures
            n == self.states@.len(),
    {
        self.states.len()
    }

    /// Count total transitions: the total length of the successor lists.
    pub fn num_transitions(&self) -> (n: usize)
        requires
            total_len(succ_map(self.transitions@)) <= usize::MAX,
        ensures
            n == total_len(succ_map(self.transitions@)),
    {
        let ghost m = succ_map(self.transitions@);
        assert(m.dom() =~= self.transitions@.dom());
        let mut total: usize = 0;
        for entry in it: self.transitions.iter()
            invariant
                m == succ_map(self.transitions@),
                m.dom() == self.transitions@.dom(),
                total_len(m) <= usize::MAX,
                it.seq() == IteratorSpec::remaining(&spec_hash_map_iter(&self.transitions)),
                it.seq().no_duplicates(),
                total == entries_total(it.seq().take(it.index())),
                it.index() == it.seq().len() ==> total == total_len(m),
        {
            proof {
                let sq = it.seq();
                assert(m.dom() =~= self.transitions@.dom());
                assert forall|i: int, j: int| 0 <= i < j < sq.len() implies *sq[i].0 != *sq[j].0 by {
                    if *sq[i].0 == *sq[j].0 {
                        assert(*sq[i].1 == self.transitions@[*sq[i].0]);
                        assert(*sq[j].1 == self.transitions@[*sq[j].0]);
                        assert(sq[i] == sq[j]);
                    }
                }
                assert forall|i: int| 0 <= i < sq.len() implies m.contains_key(*sq[i].0) && m[*sq[i].0] == sq[i].1@ by {}
                lemma_entries_total(sq, m);
                lemma_entries_total_prefix(sq, it.index() + 1);
                assert(sq.take(it.index() + 1).drop_last() =~= sq.take(it.index()));
                assert(sq.take(sq.len() as int) =~= sq);
            }
            let (_, succs) = entry;
            total = total + succs.len();
        }
        total
    }

    /// Find all reachable states from the initial states, in increasing order.
    pub fn reachable_states(&self) -> (r: Vec<usize>)
        ensures
            forall|i: int, j: int| 0 <= i < j < r@.len() ==> r@[i] < r@[j],
            forall|x: usize| r@.contains(x) <==> reachable(succ_map(self.transitions@), self.initial@, x),
    {
        let ghost m = succ_map(self.transitions@);
        let ghost init = self.initial@;
        let mut visited: HashSet<usize> = HashSet::new();
        let mut stack: Vec<usize> = copy_indices(&self.initial);
        proof {
            assert forall|x: usize| stack@.contains(x) implies reachable(m, init, x) by {
                let i = choose|i: int| 0 <= i < init.len() && init[i] == x;
                let path = seq![x];
                assert(path.last() == x);
                assert(init.contains(path[0]));
            }
        }
        while stack.len() > 0
            invariant
                m == succ_map(self.transitions@),
                init == self.initial@,
                visited@.finite(),
                forall|x: usize| visited@.contains(x) ==> reachable(m, init, x),
                forall|x: usize| stack@.contains(x) ==> reachable(m, init, x),
                forall|x: usize| init.contains(x) ==> visited@.contains(x) || stack@.contains(x),
                forall|a: usize, b: usize|
                    visited@.contains(a) && #[trigger] edge(m, a, b) ==> visited@.contains(b) || stack@.contains(b),
            decreases usize::MAX + 1 - visited@.len(), stack@.len(),
        {
            proof {
                lemma_usize_set_len(visited@);
            }
            let ghost stack0 = stack@;
            let ghost visited0 = visited@;
            let s = stack.pop().unwrap();
            assert(stack0 == stack@.push(s));
            assert(stack0.contains(s));
            if visited.insert(s) {
                proof {
                    lemma_usize_set_len(visited@);
                }
                match self.transitions.get(&s) {
                    Some(succs) => {
                        assert(succs@ == m[s]);
                        let mut j: usize = 0;
                        while j < succs.len()
                            invariant
                                j <= succs@.len(),
                                succs@ == m[s],
                                m.contains_key(s),
                                visited@.contains(s),
                                reachable(m, init, s),
                                forall|x: usize| stack@.contains(x) ==> reachable(m, init, x),
                                forall|x: usize| stack0.contains(x) ==> x == s || stack@.contains(x),
                                forall|j2: int| 0 <= j2 < j ==> visited@.contains(#[trigger] succs@[j2]) || stack@.contains(succs@[j2]),
                            decreases succs@.len() - j,
                        {
                            let succ = succs[j];
                            if !visited.contains(&succ) {
                                let ghost st = stack@;
                                stack.push(succ);
                                proof {
                                    assert(m[s].contains(succ)) by {
                                        assert(succs@[j as int] == succ);
                                    }
                                    assert forall|x: usize| stack@.contains(x) implies reachable(m, init, x) by {
                                        if x == succ {
                                            let p = choose|p: Seq<usize>|
                                                p.len() > 0 && init.contains(p[0]) && p.last() == s && forall|i: int|
                                                    0 <= i < p.len() - 1 ==> #[trigger] edge_at(m, p, i);
                                            let q = p.push(succ);
                                            assert(q.last() == x);
                                            assert(q[0] == p[0]);
                                            assert forall|i: int| 0 <= i < q.len() - 1 implies #[trigger] edge_at(m, q, i) by {
                                                if i < p.len() - 1 {
                                                    assert(edge_at(m, p, i));
                                                    assert(q[i] == p[i] && q[i + 1] == p[i + 1]);
                                                } else {
                                                    assert(q[i] == s);
                                                }
                                            }
                                        } else {
                                            assert(st.contains(x));
                                        }
                                    }
                                    assert forall|x: usize| stack0.contains(x) implies x == s || stack@.contains(x) by {
                                        if x != s {
                                            assert(st.contains(x));
                                            let i = choose|i: int| 0 <= i < st.len() && st[i] == x;
                                            assert(stack@[i] == x);
                                        }
                                    }
                                    assert forall|j2: int| 0 <= j2 < j + 1 implies visited@.contains(#[trigger] succs@[j2]) || stack@.contains(succs@[j2]) by {
                                        if j2 < j {
                                            if !visited@.contains(succs@[j2]) {
                                                let i = choose|i: int| 0 <= i < st.len() && st[i] == succs@[j2];
                                                assert(stack@[i] == succs@[j2]);
                                            }
                                        } else {
                                            assert(stack@[stack@.len() - 1] == succ);
                                        }
                                    }
                                }
                            }
                            j += 1;
                        }
                        proof {
                            assert forall|b: usize| #[trigger] edge(m, s, b) implies visited@.contains(b) || stack@.contains(b) by {
                                let j2 = choose|j2: int| 0 <= j2 < succs@.len() && succs@[j2] == b;
                            }
                        }
                    },
                    None => {},
                }
            }
            proof {
                assert forall|a: usize, b: usize|
                    visited@.contains(a) && #[trigger] edge(m, a, b) implies visited@.contains(b) || stack@.contains(b) by {
                    if a != s {
                        assert(visited0.contains(a));
                        if !visited0.contains(b) {
                            assert(stack0.contains(b));
                        }
                    }
                }
            }
        }
        proof {
            assert forall|x: usize| reachable(m, init, x) implies visited@.contains(x) by {
                lemma_closed_has_reachable(m, init, visited@, x);
            }
        }
        // Collect the visited states in increasing order.
        let mut result: Vec<usize> = Vec::new();
        for x in it: visited.iter()
            invariant
                it.seq() == IteratorSpec::remaining(&spec_hash_keys_iter(&visited)),
                forall|i: int, j: int| 0 <= i < j < result@.len() ==> result@[i] < result@[j],
                forall|y: usize| result@.contains(y) <==> it.seq().take(it.index()).unref().contains(y),
                it.index() == it.seq().len() ==> forall|y: usize| result@.contains(y) <==> visited@.contains(y),
        {
            let mut pos: usize = 0;
            while pos < result.len() && result[pos] < *x
                invariant
                    pos <= result@.len(),
                    forall|i: int| 0 <= i < pos ==> result@[i] < *x,
                decreases result@.len() - pos,
            {
                pos += 1;
            }
            proof {
                let sq = it.seq();
                let k = it.index();
                assert(*x == *sq[k]);
                assert(sq.take(k + 1).unref() =~= sq.take(k).unref().push(*x));
                assert(sq.unref().no_duplicates());
                assert(!sq.take(k).unref().contains(*x)) by {
                    if sq.take(k).unref().contains(*x) {
                        let w = choose|w: int| 0 <= w < k && sq.take(k).unref()[w] == *x;
                        assert(sq.unref()[w] == sq.unref()[k]);
                    }
                }
                assert(sq.take(sq.len() as int) =~= sq);
            }
            let ghost before = result@;
            result.insert(pos, *x);
            proof {
                let sq = it.seq();
                let k = it.index();
                assert(!before.contains(*x));
                assert forall|i: int, j: int| 0 <= i < j < result@.len() implies result@[i] < result@[j] by {
                    if pos < before.len() {
                        assert(before[pos as int] != *x);
                        assert(before[pos as int] > *x);
                    }
                    if j < pos {
                        assert(result@[i] == before[i] && result@[j] == before[j]);
                    } else if j == pos {
                        assert(result@[j] == *x);
                        assert(result@[i] == before[i]);
                    } else if i < pos {
                        assert(result@[i] == before[i] && result@[j] == before[j - 1]);
                        assert(before[pos as int] <= before[j - 1]);
                    } else if i == pos {
                        assert(result@[j] == before[j - 1]);
                        assert(before[pos as int] <= before[j - 1]);
                    } else {
                        assert(result@[i] == before[i - 1] && result@[j] == before[j - 1]);
                    }
                }
                assert forall|y: usize| result@.contains(y) <==> before.contains(y) || y == *x by {
                    if result@.contains(y) {
                        let w = choose|w: int| 0 <= w < result@.len() && result@[w] == y;
                        if w < pos {
                            assert(before[w] == y);
                        } else if w > pos {
                            assert(before[w - 1] == y);
                        }
                    }
                    if before.contains(y) {
                        let w = choose|w: int| 0 <= w < before.len() && before[w] == y;
                        if w < pos {
                            assert(result@[w] == y);
                        } else {
                            assert(result@[w + 1] == y);
                        }
                    }
                    if y == *x {
                        assert(result@[pos as int] == y);
                    }
                }
                assert(sq.unref().to_set() == visited@);
                assert forall|y: usize| sq.unref().contains(y) <==> visited@.contains(y) by {
                    assert(sq.unref().to_set().contains(y) == sq.unref().contains(y));
                }
                assert(sq.take(k + 1).unref() =~= sq.take(k).unref().push(*x));
                let t = sq.take(k).unref();
                assert forall|y: usize| result@.contains(y) <==> sq.take(k + 1).unref().contains(y) by {
                    assert(before.contains(y) <==> t.contains(y));
                    assert(result@.contains(y) <==> before.contains(y) || y == *x);
                    assert(sq.take(k + 1).unref() == t.push(*x));
                    if t.push(*x).contains(y) {
                        let w = choose|w: int| 0 <= w < t.push(*x).len() && t.push(*x)[w] == y;
                        if w < t.len() {
                            assert(t[w] == y);
                        }
                    }
                    if t.contains(y) {
                        let w = choose|w: int| 0 <= w < t.len() && t[w] == y;
                        assert(t.push(*x)[w] == y);
                    }
                    if y == *x {
                        assert(t.push(*x)[t.len() as int] == y);
                    }
                }
                assert(k + 1 == sq.len() ==> sq.take(k + 1) == sq);
            }
        }
        result
    }

    /// The property as a predicate on state indices.
    pub open spec fn bad_pred(&self) -> spec_fn(usize) -> bool {
        |s: usize| self.spec_violates(s)
    }

    /// `path` is a run of `k` steps through the states of the system: it
    /// starts in an initial state, follows successor lists and ends in a
    /// state that violates the property.
    pub open spec fn violating_path(&self, k: nat, path: Seq<usize>) -> bool {
        is_violating_path(self.initial@, succ_map(self.transitions@), self.bad_pred(), self.states@.len(), k, path)
    }

    /// Encode as a boolean transition system for BMC, one variable per
    /// state (one-hot): variable `s + 1` says state `s` is active.
    ///
    /// Exactly one state is active at each step: an initial state first,
    /// then a successor of the state before; the negated property says a
    /// violating state is active at the last step. Indices that name no
    /// state are left out. The `k`-step encoding is satisfiable exactly
    /// when a run of `k` steps reaches a violating state.
    pub fn to_encoding(&self) -> (e: TransitionEncoding)
        requires
            2 * self.states@.len() < i32::MAX,
        ensures
            e.num_vars == self.states@.len(),
            deep(e.initial@) == one_hot_initial(self.initial@, self.states@.len()),
            deep(e.transition@) == one_hot_transition(succ_map(self.transitions@), self.states@.len()),
            deep(e.property@) == seq![bad_lits(self.bad_pred(), self.states@.len())],
            forall|k: nat|
                e.encodable(k) ==> (satisfiable(#[trigger] e.spec_encode(k)) <==> exists|path: Seq<usize>|
                    self.violating_path(k, path)),
            forall|k: nat| (k + 1) * self.states@.len() <= i32::MAX ==> #[trigger] e.encodable(k),
            e.property@.len() == 1,
            forall|s: usize|
                s < self.states@.len() ==> (#[trigger] e.property@[0]@.contains((s + 1) as i32)
                    <==> self.spec_violates(s)),
            forall|x: i32| #[trigger] e.property@[0]@.contains(x) ==> 1 <= x <= self.states@.len(),
            forall|k: nat|
                e.encodable(k) ==> (satisfiable(#[trigger] e.spec_encode(k)) <==> exists|path: Seq<usize>|
                    {
                        &&& path.len() == k + 1
                        &&& forall|t: int| 0 <= t <= k ==> #[trigger] path[t] < self.states@.len()
                        &&& self.initial@.contains(path[0])
                        &&& forall|t: int|
                            0 <= t < k ==> #[trigger] succs(succ_map(self.transitions@), path[t]).contains(path[t + 1])
                        &&& self.spec_violates(path[k as int])
                    }),
    {
        let n = self.states.len();
        let ghost nn = n as nat;
        let ghost m = succ_map(self.transitions@);
        // Some initial state is active.
        let mut first: Vec<i32> = Vec::new();
        let mut i: usize = 0;
        while i < self.initial.len()
            invariant
                i <= self.initial@.len(),
                n == self.states@.len(),
                2 * n < i32::MAX,
                first@ == init_lits(self.initial@.take(i as int), n as int),
            decreases self.initial@.len() - i,
        {
            let a = self.initial[i];
            if a < n {
                first.push((a + 1) as i32);
            }
            assert(self.initial@.take(i + 1).drop_last() =~= self.initial@.take(i as int));
            i += 1;
        }
        assert(self.initial@.take(self.initial@.len() as int) =~= self.initial@);
        // The negated variables of every state, now and next.
        let mut cur_negs: Vec<i32> = Vec::new();
        let mut next_negs: Vec<i32> = Vec::new();
        let mut s: usize = 0;
        while s < n
            invariant
                s <= n,
                2 * n < i32::MAX,
                cur_negs@ == neg_cur_vars(n as nat).take(s as int),
                next_negs@ == neg_next_vars(n as nat).take(s as int),
            decreases n - s,
        {
            cur_negs.push(-((s + 1) as i32));
            next_negs.push(-((s + 1 + n) as i32));
            s += 1;
            assert(cur_negs@ =~= neg_cur_vars(n as nat).take(s as int));
            assert(next_negs@ =~= neg_next_vars(n as nat).take(s as int));
        }
        assert(cur_negs@ =~= neg_cur_vars(n as nat));
        assert(next_negs@ =~= neg_next_vars(n as nat));
        let no_prefix: Vec<i32> = Vec::new();
        assert(no_prefix@ =~= Seq::<i32>::empty());
        // Initial clauses: some initial state, and no two states, active.
        let mut init_clauses: Vec<Vec<i32>> = Vec::new();
        init_clauses.push(first);
        push_pair_clauses(&no_prefix, &cur_negs, &mut init_clauses);
        assert(deep(init_clauses@) =~= one_hot_initial(self.initial@, nn));
        // Transition clauses: no two states active next, and an active
        // state moves to one of its successors.
        let mut trans: Vec<Vec<i32>> = Vec::new();
        push_pair_clauses(&no_prefix, &next_negs, &mut trans);
        let ghost pairs = deep(trans@);
        assert(pairs =~= pair_clauses(seq![], neg_next_vars(nn)));
        let mut s: usize = 0;
        while s < n
            invariant
                s <= n,
                n == self.states@.len(),
                nn == n as nat,
                m == succ_map(self.transitions@),
                2 * n < i32::MAX,
                pairs == pair_clauses(seq![], neg_next_vars(nn)),
                deep(trans@) == pairs + Seq::new(s as nat, |x: int| step_clause(m, nn, x)),
            decreases n - s,
        {
            let tos = self.successors(s);
            assert(tos@ == succs(m, s));
            let mut clause: Vec<i32> = Vec::new();
            clause.push(-((s + 1) as i32));
            let mut j: usize = 0;
            while j < tos.len()
                invariant
                    j <= tos@.len(),
                    s < n,
                    2 * n < i32::MAX,
                    clause@ == seq![(-(s + 1)) as i32] + succ_lits(tos@.take(j as int), n as int),
                decreases tos@.len() - j,
            {
                let t = tos[j];
                let ghost before = clause@;
                if t < n {
                    clause.push((t + 1 + n) as i32);
                }
                assert(tos@.take(j + 1).drop_last() =~= tos@.take(j as int));
                j += 1;
                assert(clause@ =~= seq![(-(s + 1)) as i32] + succ_lits(tos@.take(j as int), n as int));
            }
            assert(tos@.take(tos@.len() as int) =~= tos@);
            assert(clause@ == step_clause(m, nn, s as int));
            let ghost before = deep(trans@);
            trans.push(clause);
            s += 1;
            assert(deep(trans@) =~= before.push(step_clause(m, nn, (s - 1) as int)));
            assert(deep(trans@) =~= pairs + Seq::new(s as nat, |x: int| step_clause(m, nn, x)));
        }
        assert(deep(trans@) =~= one_hot_transition(m, nn));
        // Negated property: some violating state is active at the last step.
        let mut bad: Vec<i32> = Vec::new();
        let mut s: usize = 0;
        while s < n
            invariant
                s <= n,
                n == self.states@.len(),
                2 * n < i32::MAX,
                bad@ == bad_lits(self.bad_pred(), s as nat),
            decreases n - s,
        {
            if self.violates_property(s) {
                bad.push((s + 1) as i32);
            }
            s += 1;
            assert(bad@ =~= bad_lits(self.bad_pred(), s as nat));
        }
        let mut prop_clauses: Vec<Vec<i32>> = Vec::new();
        prop_clauses.push(bad);
        assert(deep(prop_clauses@) =~= seq![bad_lits(self.bad_pred(), nn)]);
        let e = TransitionEncoding::new(n).initial(init_clauses).transition(trans).negated_property(prop_clauses);
        proof {
            assert forall|k: nat| (k + 1) * nn <= i32::MAX implies #[trigger] e.encodable(k) by {
                lemma_one_hot_encodable(m, self.bad_pred(), nn, e, k);
            }
            assert forall|k: nat| e.encodable(k) implies (satisfiable(#[trigger] e.spec_encode(k)) <==> exists|path: Seq<usize>|
                self.violating_path(k, path)) by {
                lemma_one_hot_runs(self.initial@, m, self.bad_pred(), nn, e, k);
                if exists|path: Seq<usize>| is_violating_path(self.initial@, m, self.bad_pred(), nn, k, path) {
                    let p = choose|path: Seq<usize>| is_violating_path(self.initial@, m, self.bad_pred(), nn, k, path);
                    assert(self.violating_path(k, p));
                }
                if exists|path: Seq<usize>| self.violating_path(k, path) {
                    let p = choose|path: Seq<usize>| self.violating_path(k, path);
                    assert(is_violating_path(self.initial@, m, self.bad_pred(), nn, k, p));
                }
            }
            assert(deep(e.property@)[0] == e.property@[0]@);
            assert forall|s: usize| s < self.states@.len() implies (#[trigger] e.property@[0]@.contains((s + 1) as i32)
                <==> self.spec_violates(s)) by {
                lemma_bad_lits_contains(self.bad_pred(), nn, s as int);
            }
            assert forall|x: i32| #[trigger] e.property@[0]@.contains(x) implies 1 <= x <= self.states@.len() by {
                lemma_bad_lits_range(self.bad_pred(), nn, x);
            }
            assert forall|k: nat| e.encodable(k) implies (satisfiable(#[trigger] e.spec_encode(k)) <==> exists|
                path: Seq<usize>|
                {
                    &&& path.len() == k + 1
                    &&& forall|t: int| 0 <= t <= k ==> #[trigger] path[t] < self.states@.len()
                    &&& self.initial@.contains(path[0])
                    &&& forall|t: int| 0 <= t < k ==> #[trigger] succs(succ_map(self.transitions@), path[t]).contains(
                        path[t + 1],
                    )
                    &&& self.spec_violates(path[k as int])
                }) by {
                if satisfiable(e.spec_encode(k)) {
                    let p = choose|path: Seq<usize>| self.violating_path(k, path);
                    assert(self.bad_pred()(p[k as int]));
                }
                if exists|path: Seq<usize>|
                    {
                        &&& path.len() == k + 1
                        &&& forall|t: int| 0 <= t <= k ==> #[trigger] path[t] < self.states@.len()
                        &&& self.initial@.contains(path[0])
                        &&& forall|t: int| 0 <= t < k ==> #[trigger] succs(succ_map(self.transitions@), path[t]).contains(
                            path[t + 1],
                        )
                        &&& self.spec_violates(path[k as int])
                    } {
                    let p = choose|path: Seq<usize>|
                        {
                            &&& path.len() == k + 1
                            &&& forall|t: int| 0 <= t <= k ==> #[trigger] path[t] < self.states@.len()
                            &&& self.initial@.contains(path[0])
                            &&& forall|t: int| 0 <= t < k ==> #[trigger] succs(succ_map(self.transitions@), path[t]).contains(
                                path[t + 1],
                            )
                            &&& self.spec_violates(path[k as int])
                        };
                    assert(self.violating_path(k, p));
                }
            }
        }
        e
    }

    /// Check if a state violates the property.
    pub fn violates_property(&self, state_idx: usize) -> (r: bool)
        ensures
            r == self.spec_violates(state_idx),
            self.property matches Some(PropertyFn::NeverReach(i)) ==> r == (state_idx == i),
            self.property matches Some(PropertyFn::NeverContain(s)) ==> r == exists|a: Seq<char>, b: Seq<char>|
                self.name_for(state_idx) == #[trigger] (a + s@ + b),
            self.property is None ==> !r,
    {
        proof {
            if let Some(PropertyFn::NeverContain(s)) = &self.property {
                lemma_contains_sub(self.name_for(state_idx), s@);
            }
        }
        match &self.property {
            Some(prop) => {
                let name = match self.state_name(state_idx) {
                    Some(s) => s,
                    None => {
                        let q = "?";
                        proof {
                            reveal_strlit("?");
                        }
                        assert(q@ =~= seq!['?']);
                        q
                    },
                };
                prop.check(state_idx, name)
            },
            None => false,
        }
    }
}

} // verus!
