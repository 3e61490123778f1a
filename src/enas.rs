use vstd::prelude::*;

use crate::alphabet::Alphabet;
use crate::automat::{
    accepting_name, chars_of, count_mentions, dangling_one, find_state, graph_wf, has_state,
    issues_of, lemma_append_one, lemma_count_concat, lemma_issues_push, mentions, names_unique,
    state_index, Automat, AutomatonError, AutomatonView, Fault, ValidationError, ValidationIssue,
};
use crate::node::{lookup, names_view, ENASNode, Edge, NodeBase, StateView, EPSILON};

verus! {

/// The states of a nondeterministic automaton, as values.
pub type NfaStates = Seq<StateView<Seq<Seq<char>>>>;

/// The state called `q` has an edge labelled `c` that lists `t`.
pub open spec fn moves(states: NfaStates, q: Seq<char>, c: char, t: Seq<char>) -> bool {
    match find_state(states, q) {
        Some(st) => match lookup(st.edges, c) {
            Some(ts) => ts.contains(t),
            None => false,
        },
        None => false,
    }
}

/// No epsilon edge leaves `s`.
pub open spec fn eps_closed(states: NfaStates, s: Set<Seq<char>>) -> bool {
    forall|q: Seq<char>, t: Seq<char>|
        s.contains(q) && #[trigger] moves(states, q, EPSILON, t) ==> s.contains(t)
}

/// The epsilon-closure of `s`: the smallest set that holds `s` and that no
/// epsilon edge leaves, that is the names reachable from `s` by zero or more
/// epsilon edges.
pub open spec fn eps_closure(states: NfaStates, s: Set<Seq<char>>) -> Set<Seq<char>> {
    Set::new(
        |t: Seq<char>|
            forall|c: Set<Seq<char>>| #[trigger]
                s.subset_of(c) && eps_closed(states, c) ==> c.contains(t),
    )
}

/// The names that an edge labelled `c` leads to from some name of `s`.
pub open spec fn step_set(states: NfaStates, s: Set<Seq<char>>, c: char) -> Set<Seq<char>> {
    Set::new(|t: Seq<char>| exists|q: Seq<char>| s.contains(q) && moves(states, q, c, t))
}

/// The active names after reading `input`: the closure of the start name,
/// then, for each symbol, the closure of the names its edges lead to.
pub open spec fn nfa_active(g: AutomatonView<Seq<Seq<char>>>, input: Seq<char>) -> Set<Seq<char>>
    decreases input.len(),
{
    if input.len() == 0 {
        eps_closure(g.states, set![g.start])
    } else {
        eps_closure(g.states, step_set(g.states, nfa_active(g, input.drop_last()), input.last()))
    }
}

/// Some active name after reading `input` is an accepting state.
pub open spec fn nfa_accepts(g: AutomatonView<Seq<Seq<char>>>, input: Seq<char>) -> bool {
    exists|q: Seq<char>| nfa_active(g, input).contains(q) && accepting_name(g.states, q)
}

/// One fault for each name in `targets` (listed by the edge labelled `symbol`
/// of the state called `name`) that is no state, in list order.
pub open spec fn dangling_targets(
    states: NfaStates,
    name: Seq<char>,
    symbol: char,
    targets: Seq<Seq<char>>,
) -> Seq<ValidationIssue>
    decreases targets.len(),
{
    if targets.len() == 0 {
        Seq::empty()
    } else {
        dangling_targets(states, name, symbol, targets.drop_last()) + dangling_one(
            states,
            name,
            symbol,
            targets.last(),
        )
    }
}

/// The faults of the edges in `edges` of the state called `name`, edge by edge.
pub open spec fn nfa_dangling_edges(
    states: NfaStates,
    name: Seq<char>,
    edges: Seq<Edge<Seq<Seq<char>>>>,
) -> Seq<ValidationIssue>
    decreases edges.len(),
{
    if edges.len() == 0 {
        Seq::empty()
    } else {
        nfa_dangling_edges(states, name, edges.drop_last()) + dangling_targets(
            states,
            name,
            edges.last().symbol,
            edges.last().target,
        )
    }
}

/// The faults of the states in `part`, state after state.
pub open spec fn nfa_dangling_states(states: NfaStates, part: NfaStates) -> Seq<ValidationIssue>
    decreases part.len(),
{
    if part.len() == 0 {
        Seq::empty()
    } else {
        nfa_dangling_states(states, part.drop_last()) + nfa_dangling_edges(
            states,
            part.last().name,
            part.last().edges,
        )
    }
}

/// All faults of a nondeterministic automaton: for every state, edge and
/// listed name in turn, each listed name that is no state. Epsilon edges are
/// checked like the others; there is no completeness requirement.
pub open spec fn nfa_issues(g: AutomatonView<Seq<Seq<char>>>) -> Seq<ValidationIssue> {
    nfa_dangling_states(g.states, g.states)
}

/// How many times `x` is listed in `ts`.
pub open spec fn occurrences(ts: Seq<Seq<char>>, x: Seq<char>) -> nat
    decreases ts.len(),
{
    if ts.len() == 0 {
        0
    } else {
        occurrences(ts.drop_last(), x) + if ts.last() == x {
            1nat
        } else {
            0nat
        }
    }
}

/// How many times the edges in `edges` list `x`.
pub open spec fn nfa_edges_to(edges: Seq<Edge<Seq<Seq<char>>>>, x: Seq<char>) -> nat
    decreases edges.len(),
{
    if edges.len() == 0 {
        0
    } else {
        nfa_edges_to(edges.drop_last(), x) + occurrences(edges.last().target, x)
    }
}

/// How many times the edges of the states in `part` list `x`.
pub open spec fn nfa_states_to(part: NfaStates, x: Seq<char>) -> nat
    decreases part.len(),
{
    if part.len() == 0 {
        0
    } else {
        nfa_states_to(part.drop_last(), x) + nfa_edges_to(part.last().edges, x)
    }
}

proof fn lemma_dangling_targets_count(
    states: NfaStates,
    name: Seq<char>,
    symbol: char,
    ts: Seq<Seq<char>>,
    x: Seq<char>,
)
    requires
        name != x,
        !has_state(states, x),
    ensures
        count_mentions(dangling_targets(states, name, symbol, ts), x) == occurrences(ts, x),
    decreases ts.len(),
{
    if ts.len() > 0 {
        let t = ts.last();
        let one = dangling_one(states, name, symbol, t);
        lemma_dangling_targets_count(states, name, symbol, ts.drop_last(), x);
        lemma_count_concat(dangling_targets(states, name, symbol, ts.drop_last()), one, x);
        if has_state(states, t) {
            assert(t != x);
            assert(one =~= Seq::<ValidationIssue>::empty());
        } else {
            assert(one.drop_last() =~= Seq::<ValidationIssue>::empty());
            assert(count_mentions(one.drop_last(), x) == 0);
            assert(mentions(one.last(), x) == (t == x));
        }
    }
}

proof fn lemma_nfa_dangling_edges_count(
    states: NfaStates,
    name: Seq<char>,
    edges: Seq<Edge<Seq<Seq<char>>>>,
    x: Seq<char>,
)
    requires
        name != x,
        !has_state(states, x),
    ensures
        count_mentions(nfa_dangling_edges(states, name, edges), x) == nfa_edges_to(edges, x),
    decreases edges.len(),
{
    if edges.len() > 0 {
        let e = edges.last();
        lemma_nfa_dangling_edges_count(states, name, edges.drop_last(), x);
        lemma_dangling_targets_count(states, name, e.symbol, e.target, x);
        lemma_count_concat(
            nfa_dangling_edges(states, name, edges.drop_last()),
            dangling_targets(states, name, e.symbol, e.target),
            x,
        );
    }
}

proof fn lemma_nfa_dangling_states_count(states: NfaStates, part: NfaStates, x: Seq<char>)
    requires
        !has_state(states, x),
        forall|k: int| 0 <= k < part.len() ==> #[trigger] part[k].name != x,
    ensures
        count_mentions(nfa_dangling_states(states, part), x) == nfa_states_to(part, x),
    decreases part.len(),
{
    if part.len() > 0 {
        let last = part.last();
        assert(part[part.len() - 1].name != x);
        assert forall|k: int| 0 <= k < part.drop_last().len() implies #[trigger] part.drop_last()[k].name
            != x by {
            assert(part.drop_last()[k] == part[k]);
        }
        lemma_nfa_dangling_states_count(states, part.drop_last(), x);
        lemma_nfa_dangling_edges_count(states, last.name, last.edges, x);
        lemma_count_concat(
            nfa_dangling_states(states, part.drop_last()),
            nfa_dangling_edges(states, last.name, last.edges),
            x,
        );
    }
}

/// For a name `x` that is no state, validation names `x` in exactly one fault
/// for each time an edge lists `x`, and in no other.
pub proof fn lemma_nfa_dangling_target_reported_once(g: AutomatonView<Seq<Seq<char>>>, x: Seq<char>)
    requires
        !has_state(g.states, x),
    ensures
        count_mentions(nfa_issues(g), x) == nfa_states_to(g.states, x),
{
    assert forall|k: int| 0 <= k < g.states.len() implies #[trigger] g.states[k].name != x by {
        if g.states[k].name == x {
            assert(has_state(g.states, x));
        }
    }
    lemma_nfa_dangling_states_count(g.states, g.states, x);
}

/// Every name that some epsilon edge of `states` lists.
pub open spec fn eps_pool(states: NfaStates) -> Seq<Seq<char>>
    decreases states.len(),
{
    if states.len() == 0 {
        Seq::empty()
    } else {
        eps_pool(states.drop_last()) + match lookup(states.last().edges, EPSILON) {
            Some(ts) => ts,
            None => Seq::empty(),
        }
    }
}

/// A name that an epsilon edge lists is in the pool.
proof fn lemma_eps_pool(states: NfaStates, k: int, t: Seq<char>)
    requires
        0 <= k < states.len(),
        lookup(states[k].edges, EPSILON) matches Some(ts) && ts.contains(t),
    ensures
        eps_pool(states).contains(t),
    decreases states.len(),
{
    let ts = lookup(states[k].edges, EPSILON)->Some_0;
    let head = eps_pool(states.drop_last());
    if k == states.len() - 1 {
        let i = choose|i: int| 0 <= i < ts.len() && ts[i] == t;
        assert(eps_pool(states)[head.len() + i] == t);
    } else {
        assert(states.drop_last()[k] == states[k]);
        lemma_eps_pool(states.drop_last(), k, t);
        let i = choose|i: int| 0 <= i < head.len() && head[i] == t;
        assert(eps_pool(states)[i] == t);
    }
}

/// Every epsilon move leads into the pool.
proof fn lemma_moves_in_pool(states: NfaStates, q: Seq<char>, t: Seq<char>)
    requires
        moves(states, q, EPSILON, t),
    ensures
        eps_pool(states).contains(t),
{
    lemma_eps_pool(states, state_index(states, q), t);
}

/// The closure holds the set it is taken of.
pub proof fn lemma_closure_contains(states: NfaStates, s: Set<Seq<char>>)
    ensures
        s.subset_of(eps_closure(states, s)),
{
}

/// No epsilon edge leaves a closure.
pub proof fn lemma_closure_closed(states: NfaStates, s: Set<Seq<char>>)
    ensures
        eps_closed(states, eps_closure(states, s)),
{
    let cl = eps_closure(states, s);
    assert forall|q: Seq<char>, t: Seq<char>|
        cl.contains(q) && #[trigger] moves(states, q, EPSILON, t) implies cl.contains(t) by {
        assert forall|c: Set<Seq<char>>| s.subset_of(c) && eps_closed(states, c) implies c.contains(
            t,
        ) by {
            assert(c.contains(q));
        }
    }
}

/// A set that holds `s` and that no epsilon edge leaves holds the closure of `s`.
pub proof fn lemma_closure_least(states: NfaStates, s: Set<Seq<char>>, c: Set<Seq<char>>)
    requires
        s.subset_of(c),
        eps_closed(states, c),
    ensures
        eps_closure(states, s).subset_of(c),
{
}

/// Taking the epsilon-closure twice gives what taking it once gives.
pub proof fn lemma_closure_idempotent(states: NfaStates, s: Set<Seq<char>>)
    ensures
        eps_closure(states, eps_closure(states, s)) == eps_closure(states, s),
{
    let cl = eps_closure(states, s);
    lemma_closure_closed(states, s);
    lemma_closure_contains(states, cl);
    lemma_closure_least(states, cl, cl);
    assert(eps_closure(states, cl) =~= cl);
}

/// A list without repeats whose names all stand in `b` is no longer than `b`.
proof fn lemma_distinct_bound(a: Seq<Seq<char>>, b: Seq<Seq<char>>)
    requires
        a.no_duplicates(),
        forall|x: Seq<char>| a.contains(x) ==> b.contains(x),
    ensures
        a.len() <= b.len(),
{
    a.unique_seq_to_set();
    b.lemma_cardinality_of_set();
    vstd::seq_lib::seq_to_set_is_finite(b);
    assert(a.to_set().subset_of(b.to_set()));
    vstd::set_lib::lemma_len_subset(a.to_set(), b.to_set());
}

/// On empty input the automaton accepts exactly when some name in the
/// epsilon-closure of its start name is that of an accepting state.
pub proof fn lemma_nfa_empty_input(g: AutomatonView<Seq<Seq<char>>>)
    ensures
        nfa_accepts(g, Seq::empty()) == exists|q: Seq<char>|
            eps_closure(g.states, set![g.start]).contains(q) && accepting_name(g.states, q),
{
}

/// Where the epsilon edges of `a` lead only to `b` and those of `b` only to
/// `a`, and each reaches the other, the closure of `{a}` is `{a, b}`: the cycle
/// adds `b` once and nothing more.
pub proof fn lemma_closure_of_cycle(states: NfaStates, a: Seq<char>, b: Seq<char>)
    requires
        moves(states, a, EPSILON, b),
        moves(states, b, EPSILON, a),
        forall|t: Seq<char>| moves(states, a, EPSILON, t) ==> t == b,
        forall|t: Seq<char>| moves(states, b, EPSILON, t) ==> t == a,
    ensures
        eps_closure(states, set![a]) == set![a, b],
{
    let ab = set![a, b];
    let cl = eps_closure(states, set![a]);
    assert(eps_closed(states, ab));
    assert(set![a].subset_of(ab));
    lemma_closure_least(states, set![a], ab);
    lemma_closure_contains(states, set![a]);
    lemma_closure_closed(states, set![a]);
    assert(cl.contains(a));
    assert(cl.contains(b));
    assert(cl =~= ab);
}

/// A nondeterministic finite automaton with epsilon moves: states looked up by
/// name, each with a list of targets per symbol.
pub struct ENAS {
    alphabet: Alphabet,
    states: Vec<ENASNode>,
    start_state: String,
}

impl View for ENAS {
    type V = AutomatonView<Seq<Seq<char>>>;

    closed spec fn view(&self) -> AutomatonView<Seq<Seq<char>>> {
        AutomatonView {
            alphabet: self.alphabet@,
            states: self.states@.map_values(|n: ENASNode| n@),
            start: self.start_state@,
        }
    }
}

/// Whether `v` holds the name `s`.
fn contains_name(v: &Vec<String>, s: &String) -> (r: bool)
    ensures
        r == names_view(v@).contains(s@),
{
    let mut i: usize = 0;
    while i < v.len()
        invariant
            i <= v@.len(),
            forall|k: int| 0 <= k < i ==> v@[k]@ != s@,
        decreases v@.len() - i,
    {
        if v[i].eq(s) {
            assert(names_view(v@)[i as int] == s@);
            return true;
        }
        i = i + 1;
    }
    assert forall|k: int| 0 <= k < names_view(v@).len() implies names_view(v@)[k] != s@ by {
        assert(names_view(v@)[k] == v@[k]@);
    }
    false
}

/// Appending a name appends its view, and adds just that name.
proof fn lemma_names_push(v: Seq<String>, s: String)
    ensures
        names_view(v.push(s)) == names_view(v).push(s@),
        forall|y: Seq<char>|
            #[trigger] names_view(v.push(s)).contains(y) <==> (names_view(v).contains(y) || y
                == s@),
{
    let a = names_view(v.push(s));
    let b = names_view(v);
    assert(a =~= b.push(s@));
    assert forall|y: Seq<char>| #[trigger] a.contains(y) <==> (b.contains(y) || y == s@) by {
        if a.contains(y) {
            let k = choose|k: int| 0 <= k < a.len() && a[k] == y;
            if k < b.len() {
                assert(b[k] == y);
            }
        }
        if b.contains(y) {
            let k = choose|k: int| 0 <= k < b.len() && b[k] == y;
            assert(a[k] == y);
        }
        if y == s@ {
            assert(a[b.len() as int] == y);
        }
    }
}

impl ENAS {
    pub open spec fn wf(&self) -> bool {
        graph_wf(self@)
    }

    /// An automaton over `alphabet` with no states and an empty start name.
    pub fn new(alphabet: Alphabet) -> (r: Self)
        requires
            alphabet.wf(),
        ensures
            r.wf(),
            r@.alphabet == alphabet@,
            r@.states == Seq::<StateView<Seq<Seq<char>>>>::empty(),
            r@.start == Seq::<char>::empty(),
    {
        let r = ENAS { alphabet, states: Vec::new(), start_state: String::new() };
        assert(r@.states =~= Seq::<StateView<Seq<Seq<char>>>>::empty());
        r
    }

    /// The declared alphabet.
    pub fn alphabet(&self) -> (r: &Alphabet)
        ensures
            r@ == self@.alphabet,
            self.wf() ==> r.wf(),
    {
        &self.alphabet
    }

    /// The position of the state called `name`.
    fn find_index(&self, name: &String) -> (r: Option<usize>)
        requires
            self.wf(),
        ensures
            r is None <==> !has_state(self@.states, name@),
            r matches Some(i) ==> i < self.states@.len() && i == state_index(
                self@.states,
                name@,
            ) && self@.states[i as int].name == name@ && self@.states[i as int] == self.states@[i as int]@,
    {
        let ghost g = self@;
        let mut i: usize = 0;
        while i < self.states.len()
            invariant
                i <= self.states@.len(),
                g == self@,
                graph_wf(g),
                forall|k: int| 0 <= k < i ==> g.states[k].name != name@,
            decreases self.states@.len() - i,
        {
            assert(g.states[i as int] == self.states@[i as int]@);
            if self.states[i].name_string().eq(name) {
                proof {
                    let j = state_index(g.states, name@);
                    assert(0 <= j < g.states.len() && g.states[j].name == name@);
                    if j < i as int {
                        assert(g.states[j].name != g.states[i as int].name);
                    } else if j > i as int {
                        assert(g.states[i as int].name != g.states[j].name);
                    }
                }
                return Some(i);
            }
            i = i + 1;
        }
        None
    }

    /// Registers `node`. Fails with `InvalidName` when its name is empty and
    /// with `DuplicateState` when a state of that name exists; the automaton is
    /// then unchanged.
    pub fn add_state(&mut self, node: ENASNode) -> (r: Result<(), AutomatonError>)
        requires
            old(self).wf(),
            node.wf(),
        ensures
            final(self).wf(),
            node@.name.len() == 0 ==> r == Err::<(), AutomatonError>(AutomatonError::InvalidName),
            node@.name.len() > 0 && has_state(old(self)@.states, node@.name) ==> r == Err::<
                (),
                AutomatonError,
            >(AutomatonError::DuplicateState),
            r is Ok <==> node@.name.len() > 0 && !has_state(old(self)@.states, node@.name),
            r is Ok ==> final(self)@ == (AutomatonView {
                states: old(self)@.states.push(node@),
                ..old(self)@
            }),
            r is Err ==> final(self)@ == old(self)@,
    {
        let name = node.name_string();
        if name.as_str().is_empty() {
            return Err(AutomatonError::InvalidName);
        }
        if self.find_index(name).is_some() {
            return Err(AutomatonError::DuplicateState);
        }
        let ghost old_view = self@;
        self.states.push(node);
        assert(self@.states =~= old_view.states.push(node@));
        proof {
            let s = self@.states;
            assert forall|i: int, j: int| 0 <= i < j < s.len() implies s[i].name != s[j].name by {
                if j == s.len() - 1 {
                    if s[i].name == s[j].name {
                        assert(old_view.states[i].name == node@.name);
                    }
                } else {
                    assert(old_view.states[i].name != old_view.states[j].name);
                }
            }
            assert(names_unique(s));
        }
        Ok(())
    }

    /// Names the start state; the name need not be registered yet.
    pub fn set_start_state(&mut self, name: &str)
        requires
            old(self).wf(),
        ensures
            final(self).wf(),
            final(self)@ == (AutomatonView { start: name@, ..old(self)@ }),
    {
        self.start_state = name.to_owned();
    }
    /// The epsilon-closure of the names in `states`, each name once: the given
    /// names first, in order, then each name that a breadth-first walk of the
    /// epsilon edges meets, in the order in which it meets them. A name that is
    /// no state is kept and has no edges.
    pub fn epsilon_closure(&self, states: &Vec<String>) -> (r: Vec<String>)
        requires
            self.wf(),
        ensures
            names_view(r@).no_duplicates(),
            names_view(r@).to_set() == eps_closure(self@.states, names_view(states@).to_set()),
    {
        let ghost g = self@.states;
        let ghost seed = names_view(states@).to_set();
        let ghost pool = names_view(states@) + eps_pool(g);
        let ghost full = eps_closure(g, seed);
        proof {
            lemma_closure_contains(g, seed);
            lemma_closure_closed(g, seed);
        }
        let mut closure: Vec<String> = Vec::new();
        let mut k: usize = 0;
        while k < states.len()
            invariant
                k <= states@.len(),
                seed == names_view(states@).to_set(),
                pool == names_view(states@) + eps_pool(g),
                seed.subset_of(full),
                names_view(closure@).no_duplicates(),
                forall|m: int| 0 <= m < k ==> names_view(closure@).contains(#[trigger] states@[m]@),
                forall|x: Seq<char>| names_view(closure@).contains(x) ==> seed.contains(x),
            decreases states@.len() - k,
        {
            assert(names_view(states@)[k as int] == states@[k as int]@);
            if !contains_name(&closure, &states[k]) {
                let ghost before = closure@;
                closure.push(states[k].clone());
                proof {
                    lemma_names_push(before, states@[k as int]);
                }
            }
            k = k + 1;
        }
        assert forall|x: Seq<char>| seed.contains(x) implies names_view(closure@).contains(x) by {
            let m = choose|m: int| 0 <= m < names_view(states@).len() && names_view(states@)[m] == x;
            assert(states@[m]@ == x);
        }
        assert forall|x: Seq<char>| names_view(closure@).contains(x) implies pool.contains(x) by {
            assert(seed.contains(x));
            assert(names_view(states@).contains(x));
            let m = choose|m: int| 0 <= m < names_view(states@).len() && names_view(states@)[m] == x;
            assert(pool[m] == x);
        }
        proof {
            lemma_distinct_bound(names_view(closure@), pool);
        }
        let mut i: usize = 0;
        while i < closure.len()
            invariant
                self.wf(),
                g == self@.states,
                full == eps_closure(g, seed),
                eps_closed(g, full),
                seed.subset_of(full),
                pool == names_view(states@) + eps_pool(g),
                i <= closure@.len(),
                closure@.len() <= pool.len(),
                names_view(closure@).no_duplicates(),
                forall|x: Seq<char>| seed.contains(x) ==> names_view(closure@).contains(x),
                forall|x: Seq<char>| names_view(closure@).contains(x) ==> pool.contains(x),
                forall|x: Seq<char>| names_view(closure@).contains(x) ==> full.contains(x),
                forall|j: int, t: Seq<char>|
                    0 <= j < i && #[trigger] moves(g, closure@[j]@, EPSILON, t)
                        ==> names_view(closure@).contains(t),
            decreases pool.len() - i,
        {
            let q = closure[i].clone();
            assert(names_view(closure@)[i as int] == q@);
            assert(full.contains(q@));
            let ghost at_i = closure@;
            match self.find_index(&q) {
                None => {},
                Some(idx) => {
                    let node = &self.states[idx];
                    match node.target(EPSILON) {
                        None => {},
                        Some(ts) => {
                            let mut m: usize = 0;
                            while m < ts.len()
                                invariant
                                    self.wf(),
                                    g == self@.states,
                                    full == eps_closure(g, seed),
                                    eps_closed(g, full),
                                    m <= ts@.len(),
                                    find_state(g, q@) == Some(node@),
                                    lookup(node@.edges, EPSILON) == Some(names_view(ts@)),
                                    i < closure@.len(),
                                    full.contains(q@),
                                    pool == names_view(states@) + eps_pool(g),
                                    closure@.len() <= pool.len(),
                                    at_i.len() <= closure@.len(),
                                    forall|j: int| 0 <= j < at_i.len() ==> closure@[j] == at_i[j],
                                    names_view(closure@).no_duplicates(),
                                    forall|x: Seq<char>|
                                        names_view(at_i).contains(x) ==> names_view(closure@).contains(x),
                                    forall|x: Seq<char>|
                                        names_view(closure@).contains(x) ==> pool.contains(x),
                                    forall|x: Seq<char>|
                                        names_view(closure@).contains(x) ==> full.contains(x),
                                    forall|n: int|
                                        0 <= n < m ==> names_view(closure@).contains(
                                            #[trigger] names_view(ts@)[n],
                                        ),
                                decreases ts@.len() - m,
                            {
                                let ghost t = names_view(ts@)[m as int];
                                assert(ts@[m as int]@ == t);
                                assert(names_view(ts@).contains(t));
                                assert(moves(g, q@, EPSILON, t));
                                if !contains_name(&closure, &ts[m]) {
                                    proof {
                                        lemma_moves_in_pool(g, q@, t);
                                        let p = choose|p: int|
                                            0 <= p < eps_pool(g).len() && eps_pool(g)[p] == t;
                                        assert(pool[names_view(states@).len() + p] == t);
                                        assert(full.contains(t));
                                    }
                                    let ghost before = closure@;
                                    closure.push(ts[m].clone());
                                    proof {
                                        lemma_names_push(before, ts@[m as int]);
                                        lemma_distinct_bound(names_view(closure@), pool);
                                    }
                                }
                                m = m + 1;
                            }
                            assert forall|t: Seq<char>| #[trigger]
                                moves(g, q@, EPSILON, t) implies names_view(closure@).contains(t) by {
                                let n = choose|n: int|
                                    0 <= n < names_view(ts@).len() && names_view(ts@)[n] == t;
                            }
                        },
                    }
                },
            }
            assert forall|j: int, t: Seq<char>|
                0 <= j < i + 1 && #[trigger] moves(g, closure@[j]@, EPSILON, t)
                    implies names_view(closure@).contains(t) by {
                assert(closure@[j] == at_i[j]);
                if j < i {
                    assert(names_view(at_i).contains(t));
                }
            }
            i = i + 1;
        }
        proof {
            let cs = names_view(closure@).to_set();
            assert forall|q: Seq<char>, t: Seq<char>|
                cs.contains(q) && #[trigger] moves(g, q, EPSILON, t) implies cs.contains(t) by {
                let j = choose|j: int| 0 <= j < names_view(closure@).len() && names_view(closure@)[j] == q;
                assert(closure@[j]@ == q);
            }
            assert(seed.subset_of(cs));
            lemma_closure_least(g, seed, cs);
            assert(cs =~= full);
        }
        closure
    }
    /// The names that the edges labelled `c` of the states named in `current`
    /// lead to.
    fn step(&self, current: &Vec<String>, c: char) -> (r: Vec<String>)
        requires
            self.wf(),
        ensures
            names_view(r@).to_set() == step_set(self@.states, names_view(current@).to_set(), c),
    {
        let ghost g = self@.states;
        let mut next: Vec<String> = Vec::new();
        let mut k: usize = 0;
        while k < current.len()
            invariant
                self.wf(),
                g == self@.states,
                k <= current@.len(),
                forall|t: Seq<char>|
                    names_view(next@).contains(t) ==> exists|j: int|
                        0 <= j < k && #[trigger] moves(g, current@[j]@, c, t),
                forall|j: int, t: Seq<char>|
                    0 <= j < k && #[trigger] moves(g, current@[j]@, c, t) ==> names_view(
                        next@,
                    ).contains(t),
            decreases current@.len() - k,
        {
            let ghost q = current@[k as int]@;
            let ghost at_k = next@;
            match self.find_index(&current[k]) {
                None => {},
                Some(idx) => {
                    let node = &self.states[idx];
                    match node.target(c) {
                        None => {},
                        Some(ts) => {
                            let mut m: usize = 0;
                            while m < ts.len()
                                invariant
                                    m <= ts@.len(),
                                    find_state(g, q) == Some(node@),
                                    lookup(node@.edges, c) == Some(names_view(ts@)),
                                    forall|t: Seq<char>|
                                        names_view(next@).contains(t) ==> names_view(at_k).contains(
                                            t,
                                        ) || moves(g, q, c, t),
                                    forall|t: Seq<char>|
                                        names_view(at_k).contains(t) ==> names_view(
                                            next@,
                                        ).contains(t),
                                    forall|n: int|
                                        0 <= n < m ==> names_view(next@).contains(
                                            #[trigger] names_view(ts@)[n],
                                        ),
                                decreases ts@.len() - m,
                            {
                                let ghost t = names_view(ts@)[m as int];
                                assert(ts@[m as int]@ == t);
                                assert(names_view(ts@).contains(t));
                                let ghost before = next@;
                                next.push(ts[m].clone());
                                proof {
                                    lemma_names_push(before, ts@[m as int]);
                                }
                                m = m + 1;
                            }
                            assert forall|t: Seq<char>| #[trigger]
                                moves(g, q, c, t) implies names_view(next@).contains(t) by {
                                let n = choose|n: int|
                                    0 <= n < names_view(ts@).len() && names_view(ts@)[n] == t;
                            }
                        },
                    }
                },
            }
            assert forall|t: Seq<char>| names_view(next@).contains(t) implies exists|j: int|
                0 <= j < k + 1 && #[trigger] moves(g, current@[j]@, c, t) by {
                if names_view(at_k).contains(t) {
                    let j = choose|j: int| 0 <= j < k && #[trigger] moves(g, current@[j]@, c, t);
                    assert(moves(g, current@[j]@, c, t));
                } else {
                    assert(moves(g, current@[k as int]@, c, t));
                }
            }
            k = k + 1;
        }
        let ghost cur = names_view(current@).to_set();
        assert forall|t: Seq<char>|
            names_view(next@).to_set().contains(t) <==> step_set(g, cur, c).contains(t) by {
            if names_view(next@).contains(t) {
                let j = choose|j: int| 0 <= j < current@.len() && #[trigger] moves(g, current@[j]@, c, t);
                assert(names_view(current@)[j] == current@[j]@);
                assert(cur.contains(current@[j]@));
            }
            if step_set(g, cur, c).contains(t) {
                let q = choose|q: Seq<char>| cur.contains(q) && moves(g, q, c, t);
                assert(names_view(current@).contains(q));
                let j = choose|j: int| 0 <= j < names_view(current@).len() && names_view(current@)[j] == q;
                assert(current@[j]@ == q);
                assert(moves(g, current@[j]@, c, t));
            }
        }
        assert(names_view(next@).to_set() =~= step_set(g, cur, c));
        next
    }

    /// Whether some name in `current` is that of an accepting state.
    fn any_accepting(&self, current: &Vec<String>) -> (r: bool)
        requires
            self.wf(),
        ensures
            r == exists|q: Seq<char>|
                names_view(current@).to_set().contains(q) && accepting_name(self@.states, q),
    {
        let ghost g = self@.states;
        let mut k: usize = 0;
        while k < current.len()
            invariant
                self.wf(),
                g == self@.states,
                k <= current@.len(),
                forall|j: int| 0 <= j < k ==> !accepting_name(g, #[trigger] current@[j]@),
            decreases current@.len() - k,
        {
            match self.find_index(&current[k]) {
                None => {},
                Some(idx) => {
                    if self.states[idx].is_accepting() {
                        assert(names_view(current@)[k as int] == current@[k as int]@);
                        assert(names_view(current@).to_set().contains(current@[k as int]@));
                        assert(accepting_name(g, current@[k as int]@));
                        return true;
                    }
                },
            }
            k = k + 1;
        }
        assert forall|q: Seq<char>|
            names_view(current@).to_set().contains(q) implies !accepting_name(g, q) by {
            assert(names_view(current@).contains(q));
            let j = choose|j: int| 0 <= j < names_view(current@).len() && names_view(current@)[j] == q;
            assert(current@[j]@ == q);
        }
        false
    }

    /// Reads `input` with the set of active names: first the epsilon-closure
    /// of the start name, then for each symbol the epsilon-closure of where the
    /// active names' edges for it lead. Accepts when some active name at the
    /// end is that of an accepting state.
    pub fn process(&self, input: &str) -> (r: bool)
        requires
            self.wf(),
        ensures
            r == nfa_accepts(self@, input@),
    {
        let ghost g = self@;
        let chars = chars_of(input);
        let mut start: Vec<String> = Vec::new();
        start.push(self.start_state.clone());
        assert(names_view(start@) =~= seq![g.start]);
        assert forall|x: Seq<char>|
            names_view(start@).to_set().contains(x) <==> set![g.start].contains(x) by {
            if x == g.start {
                assert(names_view(start@)[0] == x);
            }
        }
        assert(names_view(start@).to_set() =~= set![g.start]);
        let mut current = self.epsilon_closure(&start);
        assert(chars@.take(0).len() == 0);
        let mut i: usize = 0;
        while i < chars.len()
            invariant
                self.wf(),
                g == self@,
                chars@ == input@,
                i <= chars@.len(),
                names_view(current@).to_set() == nfa_active(g, chars@.take(i as int)),
            decreases chars@.len() - i,
        {
            let c = chars[i];
            let next = self.step(&current, c);
            current = self.epsilon_closure(&next);
            assert(chars@.take(i + 1).drop_last() =~= chars@.take(i as int));
            assert(chars@.take(i + 1).last() == c);
            i = i + 1;
        }
        assert(chars@.take(i as int) =~= input@);
        self.any_accepting(&current)
    }

    /// Appends a fault for each name in `targets` that is no state.
    fn push_dangling_targets(
        &self,
        name: &String,
        symbol: char,
        targets: &Vec<String>,
        errors: &mut Vec<ValidationError>,
    )
        requires
            self.wf(),
        ensures
            issues_of(final(errors)@) == issues_of(old(errors)@) + dangling_targets(
                self@.states,
                name@,
                symbol,
                names_view(targets@),
            ),
    {
        let ghost g = self@.states;
        let ghost before = issues_of(errors@);
        let ghost ts = names_view(targets@);
        assert(ts.take(0) =~= Seq::<Seq<char>>::empty());
        assert(before =~= before + dangling_targets(g, name@, symbol, ts.take(0)));
        let mut m: usize = 0;
        while m < targets.len()
            invariant
                self.wf(),
                g == self@.states,
                m <= targets@.len(),
                ts == names_view(targets@),
                issues_of(errors@) == before + dangling_targets(g, name@, symbol, ts.take(m as int)),
            decreases targets@.len() - m,
        {
            let ghost prev = issues_of(errors@);
            let ghost t = ts[m as int];
            assert(targets@[m as int]@ == t);
            assert(ts.take(m + 1).drop_last() =~= ts.take(m as int));
            assert(ts.take(m + 1).last() == t);
            if self.find_index(&targets[m]).is_none() {
                let e = ValidationError::DanglingTarget {
                    state: name.clone(),
                    symbol,
                    target: targets[m].clone(),
                };
                assert(e@ == Fault::Dangling { state: name@, symbol, target: t });
                assert(dangling_one(g, name@, symbol, t) == seq![e@]);
                let ghost old_errors = errors@;
                errors.push(e);
                proof {
                    lemma_issues_push(old_errors, e);
                    lemma_append_one(before, dangling_targets(g, name@, symbol, ts.take(m as int)), e@);
                }
            } else {
                assert(dangling_one(g, name@, symbol, t) =~= Seq::<ValidationIssue>::empty());
                assert(prev =~= prev + dangling_one(g, name@, symbol, t));
            }
            m = m + 1;
        }
        assert(ts.take(m as int) =~= ts);
    }

    /// Appends the faults of the edges of `node`, edge by edge.
    fn push_dangling_edges(&self, node: &ENASNode, errors: &mut Vec<ValidationError>)
        requires
            self.wf(),
        ensures
            issues_of(final(errors)@) == issues_of(old(errors)@) + nfa_dangling_edges(
                self@.states,
                node@.name,
                node@.edges,
            ),
    {
        let ghost g = self@.states;
        let ghost before = issues_of(errors@);
        let conns = node.get_connections();
        let ghost edges = node@.edges;
        assert(edges.take(0) =~= Seq::<Edge<Seq<Seq<char>>>>::empty());
        assert(before =~= before + nfa_dangling_edges(g, node@.name, edges.take(0)));
        let mut j: usize = 0;
        while j < conns.len()
            invariant
                self.wf(),
                g == self@.states,
                j <= conns@.len(),
                edges == node@.edges,
                edges == conns@.map_values(
                    |p: Edge<Vec<String>>| Edge { symbol: p.symbol, target: names_view(p.target@) },
                ),
                issues_of(errors@) == before + nfa_dangling_edges(g, node@.name, edges.take(j as int)),
            decreases conns@.len() - j,
        {
            assert(edges[j as int] == Edge {
                symbol: conns@[j as int].symbol,
                target: names_view(conns@[j as int].target@),
            });
            assert(edges.take(j + 1).drop_last() =~= edges.take(j as int));
            assert(edges.take(j + 1).last() == edges[j as int]);
            self.push_dangling_targets(node.name_string(), conns[j].symbol, &conns[j].target, errors);
            assert(issues_of(errors@) =~= before + nfa_dangling_edges(g, node@.name, edges.take(j + 1)));
            j = j + 1;
        }
        assert(edges.take(j as int) =~= edges);
    }

    /// Every structural fault: for every state, edge and listed name in turn,
    /// each listed name that is no state.
    pub fn validate(&self) -> (r: Vec<ValidationError>)
        requires
            self.wf(),
        ensures
            issues_of(r@) == nfa_issues(self@),
    {
        let ghost g = self@;
        let mut errors: Vec<ValidationError> = Vec::new();
        assert(issues_of(errors@) =~= nfa_dangling_states(g.states, g.states.take(0)));
        let mut i: usize = 0;
        while i < self.states.len()
            invariant
                g == self@,
                graph_wf(g),
                i <= self.states@.len(),
                issues_of(errors@) == nfa_dangling_states(g.states, g.states.take(i as int)),
            decreases self.states@.len() - i,
        {
            let node = &self.states[i];
            assert(g.states[i as int] == node@);
            assert(g.states.take(i + 1).drop_last() =~= g.states.take(i as int));
            self.push_dangling_edges(node, &mut errors);
            i = i + 1;
        }
        assert(g.states.take(i as int) =~= g.states);
        errors
    }
}

impl Automat for ENAS {
    open spec fn inv(&self) -> bool {
        self.wf()
    }

    open spec fn accepts(&self, input: Seq<char>) -> bool {
        nfa_accepts(self@, input)
    }

    fn process(&self, input: &str) -> (r: bool) {
        ENAS::process(self, input)
    }
}

} // verus!
