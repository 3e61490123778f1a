use vstd::prelude::*;

use crate::alphabet::Alphabet;
use crate::automat::{
    accepting_name, chars_of, count_mentions, dangling_one, find_state, graph_wf, has_state,
    issues_of, lemma_append_one, lemma_count_concat, lemma_issues_push,
    lemma_missing_symbols_silent, lemma_missing_symbols_step, mentions, missing_one,
    missing_symbols, names_unique, state_index, Automat, AutomatonError, AutomatonView, Fault,
    ValidationError, ValidationIssue,
};
use crate::node::{has_key, lookup, DASNode, Edge, NodeBase, StateView};

verus! {

/// Where one step from the state called `q` on `c` leads, if anywhere.
pub open spec fn dfa_step(g: AutomatonView<Seq<char>>, q: Seq<char>, c: char) -> Option<Seq<char>> {
    match find_state(g.states, q) {
        Some(st) => lookup(st.edges, c),
        None => None,
    }
}

/// The state reached from `q` by reading `input`; `None` as soon as a state is
/// unknown or has no edge for the next symbol.
pub open spec fn dfa_run(g: AutomatonView<Seq<char>>, q: Seq<char>, input: Seq<char>) -> Option<
    Seq<char>,
>
    decreases input.len(),
{
    if input.len() == 0 {
        Some(q)
    } else {
        match dfa_step(g, q, input[0]) {
            Some(n) => dfa_run(g, n, input.drop_first()),
            None => None,
        }
    }
}

/// The automaton reads all of `input` from its start state and ends in an
/// accepting state.
pub open spec fn dfa_accepts(g: AutomatonView<Seq<char>>, input: Seq<char>) -> bool {
    match dfa_run(g, g.start, input) {
        Some(q) => accepting_name(g.states, q),
        None => false,
    }
}

/// One fault for each edge in `edges` (of the state called `name`) whose
/// target is no state, in the order of the edges.
pub open spec fn dangling_edges(
    states: Seq<StateView<Seq<char>>>,
    name: Seq<char>,
    edges: Seq<Edge<Seq<char>>>,
) -> Seq<ValidationIssue>
    decreases edges.len(),
{
    if edges.len() == 0 {
        Seq::empty()
    } else {
        dangling_edges(states, name, edges.drop_last()) + dangling_one(
            states,
            name,
            edges.last().symbol,
            edges.last().target,
        )
    }
}

/// The dangling-edge faults of the states in `part`, state after state.
pub open spec fn dangling_states(
    states: Seq<StateView<Seq<char>>>,
    part: Seq<StateView<Seq<char>>>,
) -> Seq<ValidationIssue>
    decreases part.len(),
{
    if part.len() == 0 {
        Seq::empty()
    } else {
        dangling_states(states, part.drop_last()) + dangling_edges(
            states,
            part.last().name,
            part.last().edges,
        )
    }
}

/// The missing-symbol faults of the states in `part`, state after state.
pub open spec fn missing_states(alphabet: Seq<char>, part: Seq<StateView<Seq<char>>>) -> Seq<
    ValidationIssue,
>
    decreases part.len(),
{
    if part.len() == 0 {
        Seq::empty()
    } else {
        missing_states(alphabet, part.drop_last()) + missing_symbols(
            part.last().name,
            part.last().edges,
            alphabet,
        )
    }
}

/// All faults of a deterministic automaton: first every dangling edge, then
/// every state and alphabet symbol without an edge.
pub open spec fn dfa_issues(g: AutomatonView<Seq<char>>) -> Seq<ValidationIssue> {
    dangling_states(g.states, g.states) + missing_states(g.alphabet, g.states)
}

/// One more edge adds at most its own fault.
proof fn lemma_dangling_edges_step(
    states: Seq<StateView<Seq<char>>>,
    name: Seq<char>,
    edges: Seq<Edge<Seq<char>>>,
    j: int,
)
    requires
        0 <= j < edges.len(),
    ensures
        dangling_edges(states, name, edges.take(j + 1)) == dangling_edges(
            states,
            name,
            edges.take(j),
        ) + dangling_one(states, name, edges[j].symbol, edges[j].target),
{
    let s1 = edges.take(j + 1);
    assert(s1.drop_last() =~= edges.take(j));
    assert(s1.last() == edges[j]);
}

/// On empty input the automaton accepts exactly when its start state is an
/// accepting state.
pub proof fn lemma_dfa_empty_input(g: AutomatonView<Seq<char>>)
    ensures
        dfa_accepts(g, Seq::empty()) == accepting_name(g.states, g.start),
{
}

/// A list that holds `x` still holds it after anything is put before or after it.
proof fn lemma_contains_concat(a: Seq<ValidationIssue>, b: Seq<ValidationIssue>, x: ValidationIssue)
    ensures
        a.contains(x) ==> (a + b).contains(x),
        b.contains(x) ==> (a + b).contains(x),
{
    if a.contains(x) {
        let i = choose|i: int| 0 <= i < a.len() && a[i] == x;
        assert((a + b)[i] == x);
    }
    if b.contains(x) {
        let i = choose|i: int| 0 <= i < b.len() && b[i] == x;
        assert((a + b)[a.len() + i] == x);
    }
}

/// Among the symbols checked at one state, each one without an edge is reported.
proof fn lemma_missing_symbols_has(name: Seq<char>, edges: Seq<Edge<Seq<char>>>, symbols: Seq<char>, b: char)
    requires
        symbols.contains(b),
        !has_key(edges, b),
    ensures
        missing_symbols(name, edges, symbols).contains(Fault::Missing { state: name, symbol: b }),
    decreases symbols.len(),
{
    let x = Fault::Missing { state: name, symbol: b };
    let head = missing_symbols(name, edges, symbols.drop_last());
    if symbols.last() == b {
        assert(missing_one(name, has_key(edges, b), b) == seq![x]);
        assert(seq![x][0] == x);
        lemma_contains_concat(head, seq![x], x);
    } else {
        let i = choose|i: int| 0 <= i < symbols.len() && symbols[i] == b;
        assert(symbols.drop_last()[i] == b);
        lemma_missing_symbols_has(name, edges, symbols.drop_last(), b);
        lemma_contains_concat(head, missing_one(name, has_key(edges, symbols.last()), symbols.last()), x);
    }
}

/// Among the states checked, each one without an edge for an alphabet symbol
/// is reported for it.
proof fn lemma_missing_states_has(alphabet: Seq<char>, part: Seq<StateView<Seq<char>>>, k: int, b: char)
    requires
        0 <= k < part.len(),
        alphabet.contains(b),
        !has_key(part[k].edges, b),
    ensures
        missing_states(alphabet, part).contains(Fault::Missing { state: part[k].name, symbol: b }),
    decreases part.len(),
{
    let x = Fault::Missing { state: part[k].name, symbol: b };
    let head = missing_states(alphabet, part.drop_last());
    let tail = missing_symbols(part.last().name, part.last().edges, alphabet);
    if k == part.len() - 1 {
        lemma_missing_symbols_has(part[k].name, part[k].edges, alphabet, b);
        lemma_contains_concat(head, tail, x);
    } else {
        assert(part.drop_last()[k] == part[k]);
        lemma_missing_states_has(alphabet, part.drop_last(), k, b);
        lemma_contains_concat(head, tail, x);
    }
}

/// Validation reports every state that has no edge for a symbol of the
/// alphabet, naming the state and the symbol.
pub proof fn lemma_missing_transition_reported(g: AutomatonView<Seq<char>>, q: Seq<char>, b: char)
    requires
        has_state(g.states, q),
        g.alphabet.contains(b),
        dfa_step(g, q, b) is None,
    ensures
        dfa_issues(g).contains(Fault::Missing { state: q, symbol: b }),
{
    let k = state_index(g.states, q);
    lemma_missing_states_has(g.alphabet, g.states, k, b);
    lemma_contains_concat(
        dangling_states(g.states, g.states),
        missing_states(g.alphabet, g.states),
        Fault::Missing { state: q, symbol: b },
    );
}

/// How many of `edges` lead to `x`.
pub open spec fn edges_to(edges: Seq<Edge<Seq<char>>>, x: Seq<char>) -> nat
    decreases edges.len(),
{
    if edges.len() == 0 {
        0
    } else {
        edges_to(edges.drop_last(), x) + if edges.last().target == x {
            1nat
        } else {
            0nat
        }
    }
}

/// How many edges of the states in `part` lead to `x`.
pub open spec fn dfa_edges_to(part: Seq<StateView<Seq<char>>>, x: Seq<char>) -> nat
    decreases part.len(),
{
    if part.len() == 0 {
        0
    } else {
        dfa_edges_to(part.drop_last(), x) + edges_to(part.last().edges, x)
    }
}

proof fn lemma_dangling_edges_count(
    states: Seq<StateView<Seq<char>>>,
    name: Seq<char>,
    edges: Seq<Edge<Seq<char>>>,
    x: Seq<char>,
)
    requires
        name != x,
        !has_state(states, x),
    ensures
        count_mentions(dangling_edges(states, name, edges), x) == edges_to(edges, x),
    decreases edges.len(),
{
    if edges.len() > 0 {
        let e = edges.last();
        let one = dangling_one(states, name, e.symbol, e.target);
        lemma_dangling_edges_count(states, name, edges.drop_last(), x);
        lemma_count_concat(dangling_edges(states, name, edges.drop_last()), one, x);
        if has_state(states, e.target) {
            assert(e.target != x);
            assert(one =~= Seq::<ValidationIssue>::empty());
        } else {
            assert(one.drop_last() =~= Seq::<ValidationIssue>::empty());
            assert(count_mentions(one.drop_last(), x) == 0);
            assert(mentions(one.last(), x) == (e.target == x));
        }
    }
}

proof fn lemma_dangling_states_count(
    states: Seq<StateView<Seq<char>>>,
    part: Seq<StateView<Seq<char>>>,
    x: Seq<char>,
)
    requires
        !has_state(states, x),
        forall|k: int| 0 <= k < part.len() ==> #[trigger] part[k].name != x,
    ensures
        count_mentions(dangling_states(states, part), x) == dfa_edges_to(part, x),
    decreases part.len(),
{
    if part.len() > 0 {
        let last = part.last();
        assert(part[part.len() - 1].name != x);
        assert forall|k: int| 0 <= k < part.drop_last().len() implies #[trigger] part.drop_last()[k].name
            != x by {
            assert(part.drop_last()[k] == part[k]);
        }
        lemma_dangling_states_count(states, part.drop_last(), x);
        lemma_dangling_edges_count(states, last.name, last.edges, x);
        lemma_count_concat(
            dangling_states(states, part.drop_last()),
            dangling_edges(states, last.name, last.edges),
            x,
        );
    }
}

proof fn lemma_missing_states_silent(alphabet: Seq<char>, part: Seq<StateView<Seq<char>>>, x: Seq<char>)
    requires
        forall|k: int| 0 <= k < part.len() ==> #[trigger] part[k].name != x,
    ensures
        count_mentions(missing_states(alphabet, part), x) == 0,
    decreases part.len(),
{
    if part.len() > 0 {
        let last = part.last();
        assert(part[part.len() - 1].name != x);
        assert forall|k: int| 0 <= k < part.drop_last().len() implies #[trigger] part.drop_last()[k].name
            != x by {
            assert(part.drop_last()[k] == part[k]);
        }
        lemma_missing_states_silent(alphabet, part.drop_last(), x);
        lemma_missing_symbols_silent(last.name, last.edges, alphabet, x);
        lemma_count_concat(
            missing_states(alphabet, part.drop_last()),
            missing_symbols(last.name, last.edges, alphabet),
            x,
        );
    }
}

/// For a name `x` that is no state, validation names `x` in exactly one fault
/// for each edge that leads to `x`, and in no other.
pub proof fn lemma_dangling_target_reported_once(g: AutomatonView<Seq<char>>, x: Seq<char>)
    requires
        !has_state(g.states, x),
    ensures
        count_mentions(dfa_issues(g), x) == dfa_edges_to(g.states, x),
{
    assert forall|k: int| 0 <= k < g.states.len() implies #[trigger] g.states[k].name != x by {
        if g.states[k].name == x {
            assert(has_state(g.states, x));
        }
    }
    lemma_dangling_states_count(g.states, g.states, x);
    lemma_missing_states_silent(g.alphabet, g.states, x);
    lemma_count_concat(dangling_states(g.states, g.states), missing_states(g.alphabet, g.states), x);
}

/// A deterministic finite automaton: states looked up by name, each with at
/// most one target per symbol.
pub struct DAS {
    alphabet: Alphabet,
    states: Vec<DASNode>,
    start_state: String,
}

impl View for DAS {
    type V = AutomatonView<Seq<char>>;

    closed spec fn view(&self) -> AutomatonView<Seq<char>> {
        AutomatonView {
            alphabet: self.alphabet@,
            states: self.states@.map_values(|n: DASNode| n@),
            start: self.start_state@,
        }
    }
}

impl DAS {
    pub open spec fn wf(&self) -> bool {
        graph_wf(self@)
    }

    /// An automaton over `alphabet` with no states and an empty start name.
    pub fn new(alphabet: Alphabet) -> (r: Self)
        requires
            alphabet.wf(),
        ensures
            r.wf(),
            r@.alphabet == alphabet@,
            r@.states == Seq::<StateView<Seq<char>>>::empty(),
            r@.start == Seq::<char>::empty(),
    {
        let r = DAS { alphabet, states: Vec::new(), start_state: String::new() };
        assert(r@.states =~= Seq::<StateView<Seq<char>>>::empty());
        r
    }

    /// The declared alphabet.
    pub fn alphabet(&self) -> (r: &Alphabet)
        ensures
            r@ == self@.alphabet,
            self.wf() ==> r.wf(),
    {
        &self.alphabet
    }

    /// The position of the state called `name`.
    fn find_index(&self, name: &String) -> (r: Option<usize>)
        requires
            self.wf(),
        ensures
            r is None <==> !has_state(self@.states, name@),
            r matches Some(i) ==> i < self.states@.len() && i == state_index(
                self@.states,
                name@,
            ) && self@.states[i as int].name == name@,
    {
        let ghost g = self@;
        let mut i: usize = 0;
        while i < self.states.len()
            invariant
                i <= self.states@.len(),
                g == self@,
                graph_wf(g),
                forall|k: int| 0 <= k < i ==> g.states[k].name != name@,
            decreases self.states@.len() - i,
        {
            assert(g.states[i as int] == self.states@[i as int]@);
            if self.states[i].name_string().eq(name) {
                assert(g.states[i as int].name == name@);
                proof {
                    let j = state_index(g.states, name@);
                    assert(0 <= j < g.states.len() && g.states[j].name == name@);
                    if j < i as int {
                        assert(g.states[j].name != g.states[i as int].name);
                    } else if j > i as int {
                        assert(g.states[i as int].name != g.states[j].name);
                    }
                }
                return Some(i);
            }
            i = i + 1;
        }
        None
    }

    /// Registers `node`. Fails with `InvalidName` when its name is empty and
    /// with `DuplicateState` when a state of that name exists; the automaton is
    /// then unchanged.
    pub fn add_state(&mut self, node: DASNode) -> (r: Result<(), AutomatonError>)
        requires
            old(self).wf(),
            node.wf(),
        ensures
            final(self).wf(),
            node@.name.len() == 0 ==> r == Err::<(), AutomatonError>(AutomatonError::InvalidName),
            node@.name.len() > 0 && has_state(old(self)@.states, node@.name) ==> r == Err::<
                (),
                AutomatonError,
            >(AutomatonError::DuplicateState),
            r is Ok <==> node@.name.len() > 0 && !has_state(old(self)@.states, node@.name),
            r is Ok ==> final(self)@ == (AutomatonView {
                states: old(self)@.states.push(node@),
                ..old(self)@
            }),
            r is Err ==> final(self)@ == old(self)@,
    {
        let name = node.name_string();
        if name.as_str().is_empty() {
            return Err(AutomatonError::InvalidName);
        }
        if self.find_index(name).is_some() {
            return Err(AutomatonError::DuplicateState);
        }
        let ghost old_view = self@;
        self.states.push(node);
        assert(self@.states =~= old_view.states.push(node@));
        proof {
            let s = self@.states;
            assert forall|i: int, j: int| 0 <= i < j < s.len() implies s[i].name != s[j].name by {
                if j == s.len() - 1 {
                    if s[i].name == s[j].name {
                        assert(old_view.states[i].name == node@.name);
                    }
                } else {
                    assert(old_view.states[i].name != old_view.states[j].name);
                }
            }
            assert(names_unique(s));
        }
        Ok(())
    }

    /// Names the start state; the name need not be registered yet.
    pub fn set_start_state(&mut self, name: &str)
        requires
            old(self).wf(),
        ensures
            final(self).wf(),
            final(self)@ == (AutomatonView { start: name@, ..old(self)@ }),
    {
        self.start_state = name.to_owned();
    }

    /// Reads `input` from the start state, one symbol at a time; rejects as
    /// soon as a state is unknown or has no edge for the next symbol, and
    /// otherwise accepts when the state reached accepts.
    pub fn process(&self, input: &str) -> (r: bool)
        requires
            self.wf(),
        ensures
            r == dfa_accepts(self@, input@),
    {
        let ghost g = self@;
        let chars = chars_of(input);
        let mut current: String = self.start_state.clone();
        let mut i: usize = 0;
        assert(chars@.skip(0) =~= chars@);
        while i < chars.len()
            invariant
                g == self@,
                graph_wf(g),
                chars@ == input@,
                i <= chars@.len(),
                dfa_run(g, g.start, input@) == dfa_run(g, current@, chars@.skip(i as int)),
            decreases chars@.len() - i,
        {
            let c = chars[i];
            assert(chars@.skip(i as int)[0] == c);
            assert(chars@.skip(i as int).drop_first() =~= chars@.skip(i + 1));
            match self.find_index(&current) {
                None => {
                    return false;
                },
                Some(k) => {
                    let node = &self.states[k];
                    assert(find_state(g.states, current@) == Some(node@));
                    match node.target(c) {
                        None => {
                            return false;
                        },
                        Some(t) => {
                            current = t.clone();
                        },
                    }
                },
            }
            i = i + 1;
        }
        match self.find_index(&current) {
            None => false,
            Some(k) => self.states[k].is_accepting(),
        }
    }

    /// Appends the dangling-edge faults of `node`, edge by edge.
    fn push_dangling(&self, node: &DASNode, errors: &mut Vec<ValidationError>)
        requires
            self.wf(),
            node.wf(),
        ensures
            issues_of(final(errors)@) == issues_of(old(errors)@) + dangling_edges(
                self@.states,
                node@.name,
                node@.edges,
            ),
    {
        let ghost g = self@;
        let ghost before = issues_of(errors@);
        let conns = node.get_connections();
        let ghost edges = node@.edges;
        assert(edges.take(0) =~= Seq::<Edge<Seq<char>>>::empty());
        assert(before =~= before + dangling_edges(g.states, node@.name, edges.take(0)));
        let mut j: usize = 0;
        while j < conns.len()
            invariant
                g == self@,
                graph_wf(g),
                j <= conns@.len(),
                edges == node@.edges,
                edges == conns@.map_values(|p: Edge<String>| Edge { symbol: p.symbol, target: p.target@ }),
                issues_of(errors@) == before + dangling_edges(
                    g.states,
                    node@.name,
                    edges.take(j as int),
                ),
            decreases conns@.len() - j,
        {
            assert(edges[j as int] == Edge {
                symbol: conns@[j as int].symbol,
                target: conns@[j as int].target@,
            });
            let ghost prev = issues_of(errors@);
            let ghost last = edges[j as int];
            proof {
                lemma_dangling_edges_step(g.states, node@.name, edges, j as int);
            }
            if self.find_index(&conns[j].target).is_none() {
                let e = ValidationError::DanglingTarget {
                    state: node.name_string().clone(),
                    symbol: conns[j].symbol,
                    target: conns[j].target.clone(),
                };
                assert(e@ == Fault::Dangling {
                    state: node@.name,
                    symbol: last.symbol,
                    target: last.target,
                });
                assert(dangling_one(g.states, node@.name, last.symbol, last.target) == seq![e@]);
                let ghost old_errors = errors@;
                errors.push(e);
                proof {
                    lemma_issues_push(old_errors, e);
                    lemma_append_one(
                        before,
                        dangling_edges(g.states, node@.name, edges.take(j as int)),
                        e@,
                    );
                }
            } else {
                let ghost none = dangling_one(g.states, node@.name, last.symbol, last.target);
                assert(none =~= Seq::<ValidationIssue>::empty());
                assert(prev =~= prev + none);
            }
            j = j + 1;
        }
        assert(edges.take(j as int) =~= edges);
    }

    /// Appends, in alphabet order, a fault for each symbol without an edge at
    /// `node`.
    fn push_missing(&self, node: &DASNode, errors: &mut Vec<ValidationError>)
        requires
            self.wf(),
            node.wf(),
        ensures
            issues_of(final(errors)@) == issues_of(old(errors)@) + missing_symbols(
                node@.name,
                node@.edges,
                self@.alphabet,
            ),
    {
        let ghost g = self@;
        let ghost before = issues_of(errors@);
        let symbols = self.alphabet.symbols();
        assert(g.alphabet.take(0) =~= Seq::<char>::empty());
        assert(before =~= before + missing_symbols(node@.name, node@.edges, g.alphabet.take(0)));
        let mut j: usize = 0;
        while j < symbols.len()
            invariant
                g == self@,
                node.wf(),
                j <= symbols@.len(),
                symbols@ == g.alphabet,
                issues_of(errors@) == before + missing_symbols(
                    node@.name,
                    node@.edges,
                    g.alphabet.take(j as int),
                ),
            decreases symbols@.len() - j,
        {
            let c = symbols[j];
            let ghost prev = issues_of(errors@);
            proof {
                lemma_missing_symbols_step(node@.name, node@.edges, g.alphabet, j as int);
            }
            if node.target(c).is_none() {
                let e = ValidationError::MissingTransition {
                    state: node.name_string().clone(),
                    symbol: c,
                };
                assert(e@ == Fault::Missing { state: node@.name, symbol: c });
                assert(!has_key(node@.edges, c));
                assert(missing_one(node@.name, false, c) == seq![e@]);
                let ghost old_errors = errors@;
                errors.push(e);
                proof {
                    lemma_issues_push(old_errors, e);
                    lemma_append_one(
                        before,
                        missing_symbols(node@.name, node@.edges, g.alphabet.take(j as int)),
                        e@,
                    );
                }
            } else {
                let ghost none = missing_one(node@.name, has_key(node@.edges, c), c);
                assert(none =~= Seq::<ValidationIssue>::empty());
                assert(prev =~= prev + none);
            }
            j = j + 1;
        }
        assert(g.alphabet.take(j as int) =~= g.alphabet);
    }

    /// Every structural fault: first, state by state and edge by edge, each
    /// edge whose target is no state; then, state by state and in alphabet
    /// order, each alphabet symbol for which the state has no edge.
    pub fn validate(&self) -> (r: Vec<ValidationError>)
        requires
            self.wf(),
        ensures
            issues_of(r@) == dfa_issues(self@),
    {
        let ghost g = self@;
        let mut errors: Vec<ValidationError> = Vec::new();
        assert(issues_of(errors@) =~= dangling_states(g.states, g.states.take(0)));
        let mut i: usize = 0;
        while i < self.states.len()
            invariant
                g == self@,
                graph_wf(g),
                i <= self.states@.len(),
                issues_of(errors@) == dangling_states(g.states, g.states.take(i as int)),
            decreases self.states@.len() - i,
        {
            let node = &self.states[i];
            assert(g.states[i as int] == node@);
            assert(g.states.take(i + 1).drop_last() =~= g.states.take(i as int));
            self.push_dangling(node, &mut errors);
            i = i + 1;
        }
        assert(g.states.take(i as int) =~= g.states);
        let ghost dangling = issues_of(errors@);
        assert(dangling =~= dangling + missing_states(g.alphabet, g.states.take(0)));
        let mut i: usize = 0;
        while i < self.states.len()
            invariant
                g == self@,
                graph_wf(g),
                i <= self.states@.len(),
                issues_of(errors@) == dangling + missing_states(g.alphabet, g.states.take(i as int)),
            decreases self.states@.len() - i,
        {
            let node = &self.states[i];
            assert(g.states[i as int] == node@);
            assert(g.states.take(i + 1).drop_last() =~= g.states.take(i as int));
            self.push_missing(node, &mut errors);
            assert(issues_of(errors@) =~= dangling + missing_states(g.alphabet, g.states.take(i + 1)));
            i = i + 1;
        }
        assert(g.states.take(i as int) =~= g.states);
        errors
    }
}

impl Automat for DAS {
    open spec fn inv(&self) -> bool {
        self.wf()
    }

    open spec fn accepts(&self, input: Seq<char>) -> bool {
        dfa_accepts(self@, input)
    }

    fn process(&self, input: &str) -> (r: bool) {
        DAS::process(self, input)
    }
}

} // verus!
