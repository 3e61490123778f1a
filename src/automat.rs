use vstd::prelude::*;

use crate::node::{Edge, StateView, has_key};

verus! {

/// Why a state could not be added to an automaton.
#[derive(Debug, PartialEq, Eq)]
pub enum AutomatonError {
    /// A state of that name is already registered.
    DuplicateState,
    /// The name is empty.
    InvalidName,
}

/// A structural fault reported by validation.
#[derive(Debug, Clone, PartialEq, Eq)]
pub enum ValidationError {
    /// An edge of `state` labelled `symbol` leads to `target`, which is no state.
    DanglingTarget { state: String, symbol: char, target: String },
    /// `state` has no edge for the alphabet symbol `symbol`.
    MissingTransition { state: String, symbol: char },
}

/// A validation fault as values, over the symbol type `S`.
pub enum Fault<S> {
    Dangling { state: Seq<char>, symbol: S, target: Seq<char> },
    Missing { state: Seq<char>, symbol: S },
}

impl View for ValidationError {
    type V = ValidationIssue;

    open spec fn view(&self) -> ValidationIssue {
        match self {
            ValidationError::DanglingTarget { state, symbol, target } => {
                Fault::Dangling { state: state@, symbol: *symbol, target: target@ }
            },
            ValidationError::MissingTransition { state, symbol } => {
                Fault::Missing { state: state@, symbol: *symbol }
            },
        }
    }
}

/// The faults held by a list of errors.
pub open spec fn issues_of(v: Seq<ValidationError>) -> Seq<ValidationIssue> {
    v.map_values(|e: ValidationError| e@)
}

/// Appending an error appends its fault.
pub proof fn lemma_issues_push(s: Seq<ValidationError>, e: ValidationError)
    ensures
        issues_of(s.push(e)) == issues_of(s).push(e@),
{
    let a = issues_of(s.push(e));
    let b = issues_of(s).push(e@);
    assert forall|k: int| 0 <= k < a.len() implies a[k] == b[k] by {
        if k < s.len() {
            assert(s.push(e)[k] == s[k]);
        } else {
            assert(s.push(e)[k] == e);
        }
    }
    assert(a =~= b);
}

/// Appending one fault to a list that ends in `tail` extends `tail` by it.
pub proof fn lemma_append_one(head: Seq<ValidationIssue>, tail: Seq<ValidationIssue>, x: ValidationIssue)
    ensures
        (head + tail).push(x) == head + (tail + seq![x]),
{
    assert((head + tail).push(x) =~= head + (tail + seq![x]));
}

/// A validation fault over characters.
pub type ValidationIssue = Fault<char>;

/// An automaton as values: its alphabet, its states in the order in which
/// they were added, and the name of its start state.
pub struct AutomatonView<T> {
    pub alphabet: Seq<char>,
    pub states: Seq<StateView<T>>,
    pub start: Seq<char>,
}

/// No name is held by two states.
pub open spec fn names_unique<T>(states: Seq<StateView<T>>) -> bool {
    forall|i: int, j: int| 0 <= i < j < states.len() ==> states[i].name != states[j].name
}

/// Some state is called `name`.
pub open spec fn has_state<T>(states: Seq<StateView<T>>, name: Seq<char>) -> bool {
    exists|i: int| 0 <= i < states.len() && states[i].name == name
}

/// The position of the state called `name` (meaningful when `has_state`).
pub open spec fn state_index<T>(states: Seq<StateView<T>>, name: Seq<char>) -> int {
    choose|i: int| 0 <= i < states.len() && states[i].name == name
}

/// The state called `name`, if there is one.
pub open spec fn find_state<T>(states: Seq<StateView<T>>, name: Seq<char>) -> Option<StateView<T>> {
    if has_state(states, name) {
        Some(states[state_index(states, name)])
    } else {
        None
    }
}

/// `name` is the name of an accepting state.
pub open spec fn accepting_name<T>(states: Seq<StateView<T>>, name: Seq<char>) -> bool {
    match find_state(states, name) {
        Some(st) => st.accepting,
        None => false,
    }
}

/// The well-formedness shared by both kinds of automaton: the alphabet holds
/// each symbol once, every state has a non-empty name of its own, and no state
/// has two edges with one symbol.
pub open spec fn graph_wf<T>(g: AutomatonView<T>) -> bool {
    &&& g.alphabet.no_duplicates()
    &&& names_unique(g.states)
    &&& forall|i: int| 0 <= i < g.states.len() ==> #[trigger] g.states[i].name.len() > 0
    &&& forall|i: int|
        0 <= i < g.states.len() ==> crate::node::keys_unique(#[trigger] g.states[i].edges)
}

/// Every alphabet symbol that has no edge at the state called `name`.
pub open spec fn missing_symbols<T>(
    name: Seq<char>,
    edges: Seq<Edge<T>>,
    symbols: Seq<char>,
) -> Seq<ValidationIssue>
    decreases symbols.len(),
{
    if symbols.len() == 0 {
        Seq::empty()
    } else {
        missing_symbols(name, edges, symbols.drop_last()) + missing_one(
            name,
            has_key(edges, symbols.last()),
            symbols.last(),
        )
    }
}

/// The fault for symbol `c` at the state called `name`, unless it has an edge
/// for it (`present`).
#[verifier::inline]
pub open spec fn missing_one(name: Seq<char>, present: bool, c: char) -> Seq<ValidationIssue> {
    if present {
        Seq::empty()
    } else {
        seq![Fault::Missing { state: name, symbol: c }]
    }
}

/// One more symbol adds at most its own fault.
pub proof fn lemma_missing_symbols_step<T>(
    name: Seq<char>,
    edges: Seq<Edge<T>>,
    symbols: Seq<char>,
    j: int,
)
    requires
        0 <= j < symbols.len(),
    ensures
        missing_symbols(name, edges, symbols.take(j + 1)) == missing_symbols(
            name,
            edges,
            symbols.take(j),
        ) + missing_one(name, has_key(edges, symbols[j]), symbols[j]),
{
    let s1 = symbols.take(j + 1);
    assert(s1.drop_last() =~= symbols.take(j));
    assert(s1.last() == symbols[j]);
}

/// The fault for an edge of the state called `name`, labelled `symbol`, that
/// lists `target`, if `target` is no state.
#[verifier::inline]
pub open spec fn dangling_one<T>(
    states: Seq<StateView<T>>,
    name: Seq<char>,
    symbol: char,
    target: Seq<char>,
) -> Seq<ValidationIssue> {
    if has_state(states, target) {
        Seq::empty()
    } else {
        seq![Fault::Dangling { state: name, symbol, target }]
    }
}

/// The fault names `x`: as the state it is about, or as a missing target.
pub open spec fn mentions(f: ValidationIssue, x: Seq<char>) -> bool {
    match f {
        Fault::Dangling { state, symbol, target } => state == x || target == x,
        Fault::Missing { state, symbol } => state == x,
    }
}

/// How many faults of `s` name `x`.
pub open spec fn count_mentions(s: Seq<ValidationIssue>, x: Seq<char>) -> nat
    decreases s.len(),
{
    if s.len() == 0 {
        0
    } else {
        count_mentions(s.drop_last(), x) + if mentions(s.last(), x) {
            1nat
        } else {
            0nat
        }
    }
}

/// Counting over two lists one after the other adds the counts.
pub proof fn lemma_count_concat(a: Seq<ValidationIssue>, b: Seq<ValidationIssue>, x: Seq<char>)
    ensures
        count_mentions(a + b, x) == count_mentions(a, x) + count_mentions(b, x),
    decreases b.len(),
{
    if b.len() == 0 {
        assert(a + b =~= a);
    } else {
        assert((a + b).drop_last() =~= a + b.drop_last());
        assert((a + b).last() == b.last());
        lemma_count_concat(a, b.drop_last(), x);
    }
}

/// A fault about a state other than `x`, for a missing symbol, does not name `x`.
pub proof fn lemma_missing_symbols_silent<T>(
    name: Seq<char>,
    edges: Seq<Edge<T>>,
    symbols: Seq<char>,
    x: Seq<char>,
)
    requires
        name != x,
    ensures
        count_mentions(missing_symbols(name, edges, symbols), x) == 0,
    decreases symbols.len(),
{
    if symbols.len() > 0 {
        let one = missing_one(name, has_key(edges, symbols.last()), symbols.last());
        lemma_missing_symbols_silent(name, edges, symbols.drop_last(), x);
        lemma_count_concat(missing_symbols(name, edges, symbols.drop_last()), one, x);
        if !has_key(edges, symbols.last()) {
            assert(one.drop_last() =~= Seq::<ValidationIssue>::empty());
            assert(count_mentions(one.drop_last(), x) == 0);
            assert(!mentions(one.last(), x));
        } else {
            assert(one =~= Seq::<ValidationIssue>::empty());
        }
        assert(count_mentions(one, x) == 0);
    }
}

/// The symbols of an input string.
pub(crate) fn chars_of(s: &str) -> (r: Vec<char>)
    ensures
        r@ == s@,
{
    let mut r: Vec<char> = Vec::new();
    for c in it: s.chars()
        invariant
            r@ == it.seq().take(it.index() as int),
    {
        r.push(c);
    }
    r
}

/// An automaton that decides whether it accepts an input string.
pub trait Automat {
    /// The automaton is well formed.
    spec fn inv(&self) -> bool;

    /// The automaton accepts `input`.
    spec fn accepts(&self, input: Seq<char>) -> bool;

    fn process(&self, input: &str) -> (r: bool)
        requires
            self.inv(),
        ensures
            r == self.accepts(input@),
    ;
}

} // verus!
