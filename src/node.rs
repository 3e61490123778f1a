use vstd::prelude::*;

verus! {

/// The reserved symbol of an epsilon move (the Greek letter epsilon). It is
/// never a member of a declared alphabet.
pub const EPSILON: char = '\u{3b5}';

/// A state as values: its name, whether it accepts, and its outgoing edges in
/// the order in which their symbols were first recorded. `T` is what one edge
/// leads to: one state name, or a list of them.
pub struct StateView<T> {
    pub name: Seq<char>,
    pub accepting: bool,
    pub edges: Seq<Edge<T>>,
}

/// An edge: its symbol and where it leads.
#[derive(Clone, Debug, PartialEq, Eq)]
pub struct Edge<T> {
    pub symbol: char,
    pub target: T,
}

/// No symbol labels two edges.
pub open spec fn keys_unique<T>(edges: Seq<Edge<T>>) -> bool {
    forall|i: int, j: int| 0 <= i < j < edges.len() ==> edges[i].symbol != edges[j].symbol
}

/// Some edge is labelled `c`.
pub open spec fn has_key<T>(edges: Seq<Edge<T>>, c: char) -> bool {
    exists|i: int| 0 <= i < edges.len() && edges[i].symbol == c
}

/// The position of an edge labelled `c` (meaningful when `has_key`).
pub open spec fn key_index<T>(edges: Seq<Edge<T>>, c: char) -> int {
    choose|i: int| 0 <= i < edges.len() && edges[i].symbol == c
}

/// Where the edge labelled `c` leads, if there is one.
pub open spec fn lookup<T>(edges: Seq<Edge<T>>, c: char) -> Option<T> {
    if has_key(edges, c) {
        Some(edges[key_index(edges, c)].target)
    } else {
        None
    }
}

/// The edges after the edge labelled `c` is made to lead to `t`: an existing
/// edge keeps its place, a new one goes last.
pub open spec fn set_edge<T>(edges: Seq<Edge<T>>, c: char, t: T) -> Seq<Edge<T>> {
    if has_key(edges, c) {
        edges.update(key_index(edges, c), Edge { symbol: c, target: t })
    } else {
        edges.push(Edge { symbol: c, target: t })
    }
}

/// The names held by a list of strings.
pub open spec fn names_view(v: Seq<String>) -> Seq<Seq<char>> {
    v.map_values(|s: String| s@)
}

/// Finds the edge labelled `c` in a list with unique labels.
fn find_edge<T>(edges: &Vec<Edge<T>>, c: char) -> (r: Option<usize>)
    requires
        keys_unique(edges@),
    ensures
        r is None <==> !has_key(edges@, c),
        r matches Some(i) ==> i < edges@.len() && i == key_index(edges@, c) && edges@[i as int].symbol
            == c,
{
    let mut i: usize = 0;
    while i < edges.len()
        invariant
            i <= edges@.len(),
            keys_unique(edges@),
            forall|k: int| 0 <= k < i ==> edges@[k].symbol != c,
        decreases edges@.len() - i,
    {
        if edges[i].symbol == c {
            assert(has_key(edges@, c));
            proof {
                let j = key_index(edges@, c);
                assert(0 <= j < edges@.len() && edges@[j].symbol == c);
                assert(edges@[i as int].symbol == c);
                if j < i as int {
                    assert(edges@[j].symbol != edges@[i as int].symbol);
                } else if j > i as int {
                    assert(edges@[i as int].symbol != edges@[j].symbol);
                }
            }
            return Some(i);
        }
        i = i + 1;
    }
    None
}

/// Setting an edge keeps the labels unique, makes `c` lead to `t` and leaves
/// every other label as it was.
proof fn lemma_set_edge<T>(edges: Seq<Edge<T>>, c: char, t: T)
    requires
        keys_unique(edges),
    ensures
        keys_unique(set_edge(edges, c, t)),
        lookup(set_edge(edges, c, t), c) == Some(t),
        forall|d: char| d != c ==> lookup(set_edge(edges, c, t), d) == lookup(edges, d),
{
    let e = set_edge(edges, c, t);
    if has_key(edges, c) {
        let i = key_index(edges, c);
        assert(e[i].symbol == c);
        assert(has_key(e, c));
    } else {
        assert(e[edges.len() as int].symbol == c);
        assert(has_key(e, c));
    }
    assert(lookup(e, c) == Some(t));
    assert forall|d: char| d != c implies lookup(e, d) == lookup(edges, d) by {
        if has_key(edges, d) {
            let k = key_index(edges, d);
            assert(e[k].symbol == d);
            assert(has_key(e, d));
        }
        if has_key(e, d) {
            let k = key_index(e, d);
            assert(edges[k].symbol == d);
            assert(has_key(edges, d));
        }
    }
}

/// The name of a state and whether it accepts.
#[derive(Clone)]
pub struct NodeCommon {
    name: String,
    accepting: bool,
}

impl NodeCommon {
    /// The name of the state.
    pub closed spec fn name(&self) -> Seq<char> {
        self.name@
    }

    /// Whether the state accepts.
    pub closed spec fn accepting(&self) -> bool {
        self.accepting
    }

    pub fn new(name: &str, accepting: bool) -> (r: Self)
        ensures
            r.name() == name@,
            r.accepting() == accepting,
    {
        NodeCommon { name: name.to_owned(), accepting }
    }

    pub fn get_name(&self) -> (r: &str)
        ensures
            r@ == self.name(),
    {
        self.name.as_str()
    }

    pub fn is_accepting(&self) -> (r: bool)
        ensures
            r == self.accepting(),
    {
        self.accepting
    }

    fn name_string(&self) -> (r: &String)
        ensures
            r@ == self.name(),
    {
        &self.name
    }
}

/// What every kind of state answers: its name and whether it accepts.
pub trait NodeBase {
    spec fn spec_name(&self) -> Seq<char>;

    spec fn spec_accepting(&self) -> bool;

    fn get_name(&self) -> (r: &str)
        ensures
            r@ == self.spec_name(),
    ;

    fn is_accepting(&self) -> (r: bool)
        ensures
            r == self.spec_accepting(),
    ;
}

/// A state of a deterministic automaton: at most one target per symbol.
#[derive(Clone)]
pub struct DASNode {
    common: NodeCommon,
    connections: Vec<Edge<String>>,
}

impl View for DASNode {
    type V = StateView<Seq<char>>;

    closed spec fn view(&self) -> StateView<Seq<char>> {
        StateView {
            name: self.common.name(),
            accepting: self.common.accepting(),
            edges: self.connections@.map_values(
                |p: Edge<String>| Edge { symbol: p.symbol, target: p.target@ },
            ),
        }
    }
}

impl DASNode {
    /// Its edges carry unique symbols.
    pub open spec fn wf(&self) -> bool {
        keys_unique(self@.edges)
    }

    /// A state with no edges.
    pub fn new(name: &str, accepting: bool) -> (r: Self)
        ensures
            r.wf(),
            r@.name == name@,
            r@.accepting == accepting,
            r@.edges == Seq::<Edge<Seq<char>>>::empty(),
    {
        let r = DASNode { common: NodeCommon::new(name, accepting), connections: Vec::new() };
        assert(r@.edges =~= Seq::<Edge<Seq<char>>>::empty());
        r
    }

    /// Makes the edge labelled `symbol` lead to `state_name`, replacing the
    /// target it had.
    pub fn add_connection(&mut self, symbol: char, state_name: &str)
        requires
            old(self).wf(),
        ensures
            final(self).wf(),
            final(self)@.name == old(self)@.name,
            final(self)@.accepting == old(self)@.accepting,
            final(self)@.edges == set_edge(old(self)@.edges, symbol, state_name@),
            lookup(final(self)@.edges, symbol) == Some(state_name@),
            forall|d: char|
                d != symbol ==> lookup(final(self)@.edges, d) == lookup(old(self)@.edges, d),
    {
        let ghost old_edges = self@.edges;
        proof {
            lemma_set_edge(old_edges, symbol, state_name@);
        }
        assert(keys_unique(self.connections@)) by {
            assert forall|i: int, j: int|
                0 <= i < j < self.connections@.len() implies self.connections@[i].symbol
                != self.connections@[j].symbol by {
                assert(old_edges[i].symbol == self.connections@[i].symbol);
                assert(old_edges[j].symbol == self.connections@[j].symbol);
            }
        }
        let found = find_edge(&self.connections, symbol);
        match found {
            Some(i) => {
                assert(old_edges[i as int].symbol == symbol);
                assert(has_key(old_edges, symbol));
                let ghost k = key_index(old_edges, symbol);
                assert(old_edges[k].symbol == symbol);
                assert(k == i as int);
                self.connections.set(i, Edge { symbol, target: state_name.to_owned() });
            },
            None => {
                assert(!has_key(old_edges, symbol)) by {
                    if has_key(old_edges, symbol) {
                        let k = key_index(old_edges, symbol);
                        assert(self.connections@[k].symbol == symbol);
                    }
                }
                self.connections.push(Edge { symbol, target: state_name.to_owned() });
            },
        }
        assert(self@.edges =~= set_edge(old_edges, symbol, state_name@));
    }

    /// The edges, in the order in which their symbols were first recorded.
    pub fn get_connections(&self) -> (r: &Vec<Edge<String>>)
        ensures
            r@.map_values(|p: Edge<String>| Edge { symbol: p.symbol, target: p.target@ }) == self@.edges,
    {
        &self.connections
    }

    /// The target of the edge labelled `c`, if there is one.
    pub(crate) fn target(&self, c: char) -> (r: Option<&String>)
        requires
            self.wf(),
        ensures
            r is None <==> lookup(self@.edges, c) is None,
            r matches Some(t) ==> lookup(self@.edges, c) == Some(t@),
    {
        let ghost edges = self@.edges;
        assert(keys_unique(self.connections@)) by {
            assert forall|i: int, j: int|
                0 <= i < j < self.connections@.len() implies self.connections@[i].symbol
                != self.connections@[j].symbol by {
                assert(edges[i].symbol == self.connections@[i].symbol);
                assert(edges[j].symbol == self.connections@[j].symbol);
            }
        }
        match find_edge(&self.connections, c) {
            Some(i) => {
                assert(edges[i as int].symbol == c);
                assert(has_key(edges, c));
                let ghost k = key_index(edges, c);
                assert(edges[k].symbol == c);
                assert(k == i as int);
                Some(&self.connections[i].target)
            },
            None => {
                assert(!has_key(edges, c)) by {
                    if has_key(edges, c) {
                        let k = key_index(edges, c);
                        assert(self.connections@[k].symbol == c);
                    }
                }
                None
            },
        }
    }

    pub(crate) fn name_string(&self) -> (r: &String)
        ensures
            r@ == self@.name,
    {
        self.common.name_string()
    }
}

impl NodeBase for DASNode {
    open spec fn spec_name(&self) -> Seq<char> {
        self@.name
    }

    open spec fn spec_accepting(&self) -> bool {
        self@.accepting
    }

    fn get_name(&self) -> (r: &str) {
        self.common.get_name()
    }

    fn is_accepting(&self) -> (r: bool) {
        self.common.is_accepting()
    }
}

/// A state of a nondeterministic automaton: a list of targets per symbol,
/// `EPSILON` included.
#[derive(Clone)]
pub struct ENASNode {
    common: NodeCommon,
    connections: Vec<Edge<Vec<String>>>,
}

impl View for ENASNode {
    type V = StateView<Seq<Seq<char>>>;

    closed spec fn view(&self) -> StateView<Seq<Seq<char>>> {
        StateView {
            name: self.common.name(),
            accepting: self.common.accepting(),
            edges: self.connections@.map_values(
                |p: Edge<Vec<String>>| Edge { symbol: p.symbol, target: names_view(p.target@) },
            ),
        }
    }
}

impl ENASNode {
    /// Its edges carry unique symbols.
    pub open spec fn wf(&self) -> bool {
        keys_unique(self@.edges)
    }

    /// A state with no edges.
    pub fn new(name: &str, accepting: bool) -> (r: Self)
        ensures
            r.wf(),
            r@.name == name@,
            r@.accepting == accepting,
            r@.edges == Seq::<Edge<Seq<Seq<char>>>>::empty(),
    {
        let r = ENASNode { common: NodeCommon::new(name, accepting), connections: Vec::new() };
        assert(r@.edges =~= Seq::<Edge<Seq<Seq<char>>>>::empty());
        r
    }

    /// Makes the edge labelled `symbol` lead to `state_names`, replacing the
    /// targets it had.
    pub fn add_connection(&mut self, symbol: char, state_names: Vec<String>)
        requires
            old(self).wf(),
        ensures
            final(self).wf(),
            final(self)@.name == old(self)@.name,
            final(self)@.accepting == old(self)@.accepting,
            final(self)@.edges == set_edge(old(self)@.edges, symbol, names_view(state_names@)),
            lookup(final(self)@.edges, symbol) == Some(names_view(state_names@)),
            forall|d: char|
                d != symbol ==> lookup(final(self)@.edges, d) == lookup(old(self)@.edges, d),
    {
        let ghost old_edges = self@.edges;
        let ghost t = names_view(state_names@);
        proof {
            lemma_set_edge(old_edges, symbol, t);
        }
        assert(keys_unique(self.connections@)) by {
            assert forall|i: int, j: int|
                0 <= i < j < self.connections@.len() implies self.connections@[i].symbol
                != self.connections@[j].symbol by {
                assert(old_edges[i].symbol == self.connections@[i].symbol);
                assert(old_edges[j].symbol == self.connections@[j].symbol);
            }
        }
        let found = find_edge(&self.connections, symbol);
        match found {
            Some(i) => {
                assert(old_edges[i as int].symbol == symbol);
                assert(has_key(old_edges, symbol));
                let ghost k = key_index(old_edges, symbol);
                assert(old_edges[k].symbol == symbol);
                assert(k == i as int);
                self.connections.set(i, Edge { symbol, target: state_names });
            },
            None => {
                assert(!has_key(old_edges, symbol)) by {
                    if has_key(old_edges, symbol) {
                        let k = key_index(old_edges, symbol);
                        assert(self.connections@[k].symbol == symbol);
                    }
                }
                self.connections.push(Edge { symbol, target: state_names });
            },
        }
        assert(self@.edges =~= set_edge(old_edges, symbol, t));
    }

    /// The edges, in the order in which their symbols were first recorded.
    pub fn get_connections(&self) -> (r: &Vec<Edge<Vec<String>>>)
        ensures
            r@.map_values(
                |p: Edge<Vec<String>>| Edge { symbol: p.symbol, target: names_view(p.target@) },
            ) == self@.edges,
    {
        &self.connections
    }

    /// The targets of the edge labelled `c`, if there is one.
    pub(crate) fn target(&self, c: char) -> (r: Option<&Vec<String>>)
        requires
            self.wf(),
        ensures
            r is None <==> lookup(self@.edges, c) is None,
            r matches Some(t) ==> lookup(self@.edges, c) == Some(names_view(t@)),
    {
        let ghost edges = self@.edges;
        assert(keys_unique(self.connections@)) by {
            assert forall|i: int, j: int|
                0 <= i < j < self.connections@.len() implies self.connections@[i].symbol
                != self.connections@[j].symbol by {
                assert(edges[i].symbol == self.connections@[i].symbol);
                assert(edges[j].symbol == self.connections@[j].symbol);
            }
        }
        match find_edge(&self.connections, c) {
            Some(i) => {
                assert(edges[i as int].symbol == c);
                assert(has_key(edges, c));
                let ghost k = key_index(edges, c);
                assert(edges[k].symbol == c);
                assert(k == i as int);
                Some(&self.connections[i].target)
            },
            None => {
                assert(!has_key(edges, c)) by {
                    if has_key(edges, c) {
                        let k = key_index(edges, c);
                        assert(self.connections@[k].symbol == c);
                    }
                }
                None
            },
        }
    }

    pub(crate) fn name_string(&self) -> (r: &String)
        ensures
            r@ == self@.name,
    {
        self.common.name_string()
    }
}

impl NodeBase for ENASNode {
    open spec fn spec_name(&self) -> Seq<char> {
        self@.name
    }

    open spec fn spec_accepting(&self) -> bool {
        self@.accepting
    }

    fn get_name(&self) -> (r: &str) {
        self.common.get_name()
    }

    fn is_accepting(&self) -> (r: bool) {
        self.common.is_accepting()
    }
}

} // verus!
