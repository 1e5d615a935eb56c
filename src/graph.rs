use vstd::prelude::*;
use crate::order::{canon, lex_le, lemma_canon, name_le};
use crate::seq_facts::{
    lemma_filter_all, lemma_filter_contains_iff, lemma_filter_no_dup, lemma_filter_step,
    lemma_push_keeps,
};

verus! {

/// The name of a node, as a sequence of characters.
pub type Name = Seq<char>;

/// An edge as a pair of names.
pub type Pair = (Seq<char>, Seq<char>);

/// A graph vertex, identified by its name.
#[derive(Debug, Hash, PartialOrd, Ord)]
pub struct Node {
    name: String,
}

impl View for Node {
    type V = Seq<char>;

    closed spec fn view(&self) -> Seq<char> {
        self.name@
    }
}

impl Node {
    pub fn new(name: String) -> (r: Node)
        ensures
            r@ == name@,
    {
        Node { name }
    }

    pub fn name(&self) -> (r: &str)
        ensures
            r@ == self@,
    {
        self.name.as_str()
    }
}

impl Clone for Node {
    fn clone(&self) -> (r: Self)
        ensures
            r@ == self@,
    {
        Node { name: self.name.clone() }
    }
}

impl PartialEq for Node {
    fn eq(&self, other: &Node) -> (r: bool) {
        self.name == other.name
    }
}

impl vstd::std_specs::cmp::PartialEqSpecImpl for Node {
    open spec fn obeys_eq_spec() -> bool {
        true
    }

    open spec fn eq_spec(&self, other: &Node) -> bool {
        self@ == other@
    }
}

impl Eq for Node {
}

/// An undirected edge, stored with its endpoints in canonical order.
#[derive(Debug, Hash, PartialOrd, Ord)]
pub struct UEdge {
    smaller_node: Node,
    greater_node: Node,
}

impl View for UEdge {
    type V = (Seq<char>, Seq<char>);

    closed spec fn view(&self) -> (Seq<char>, Seq<char>) {
        (self.smaller_node@, self.greater_node@)
    }
}

impl UEdge {
    #[verifier::type_invariant]
    spec fn canonical(&self) -> bool {
        lex_le(self.smaller_node@, self.greater_node@)
    }

    /// The edge between two nodes; the order of the arguments does not matter.
    pub fn new(one_node: Node, other_node: Node) -> (r: UEdge)
        ensures
            r@ == canon(one_node@, other_node@),
    {
        proof {
            lemma_canon(one_node@, other_node@);
        }
        if name_le(one_node.name(), other_node.name()) {
            UEdge { smaller_node: one_node, greater_node: other_node }
        } else {
            UEdge { smaller_node: other_node, greater_node: one_node }
        }
    }

    pub fn smaller_node(&self) -> (r: &Node)
        ensures
            r@ == self@.0,
    {
        &self.smaller_node
    }

    pub fn greater_node(&self) -> (r: &Node)
        ensures
            r@ == self@.1,
    {
        &self.greater_node
    }
}

impl Clone for UEdge {
    fn clone(&self) -> (r: Self)
        ensures
            r@ == self@,
    {
        proof {
            use_type_invariant(self);
        }
        UEdge { smaller_node: self.smaller_node.clone(), greater_node: self.greater_node.clone() }
    }
}

impl PartialEq for UEdge {
    fn eq(&self, other: &UEdge) -> (r: bool) {
        self.smaller_node == other.smaller_node && self.greater_node == other.greater_node
    }
}

impl vstd::std_specs::cmp::PartialEqSpecImpl for UEdge {
    open spec fn obeys_eq_spec() -> bool {
        true
    }

    open spec fn eq_spec(&self, other: &UEdge) -> bool {
        self@ == other@
    }
}

impl Eq for UEdge {
}

} // verus!

verus! {

broadcast use vstd::seq_lib::group_filter_ensures;

/// The abstract state of a graph: its node names and its edges, in the order
/// in which they are stored.
pub struct GraphView {
    pub nodes: Seq<Name>,
    pub edges: Seq<Pair>,
}

/// The test that an edge differs from `e`.
pub open spec fn other_than(e: Pair) -> spec_fn(Pair) -> bool {
    |x: Pair| x != e
}

/// The test that a name differs from `n`.
pub open spec fn not_named(n: Name) -> spec_fn(Name) -> bool {
    |x: Name| x != n
}

/// The test that an edge does not touch `n`.
pub open spec fn avoids(n: Name) -> spec_fn(Pair) -> bool {
    |e: Pair| !touches(e, n)
}

/// No edge of `g` is a self-loop.
pub open spec fn loop_free(g: GraphView) -> bool {
    forall|i: int| 0 <= i < g.edges.len() ==> (#[trigger] g.edges[i]).0 != g.edges[i].1
}

/// `e` has `n` as an endpoint.
pub open spec fn touches(e: Pair, n: Name) -> bool {
    e.0 == n || e.1 == n
}

impl GraphView {
    /// Some edge joins `n` and `x`, in either order.
    pub open spec fn adjacent(self, n: Name, x: Name) -> bool {
        self.edges.contains((n, x)) || self.edges.contains((x, n))
    }

    /// The invariant of a graph: no duplicate node or edge, every edge in
    /// canonical order, and every endpoint a node of the graph.
    pub open spec fn wf(self) -> bool {
        &&& self.nodes.no_duplicates()
        &&& self.edges.no_duplicates()
        &&& forall|i: int|
            0 <= i < self.edges.len() ==> {
                &&& lex_le((#[trigger] self.edges[i]).0, self.edges[i].1)
                &&& self.nodes.contains(self.edges[i].0)
                &&& self.nodes.contains(self.edges[i].1)
            }
    }

    /// The nodes joined to `n` by an edge.
    pub open spec fn neighbors(self, n: Name) -> Set<Name> {
        self.nodes.to_set().filter(|x: Name| self.adjacent(n, x))
    }

    /// The graph without node `n` and without the edges that touch it.
    pub open spec fn without_node(self, n: Name) -> GraphView {
        GraphView {
            nodes: self.nodes.filter(not_named(n)),
            edges: self.edges.filter(avoids(n)),
        }
    }

    /// The graph after adding node `n`, which changes nothing if `n` is present.
    pub open spec fn with_node(self, n: Name) -> GraphView {
        if self.nodes.contains(n) {
            self
        } else {
            GraphView { nodes: self.nodes.push(n), edges: self.edges }
        }
    }

    /// Adding edge `e` is accepted when both endpoints are nodes and `e` is new.
    pub open spec fn accepts_edge(self, e: Pair) -> bool {
        self.nodes.contains(e.0) && self.nodes.contains(e.1) && !self.edges.contains(e)
    }

    /// The graph after adding edge `e`, which changes nothing unless it is accepted.
    pub open spec fn with_edge(self, e: Pair) -> GraphView {
        if self.accepts_edge(e) {
            GraphView { nodes: self.nodes, edges: self.edges.push(e) }
        } else {
            self
        }
    }

    /// The graph without edge `e`.
    pub open spec fn without_edge(self, e: Pair) -> GraphView {
        GraphView { nodes: self.nodes, edges: self.edges.filter(other_than(e)) }
    }
}

/// Where node `x` ends up when node `v` is merged into node `u`.
pub open spec fn merged(x: Name, u: Name, v: Name) -> Name {
    if x == v {
        u
    } else {
        x
    }
}

/// The edges left when node `v` is merged into node `u`: each edge is
/// redirected, in canonical order, and self-loops and repeats are dropped.
pub open spec fn merge_edges(es: Seq<Pair>, u: Name, v: Name) -> Seq<Pair>
    decreases es.len(),
{
    if es.len() == 0 {
        Seq::empty()
    } else {
        let prev = merge_edges(es.drop_last(), u, v);
        let e = es.last();
        let m = canon(merged(e.0, u, v), merged(e.1, u, v));
        if m.0 == m.1 || prev.contains(m) {
            prev
        } else {
            prev.push(m)
        }
    }
}

impl GraphView {
    /// The graph with edge `e` contracted: its greater endpoint is merged into
    /// its smaller one. An edge that is absent, or a self-loop, changes nothing.
    pub open spec fn contracted(self, e: Pair) -> GraphView {
        if self.edges.contains(e) && e.0 != e.1 {
            GraphView {
                nodes: self.nodes.filter(not_named(e.1)),
                edges: merge_edges(self.edges, e.0, e.1),
            }
        } else {
            self
        }
    }
}

/// Every merged edge comes from an edge of the source, is in canonical
/// order, and is not a self-loop; merging never adds edges and never repeats one.
pub proof fn lemma_merge_edges(es: Seq<Pair>, u: Name, v: Name)
    ensures
        merge_edges(es, u, v).len() <= es.len(),
        merge_edges(es, u, v).no_duplicates(),
        forall|m: Pair|
            #[trigger] merge_edges(es, u, v).contains(m) ==> m.0 != m.1 && lex_le(m.0, m.1)
                && exists|k: int|
                0 <= k < es.len() && m == canon(
                    merged((#[trigger] es[k]).0, u, v),
                    merged(es[k].1, u, v),
                ),
    decreases es.len(),
{
    if es.len() > 0 {
        let t = es.drop_last();
        lemma_merge_edges(t, u, v);
        let prev = merge_edges(t, u, v);
        let e = es.last();
        let m = canon(merged(e.0, u, v), merged(e.1, u, v));
        lemma_canon(merged(e.0, u, v), merged(e.1, u, v));
        lemma_push_keeps(prev, m);
        assert forall|x: Pair| #[trigger] merge_edges(es, u, v).contains(x) implies x.0 != x.1
            && lex_le(x.0, x.1) && exists|k: int|
            0 <= k < es.len() && x == canon(
                merged((#[trigger] es[k]).0, u, v),
                merged(es[k].1, u, v),
            ) by {
            if prev.contains(x) {
                let k = choose|k: int|
                    0 <= k < t.len() && x == canon(
                        merged((#[trigger] t[k]).0, u, v),
                        merged(t[k].1, u, v),
                    );
                assert(es[k] == t[k]);
            } else {
                let r = merge_edges(es, u, v);
                assert(r == prev.push(m));
                let j = choose|j: int| 0 <= j < r.len() && r[j] == x;
                assert(j == prev.len());
                assert(es[es.len() - 1] == e);
            }
        }
    }
}

/// The pairs of a sequence of edges.
pub open spec fn pairs(v: Seq<UEdge>) -> Seq<Pair> {
    v.map_values(|e: UEdge| e@)
}

/// Whether `v` holds an edge equal to `e`.
fn contains_edge(v: &Vec<UEdge>, e: &UEdge) -> (r: bool)
    ensures
        r == pairs(v@).contains(e@),
{
    let mut i: usize = 0;
    while i < v.len()
        invariant
            i <= v@.len(),
            forall|k: int| 0 <= k < i ==> pairs(v@)[k] != e@,
        decreases v@.len() - i,
    {
        if v[i] == *e {
            assert(pairs(v@)[i as int] == e@);
            return true;
        }
        i = i + 1;
    }
    false
}

impl GraphView {
    /// Removing an absent edge changes nothing.
    pub proof fn lemma_without_absent_edge(self, e: Pair)
        requires
            !self.edges.contains(e),
        ensures
            self.without_edge(e) == self,
    {
        assert forall|x: Pair| self.edges.contains(x) implies other_than(e)(x) by {}
        lemma_filter_all(self.edges, other_than(e));
    }
}

impl GraphView {
    /// In a well-formed graph, removing an absent node changes nothing.
    pub proof fn lemma_without_absent_node(self, n: Name)
        requires
            self.wf(),
            !self.nodes.contains(n),
        ensures
            self.without_node(n) == self,
    {
        assert forall|x: Name| self.nodes.contains(x) implies not_named(n)(x) by {}
        lemma_filter_all(self.nodes, not_named(n));
        assert forall|x: Pair| self.edges.contains(x) implies avoids(n)(x) by {
            let k = choose|k: int| 0 <= k < self.edges.len() && self.edges[k] == x;
            assert(self.nodes.contains(self.edges[k].0) && self.nodes.contains(self.edges[k].1));
        }
        lemma_filter_all(self.edges, avoids(n));
    }
}

/// The names of a sequence of nodes.
pub open spec fn names(v: Seq<Node>) -> Seq<Name> {
    v.map_values(|n: Node| n@)
}

/// A simple undirected graph over named nodes.
#[derive(Debug)]
pub struct UGraph {
    nodes: Vec<Node>,
    edges: Vec<UEdge>,
}

impl View for UGraph {
    type V = GraphView;

    closed spec fn view(&self) -> GraphView {
        GraphView {
            nodes: self.nodes@.map_values(|n: Node| n@),
            edges: self.edges@.map_values(|e: UEdge| e@),
        }
    }
}

impl Clone for UGraph {
    fn clone(&self) -> (r: Self)
        ensures
            r@ == self@,
    {
        let mut nodes: Vec<Node> = Vec::new();
        let mut i: usize = 0;
        while i < self.nodes.len()
            invariant
                i <= self.nodes@.len(),
                nodes@.len() == i,
                forall|k: int| 0 <= k < i ==> #[trigger] nodes@[k]@ == self.nodes@[k]@,
            decreases self.nodes@.len() - i,
        {
            let c = self.nodes[i].clone();
            nodes.push(c);
            i = i + 1;
        }
        let mut edges: Vec<UEdge> = Vec::new();
        let mut j: usize = 0;
        while j < self.edges.len()
            invariant
                j <= self.edges@.len(),
                edges@.len() == j,
                forall|k: int| 0 <= k < j ==> #[trigger] edges@[k]@ == self.edges@[k]@,
            decreases self.edges@.len() - j,
        {
            let c = self.edges[j].clone();
            edges.push(c);
            j = j + 1;
        }
        let r = UGraph { nodes, edges };
        assert(r@.nodes =~= self@.nodes);
        assert(r@.edges =~= self@.edges);
        r
    }
}

impl UGraph {
    /// The graph with no nodes and no edges.
    pub fn new() -> (r: UGraph)
        ensures
            r@.nodes == Seq::<Name>::empty(),
            r@.edges == Seq::<Pair>::empty(),
            r@.wf(),
    {
        let r = UGraph { nodes: Vec::new(), edges: Vec::new() };
        assert(r@.nodes =~= Seq::<Name>::empty());
        assert(r@.edges =~= Seq::<Pair>::empty());
        r
    }

    pub fn nodes(&self) -> (r: &Vec<Node>)
        ensures
            r@.map_values(|n: Node| n@) == self@.nodes,
    {
        &self.nodes
    }

    pub fn edges(&self) -> (r: &Vec<UEdge>)
        ensures
            r@.map_values(|e: UEdge| e@) == self@.edges,
    {
        &self.edges
    }

    /// Whether a node of this name is present.
    pub fn has_node(&self, node: &Node) -> (r: bool)
        ensures
            r == self@.nodes.contains(node@),
    {
        let mut i: usize = 0;
        while i < self.nodes.len()
            invariant
                i <= self.nodes@.len(),
                forall|k: int| 0 <= k < i ==> self@.nodes[k] != node@,
            decreases self.nodes@.len() - i,
        {
            if self.nodes[i] == *node {
                assert(self@.nodes[i as int] == node@);
                return true;
            }
            i = i + 1;
        }
        false
    }

    /// Whether this edge is present.
    pub fn has_edge(&self, edge: &UEdge) -> (r: bool)
        ensures
            r == self@.edges.contains(edge@),
    {
        let mut i: usize = 0;
        while i < self.edges.len()
            invariant
                i <= self.edges@.len(),
                forall|k: int| 0 <= k < i ==> self@.edges[k] != edge@,
            decreases self.edges@.len() - i,
        {
            if self.edges[i] == *edge {
                assert(self@.edges[i as int] == edge@);
                return true;
            }
            i = i + 1;
        }
        false
    }

    /// Adds a node; returns whether it was new. A node already present
    /// leaves the graph unchanged.
    pub fn add_node(&mut self, node: Node) -> (r: bool)
        requires
            old(self)@.wf(),
        ensures
            final(self)@.wf(),
            r == !old(self)@.nodes.contains(node@),
            final(self)@ == old(self)@.with_node(node@),
    {
        broadcast use vstd::seq_lib::group_seq_properties;

        if self.has_node(&node) {
            assert(self@ == old(self)@.with_node(node@));
            return false;
        }
        let ghost n = node@;
        self.nodes.push(node);
        assert(self@.nodes =~= old(self)@.nodes.push(n));
        assert(self@.edges =~= old(self)@.edges);
        assert forall|i: int| 0 <= i < self@.edges.len() implies self@.nodes.contains(
            #[trigger] self@.edges[i].0,
        ) && self@.nodes.contains(self@.edges[i].1) by {
            assert(old(self)@.nodes.contains(self@.edges[i].0));
            assert(old(self)@.nodes.contains(self@.edges[i].1));
        }
        true
    }

    /// Adds an edge whose endpoints are both nodes of the graph; returns
    /// whether it was added. An edge with a missing endpoint, or one already
    /// present, leaves the graph unchanged.
    pub fn add_edge(&mut self, edge: UEdge) -> (r: bool)
        requires
            old(self)@.wf(),
        ensures
            final(self)@.wf(),
            r == old(self)@.accepts_edge(edge@),
            final(self)@ == old(self)@.with_edge(edge@),
    {
        proof {
            use_type_invariant(&edge);
        }
        if !self.has_node(edge.greater_node()) {
            return false;
        }
        if !self.has_node(edge.smaller_node()) {
            return false;
        }
        if self.has_edge(&edge) {
            return false;
        }
        let ghost e = edge@;
        self.edges.push(edge);
        assert(self@.edges =~= old(self)@.edges.push(e));
        assert(self@.nodes =~= old(self)@.nodes);
        assert forall|i: int| 0 <= i < self@.edges.len() implies {
            &&& lex_le((#[trigger] self@.edges[i]).0, self@.edges[i].1)
            &&& self@.nodes.contains(self@.edges[i].0)
            &&& self@.nodes.contains(self@.edges[i].1)
        } by {
            if i < old(self)@.edges.len() {
                assert(self@.edges[i] == old(self)@.edges[i]);
            }
        }
        true
    }

    /// Removes an edge; returns whether it was present.
    pub fn remove_edge(&mut self, edge: &UEdge) -> (r: bool)
        requires
            old(self)@.wf(),
        ensures
            final(self)@.wf(),
            r == old(self)@.edges.contains(edge@),
            final(self)@ == old(self)@.without_edge(edge@),
    {
        let found = self.has_edge(edge);
        let ghost es = self@.edges;
        let ghost p = other_than(edge@);
        let mut kept: Vec<UEdge> = Vec::new();
        let mut i: usize = 0;
        while i < self.edges.len()
            invariant
                i <= self.edges@.len(),
                es == self@.edges,
                p == other_than(edge@),
                kept@.map_values(|e: UEdge| e@) == es.take(i as int).filter(p),
            decreases self.edges@.len() - i,
        {
            proof {
                lemma_filter_step(es, p, i as int);
            }
            if !(self.edges[i] == *edge) {
                let c = self.edges[i].clone();
                let ghost before = kept@.map_values(|e: UEdge| e@);
                kept.push(c);
                assert(kept@.map_values(|e: UEdge| e@) =~= before.push(c@));
            }
            i = i + 1;
        }
        assert(es.take(i as int) =~= es);
        self.edges = kept;
        proof {
            lemma_filter_no_dup(es, p);
            assert forall|x: Pair| self@.edges.contains(x) implies es.contains(x) by {
                lemma_filter_contains_iff(es, p, x);
            }
            assert forall|k: int| 0 <= k < self@.edges.len() implies es.contains(
                #[trigger] self@.edges[k],
            ) by {
                assert(self@.edges.contains(self@.edges[k]));
            }
        }
        found
    }

    /// Removes a node together with every edge that touches it; returns
    /// whether the node was present.
    pub fn remove_node(&mut self, node: &Node) -> (r: bool)
        requires
            old(self)@.wf(),
        ensures
            final(self)@.wf(),
            r == old(self)@.nodes.contains(node@),
            final(self)@ == old(self)@.without_node(node@),
    {
        let found = self.has_node(node);
        let ghost es = self@.edges;
        let ghost ns = self@.nodes;
        let ghost pe = avoids(node@);
        let ghost pn = not_named(node@);
        let mut kept: Vec<UEdge> = Vec::new();
        let mut i: usize = 0;
        while i < self.edges.len()
            invariant
                i <= self.edges@.len(),
                es == self@.edges,
                pe == avoids(node@),
                kept@.map_values(|e: UEdge| e@) == es.take(i as int).filter(pe),
            decreases self.edges@.len() - i,
        {
            proof {
                lemma_filter_step(es, pe, i as int);
            }
            if !(self.edges[i].smaller_node == *node) && !(self.edges[i].greater_node == *node) {
                let c = self.edges[i].clone();
                let ghost before = kept@.map_values(|e: UEdge| e@);
                kept.push(c);
                assert(kept@.map_values(|e: UEdge| e@) =~= before.push(c@));
            }
            i = i + 1;
        }
        assert(es.take(i as int) =~= es);
        let mut rest: Vec<Node> = Vec::new();
        let mut j: usize = 0;
        while j < self.nodes.len()
            invariant
                j <= self.nodes@.len(),
                ns == self@.nodes,
                pn == not_named(node@),
                rest@.map_values(|n: Node| n@) == ns.take(j as int).filter(pn),
            decreases self.nodes@.len() - j,
        {
            proof {
                lemma_filter_step(ns, pn, j as int);
            }
            if !(self.nodes[j] == *node) {
                let c = self.nodes[j].clone();
                let ghost before = rest@.map_values(|n: Node| n@);
                rest.push(c);
                assert(rest@.map_values(|n: Node| n@) =~= before.push(c@));
            }
            j = j + 1;
        }
        assert(ns.take(j as int) =~= ns);
        self.edges = kept;
        self.nodes = rest;
        proof {
            lemma_filter_no_dup(es, pe);
            lemma_filter_no_dup(ns, pn);
            assert forall|k: int| 0 <= k < self@.edges.len() implies {
                &&& lex_le((#[trigger] self@.edges[k]).0, self@.edges[k].1)
                &&& self@.nodes.contains(self@.edges[k].0)
                &&& self@.nodes.contains(self@.edges[k].1)
            } by {
                let e = self@.edges[k];
                assert(self@.edges.contains(e));
                lemma_filter_contains_iff(es, pe, e);
                let m = choose|m: int| 0 <= m < es.len() && es[m] == e;
                lemma_filter_contains_iff(ns, pn, e.0);
                lemma_filter_contains_iff(ns, pn, e.1);
            }
        }
        found
    }

    /// The nodes joined to `node` by an edge, each once.
    pub fn neighbors_of(&self, node: &Node) -> (r: Vec<Node>)
        ensures
            r@.map_values(|n: Node| n@).no_duplicates(),
            forall|x: Name|
                r@.map_values(|n: Node| n@).contains(x) <==> self@.adjacent(node@, x),
    {
        broadcast use vstd::seq_lib::group_seq_properties;

        let ghost es = self@.edges;
        let ghost n = node@;
        let mut out: Vec<Node> = Vec::new();
        let mut i: usize = 0;
        while i < self.edges.len()
            invariant
                i <= self.edges@.len(),
                es == self@.edges,
                n == node@,
                names(out@).no_duplicates(),
                forall|j: int|
                    0 <= j < out@.len() ==> self@.adjacent(n, #[trigger] names(out@)[j]),
                forall|k: int|
                    0 <= k < i ==> ((#[trigger] es[k]).0 == n ==> names(out@).contains(es[k].1)) && (es[k].1 == n ==> names(out@).contains(es[k].0)),
            decreases self.edges@.len() - i,
        {
            assert(es.contains(es[i as int]));
            assert(es[i as int] == self.edges@[i as int]@);
            let ghost start = names(out@);
            if self.edges[i].smaller_node == *node {
                let other = &self.edges[i].greater_node;
                if !contains_node(&out, other) {
                    let ghost before = names(out@);
                    out.push(other.clone());
                    assert(names(out@) =~= before.push(other@));
                    proof {
                        lemma_push_keeps(before, other@);
                    }
                }
            }
            if self.edges[i].greater_node == *node {
                let other = &self.edges[i].smaller_node;
                if !contains_node(&out, other) {
                    let ghost before = names(out@);
                    out.push(other.clone());
                    assert(names(out@) =~= before.push(other@));
                    proof {
                        lemma_push_keeps(before, other@);
                    }
                }
            }
            assert(forall|x: Name| start.contains(x) ==> names(out@).contains(x));
            i = i + 1;
        }
        proof {
            assert forall|x: Name| self@.adjacent(n, x) implies names(out@).contains(x) by {
                if es.contains((n, x)) {
                    let k = choose|k: int| 0 <= k < es.len() && es[k] == (n, x);
                    assert(es[k].0 == n);
                } else {
                    let k = choose|k: int| 0 <= k < es.len() && es[k] == (x, n);
                    assert(es[k].1 == n);
                }
            }
        }
        out
    }
}

/// Whether `v` holds a node of the same name as `n`.
pub(crate) fn contains_node(v: &Vec<Node>, n: &Node) -> (r: bool)
    ensures
        r == names(v@).contains(n@),
{
    let mut i: usize = 0;
    while i < v.len()
        invariant
            i <= v@.len(),
            forall|k: int| 0 <= k < i ==> v@[k]@ != n@,
        decreases v@.len() - i,
    {
        if v[i] == *n {
            assert(names(v@)[i as int] == n@);
            return true;
        }
        i = i + 1;
    }
    false
}

impl UGraph {
    /// The graph with `edge` contracted: the greater endpoint is merged into
    /// the smaller one, edges are redirected, and self-loops and repeated
    /// edges that result are dropped.
    pub fn contract(&self, edge: &UEdge) -> (r: UGraph)
        requires
            self@.wf(),
            self@.edges.contains(edge@),
            edge@.0 != edge@.1,
        ensures
            r@ == self@.contracted(edge@),
            r@.wf(),
    {
        let u = edge.smaller_node();
        let v = edge.greater_node();
        let ghost es = self@.edges;
        let ghost ns = self@.nodes;
        let mut out: Vec<UEdge> = Vec::new();
        let mut i: usize = 0;
        while i < self.edges.len()
            invariant
                i <= self.edges@.len(),
                es == self@.edges,
                pairs(out@) == merge_edges(es.take(i as int), u@, v@),
            decreases self.edges@.len() - i,
        {
            let e = &self.edges[i];
            assert(e@ == es[i as int]);
            let a = if e.smaller_node == *v {
                u.clone()
            } else {
                e.smaller_node.clone()
            };
            let b = if e.greater_node == *v {
                u.clone()
            } else {
                e.greater_node.clone()
            };
            let m = UEdge::new(a, b);
            proof {
                assert(es.take(i + 1).drop_last() =~= es.take(i as int));
                assert(es.take(i + 1).last() == es[i as int]);
            }
            if !(m.smaller_node == m.greater_node) && !contains_edge(&out, &m) {
                let ghost before = pairs(out@);
                out.push(m);
                assert(pairs(out@) =~= before.push(m@));
            }
            i = i + 1;
        }
        assert(es.take(i as int) =~= es);
        let ghost pn = not_named(v@);
        let mut rest: Vec<Node> = Vec::new();
        let mut j: usize = 0;
        while j < self.nodes.len()
            invariant
                j <= self.nodes@.len(),
                ns == self@.nodes,
                pn == not_named(v@),
                names(rest@) == ns.take(j as int).filter(pn),
            decreases self.nodes@.len() - j,
        {
            proof {
                lemma_filter_step(ns, pn, j as int);
            }
            if !(self.nodes[j] == *v) {
                let c = self.nodes[j].clone();
                let ghost before = names(rest@);
                rest.push(c);
                assert(names(rest@) =~= before.push(c@));
            }
            j = j + 1;
        }
        assert(ns.take(j as int) =~= ns);
        let r = UGraph { nodes: rest, edges: out };
        proof {
            lemma_merge_edges(es, u@, v@);
            lemma_filter_no_dup(ns, pn);
            let k0 = choose|k: int| 0 <= k < es.len() && es[k] == edge@;
            assert(ns.contains(u@));
            assert forall|k: int| 0 <= k < r@.edges.len() implies {
                &&& lex_le((#[trigger] r@.edges[k]).0, r@.edges[k].1)
                &&& r@.nodes.contains(r@.edges[k].0)
                &&& r@.nodes.contains(r@.edges[k].1)
            } by {
                let m = r@.edges[k];
                assert(r@.edges.contains(m));
                let q = choose|q: int|
                    0 <= q < es.len() && m == canon(
                        merged((#[trigger] es[q]).0, u@, v@),
                        merged(es[q].1, u@, v@),
                    );
                lemma_canon(merged(es[q].0, u@, v@), merged(es[q].1, u@, v@));
                assert(ns.contains(es[q].0) && ns.contains(es[q].1));
                lemma_filter_contains_iff(ns, pn, m.0);
                lemma_filter_contains_iff(ns, pn, m.1);
            }
        }
        r
    }
}

} // verus!
