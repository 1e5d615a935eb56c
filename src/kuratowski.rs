use vstd::prelude::*;
use crate::graph::{contains_node, loop_free, names, GraphView, Name, UGraph};

verus! {

/// The shape of K5: five nodes, ten edges, and four neighbours at every node.
pub open spec fn k5_shape(g: GraphView) -> bool {
    &&& g.nodes.len() == 5
    &&& g.edges.len() == 10
    &&& forall|i: int| 0 <= i < g.nodes.len() ==> (#[trigger] g.neighbors(g.nodes[i])).len() == 4
}

/// The shape of K3,3: six nodes, nine edges, three neighbours at the first
/// node, and every edge running between those neighbours and the other nodes.
pub open spec fn k33_shape(g: GraphView) -> bool {
    &&& g.nodes.len() == 6
    &&& g.edges.len() == 9
    &&& g.neighbors(g.nodes[0]).len() == 3
    &&& forall|i: int|
        0 <= i < g.edges.len() ==> g.neighbors(g.nodes[0]).contains((#[trigger] g.edges[i]).0)
            != g.neighbors(g.nodes[0]).contains(g.edges[i].1)
}

/// The list of neighbours computed for `n` holds exactly the neighbour set.
proof fn lemma_neighbor_list(g: GraphView, n: Name, r: Seq<Name>)
    requires
        g.wf(),
        r.no_duplicates(),
        forall|x: Name| r.contains(x) <==> g.adjacent(n, x),
    ensures
        r.to_set() == g.neighbors(n),
        r.len() == g.neighbors(n).len(),
{
    assert forall|x: Name| r.to_set().contains(x) <==> g.neighbors(n).contains(x) by {
        if g.adjacent(n, x) {
            if g.edges.contains((n, x)) {
                let k = choose|k: int| 0 <= k < g.edges.len() && g.edges[k] == (n, x);
                assert(g.nodes.contains(g.edges[k].1));
            } else {
                let k = choose|k: int| 0 <= k < g.edges.len() && g.edges[k] == (x, n);
                assert(g.nodes.contains(g.edges[k].0));
            }
        }
    }
    assert(r.to_set() =~= g.neighbors(n));
    r.unique_seq_to_set();
}

/// Whether the graph has the shape of K5.
pub fn is_k5(graph: &UGraph) -> (r: bool)
    requires
        graph@.wf(),
    ensures
        r == k5_shape(graph@),
{
    let nodes = graph.nodes();
    if nodes.len() != 5 {
        return false;
    }
    if graph.edges().len() != 10 {
        return false;
    }
    let mut i: usize = 0;
    while i < nodes.len()
        invariant
            names(nodes@) == graph@.nodes,
            graph@.wf(),
            i <= nodes@.len(),
            forall|k: int| 0 <= k < i ==> (#[trigger] graph@.neighbors(graph@.nodes[k])).len() == 4,
        decreases nodes@.len() - i,
    {
        let neighbors = graph.neighbors_of(&nodes[i]);
        proof {
            assert(graph@.nodes[i as int] == nodes@[i as int]@);
            lemma_neighbor_list(graph@, nodes@[i as int]@, names(neighbors@));
        }
        if neighbors.len() != 4 {
            return false;
        }
        i = i + 1;
    }
    true
}

/// Whether the graph has the shape of K3,3.
pub fn is_k33(graph: &UGraph) -> (r: bool)
    requires
        graph@.wf(),
    ensures
        r == k33_shape(graph@),
{
    let nodes = graph.nodes();
    if nodes.len() != 6 {
        return false;
    }
    let edges = graph.edges();
    if edges.len() != 9 {
        return false;
    }
    let utilities = graph.neighbors_of(&nodes[0]);
    let ghost side = graph@.neighbors(graph@.nodes[0]);
    proof {
        assert(graph@.nodes[0] == nodes@[0]@);
        lemma_neighbor_list(graph@, nodes@[0]@, names(utilities@));
    }
    if utilities.len() != 3 {
        return false;
    }
    let mut i: usize = 0;
    while i < edges.len()
        invariant
            graph@.edges == edges@.map_values(|e: crate::graph::UEdge| e@),
            side == graph@.neighbors(graph@.nodes[0]),
            names(utilities@).to_set() == side,
            i <= edges@.len(),
            forall|k: int|
                0 <= k < i ==> side.contains((#[trigger] graph@.edges[k]).0) != side.contains(
                    graph@.edges[k].1,
                ),
        decreases edges@.len() - i,
    {
        let a = contains_node(&utilities, edges[i].smaller_node());
        let b = contains_node(&utilities, edges[i].greater_node());
        assert(graph@.edges[i as int] == edges@[i as int]@);
        if a == b {
            return false;
        }
        i = i + 1;
    }
    true
}

} // verus!

verus! {

/// Any two distinct nodes of `g` are joined by an edge.
pub open spec fn complete(g: GraphView) -> bool {
    forall|x: Name, y: Name|
        g.nodes.contains(x) && g.nodes.contains(y) && x != y ==> #[trigger] g.adjacent(x, y)
}

/// The complete graph on five nodes has the shape that `is_k5` accepts.
pub proof fn lemma_complete_five_is_k5(g: GraphView)
    requires
        g.wf(),
        g.nodes.len() == 5,
        g.edges.len() == 10,
        loop_free(g),
        complete(g),
    ensures
        k5_shape(g),
{
    g.nodes.unique_seq_to_set();
    assert forall|i: int| 0 <= i < g.nodes.len() implies (#[trigger] g.neighbors(
        g.nodes[i],
    )).len() == 4 by {
        let n = g.nodes[i];
        assert(g.nodes.contains(n));
        assert forall|x: Name| g.neighbors(n).contains(x) <==> g.nodes.to_set().remove(
            n,
        ).contains(x) by {
            if g.nodes.contains(x) && x != n {
                assert(g.adjacent(n, x));
            }
            if x == n && g.adjacent(n, x) {
                let k = choose|k: int| 0 <= k < g.edges.len() && g.edges[k] == (n, n);
                assert(g.edges[k].0 == g.edges[k].1);
            }
        }
        assert(g.neighbors(n) =~= g.nodes.to_set().remove(n));
    }
}

} // verus!

verus! {

/// `g` is the complete bipartite graph between the node sets `a` and `b`:
/// its nodes are those of `a` and `b`, which share none, every edge runs
/// between the two sides, and every node of one side is joined to every node
/// of the other.
pub open spec fn complete_bipartite(g: GraphView, a: Set<Name>, b: Set<Name>) -> bool {
    &&& a.disjoint(b)
    &&& g.nodes.to_set() == a + b
    &&& forall|i: int|
        0 <= i < g.edges.len() ==> (a.contains((#[trigger] g.edges[i]).0) && b.contains(
            g.edges[i].1,
        )) || (b.contains(g.edges[i].0) && a.contains(g.edges[i].1))
    &&& forall|x: Name, y: Name| a.contains(x) && b.contains(y) ==> #[trigger] g.adjacent(x, y)
}

/// In a complete bipartite graph, the neighbours of a node on one side are
/// the other side.
proof fn lemma_bipartite_neighbors(g: GraphView, a: Set<Name>, b: Set<Name>, n: Name)
    requires
        g.wf(),
        complete_bipartite(g, a, b),
        a.contains(n),
    ensures
        g.neighbors(n) == b,
{
    assert forall|x: Name| g.neighbors(n).contains(x) <==> b.contains(x) by {
        if b.contains(x) {
            assert(g.adjacent(n, x));
            assert(g.nodes.to_set().contains(x));
        }
        if g.nodes.contains(x) && g.adjacent(n, x) {
            if g.edges.contains((n, x)) {
                let k = choose|k: int| 0 <= k < g.edges.len() && g.edges[k] == (n, x);
                assert(g.edges[k].0 == n);
            } else {
                let k = choose|k: int| 0 <= k < g.edges.len() && g.edges[k] == (x, n);
                assert(g.edges[k].1 == n);
            }
        }
    }
    assert(g.neighbors(n) =~= b);
}

/// The complete bipartite graph on two sides of three nodes has the shape
/// that `is_k33` accepts.
pub proof fn lemma_complete_bipartite_is_k33(g: GraphView, a: Set<Name>, b: Set<Name>)
    requires
        g.wf(),
        g.nodes.len() == 6,
        g.edges.len() == 9,
        a.len() == 3,
        b.len() == 3,
        complete_bipartite(g, a, b),
    ensures
        k33_shape(g),
{
    let n = g.nodes[0];
    assert(g.nodes.contains(n));
    assert(g.nodes.to_set().contains(n));
    if a.contains(n) {
        lemma_bipartite_neighbors(g, a, b, n);
    } else {
        assert forall|x: Name, y: Name| b.contains(x) && a.contains(y) implies #[trigger] g.adjacent(
            x,
            y,
        ) by {
            assert(g.adjacent(y, x));
        }
        assert(g.nodes.to_set() =~= b + a);
        lemma_bipartite_neighbors(g, b, a, n);
    }
}

} // verus!
