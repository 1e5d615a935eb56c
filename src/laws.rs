use vstd::prelude::*;
use crate::graph::{avoids, not_named, touches, GraphView, Name, Pair};
use crate::seq_facts::{lemma_filter_contains_iff, lemma_push_keeps};

verus! {

/// Adding an edge succeeds exactly when both endpoints are already nodes and
/// the edge is not yet present; otherwise the graph is left as it was.
pub proof fn lemma_add_edge_guarded(g: GraphView, e: Pair)
    ensures
        g.accepts_edge(e) <==> (g.nodes.contains(e.0) && g.nodes.contains(e.1)
            && !g.edges.contains(e)),
        g.accepts_edge(e) ==> g.with_edge(e).nodes == g.nodes && g.with_edge(e).edges
            == g.edges.push(e),
        !g.accepts_edge(e) ==> g.with_edge(e) == g,
{
}

/// After a node is removed, it is not a node any more and no edge touches it.
pub proof fn lemma_remove_node_detaches(g: GraphView, n: Name)
    ensures
        !g.without_node(n).nodes.contains(n),
        forall|i: int|
            0 <= i < g.without_node(n).edges.len() ==> !touches(
                #[trigger] g.without_node(n).edges[i],
                n,
            ),
{
    lemma_filter_contains_iff(g.nodes, not_named(n), n);
    assert forall|i: int| 0 <= i < g.without_node(n).edges.len() implies !touches(
        #[trigger] g.without_node(n).edges[i],
        n,
    ) by {
        let es = g.without_node(n).edges;
        assert(es.contains(es[i]));
        lemma_filter_contains_iff(g.edges, avoids(n), es[i]);
    }
}

/// Adding the same node a second time changes nothing.
pub proof fn lemma_add_node_idempotent(g: GraphView, n: Name)
    ensures
        g.with_node(n).with_node(n) == g.with_node(n),
{
    lemma_push_keeps(g.nodes, n);
}

/// Adding the same edge a second time changes nothing.
pub proof fn lemma_add_edge_idempotent(g: GraphView, e: Pair)
    ensures
        g.with_edge(e).with_edge(e) == g.with_edge(e),
{
    lemma_push_keeps(g.edges, e);
}

} // verus!
