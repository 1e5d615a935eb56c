use vstd::prelude::*;
use crate::graph::{lemma_merge_edges, not_named, GraphView, Name, Pair};
use crate::seq_facts::lemma_filter_out_one;
use crate::kuratowski::{k33_shape, k5_shape};

verus! {

broadcast use vstd::seq_lib::group_filter_ensures;

/// One reduction of a graph towards a minor.
pub enum Step {
    DeleteEdge(Pair),
    DeleteNode(Name),
    Contract(Pair),
}

/// The graph after one reduction.
pub open spec fn step(g: GraphView, s: Step) -> GraphView {
    match s {
        Step::DeleteEdge(e) => g.without_edge(e),
        Step::DeleteNode(n) => g.without_node(n),
        Step::Contract(e) => g.contracted(e),
    }
}

/// The graph after a sequence of reductions, applied in order.
pub open spec fn apply(g: GraphView, steps: Seq<Step>) -> GraphView
    decreases steps.len(),
{
    if steps.len() == 0 {
        g
    } else {
        apply(step(g, steps[0]), steps.drop_first())
    }
}

/// `h` is a minor of `g`: some sequence of reductions turns `g` into `h`.
pub open spec fn is_minor(g: GraphView, h: GraphView) -> bool {
    exists|steps: Seq<Step>| apply(g, steps) == h
}

/// `g` has the shape of K5 or of K3,3.
pub open spec fn kuratowski(g: GraphView) -> bool {
    k5_shape(g) || k33_shape(g)
}

/// Reductions applied one after another compose.
pub proof fn lemma_apply_concat(g: GraphView, a: Seq<Step>, b: Seq<Step>)
    ensures
        apply(g, a + b) == apply(apply(g, a), b),
    decreases a.len(),
{
    if a.len() > 0 {
        assert((a + b).drop_first() =~= a.drop_first() + b);
        assert((a + b)[0] == a[0]);
        lemma_apply_concat(step(g, a[0]), a.drop_first(), b);
    } else {
        assert(a + b =~= b);
    }
}

/// Contracting an edge of a loop-free graph removes exactly one node, adds no
/// edge, and leaves no self-loop.
pub proof fn lemma_contract_shrinks(g: GraphView, e: Pair)
    requires
        g.wf(),
        g.edges.contains(e),
        e.0 != e.1,
    ensures
        g.contracted(e).nodes.len() == g.nodes.len() - 1,
        g.contracted(e).edges.len() <= g.edges.len(),
        forall|i: int|
            0 <= i < g.contracted(e).edges.len() ==> (#[trigger] g.contracted(e).edges[i]).0
                != g.contracted(e).edges[i].1,
{
    let k = choose|k: int| 0 <= k < g.edges.len() && g.edges[k] == e;
    assert(g.nodes.contains(g.edges[k].1));
    lemma_filter_out_one(g.nodes, e.1, not_named(e.1));
    lemma_merge_edges(g.edges, e.0, e.1);
    let es = g.contracted(e).edges;
    assert forall|i: int| 0 <= i < es.len() implies (#[trigger] es[i]).0 != es[i].1 by {
        assert(es.contains(es[i]));
    }
}

/// No reduction adds a node or an edge.
pub proof fn lemma_step_shrinks(g: GraphView, s: Step)
    ensures
        step(g, s).nodes.len() <= g.nodes.len(),
        step(g, s).edges.len() <= g.edges.len(),
{
    match s {
        Step::DeleteEdge(e) => {},
        Step::DeleteNode(n) => {},
        Step::Contract(e) => {
            lemma_merge_edges(g.edges, e.0, e.1);
        },
    }
}

/// No sequence of reductions adds a node or an edge.
pub proof fn lemma_apply_shrinks(g: GraphView, steps: Seq<Step>)
    ensures
        apply(g, steps).nodes.len() <= g.nodes.len(),
        apply(g, steps).edges.len() <= g.edges.len(),
    decreases steps.len(),
{
    if steps.len() > 0 {
        lemma_step_shrinks(g, steps[0]);
        lemma_apply_shrinks(step(g, steps[0]), steps.drop_first());
    }
}

/// A graph with fewer than five nodes or fewer than nine edges has no minor
/// of the shape of K5 or K3,3.
pub proof fn lemma_small_has_no_kuratowski_minor(g: GraphView, steps: Seq<Step>)
    requires
        g.nodes.len() < 5 || g.edges.len() < 9,
    ensures
        !kuratowski(apply(g, steps)),
{
    lemma_apply_shrinks(g, steps);
}

/// A reduction that names an absent edge or node, or a self-loop to
/// contract, leaves a well-formed graph unchanged.
pub proof fn lemma_step_inert(g: GraphView, s: Step)
    requires
        g.wf(),
        match s {
            Step::DeleteEdge(e) => !g.edges.contains(e),
            Step::DeleteNode(n) => !g.nodes.contains(n),
            Step::Contract(e) => !g.edges.contains(e) || e.0 == e.1,
        },
    ensures
        step(g, s) == g,
{
    match s {
        Step::DeleteEdge(e) => {
            g.lemma_without_absent_edge(e);
        },
        Step::DeleteNode(n) => {
            g.lemma_without_absent_node(n);
        },
        Step::Contract(e) => {},
    }
}

/// If a graph is not of either shape, and no graph one reduction away has a
/// minor of either shape, then the graph has no minor of either shape.
pub proof fn lemma_exhausted(g: GraphView, steps: Seq<Step>)
    requires
        g.wf(),
        !kuratowski(g),
        forall|e: Pair, st: Seq<Step>|
            g.edges.contains(e) ==> !kuratowski(#[trigger] apply(g.without_edge(e), st)),
        forall|e: Pair, st: Seq<Step>|
            g.edges.contains(e) && e.0 != e.1 ==> !kuratowski(
                #[trigger] apply(g.contracted(e), st),
            ),
        forall|n: Name, st: Seq<Step>|
            g.nodes.contains(n) ==> !kuratowski(#[trigger] apply(g.without_node(n), st)),
    ensures
        !kuratowski(apply(g, steps)),
    decreases steps.len(),
{
    if steps.len() > 0 {
        let s = steps[0];
        let rest = steps.drop_first();
        let live = match s {
            Step::DeleteEdge(e) => g.edges.contains(e),
            Step::DeleteNode(n) => g.nodes.contains(n),
            Step::Contract(e) => g.edges.contains(e) && e.0 != e.1,
        };
        if live {
            match s {
                Step::DeleteEdge(e) => {
                    assert(!kuratowski(apply(g.without_edge(e), rest)));
                },
                Step::DeleteNode(n) => {
                    assert(!kuratowski(apply(g.without_node(n), rest)));
                },
                Step::Contract(e) => {
                    assert(!kuratowski(apply(g.contracted(e), rest)));
                },
            }
        } else {
            lemma_step_inert(g, s);
            lemma_exhausted(g, rest);
        }
    }
}

} // verus!
