use vstd::prelude::*;
use crate::graph::{
    avoids, loop_free, names, not_named, other_than, pairs, touches, GraphView, Name, Node, Pair, UGraph,
};
use crate::seq_facts::{lemma_filter_all, lemma_filter_contains_iff, lemma_filter_out_one};
use crate::kuratowski::{is_k33, is_k5};
use crate::minor::{
    apply, is_minor, kuratowski, lemma_apply_concat, lemma_exhausted, lemma_small_has_no_kuratowski_minor,
    lemma_contract_shrinks, Step,
};

verus! {

broadcast use vstd::seq_lib::group_filter_ensures;

/// No minor of `g` has the shape of K5 or K3,3.
pub open spec fn kuratowski_free(g: GraphView) -> bool {
    forall|st: Seq<Step>| !kuratowski(#[trigger] apply(g, st))
}

/// Every graph in `seen` is free of minors of the shape of K5 or K3,3.
pub open spec fn all_free(seen: Seq<UGraph>) -> bool {
    forall|k: int| 0 <= k < seen.len() ==> kuratowski_free((#[trigger] seen[k])@)
}

/// Whether two graphs hold the same nodes and edges in the same order.
fn same_graph(a: &UGraph, b: &UGraph) -> (r: bool)
    ensures
        r == (a@ == b@),
{
    let an = a.nodes();
    let bn = b.nodes();
    let ae = a.edges();
    let be = b.edges();
    assert(a@.nodes.len() == an@.len() && b@.nodes.len() == bn@.len());
    assert(a@.edges.len() == ae@.len() && b@.edges.len() == be@.len());
    if an.len() != bn.len() || ae.len() != be.len() {
        return false;
    }
    let mut i: usize = 0;
    while i < an.len()
        invariant
            names(an@) == a@.nodes,
            names(bn@) == b@.nodes,
            an@.len() == bn@.len(),
            i <= an@.len(),
            forall|k: int| 0 <= k < i ==> a@.nodes[k] == b@.nodes[k],
        decreases an@.len() - i,
    {
        if !(an[i] == bn[i]) {
            assert(a@.nodes[i as int] != b@.nodes[i as int]);
            return false;
        }
        i = i + 1;
    }
    let mut j: usize = 0;
    while j < ae.len()
        invariant
            pairs(ae@) == a@.edges,
            pairs(be@) == b@.edges,
            ae@.len() == be@.len(),
            j <= ae@.len(),
            forall|k: int| 0 <= k < j ==> a@.edges[k] == b@.edges[k],
        decreases ae@.len() - j,
    {
        if !(ae[j] == be[j]) {
            assert(a@.edges[j as int] != b@.edges[j as int]);
            return false;
        }
        j = j + 1;
    }
    assert(a@.nodes =~= b@.nodes);
    assert(a@.edges =~= b@.edges);
    true
}

/// Whether `h` is among the graphs in `seen`.
fn was_seen(seen: &Vec<UGraph>, h: &UGraph) -> (r: bool)
    ensures
        r ==> exists|k: int| 0 <= k < seen@.len() && (#[trigger] seen@[k])@ == h@,
{
    let mut i: usize = 0;
    while i < seen.len()
        invariant
            i <= seen@.len(),
        decreases seen@.len() - i,
    {
        if same_graph(&seen[i], h) {
            assert(seen@[i as int]@ == h@);
            return true;
        }
        i = i + 1;
    }
    false
}

/// Searches the minors of `h` for one of the shape of K5 or K3,3, and returns
/// the first one found.
pub fn find_kuratowski_minor(h: &UGraph) -> (r: Option<UGraph>)
    requires
        h@.wf(),
    ensures
        match r {
            Some(w) => w@.wf() && is_minor(h@, w@) && kuratowski(w@),
            None => kuratowski_free(h@),
        },
        kuratowski(h@) ==> (r matches Some(w) && w@ == h@),
{
    let mut seen: Vec<UGraph> = Vec::new();
    search(h, &mut seen)
}

/// The search behind `find_kuratowski_minor`. `seen` holds graphs already
/// known to be free of such minors; each graph found free is added to it.
fn search(h: &UGraph, seen: &mut Vec<UGraph>) -> (r: Option<UGraph>)
    requires
        h@.wf(),
        all_free(old(seen)@),
    ensures
        all_free(final(seen)@),
        match r {
            Some(w) => w@.wf() && is_minor(h@, w@) && kuratowski(w@),
            None => kuratowski_free(h@),
        },
        kuratowski(h@) ==> (r matches Some(w) && w@ == h@),
    decreases h@.nodes.len() + h@.edges.len(),
{
    let nodes = h.nodes();
    let edges = h.edges();
    if nodes.len() < 5 || edges.len() < 9 {
        proof {
            assert forall|st: Seq<Step>| !kuratowski(#[trigger] apply(h@, st)) by {
                lemma_small_has_no_kuratowski_minor(h@, st);
            }
        }
        return None;
    }
    if is_k5(h) || is_k33(h) {
        let w = h.clone();
        proof {
            assert(apply(h@, Seq::<Step>::empty()) == h@);
        }
        return Some(w);
    }
    if was_seen(seen, h) {
        return None;
    }
    let ghost es = h@.edges;
    let ghost ns = h@.nodes;
    let mut i: usize = 0;
    while i < edges.len()
        invariant
            h@.wf(),
            !kuratowski(h@),
            all_free(seen@),
            es == h@.edges,
            pairs(edges@) == es,
            i <= edges@.len(),
            forall|k: int, st: Seq<Step>|
                0 <= k < i ==> !kuratowski(#[trigger] apply(h@.without_edge(es[k]), st)),
            forall|k: int, st: Seq<Step>|
                0 <= k < i && es[k].0 != es[k].1 ==> !kuratowski(
                    #[trigger] apply(h@.contracted(es[k]), st),
                ),
        decreases edges@.len() - i,
    {
        let e = &edges[i];
        assert(e@ == es[i as int]);
        assert(es.contains(e@));
        let mut h1 = h.clone();
        h1.remove_edge(e);
        proof {
            lemma_filter_out_one(es, e@, other_than(e@));
        }
        match search(&h1, seen) {
            Some(w) => {
                proof {
                    let st = choose|st: Seq<Step>| apply(h1@, st) == w@;
                    let st2 = seq![Step::DeleteEdge(e@)] + st;
                    assert(st2.drop_first() =~= st);
                    assert(apply(h@, st2) == w@);
                }
                return Some(w);
            },
            None => {},
        }
        if !(e.smaller_node() == e.greater_node()) {
            let h2 = h.contract(e);
            proof {
                lemma_contract_shrinks(h@, e@);
            }
            match search(&h2, seen) {
                Some(w) => {
                    proof {
                        let st = choose|st: Seq<Step>| apply(h2@, st) == w@;
                        let st2 = seq![Step::Contract(e@)] + st;
                        assert(st2.drop_first() =~= st);
                        assert(apply(h@, st2) == w@);
                    }
                    return Some(w);
                },
                None => {},
            }
        }
        i = i + 1;
    }
    let mut j: usize = 0;
    while j < nodes.len()
        invariant
            h@.wf(),
            !kuratowski(h@),
            all_free(seen@),
            ns == h@.nodes,
            names(nodes@) == ns,
            j <= nodes@.len(),
            forall|k: int, st: Seq<Step>|
                0 <= k < j ==> !kuratowski(#[trigger] apply(h@.without_node(ns[k]), st)),
        decreases nodes@.len() - j,
    {
        let n = &nodes[j];
        assert(n@ == ns[j as int]);
        assert(ns.contains(n@));
        let mut h1 = h.clone();
        h1.remove_node(n);
        proof {
            lemma_filter_out_one(ns, n@, not_named(n@));
        }
        match search(&h1, seen) {
            Some(w) => {
                proof {
                    let st = choose|st: Seq<Step>| apply(h1@, st) == w@;
                    let st2 = seq![Step::DeleteNode(n@)] + st;
                    assert(st2.drop_first() =~= st);
                    assert(apply(h@, st2) == w@);
                }
                return Some(w);
            },
            None => {},
        }
        j = j + 1;
    }
    proof {
        assert forall|e: Pair, st: Seq<Step>| h@.edges.contains(e) implies !kuratowski(
            #[trigger] apply(h@.without_edge(e), st),
        ) by {
            let k = choose|k: int| 0 <= k < es.len() && es[k] == e;
            assert(!kuratowski(apply(h@.without_edge(es[k]), st)));
        }
        assert forall|e: Pair, st: Seq<Step>| h@.edges.contains(e) && e.0 != e.1 implies !kuratowski(
            #[trigger] apply(h@.contracted(e), st),
        ) by {
            let k = choose|k: int| 0 <= k < es.len() && es[k] == e;
            assert(!kuratowski(apply(h@.contracted(es[k]), st)));
        }
        assert forall|n: Name, st: Seq<Step>| h@.nodes.contains(n) implies !kuratowski(
            #[trigger] apply(h@.without_node(n), st),
        ) by {
            let k = choose|k: int| 0 <= k < ns.len() && ns[k] == n;
            assert(!kuratowski(apply(h@.without_node(ns[k]), st)));
        }
        assert forall|st: Seq<Step>| !kuratowski(#[trigger] apply(h@, st)) by {
            lemma_exhausted(h@, st);
        }
    }
    let ghost before = seen@;
    seen.push(h.clone());
    proof {
        assert forall|k: int| 0 <= k < seen@.len() implies kuratowski_free((#[trigger] seen@[k])@) by {
            if k < before.len() {
                assert(seen@[k] == before[k]);
            }
        }
    }
    None
}

/// Some edge of `g` touches `n`.
pub open spec fn has_incident(g: GraphView, n: Name) -> bool {
    exists|k: int| 0 <= k < g.edges.len() && touches(#[trigger] g.edges[k], n)
}

/// Every node of `g` is touched by an edge.
pub open spec fn no_isolated(g: GraphView) -> bool {
    forall|i: int| 0 <= i < g.nodes.len() ==> has_incident(g, #[trigger] g.nodes[i])
}

/// `p` keeps exactly the edges of `g` that are not self-loops, and exactly
/// the nodes of `g` that one of those edges touches.
pub open spec fn prunes_to(g: GraphView, p: GraphView) -> bool {
    &&& forall|e: Pair| #[trigger] p.edges.contains(e) <==> g.edges.contains(e) && e.0 != e.1
    &&& forall|n: Name| #[trigger] p.nodes.contains(n) <==> g.nodes.contains(n) && has_incident(p, n)
}

/// The outcome of a planarity decision.
pub enum PlanarityResult {
    /// No minor of the shape of K5 or K3,3 exists.
    Planar,
    /// A minor of the shape of K5 or K3,3, as witness.
    NonPlanar(UGraph),
}

/// One more reduction at the end of a sequence.
proof fn lemma_apply_push(g: GraphView, st: Seq<Step>, s: Step)
    ensures
        apply(g, st.push(s)) == crate::minor::step(apply(g, st), s),
{
    lemma_apply_concat(g, st, seq![s]);
    assert(st.push(s) =~= st + seq![s]);
    assert(seq![s].drop_first() =~= Seq::<Step>::empty());
    let x = crate::minor::step(apply(g, st), s);
    assert(apply(x, Seq::<Step>::empty()) == x);
    assert(seq![s][0] == s);
}

/// Whether some edge of `g` touches `n`.
fn touched(g: &UGraph, n: &Node) -> (r: bool)
    ensures
        r == has_incident(g@, n@),
{
    let edges = g.edges();
    let mut i: usize = 0;
    while i < edges.len()
        invariant
            pairs(edges@) == g@.edges,
            i <= edges@.len(),
            forall|k: int| 0 <= k < i ==> !touches(#[trigger] g@.edges[k], n@),
        decreases edges@.len() - i,
    {
        assert(edges@[i as int]@ == g@.edges[i as int]);
        if edges[i].smaller_node() == n || edges[i].greater_node() == n {
            assert(touches(g@.edges[i as int], n@));
            return true;
        }
        i = i + 1;
    }
    false
}

/// The graph without its self-loops and without the nodes that no remaining
/// edge touches. These can be no part of a minor of the shape of K5 or K3,3.
pub fn prune(graph: &UGraph) -> (r: UGraph)
    requires
        graph@.wf(),
    ensures
        r@.wf(),
        is_minor(graph@, r@),
        loop_free(r@),
        no_isolated(r@),
        prunes_to(graph@, r@),
        loop_free(graph@) && no_isolated(graph@) ==> r@ == graph@,
{
    let edges = graph.edges();
    let nodes = graph.nodes();
    let ghost es = graph@.edges;
    let ghost ns = graph@.nodes;
    let mut r = graph.clone();
    let ghost mut steps = Seq::<Step>::empty();
    let mut i: usize = 0;
    while i < edges.len()
        invariant
            pairs(edges@) == es,
            es == graph@.edges,
            graph@.wf(),
            i <= edges@.len(),
            r@.wf(),
            r@ == apply(graph@, steps),
            loop_free(graph@) ==> r@ == graph@,
            r@.nodes == ns,
            forall|x: Pair| r@.edges.contains(x) ==> es.contains(x),
            forall|k: int|
                0 <= k < i && (#[trigger] es[k]).0 == es[k].1 ==> !r@.edges.contains(es[k]),
            forall|k: int|
                0 <= k < es.len() && (i <= k || es[k].0 != es[k].1) ==> r@.edges.contains(
                    #[trigger] es[k],
                ),
        decreases edges@.len() - i,
    {
        let e = &edges[i];
        assert(e@ == es[i as int]);
        if e.smaller_node() == e.greater_node() {
            let ghost before = r@;
            r.remove_edge(e);
            proof {
                lemma_apply_push(graph@, steps, Step::DeleteEdge(e@));
                steps = steps.push(Step::DeleteEdge(e@));
                assert forall|x: Pair| r@.edges.contains(x) implies before.edges.contains(x)
                    && x != e@ by {
                    lemma_filter_contains_iff(before.edges, other_than(e@), x);
                }
                assert forall|k: int|
                    0 <= k < es.len() && (i + 1 <= k || es[k].0 != es[k].1) implies r@.edges.contains(
                    #[trigger] es[k],
                ) by {
                    if k != i {
                        assert(es[k] != es[i as int]);
                    }
                    lemma_filter_contains_iff(before.edges, other_than(e@), es[k]);
                }
            }
        }
        i = i + 1;
    }
    proof {
        assert forall|k: int| 0 <= k < r@.edges.len() implies (#[trigger] r@.edges[k]).0
            != r@.edges[k].1 by {
            let x = r@.edges[k];
            assert(r@.edges.contains(x));
            assert(es.contains(x));
            assert(es.len() == edges@.len());
            let m = choose|m: int| 0 <= m < es.len() && es[m] == x;
            assert(!r@.edges.contains(es[m]) || es[m].0 != es[m].1);
        }
        assert forall|x: Pair| r@.edges.contains(x) <==> es.contains(x) && x.0 != x.1 by {
            if es.contains(x) && x.0 != x.1 {
                let m = choose|m: int| 0 <= m < es.len() && es[m] == x;
            }
            if r@.edges.contains(x) {
                let k = choose|k: int| 0 <= k < r@.edges.len() && r@.edges[k] == x;
            }
        }
    }
    let ghost kept = r@.edges;
    let mut j: usize = 0;
    while j < nodes.len()
        invariant
            names(nodes@) == ns,
            ns == graph@.nodes,
            graph@.wf(),
            j <= nodes@.len(),
            r@.wf(),
            r@ == apply(graph@, steps),
            loop_free(graph@) && no_isolated(graph@) ==> r@ == graph@,
            loop_free(r@),
            forall|x: Name| r@.nodes.contains(x) ==> ns.contains(x),
            forall|k: int|
                0 <= k < j && r@.nodes.contains(#[trigger] ns[k]) ==> has_incident(r@, ns[k]),
            r@.edges == kept,
            forall|x: Pair| kept.contains(x) <==> es.contains(x) && x.0 != x.1,
            forall|k: int|
                0 <= k < ns.len() && (j <= k || has_incident(r@, ns[k])) ==> r@.nodes.contains(
                    #[trigger] ns[k],
                ),
        decreases nodes@.len() - j,
    {
        let n = &nodes[j];
        assert(n@ == ns[j as int]);
        if !touched(&r, n) {
            let ghost before = r@;
            r.remove_node(n);
            proof {
                lemma_apply_push(graph@, steps, Step::DeleteNode(n@));
                steps = steps.push(Step::DeleteNode(n@));
                assert forall|x: Pair| before.edges.contains(x) implies avoids(n@)(x) by {
                    let k = choose|k: int| 0 <= k < before.edges.len() && before.edges[k] == x;
                    assert(!touches(before.edges[k], n@));
                }
                lemma_filter_all(before.edges, avoids(n@));
                assert(r@.edges == before.edges);
                assert forall|x: Name| r@.nodes.contains(x) implies before.nodes.contains(x)
                    && x != n@ by {
                    lemma_filter_contains_iff(before.nodes, not_named(n@), x);
                }
                assert forall|k: int| 0 <= k < j + 1 && r@.nodes.contains(
                    #[trigger] ns[k],
                ) implies has_incident(r@, ns[k]) by {
                    assert(has_incident(before, ns[k]));
                }
                assert forall|k: int|
                    0 <= k < ns.len() && (j + 1 <= k || has_incident(r@, ns[k])) implies r@.nodes.contains(
                    #[trigger] ns[k],
                ) by {
                    if k != j {
                        assert(ns[k] != ns[j as int]);
                    }
                    lemma_filter_contains_iff(before.nodes, not_named(n@), ns[k]);
                }
            }
        }
        j = j + 1;
    }
    proof {
        assert forall|i: int| 0 <= i < r@.nodes.len() implies has_incident(
            r@,
            #[trigger] r@.nodes[i],
        ) by {
            assert(r@.nodes.contains(r@.nodes[i]));
            assert(ns.contains(r@.nodes[i]));
            assert(ns.len() == nodes@.len());
            let k = choose|k: int| 0 <= k < ns.len() && ns[k] == r@.nodes[i];
            assert(r@.nodes.contains(ns[k]));
        }
        assert forall|n: Name| #[trigger] r@.nodes.contains(n) <==> ns.contains(n) && has_incident(
            r@,
            n,
        ) by {
            if ns.contains(n) && has_incident(r@, n) {
                let k = choose|k: int| 0 <= k < ns.len() && ns[k] == n;
            }
            if r@.nodes.contains(n) {
                let i = choose|i: int| 0 <= i < r@.nodes.len() && r@.nodes[i] == n;
            }
        }
    }
    r
}

/// Decides whether the graph is planar: after pruning, its minors are searched
/// for one of the shape of K5 or K3,3, which is returned as witness.
pub fn is_planar(graph: &UGraph) -> (r: PlanarityResult)
    requires
        graph@.wf(),
    ensures
        match r {
            PlanarityResult::NonPlanar(w) => w@.wf() && is_minor(graph@, w@) && kuratowski(w@),
            PlanarityResult::Planar => exists|p: GraphView|
                is_minor(graph@, p) && prunes_to(graph@, p) && kuratowski_free(p),
        },
        graph@.nodes.len() < 5 ==> r is Planar,
        loop_free(graph@) && no_isolated(graph@) && kuratowski(graph@) ==> (r matches
            PlanarityResult::NonPlanar(w) && w@ == graph@),
{
    let p = prune(graph);
    match find_kuratowski_minor(&p) {
        Some(w) => {
            proof {
                let st1 = choose|st: Seq<Step>| apply(graph@, st) == p@;
                let st2 = choose|st: Seq<Step>| apply(p@, st) == w@;
                lemma_apply_concat(graph@, st1, st2);
                assert(apply(graph@, st1 + st2) == w@);
                if graph@.nodes.len() < 5 {
                    lemma_small_has_no_kuratowski_minor(graph@, st1 + st2);
                }
            }
            PlanarityResult::NonPlanar(w)
        },
        None => {
            proof {
                assert(is_minor(graph@, p@) && prunes_to(graph@, p@));
            }
            PlanarityResult::Planar
        },
    }
}

} // verus!
