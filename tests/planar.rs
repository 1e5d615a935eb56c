use ugraph::graph::{Node, UEdge, UGraph};
use ugraph::kuratowski::{is_k33, is_k5};
use ugraph::planarity::{find_kuratowski_minor, is_planar, prune, PlanarityResult};

fn node(name: &str) -> Node {
    Node::new(name.to_string())
}

fn edge(a: &str, b: &str) -> UEdge {
    UEdge::new(node(a), node(b))
}

fn graph(nodes: &[&str], edges: &[(&str, &str)]) -> UGraph {
    let mut g = UGraph::new();
    for n in nodes {
        assert!(g.add_node(node(n)));
    }
    for (a, b) in edges {
        assert!(g.add_edge(edge(a, b)));
    }
    g
}

fn complete(names: &[&str]) -> UGraph {
    let mut g = UGraph::new();
    for n in names {
        g.add_node(node(n));
    }
    for i in 0..names.len() {
        for j in (i + 1)..names.len() {
            assert!(g.add_edge(edge(names[i], names[j])));
        }
    }
    g
}

fn k5() -> UGraph {
    complete(&["a", "b", "c", "d", "e"])
}

fn k33() -> UGraph {
    let mut g = UGraph::new();
    for n in ["h1", "h2", "h3", "u1", "u2", "u3"] {
        g.add_node(node(n));
    }
    for h in ["h1", "h2", "h3"] {
        for u in ["u1", "u2", "u3"] {
            assert!(g.add_edge(edge(h, u)));
        }
    }
    g
}

fn witness_size(r: &PlanarityResult) -> Option<(usize, usize)> {
    match r {
        PlanarityResult::Planar => None,
        PlanarityResult::NonPlanar(w) => Some((w.nodes().len(), w.edges().len())),
    }
}

#[test]
fn complete_five_is_k5() {
    assert!(is_k5(&k5()));
    assert!(!is_k33(&k5()));
}

#[test]
fn k5_missing_any_edge_is_not_k5() {
    let names = ["a", "b", "c", "d", "e"];
    for i in 0..5 {
        for j in (i + 1)..5 {
            let mut g = k5();
            assert!(g.remove_edge(&edge(names[i], names[j])));
            assert!(!is_k5(&g));
        }
    }
}

#[test]
fn wrong_sizes_are_not_k5() {
    assert!(!is_k5(&UGraph::new()));
    assert!(!is_k5(&complete(&["a", "b", "c", "d"])));
    assert!(!is_k5(&complete(&["a", "b", "c", "d", "e", "f"])));
}

#[test]
fn utility_graph_is_k33() {
    assert!(is_k33(&k33()));
    assert!(!is_k5(&k33()));
}

#[test]
fn k33_with_same_side_edge_is_not_k33() {
    let mut g = k33();
    assert!(g.add_edge(edge("h1", "h2")));
    assert!(!is_k33(&g));
}

#[test]
fn k33_missing_a_cross_edge_is_not_k33() {
    for h in ["h1", "h2", "h3"] {
        for u in ["u1", "u2", "u3"] {
            let mut g = k33();
            assert!(g.remove_edge(&edge(h, u)));
            assert!(!is_k33(&g));
        }
    }
}

#[test]
fn six_nodes_nine_edges_not_bipartite_is_not_k33() {
    // two triangles joined by three edges: six nodes, nine edges
    let g = graph(
        &["a", "b", "c", "x", "y", "z"],
        &[("a", "b"), ("b", "c"), ("a", "c"), ("x", "y"), ("y", "z"), ("x", "z"), ("a", "x"), ("b", "y"), ("c", "z")],
    );
    assert!(!is_k33(&g));
}

#[test]
fn triangle_is_planar() {
    let g = complete(&["a", "b", "c"]);
    assert!(matches!(is_planar(&g), PlanarityResult::Planar));
}

#[test]
fn empty_and_small_graphs_are_planar() {
    assert!(matches!(is_planar(&UGraph::new()), PlanarityResult::Planar));
    assert!(matches!(is_planar(&complete(&["a"])), PlanarityResult::Planar));
    assert!(matches!(is_planar(&complete(&["a", "b", "c", "d"])), PlanarityResult::Planar));
}

#[test]
fn k5_is_not_planar_with_itself_as_witness() {
    let r = is_planar(&k5());
    match r {
        PlanarityResult::NonPlanar(w) => {
            assert!(is_k5(&w));
            assert_eq!(w.nodes().len(), 5);
            assert_eq!(w.edges().len(), 10);
        }
        PlanarityResult::Planar => panic!("K5 reported planar"),
    }
}

#[test]
fn k33_is_not_planar_with_itself_as_witness() {
    let r = is_planar(&k33());
    match r {
        PlanarityResult::NonPlanar(w) => {
            assert!(is_k33(&w));
            assert_eq!(w.nodes().len(), 6);
            assert_eq!(w.edges().len(), 9);
        }
        PlanarityResult::Planar => panic!("K3,3 reported planar"),
    }
}

#[test]
fn k5_with_an_isolated_node_is_not_planar() {
    let mut g = k5();
    assert!(g.add_node(node("lonely")));
    let r = is_planar(&g);
    match r {
        PlanarityResult::NonPlanar(w) => {
            assert!(is_k5(&w));
            assert!(!w.has_node(&node("lonely")));
        }
        PlanarityResult::Planar => panic!("K5 plus an isolated node reported planar"),
    }
}

#[test]
fn prune_drops_self_loops_and_isolated_nodes() {
    let g = graph(&["a", "b", "c", "d"], &[("a", "b"), ("c", "c"), ("b", "b")]);
    let p = prune(&g);
    assert_eq!(p.nodes().len(), 2);
    assert_eq!(p.edges().len(), 1);
    assert!(p.has_node(&node("a")));
    assert!(p.has_node(&node("b")));
    assert!(p.has_edge(&edge("a", "b")));
}

#[test]
fn subdivided_k5_is_not_planar() {
    let mut g = k5();
    assert!(g.remove_edge(&edge("a", "b")));
    g.add_node(node("m"));
    assert!(g.add_edge(edge("a", "m")));
    assert!(g.add_edge(edge("m", "b")));
    assert_eq!(witness_size(&is_planar(&g)), Some((5, 10)));
}

#[test]
fn wheel_is_planar() {
    let g = graph(
        &["hub", "r1", "r2", "r3", "r4", "r5"],
        &[
            ("r1", "r2"), ("r2", "r3"), ("r3", "r4"), ("r4", "r5"), ("r5", "r1"),
            ("hub", "r1"), ("hub", "r2"), ("hub", "r3"), ("hub", "r4"), ("hub", "r5"),
        ],
    );
    assert_eq!(witness_size(&is_planar(&g)), None);
}

#[test]
fn k5_with_a_self_loop_is_not_planar() {
    let mut g = k5();
    assert!(g.add_edge(edge("c", "c")));
    assert!(!is_k5(&g));
    assert_eq!(witness_size(&is_planar(&g)), Some((5, 10)));
}

#[test]
fn search_finds_nothing_in_small_graphs() {
    assert!(find_kuratowski_minor(&complete(&["a", "b", "c", "d"])).is_none());
    assert!(find_kuratowski_minor(&k5()).is_some());
}

#[test]
fn contracting_a_k33_edge_loses_one_node() {
    let g = k33();
    for h in ["h1", "h2", "h3"] {
        for u in ["u1", "u2", "u3"] {
            let c = g.contract(&edge(h, u));
            assert_eq!(c.nodes().len(), 5);
            assert!(c.edges().len() <= 9);
            assert_eq!(c.edges().len(), 8);
            for e in c.edges() {
                assert!(!(e.smaller_node() == e.greater_node()));
            }
            assert!(!c.has_node(&node(u)));
            assert!(c.has_node(&node(h)));
        }
    }
}

#[test]
fn contraction_merges_parallel_edges() {
    let g = complete(&["a", "b", "c"]);
    let c = g.contract(&edge("a", "b"));
    assert_eq!(c.nodes().len(), 2);
    assert_eq!(c.edges().len(), 1);
    assert!(c.has_edge(&edge("a", "c")));
}

#[test]
fn octahedron_is_planar() {
    // every pair of nodes is joined except the three opposite pairs
    let names = ["a", "b", "c", "d", "e", "f"];
    let mut g = complete(&names);
    assert!(g.remove_edge(&edge("a", "b")));
    assert!(g.remove_edge(&edge("c", "d")));
    assert!(g.remove_edge(&edge("e", "f")));
    assert_eq!(g.edges().len(), 12);
    assert_eq!(witness_size(&is_planar(&g)), None);
}

#[test]
fn k33_with_an_extra_edge_is_not_planar() {
    let mut g = k33();
    assert!(g.add_edge(edge("h1", "h2")));
    assert!(!is_k33(&g));
    assert_eq!(witness_size(&is_planar(&g)), Some((6, 9)));
}
