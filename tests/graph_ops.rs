use ugraph::graph::{Node, UEdge, UGraph};

fn node(name: &str) -> Node {
    Node::new(name.to_string())
}

fn edge(a: &str, b: &str) -> UEdge {
    UEdge::new(node(a), node(b))
}

fn graph(nodes: &[&str], edges: &[(&str, &str)]) -> UGraph {
    let mut g = UGraph::new();
    for n in nodes {
        assert!(g.add_node(node(n)));
    }
    for (a, b) in edges {
        assert!(g.add_edge(edge(a, b)));
    }
    g
}

#[test]
fn node_keeps_its_name() {
    assert_eq!(node("alpha").name(), "alpha");
    assert_eq!(node("").name(), "");
}

#[test]
fn edge_is_canonical_whatever_the_argument_order() {
    let e1 = edge("b", "a");
    let e2 = edge("a", "b");
    assert_eq!(e1.smaller_node().name(), "a");
    assert_eq!(e1.greater_node().name(), "b");
    assert!(e1 == e2);
}

#[test]
fn edge_order_is_lexicographic() {
    let e = edge("ab", "a");
    assert_eq!(e.smaller_node().name(), "a");
    assert_eq!(e.greater_node().name(), "ab");
    let f = edge("b", "aa");
    assert_eq!(f.smaller_node().name(), "aa");
    let loop_edge = edge("x", "x");
    assert_eq!(loop_edge.smaller_node().name(), "x");
    assert_eq!(loop_edge.greater_node().name(), "x");
}

#[test]
fn new_graph_is_empty() {
    let g = UGraph::new();
    assert!(g.nodes().is_empty());
    assert!(g.edges().is_empty());
}

#[test]
fn add_node_reports_whether_new() {
    let mut g = UGraph::new();
    assert!(g.add_node(node("a")));
    assert!(!g.add_node(node("a")));
    assert_eq!(g.nodes().len(), 1);
}

#[test]
fn add_edge_needs_both_endpoints() {
    let mut g = UGraph::new();
    g.add_node(node("a"));
    assert!(!g.add_edge(edge("a", "b")));
    assert!(!g.add_edge(edge("c", "a")));
    assert!(g.edges().is_empty());
    g.add_node(node("b"));
    assert!(g.add_edge(edge("a", "b")));
    assert_eq!(g.edges().len(), 1);
}

#[test]
fn add_edge_rejects_a_present_edge_in_either_order() {
    let mut g = graph(&["a", "b"], &[("a", "b")]);
    assert!(!g.add_edge(edge("b", "a")));
    assert!(!g.add_edge(edge("a", "b")));
    assert_eq!(g.edges().len(), 1);
}

#[test]
fn repeated_adds_match_a_single_add() {
    let mut once = UGraph::new();
    once.add_node(node("a"));
    once.add_node(node("b"));
    once.add_edge(edge("a", "b"));
    let mut twice = UGraph::new();
    twice.add_node(node("a"));
    twice.add_node(node("a"));
    twice.add_node(node("b"));
    twice.add_node(node("b"));
    twice.add_edge(edge("a", "b"));
    twice.add_edge(edge("a", "b"));
    assert_eq!(once.nodes().len(), twice.nodes().len());
    assert_eq!(once.edges().len(), twice.edges().len());
    for i in 0..once.nodes().len() {
        assert!(once.nodes()[i] == twice.nodes()[i]);
    }
    for i in 0..once.edges().len() {
        assert!(once.edges()[i] == twice.edges()[i]);
    }
}

#[test]
fn remove_edge_reports_presence() {
    let mut g = graph(&["a", "b", "c"], &[("a", "b"), ("b", "c")]);
    assert!(g.remove_edge(&edge("b", "a")));
    assert!(!g.remove_edge(&edge("a", "b")));
    assert!(!g.remove_edge(&edge("a", "c")));
    assert_eq!(g.edges().len(), 1);
    assert_eq!(g.nodes().len(), 3);
}

#[test]
fn remove_node_drops_incident_edges() {
    let mut g = graph(&["a", "b", "c", "d"], &[("a", "b"), ("a", "c"), ("c", "d"), ("b", "c")]);
    assert!(g.remove_node(&node("c")));
    assert_eq!(g.nodes().len(), 3);
    assert!(!g.has_node(&node("c")));
    assert_eq!(g.edges().len(), 1);
    for e in g.edges() {
        assert!(e.smaller_node().name() != "c" && e.greater_node().name() != "c");
    }
    assert!(!g.remove_node(&node("c")));
    assert!(!g.remove_node(&node("z")));
    assert_eq!(g.nodes().len(), 3);
}

#[test]
fn neighbors_from_both_endpoints() {
    let g = graph(&["a", "b", "c", "d"], &[("a", "b"), ("c", "b"), ("b", "b")]);
    let mut names: Vec<String> = g.neighbors_of(&node("b")).iter().map(|n| n.name().to_string()).collect();
    names.sort();
    assert_eq!(names, vec!["a".to_string(), "b".to_string(), "c".to_string()]);
    assert!(g.neighbors_of(&node("d")).is_empty());
    assert!(g.neighbors_of(&node("zz")).is_empty());
}

#[test]
fn clone_is_independent() {
    let g = graph(&["a", "b"], &[("a", "b")]);
    let mut h = g.clone();
    h.remove_node(&node("a"));
    assert_eq!(g.nodes().len(), 2);
    assert_eq!(g.edges().len(), 1);
    assert_eq!(h.nodes().len(), 1);
    assert!(h.edges().is_empty());
}

#[test]
fn canonical_order_agrees_with_node_ordering() {
    let pairs = [("zeta", "alpha"), ("b", "ab"), ("\u{e9}", "z"), ("z", "\u{e9}"), ("", "a")];
    for (a, b) in pairs {
        let e = edge(a, b);
        assert!(e.smaller_node() <= e.greater_node());
    }
    let mut set = std::collections::BTreeSet::new();
    set.insert(node("b"));
    set.insert(node("a"));
    set.insert(node("b"));
    assert_eq!(set.len(), 2);
    assert_eq!(set.iter().next().unwrap().name(), "a");
}
