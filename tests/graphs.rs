use pathfinder::graphs::directed::{DirectedEdge, DirectedGraph};
use pathfinder::graphs::graph::{Graph, GraphEdge, GraphNode, Node};
use pathfinder::graphs::undirected::{UndirectedEdge, UndirectedGraph};

fn node(id: &str) -> Node {
    Node::new(id.to_string())
}

fn directed(nodes: &[&str], edges: &[(&str, &str, u16)]) -> DirectedGraph {
    let mut g = DirectedGraph::default();
    for n in nodes {
        g.insert_node(node(n));
    }
    for (a, b, w) in edges {
        assert!(g.insert_edge(DirectedEdge::new(node(a), node(b), *w)).is_none());
    }
    g
}

fn undirected(nodes: &[&str], edges: &[(&str, &str, u16)]) -> UndirectedGraph {
    let mut g = UndirectedGraph::default();
    for n in nodes {
        g.insert_node(node(n));
    }
    for (a, b, w) in edges {
        assert!(g.insert_edge(UndirectedEdge::new(node(a), node(b), *w)).is_none());
    }
    g
}

fn ids(pairs: Vec<(Node, u16)>) -> Vec<(String, u16)> {
    pairs.into_iter().map(|(n, w)| (n.id, w)).collect()
}

#[test]
fn node_new_keeps_id() {
    let n = node("Ulm");
    assert_eq!(n.id, "Ulm");
    assert_eq!(n.get_id(), "Ulm");
    assert_eq!(n.get_self_as_standard_node(), n);
    assert_eq!(n.duplicate(), n);
}

#[test]
fn directed_neighbors_follow_outgoing_edges_only() {
    let g = directed(&["A", "B", "C"], &[("A", "B", 7), ("C", "A", 2), ("A", "C", 4)]);
    assert_eq!(ids(g.neighbors(&node("A"))), vec![("B".to_string(), 7), ("C".to_string(), 4)]);
    assert_eq!(ids(g.neighbors(&node("B"))), vec![]);
    assert_eq!(ids(g.neighbors(&node("C"))), vec![("A".to_string(), 2)]);
    assert_eq!(ids(g.neighbors(&node("Z"))), vec![]);
}

#[test]
fn undirected_neighbors_come_from_either_side() {
    let g = undirected(&["A", "B", "C"], &[("A", "B", 7), ("C", "A", 2)]);
    assert_eq!(ids(g.neighbors(&node("A"))), vec![("B".to_string(), 7), ("C".to_string(), 2)]);
    assert_eq!(ids(g.neighbors(&node("B"))), vec![("A".to_string(), 7)]);
    assert_eq!(ids(g.neighbors(&node("C"))), vec![("A".to_string(), 2)]);
}

#[test]
fn graph_kinds() {
    let d = DirectedGraph::default();
    let u = UndirectedGraph::default();
    assert!(d.is_directed());
    assert!(!u.is_directed());
    assert!(d.is_weighted());
    assert!(u.is_weighted());
    assert!(d.get_all_nodes().is_empty());
}

#[test]
fn inserting_a_node_twice_keeps_one() {
    let mut g = DirectedGraph::default();
    g.insert_node(node("A"));
    g.insert_node(node("A"));
    assert_eq!(g.get_all_nodes().len(), 1);
    let mut u = UndirectedGraph::default();
    u.insert_node(node("A"));
    u.insert_node(node("B"));
    u.insert_node(node("A"));
    assert_eq!(u.get_all_nodes().len(), 2);
    assert_eq!(u.get_all_nodes()[0].id, "A");
    assert_eq!(u.get_all_nodes()[1].id, "B");
}

#[test]
fn directed_duplicate_edge_is_refused() {
    let mut g = directed(&["A", "B"], &[("A", "B", 7)]);
    let err = g.insert_edge(DirectedEdge::new(node("A"), node("B"), 3)).unwrap();
    assert_eq!(err.message, "The edge A->B already exists in the graph!");
    assert_eq!(err.display(), err.message);
    assert_eq!(g.edges.len(), 1);
    assert_eq!(g.edges[0].weight, 7);
    // the reverse direction is another edge
    assert!(g.insert_edge(DirectedEdge::new(node("B"), node("A"), 3)).is_none());
    assert_eq!(g.edges.len(), 2);
}

#[test]
fn undirected_duplicate_edge_is_refused_in_either_order() {
    let mut g = undirected(&["A", "B"], &[("A", "B", 7)]);
    let err = g.insert_edge(UndirectedEdge::new(node("B"), node("A"), 3)).unwrap();
    assert_eq!(err.message, "The edge B-A already exists in the graph!");
    assert_eq!(g.edges.len(), 1);
    assert!(g.does_edge_already_exist(&UndirectedEdge::new(node("B"), node("A"), 1)));
    assert!(!g.does_edge_already_exist(&UndirectedEdge::new(node("B"), node("C"), 1)));
}

#[test]
fn edge_with_missing_node_is_refused() {
    let mut g = directed(&["A"], &[]);
    let err = g.insert_edge(DirectedEdge::new(node("A"), node("B"), 1)).unwrap();
    assert_eq!(err.message, "One of the two nodes or both in the edge A->B doesn't exist!");
    assert_eq!(g.edges.len(), 0);
    assert_eq!(g.nodes.len(), 1);
    let mut u = undirected(&["B"], &[]);
    let err = u.insert_edge(UndirectedEdge::new(node("A"), node("B"), 1)).unwrap();
    assert_eq!(err.message, "One of the or both nodes in the edge A-B aren't part of the graph!");
    assert_eq!(u.edges.len(), 0);
    assert_eq!(u.nodes.len(), 1);
}

#[test]
fn lookups_by_id() {
    let g = directed(&["A", "B"], &[("A", "B", 7)]);
    assert_eq!(g.get_node_by_id("B"), Some(node("B")));
    assert_eq!(g.get_node_by_id("C"), None);
    assert!(g.does_node_already_exist(&node("A")));
    assert!(!g.does_node_already_exist(&node("a")));
    let id = g.edges[0].get_id();
    let e = g.get_edge_by_id(id).unwrap();
    assert_eq!(e, g.edges[0]);
    assert_eq!(g.get_edge_by_id(id.wrapping_add(1)), None);
    let u = undirected(&["A", "B"], &[("A", "B", 7)]);
    let uid = u.edges[0].get_id();
    assert_eq!(u.get_edge_by_id(uid).unwrap().weight, 7);
}

#[test]
fn edges_get_fresh_version_four_ids() {
    let a = DirectedEdge::new(node("A"), node("B"), 1);
    let b = DirectedEdge::new(node("A"), node("B"), 1);
    assert_ne!(a.get_id(), b.get_id());
    assert_eq!((a.id >> 76) & 0xf, 4);
    assert_eq!((a.id >> 62) & 0x3, 2);
    let c = UndirectedEdge::new(node("A"), node("B"), 1);
    assert_eq!((c.id >> 76) & 0xf, 4);
}

#[test]
fn graphs_from_parts() {
    let g = DirectedGraph::new(vec![node("A")], vec![]);
    assert_eq!(g.nodes.len(), 1);
    let u = UndirectedGraph::new(vec![node("A"), node("B")], vec![UndirectedEdge::new(node("A"), node("B"), 2)]);
    assert_eq!(ids(u.neighbors(&node("B"))), vec![("A".to_string(), 2)]);
}

#[test]
fn node_order_is_lexicographic_by_id() {
    assert!(node("A").comes_before(&node("B")));
    assert!(!node("B").comes_before(&node("A")));
    assert!(node("A").comes_before(&node("AB")));
    assert!(!node("AB").comes_before(&node("AB")));
    assert!(node("Ab").comes_before(&node("b")));
    assert!(node("").comes_before(&node("a")));
    assert_eq!(node("Zeta").comes_before(&node("alpha")), node("Zeta") < node("alpha"));
}
