use pathfinder::algorithms::algorithm::{Algorithm, Algorithms, SearchResult};
use pathfinder::algorithms::dijkstra::{DijkstraAlgorithm, DijkstraError, ShortestDistance};
use pathfinder::graphs::directed::{DirectedEdge, DirectedGraph};
use pathfinder::graphs::graph::{Graph, Node};
use pathfinder::graphs::undirected::{UndirectedEdge, UndirectedGraph};

fn node(id: &str) -> Node {
    Node::new(id.to_string())
}

fn undirected(nodes: &[&str], edges: &[(&str, &str, u16)]) -> UndirectedGraph {
    let mut g = UndirectedGraph::default();
    for n in nodes {
        g.insert_node(node(n));
    }
    for (a, b, w) in edges {
        assert!(g.insert_edge(UndirectedEdge::new(node(a), node(b), *w)).is_none());
    }
    g
}

fn directed(nodes: &[&str], edges: &[(&str, &str, u16)]) -> DirectedGraph {
    let mut g = DirectedGraph::default();
    for n in nodes {
        g.insert_node(node(n));
    }
    for (a, b, w) in edges {
        assert!(g.insert_edge(DirectedEdge::new(node(a), node(b), *w)).is_none());
    }
    g
}

fn path_ids(r: &SearchResult) -> Vec<String> {
    r.path.iter().map(|n| n.id.clone()).collect()
}

fn search<G: Graph>(g: G, start: &str, end: &str) -> Result<SearchResult, DijkstraError> {
    DijkstraAlgorithm::new(g).shortest_path(node(start), node(end))
}

#[test]
fn triangle_prefers_two_short_edges() {
    let g = undirected(&["A", "B", "C"], &[("A", "B", 7), ("B", "C", 3), ("A", "C", 15)]);
    let r = search(g, "A", "C").unwrap();
    assert_eq!(path_ids(&r), vec!["A", "B", "C"]);
    assert_eq!(r.distance, 10);
}

#[test]
fn example_graph_paths() {
    let edges = [("A", "B", 7), ("B", "C", 3), ("A", "C", 15), ("B", "D", 2), ("C", "D", 4)];
    let r = search(undirected(&["A", "B", "C", "D"], &edges), "A", "D").unwrap();
    assert_eq!(path_ids(&r), vec!["A", "B", "D"]);
    assert_eq!(r.distance, 9);
    let r = search(undirected(&["A", "B", "C", "D"], &edges), "D", "A").unwrap();
    assert_eq!(path_ids(&r), vec!["D", "B", "A"]);
    assert_eq!(r.distance, 9);
    let r = search(undirected(&["A", "B", "C", "D"], &edges), "C", "A").unwrap();
    assert_eq!(path_ids(&r), vec!["C", "B", "A"]);
    assert_eq!(r.distance, 10);
}

#[test]
fn disconnected_pair_has_no_path() {
    let g = undirected(&["A", "B"], &[]);
    let err = search(g, "A", "B").unwrap_err();
    assert_eq!(err.message, "Unable to determine a valid path from A to B!");
    let g = undirected(&["A", "B", "C", "D"], &[("A", "B", 1), ("C", "D", 1)]);
    let err = search(g, "A", "D").unwrap_err();
    assert_eq!(err.message, "Unable to determine a valid path from A to D!");
}

#[test]
fn directed_edges_are_one_way() {
    let g = directed(&["A", "B", "C"], &[("A", "B", 1), ("B", "C", 1), ("C", "A", 100)]);
    let r = search(g, "C", "B").unwrap();
    assert_eq!(path_ids(&r), vec!["C", "A", "B"]);
    assert_eq!(r.distance, 101);
    let g = directed(&["A", "B"], &[("A", "B", 1)]);
    let err = search(g, "B", "A").unwrap_err();
    assert_eq!(err.message, "Unable to determine a valid path from B to A!");
}

#[test]
fn path_to_itself() {
    let g = undirected(&["A", "B"], &[("A", "B", 4)]);
    let r = search(g, "A", "A").unwrap();
    assert_eq!(path_ids(&r), vec!["A", "A"]);
    assert_eq!(r.distance, 0);
    let g = undirected(&["A"], &[]);
    let r = search(g, "A", "A").unwrap();
    assert_eq!(path_ids(&r), vec!["A", "A"]);
    assert_eq!(r.distance, 0);
}

#[test]
fn unknown_start_or_end_is_named() {
    let g = undirected(&["A", "B"], &[("A", "B", 4)]);
    let err = search(g, "X", "B").unwrap_err();
    assert_eq!(err.message, "The node X is not in the graph!");
    let g = undirected(&["A", "B"], &[("A", "B", 4)]);
    let err = search(g, "A", "Y").unwrap_err();
    assert_eq!(err.message, "The node Y is not in the graph!");
    let g = undirected(&[], &[]);
    let err = search(g, "X", "Y").unwrap_err();
    assert_eq!(err.message, "The node X is not in the graph!");
}

#[test]
fn returned_path_nodes_are_in_the_graph() {
    let edges = [("A", "B", 7), ("B", "C", 3), ("A", "C", 15), ("B", "D", 2), ("C", "D", 4)];
    let g = undirected(&["A", "B", "C", "D"], &edges);
    let check = undirected(&["A", "B", "C", "D"], &edges);
    let r = search(g, "A", "C").unwrap();
    for n in &r.path {
        assert!(check.does_node_already_exist(n));
    }
}

#[test]
fn zero_weight_edges_and_ties() {
    let g = directed(&["A", "B", "C"], &[("A", "B", 0), ("B", "C", 0), ("A", "C", 0)]);
    let r = search(g, "A", "C").unwrap();
    assert_eq!(r.distance, 0);
    assert_eq!(r.path.first().unwrap().id, "A");
    assert_eq!(r.path.last().unwrap().id, "C");
}

#[test]
fn long_chain_sums_past_u16() {
    let names: Vec<String> = (0..5).map(|i| format!("N{}", i)).collect();
    let refs: Vec<&str> = names.iter().map(|s| s.as_str()).collect();
    let edges: Vec<(&str, &str, u16)> = (0..4).map(|i| (refs[i], refs[i + 1], u16::MAX)).collect();
    let g = directed(&refs, &edges);
    let r = search(g, "N0", "N4").unwrap();
    assert_eq!(r.distance, 4 * u16::MAX as u64);
    assert_eq!(r.path.len(), 5);
}

#[test]
fn search_result_needs_two_nodes() {
    let err = SearchResult::new(vec![node("A")], 0).unwrap_err();
    assert_eq!(
        err,
        "There need to be at least 2 nodes in the path from one node A to another node B! Couldn't create a 'SearchResult'!"
    );
    assert!(SearchResult::new(vec![], 0).is_err());
    let r = SearchResult::new(vec![node("A"), node("B")], 5).unwrap();
    assert_eq!(r.distance, 5);
    assert_eq!(r.path.len(), 2);
}

#[test]
fn algorithm_names_and_steps() {
    assert_eq!(Algorithms::get_from_string("Dijkstra"), Algorithms::Dijkstra);
    assert_eq!(Algorithms::get_from_string("BFS"), Algorithms::Dijkstra);
    assert!(<DijkstraAlgorithm<DirectedGraph> as Algorithm>::execute_step().is_none());
    let label = ShortestDistance::new(Some(3));
    assert_eq!(label.distance, None);
    assert_eq!(label.previous_node, Some(3));
    let e = DijkstraError::new("boom".to_string());
    assert_eq!(e.message, "boom");
}

#[test]
fn search_result_text() {
    let g = undirected(&["A", "B", "C"], &[("A", "B", 7), ("B", "C", 3), ("A", "C", 15)]);
    let r = search(g, "A", "C").unwrap();
    assert_eq!(
        r.describe(),
        "\n            Path:  -> A -> B -> C,\n            Distance: 10\n            "
    );
    let r = SearchResult::new(vec![node("X"), node("Y")], 0).unwrap();
    assert!(r.describe().contains("Distance: 0\n"));
    let r = SearchResult::new(vec![node("X"), node("Y")], 1203).unwrap();
    assert!(r.describe().contains("Path:  -> X -> Y,"));
    assert!(r.describe().contains("Distance: 1203\n"));
}

#[test]
fn equal_distances_are_taken_in_id_order() {
    let g = undirected(&["A", "C", "B", "D"], &[("A", "C", 1), ("A", "B", 1), ("C", "D", 1), ("B", "D", 1)]);
    let r = search(g, "A", "D").unwrap();
    assert_eq!(path_ids(&r), vec!["A", "B", "D"]);
    assert_eq!(r.distance, 2);
}
