use pathfinder::data_input::file_input::{
    generate_graph_from_file, FileInputGraphResult, InvalidDataInputError,
};
use pathfinder::graphs::directed::DirectedGraph;
use pathfinder::graphs::graph::Graph;
use pathfinder::graphs::undirected::UndirectedGraph;

fn node_ids<G: Graph>(g: &G) -> Vec<String> {
    g.get_all_nodes().iter().map(|n| n.id.clone()).collect()
}

fn read(text: &str) -> Result<FileInputGraphResult, InvalidDataInputError> {
    generate_graph_from_file(text.to_string())
}

#[test]
fn undirected_file() {
    let r = read("A-B:7\nB-C:3\nA-C:15\nB-D:2\nC-D:4\n").unwrap();
    assert!(r.directed_graph.is_none());
    let g = r.undirected_graph.unwrap();
    assert_eq!(node_ids(&g), vec!["A", "B", "C", "D"]);
    let edges: Vec<(String, String, u16)> =
        g.edges.iter().map(|e| (e.a_node.id.clone(), e.b_node.id.clone(), e.weight)).collect();
    assert_eq!(edges[0], ("A".to_string(), "B".to_string(), 7));
    assert_eq!(edges[4], ("C".to_string(), "D".to_string(), 4));
    assert_eq!(edges.len(), 5);
}

#[test]
fn directed_file_with_blank_lines_and_duplicates() {
    let r = read("A->B:7\r\n\nB->A:2\nA->B:9\nC->C:0").unwrap();
    assert!(r.undirected_graph.is_none());
    let g: DirectedGraph = r.directed_graph.unwrap();
    assert_eq!(node_ids(&g), vec!["A", "B", "C"]);
    assert_eq!(g.edges.len(), 3);
    assert_eq!(g.edges[0].weight, 7);
    assert_eq!(g.edges[1].from.id, "B");
    assert_eq!(g.edges[2].to.id, "C");
}

#[test]
fn undirected_duplicates_in_reverse_order_are_skipped() {
    let r = read("A-B:1\nB-A:5\n").unwrap();
    let g: UndirectedGraph = r.undirected_graph.unwrap();
    assert_eq!(g.edges.len(), 1);
    assert_eq!(g.edges[0].weight, 1);
}

#[test]
fn empty_file() {
    assert_eq!(read("").unwrap_err().message, "The specified file is empty!");
}

#[test]
fn malformed_first_line() {
    let expected = "The first line of the input file is in a wrong format! Please use these formats: (directed) 'A->B:4' OR (undirected) A-B:46";
    assert_eq!(read("hello").unwrap_err().message, expected);
    assert_eq!(read("\nA-B:1").unwrap_err().message, expected);
    assert_eq!(read("A-B:x").unwrap_err().message, expected);
    assert_eq!(read("A=>B:1").unwrap_err().message, expected);
}

#[test]
fn first_line_weight_too_large() {
    assert_eq!(
        read("A-B:65536").unwrap_err().message,
        "Couldn't convert the first line A-B:65536 to valid edge data!"
    );
    let r = read("A-B:65535").unwrap();
    assert_eq!(r.undirected_graph.unwrap().edges[0].weight, 65535);
}

#[test]
fn mixed_syntax_is_rejected() {
    assert_eq!(
        read("A->B:1\nB-C:2").unwrap_err().message,
        "Invalid line syntax on the line B-C:2! Please use only 'A->B:2' or 'A-B:5' to stay consistent!"
    );
    assert_eq!(
        read("A-B:1\nB->C:2").unwrap_err().message,
        "Invalid line syntax on the line B->C:2! Please use only 'A->B:2' or 'A-B:5' to stay consistent!"
    );
    assert_eq!(
        read("A-B:1\nB-C:2 ").unwrap_err().message,
        "Couldn't convert line 'B-C:2 ' to valid graph data!"
    );
}

#[test]
fn later_weight_too_large() {
    assert_eq!(
        read("A-B:1\nB-C:99999").unwrap_err().message,
        "Couldn't convert line 'B-C:99999' to valid graph data!"
    );
}

#[test]
fn result_holds_one_graph() {
    assert!(FileInputGraphResult::new(
        Some(DirectedGraph::default()),
        Some(UndirectedGraph::default())
    )
    .is_none());
    let r = FileInputGraphResult::new(None, Some(UndirectedGraph::default())).unwrap();
    assert!(r.directed_graph.is_none());
    assert_eq!(InvalidDataInputError::new("m".to_string()).message, "m");
}

#[test]
fn text_around_an_edge_pattern_is_kept_in_the_names() {
    let g = read(" A-B:7").unwrap().undirected_graph.unwrap();
    assert_eq!(node_ids(&g), vec![" A", "B"]);
    let g = read("Ulm Nord-B:5\nB-C:3").unwrap().undirected_graph.unwrap();
    assert_eq!(node_ids(&g), vec!["Ulm Nord", "B", "C"]);
    assert_eq!(g.edges[1].weight, 3);
    let g = read("A-B:5:7").unwrap().undirected_graph.unwrap();
    assert_eq!(g.edges[0].weight, 5);
    let g = read("x-y:1 A->B:+5").unwrap().directed_graph.unwrap();
    assert_eq!(node_ids(&g), vec!["x-y:1 A", "B"]);
    assert_eq!(g.edges[0].weight, 5);
}

#[test]
fn lines_that_split_badly_are_refused() {
    assert_eq!(
        read("A-B-C:5").unwrap_err().message,
        "Couldn't convert the first line A-B-C:5 to valid edge data!"
    );
    assert_eq!(
        read("A->B->C:5").unwrap_err().message,
        "Couldn't convert the first line A->B->C:5 to valid edge data!"
    );
    assert_eq!(
        read("A-B:1\nB-Ulm Sued:3").unwrap_err().message,
        "Invalid line syntax on the line B-Ulm Sued:3! Please use only 'A->B:2' or 'A-B:5' to stay consistent!"
    );
    assert_eq!(
        read("A-B:1\nC-D:2 junk").unwrap_err().message,
        "Couldn't convert line 'C-D:2 junk' to valid graph data!"
    );
}
