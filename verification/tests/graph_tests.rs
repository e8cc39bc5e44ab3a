use gtrie::bitgraph::Bitgraph;
use gtrie::io::{load_numeric_graph_from_buffer, load_repr, pattern_label, GraphError};
use petgraph::{Directed, Graph};

fn build_graph() -> Graph<(), (), Directed> {
    let edges = vec![(1, 0), (2, 0)];

    Graph::from_edges(&edges)
}

#[test]
fn test_from_graph() {
    let graph = build_graph();
    let bitgraph = Bitgraph::from_graph(&graph).unwrap();
    assert_eq!(bitgraph.n_nodes(), 3);
    for i in 0..bitgraph.n_nodes() {
        for j in 0..bitgraph.n_nodes() {
            if i == 1 && j == 0 {
                assert!(bitgraph.is_connected(i, j));
            } else if i == 2 && j == 0 {
                assert!(bitgraph.is_connected(i, j));
            } else {
                assert!(!bitgraph.is_connected(i, j));
            }
        }
    }
}

#[test]
fn from_edges_builds_neighbors() {
    let edges = vec![(0usize, 1usize), (2, 1), (0, 1)];
    let g = Bitgraph::from_edges(3, true, &edges);
    assert_eq!(g.n_nodes(), 3);
    assert!(g.is_connected(0, 1));
    assert!(!g.is_connected(1, 0));
    assert!(g.is_connected(2, 1));
    assert_eq!(g.neighbors(0), &vec![1]);
    assert_eq!(g.neighbors(1), &vec![0, 2]);
    assert_eq!(g.neighbors(2), &vec![1]);
    let bits = g.as_bitvec();
    assert_eq!(bits, vec![0, 1, 0, 0, 0, 0, 0, 1, 0]);
}

#[test]
fn load_repr_small_digraph() {
    // "&AG" encodes the two-vertex graph whose only arc runs 1 -> 0.
    let g = load_repr("&AG").unwrap();
    assert_eq!(g.n_nodes(), 2);
    assert!(!g.is_connected(0, 0));
    assert!(!g.is_connected(0, 1));
    assert!(g.is_connected(1, 0));
    assert!(!g.is_connected(1, 1));
}

#[test]
fn load_repr_rejects_garbage() {
    assert_eq!(load_repr("").unwrap_err(), GraphError::BadGraph6);
    assert_eq!(load_repr("AG").unwrap_err(), GraphError::BadGraph6);
    assert_eq!(load_repr("&").unwrap_err(), GraphError::BadGraph6);
    // a size byte of 127 decodes to 64 vertices, past the single-byte limit
    assert_eq!(load_repr("&\u{7f}").unwrap_err(), GraphError::BadGraph6);
}

#[test]
fn pattern_label_round_trips() {
    let edges = vec![(1usize, 0usize)];
    let g = Bitgraph::from_edges(2, true, &edges);
    let label = pattern_label(&g);
    assert_eq!(label, "&AG");
    let back = load_repr(&label).unwrap();
    assert_eq!(back.n_nodes(), 2);
    assert!(back.is_connected(1, 0));
    assert!(!back.is_connected(0, 1));
}

#[test]
fn numeric_loader_reads_edge_list() {
    let text = b"1 2\n2 3\n3 1\n1 3\n".to_vec();
    let g = load_numeric_graph_from_buffer(&text, true).unwrap();
    assert_eq!(g.n_nodes(), 3);
    assert!(g.is_connected(0, 1));
    assert!(g.is_connected(1, 2));
    assert!(g.is_connected(2, 0));
    assert!(g.is_connected(0, 2));
    assert!(!g.is_connected(1, 0));
}

#[test]
fn numeric_loader_drops_self_loop_when_asked() {
    // A file holding only the loop `5 5`: without loops the edge vanishes
    // (leaving an empty graph), with loops vertex 5 carries its loop.
    let text = b"5 5\n".to_vec();
    let g = load_numeric_graph_from_buffer(&text, false).unwrap();
    assert_eq!(g.n_nodes(), 0);
    let g2 = load_numeric_graph_from_buffer(&text, true).unwrap();
    assert_eq!(g2.n_nodes(), 5);
    assert!(g2.is_connected(4, 4));
}

#[test]
fn numeric_loader_rejects_zero_index() {
    let text = b"0 1\n".to_vec();
    let err = load_numeric_graph_from_buffer(&text, true).unwrap_err();
    assert_eq!(err, GraphError::ZeroIndexed);
    let words = err.message();
    assert!(words.contains("1-indexed"));
}

#[test]
fn numeric_loader_rejects_partial_line() {
    let text = b"1 2\n7\n".to_vec();
    assert_eq!(
        load_numeric_graph_from_buffer(&text, true).unwrap_err(),
        GraphError::MissingField
    );
    let bad = b"1 x\n".to_vec();
    assert_eq!(
        load_numeric_graph_from_buffer(&bad, true).unwrap_err(),
        GraphError::BadNumber
    );
    let huge = b"1 99999999999\n".to_vec();
    assert_eq!(
        load_numeric_graph_from_buffer(&huge, true).unwrap_err(),
        GraphError::BadNumber
    );
}

#[test]
fn numeric_loader_skips_blank_lines_and_crlf() {
    let text = b"1 2\r\n\r\n2 1\n\n".to_vec();
    let g = load_numeric_graph_from_buffer(&text, true).unwrap();
    assert_eq!(g.n_nodes(), 2);
    assert!(g.is_connected(0, 1));
    assert!(g.is_connected(1, 0));
}
