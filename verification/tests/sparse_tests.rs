use sifter::codec::sif_to_graph;
use sifter::graph::MappedGraph;
use sifter::sparse::{graph_to_json, json_to_graph, to_json, to_sif, JSONGraph, SerialJSON, SparseError};

fn sorted_pairs(g: &MappedGraph) -> Vec<(String, String, String)> {
    let mut out = Vec::new();
    for e in &g.edges {
        let a = g.nodes[e.a].name.clone();
        let b = g.nodes[e.b].name.clone();
        let (x, y) = if a <= b { (a, b) } else { (b, a) };
        out.push((x, y, e.label.clone()));
    }
    out.sort();
    out
}

fn doc_of(nodes: Vec<&str>, indices: Vec<usize>, indptr: Vec<usize>) -> SerialJSON {
    SerialJSON {
        model: String::from("normalized-channel"),
        source_nodes: vec![String::from("Test")],
        sink_nodes: vec![String::from("Test")],
        graph: JSONGraph {
            nodes: nodes.into_iter().map(String::from).collect(),
            data: Vec::new(),
            indices,
            indptr,
        },
    }
}

#[test]
fn export_shape_of_two_edges() {
    let doc = to_json("A\tbinds\tB\nB\tactivates\tC\n");
    assert_eq!(
        doc.graph.nodes,
        vec![String::from("A"), String::from("B"), String::from("C")]
    );
    assert_eq!(doc.graph.indptr, vec![0, 1, 3, 4]);
    assert_eq!(doc.graph.indices, vec![1, 0, 2, 1]);
    assert_eq!(doc.graph.data, vec![String::from("1.0"); 3]);
    assert_eq!(doc.model, "normalized-channel");
    assert_eq!(doc.source_nodes, vec![String::from("Test")]);
    assert_eq!(doc.sink_nodes, vec![String::from("Test")]);
}

#[test]
fn export_of_empty_graph() {
    let doc = to_json("");
    assert!(doc.graph.nodes.is_empty());
    assert_eq!(doc.graph.indptr, vec![0]);
    assert!(doc.graph.indices.is_empty());
}

#[test]
fn sparse_round_trip_keeps_names_and_connectivity() {
    let g = sif_to_graph("A\tbinds\tB\nB\tactivates\tC\nC\tx\tA\n");
    let doc = graph_to_json(&g);
    let g2 = json_to_graph(&doc).unwrap();
    assert_eq!(g2.names(), g.names());
    let p2 = sorted_pairs(&g2);
    assert_eq!(
        p2,
        vec![
            (String::from("A"), String::from("B"), String::from("json")),
            (String::from("A"), String::from("C"), String::from("json")),
            (String::from("B"), String::from("C"), String::from("json")),
        ]
    );
}

#[test]
fn to_sif_of_exported_document() {
    let doc = to_json("A\tb\tB\n");
    let text = to_sif(&doc).unwrap();
    assert_eq!(text, "A\tjson\tB\n");
}

#[test]
fn import_rejects_wrong_pointer_count() {
    let doc = doc_of(vec!["A", "B"], vec![], vec![0, 0]);
    assert_eq!(json_to_graph(&doc).unwrap_err(), SparseError::PointerShape);
}

#[test]
fn import_rejects_nonzero_first_pointer() {
    let doc = doc_of(vec!["A", "B"], vec![], vec![1, 1, 1]);
    assert_eq!(json_to_graph(&doc).unwrap_err(), SparseError::PointerShape);
}

#[test]
fn import_rejects_decreasing_pointers() {
    let doc = doc_of(vec!["A", "B"], vec![1, 0], vec![0, 2, 1]);
    assert_eq!(json_to_graph(&doc).unwrap_err(), SparseError::PointerRange);
}

#[test]
fn import_rejects_pointer_total_mismatch() {
    let doc = doc_of(vec!["A", "B"], vec![1], vec![0, 1, 2]);
    assert_eq!(json_to_graph(&doc).unwrap_err(), SparseError::PointerRange);
}

#[test]
fn import_rejects_out_of_range_index() {
    let doc = doc_of(vec!["A", "B"], vec![2, 0], vec![0, 1, 2]);
    assert_eq!(json_to_graph(&doc).unwrap_err(), SparseError::IndexRange);
}

#[test]
fn import_accepts_a_handwritten_document() {
    let doc = doc_of(vec!["A", "B", "C"], vec![1, 0, 2, 1], vec![0, 1, 3, 4]);
    let g = json_to_graph(&doc).unwrap();
    assert_eq!(
        g.names(),
        vec![String::from("A"), String::from("B"), String::from("C")]
    );
    assert_eq!(
        sorted_pairs(&g),
        vec![
            (String::from("A"), String::from("B"), String::from("json")),
            (String::from("B"), String::from("C"), String::from("json")),
        ]
    );
}

#[test]
fn to_sif_forwards_import_errors() {
    let doc = doc_of(vec!["A"], vec![], vec![0]);
    assert_eq!(to_sif(&doc).unwrap_err(), SparseError::PointerShape);
}
