use sifter::codec::{graph_to_sif, malformed_lines, nodes, sif_to_graph};
use sifter::graph::MappedGraph;

fn name_pairs(g: &MappedGraph) -> Vec<(String, String, String)> {
    let mut out = Vec::new();
    for e in &g.edges {
        out.push((
            g.nodes[e.a].name.clone(),
            g.nodes[e.b].name.clone(),
            e.label.clone(),
        ));
    }
    out
}

fn has_pair(pairs: &[(String, String, String)], x: &str, y: &str, label: &str) -> bool {
    pairs.iter().any(|(a, b, l)| {
        l == label && ((a == x && b == y) || (a == y && b == x))
    })
}

#[test]
fn nodes_of_two_records() {
    let got = nodes("A\tbinds\tB\nB\tactivates\tC\n");
    assert_eq!(got, vec![String::from("A"), String::from("B"), String::from("C")]);
}

#[test]
fn nodes_deduplicates_regardless_of_order() {
    let got = nodes("A\tx\tB\nB\ty\tA\nA\tz\tB\n");
    assert_eq!(got, vec![String::from("A"), String::from("B")]);
}

#[test]
fn nodes_skips_malformed_records() {
    let got = nodes("A\tx\tB\nnot three fields\nC\ty\tD\textra\nE\tz\tF\n");
    assert_eq!(
        got,
        vec![String::from("A"), String::from("B"), String::from("E"), String::from("F")]
    );
}

#[test]
fn nodes_of_empty_input() {
    let got = nodes("");
    assert!(got.is_empty());
}

#[test]
fn malformed_positions_are_reported() {
    let got = malformed_lines("A\tx\tB\nbad\nC\ty\tD\n\n");
    assert_eq!(got, vec![1, 3]);
}

#[test]
fn parse_builds_interned_graph() {
    let g = sif_to_graph("A\tbinds\tB\nB\tactivates\tC\n");
    assert_eq!(g.names(), vec![String::from("A"), String::from("B"), String::from("C")]);
    let pairs = name_pairs(&g);
    assert_eq!(pairs.len(), 2);
    assert!(has_pair(&pairs, "A", "B", "binds"));
    assert!(has_pair(&pairs, "B", "C", "activates"));
}

#[test]
fn parse_keeps_one_edge_per_pair_with_last_label() {
    let g = sif_to_graph("A\tfirst\tB\nB\tsecond\tA\n");
    assert_eq!(g.edges.len(), 1);
    let pairs = name_pairs(&g);
    assert!(has_pair(&pairs, "A", "B", "second"));
}

#[test]
fn serialize_emits_one_line_per_edge() {
    let g = sif_to_graph("A\tbinds\tB\nB\tactivates\tC\n");
    let text = graph_to_sif(&g);
    assert_eq!(text, "A\tbinds\tB\nB\tactivates\tC\n");
}

#[test]
fn round_trip_preserves_edge_set() {
    let text = "A\tbinds\tB\nB\tactivates\tC\n";
    let g = sif_to_graph(text);
    let again = sif_to_graph(&graph_to_sif(&g));
    let p1 = name_pairs(&g);
    let p2 = name_pairs(&again);
    assert_eq!(p2.len(), 2);
    for (a, b, l) in &p1 {
        assert!(has_pair(&p2, a, b, l));
    }
    assert!(has_pair(&p2, "A", "B", "binds"));
    assert!(has_pair(&p2, "B", "C", "activates"));
}

#[test]
fn round_trip_may_transpose_endpoints_but_keeps_pairs() {
    let g = sif_to_graph("X\tr\tY\n");
    let text = graph_to_sif(&g);
    let again = sif_to_graph(&text);
    let pairs = name_pairs(&again);
    assert_eq!(pairs.len(), 1);
    assert!(has_pair(&pairs, "X", "Y", "r"));
}

#[test]
fn parse_of_empty_text_is_empty_graph() {
    let g = sif_to_graph("");
    assert!(g.nodes.is_empty());
    assert!(g.edges.is_empty());
    assert_eq!(graph_to_sif(&g), "");
}

#[test]
fn final_record_needs_no_terminator() {
    let g = sif_to_graph("A\tx\tB");
    assert_eq!(g.edges.len(), 1);
    assert_eq!(g.nodes.len(), 2);
}
