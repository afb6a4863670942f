use sifter::codec::sif_to_graph;
use sifter::graph::MappedGraph;
use sifter::ops::{overlay, sif_overlay, sif_quick_remove, sif_union, union};

fn sorted_names(g: &MappedGraph) -> Vec<String> {
    let mut v = g.names();
    v.sort();
    v
}

fn sorted_pairs(g: &MappedGraph) -> Vec<(String, String, String)> {
    let mut out = Vec::new();
    for e in &g.edges {
        let a = g.nodes[e.a].name.clone();
        let b = g.nodes[e.b].name.clone();
        let (x, y) = if a <= b { (a, b) } else { (b, a) };
        out.push((x, y, e.label.clone()));
    }
    out.sort();
    out
}

#[test]
fn union_of_two_texts() {
    let u = sif_union("A\tx\tB\n", "B\ty\tC\n");
    assert_eq!(
        sorted_names(&u),
        vec![String::from("A"), String::from("B"), String::from("C")]
    );
    assert_eq!(
        sorted_pairs(&u),
        vec![
            (String::from("A"), String::from("B"), String::from("-")),
            (String::from("B"), String::from("C"), String::from("-")),
        ]
    );
}

#[test]
fn union_is_commutative_on_nodes_and_pairs() {
    let a = sif_to_graph("A\tx\tB\nC\ty\tD\n");
    let b = sif_to_graph("B\tz\tC\nA\tw\tB\n");
    let u1 = union(&a, &b);
    let u2 = union(&b, &a);
    assert_eq!(sorted_names(&u1), sorted_names(&u2));
    assert_eq!(sorted_pairs(&u1), sorted_pairs(&u2));
}

#[test]
fn union_collapses_shared_pairs_to_one_neutral_edge() {
    let u = sif_union("A\tfirst\tB\n", "B\tsecond\tA\n");
    assert_eq!(u.edges.len(), 1);
    assert_eq!(
        sorted_pairs(&u),
        vec![(String::from("A"), String::from("B"), String::from("-"))]
    );
}

#[test]
fn overlay_adds_no_node_and_projects_shared_pairs() {
    let secondary = sif_to_graph("A\ts\tB\nA\ts\tD\n");
    let mut primary = sif_to_graph("A\tp\tB\nB\tp\tC\n");
    let nodes_before = primary.nodes.len();
    overlay(&secondary, &mut primary);
    assert_eq!(primary.nodes.len(), nodes_before);
    assert_eq!(
        sorted_pairs(&primary),
        vec![
            (String::from("A"), String::from("B"), String::from("OVERLAY")),
            (String::from("B"), String::from("C"), String::from("p")),
        ]
    );
}

#[test]
fn overlay_creates_missing_edges_between_shared_nodes() {
    let secondary = sif_to_graph("A\ts\tC\n");
    let mut primary = sif_to_graph("A\tp\tB\nB\tq\tC\n");
    overlay(&secondary, &mut primary);
    assert_eq!(
        sorted_pairs(&primary),
        vec![
            (String::from("A"), String::from("B"), String::from("p")),
            (String::from("A"), String::from("C"), String::from("OVERLAY")),
            (String::from("B"), String::from("C"), String::from("q")),
        ]
    );
}

#[test]
fn overlay_is_idempotent() {
    let secondary = sif_to_graph("A\ts\tB\n");
    let mut once = sif_to_graph("A\tp\tB\nB\tp\tC\n");
    overlay(&secondary, &mut once);
    let mut twice = sif_to_graph("A\tp\tB\nB\tp\tC\n");
    overlay(&secondary, &mut twice);
    overlay(&secondary, &mut twice);
    assert_eq!(sorted_names(&once), sorted_names(&twice));
    assert_eq!(sorted_pairs(&once), sorted_pairs(&twice));
}

#[test]
fn sif_overlay_from_texts() {
    let g = sif_overlay("A\ts\tB\n", "B\tp\tA\nB\tp\tC\n");
    assert_eq!(
        sorted_pairs(&g),
        vec![
            (String::from("A"), String::from("B"), String::from("OVERLAY")),
            (String::from("B"), String::from("C"), String::from("p")),
        ]
    );
}

#[test]
fn remove_drops_lines_touching_excluded_names() {
    let out = sif_quick_remove("B\n", "A\tx\tB\nC\ty\tD\nB\tz\tC\n");
    assert_eq!(out, "C\ty\tD\n");
}

#[test]
fn remove_drops_malformed_lines_too() {
    let out = sif_quick_remove("Q\n", "A\tx\tB\nnot a record\nC\ty\tD\textra\n");
    assert_eq!(out, "A\tx\tB\n");
}

#[test]
fn remove_with_empty_exclusion_keeps_well_formed_lines() {
    let out = sif_quick_remove("", "A\tx\tB\nC\ty\tD\n");
    assert_eq!(out, "A\tx\tB\nC\ty\tD\n");
}

#[test]
fn remove_never_outputs_excluded_endpoint() {
    let out = sif_quick_remove("X\nY\n", "X\ta\tB\nB\tb\tY\nB\tc\tC\nX\td\tY\n");
    for line in out.lines() {
        let fields: Vec<&str> = line.split('\t').collect();
        assert_eq!(fields.len(), 3);
        assert!(fields[0] != "X" && fields[0] != "Y");
        assert!(fields[2] != "X" && fields[2] != "Y");
    }
    assert_eq!(out, "B\tc\tC\n");
}
