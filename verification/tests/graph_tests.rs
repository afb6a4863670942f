use sifter::graph::{MappedGraph, Node};

fn handle_of(g: &MappedGraph, name: &str) -> Option<usize> {
    g.find_node(&String::from(name))
}

fn edge_label<'a>(g: &'a MappedGraph, a: usize, b: usize) -> Option<&'a str> {
    for e in &g.edges {
        if (e.a == a && e.b == b) || (e.a == b && e.b == a) {
            return Some(e.label.as_str());
        }
    }
    None
}

#[test]
fn intern_idempotent_same_handle() {
    let mut g = MappedGraph::new();
    let h1 = g.add_node(Node::new(String::from("A")));
    let h2 = g.add_node(Node::new(String::from("A")));
    assert_eq!(h1, h2);
    assert_eq!(g.nodes.len(), 1);
}

#[test]
fn intern_assigns_fresh_handles_in_order() {
    let mut g = MappedGraph::new();
    let a = g.add_node(Node::new(String::from("A")));
    let b = g.add_node(Node::new(String::from("B")));
    let a2 = g.add_node(Node::new(String::from("A")));
    assert_eq!(a, 0);
    assert_eq!(b, 1);
    assert_eq!(a2, 0);
    assert_eq!(g.names(), vec![String::from("A"), String::from("B")]);
}

#[test]
fn add_edge_overwrites_label_for_same_pair() {
    let mut g = MappedGraph::new();
    let a = g.add_node(Node::new(String::from("A")));
    let b = g.add_node(Node::new(String::from("B")));
    g.add_edge(a, b, String::from("first"));
    g.add_edge(a, b, String::from("second"));
    assert_eq!(g.edges.len(), 1);
    assert_eq!(edge_label(&g, a, b), Some("second"));
}

#[test]
fn add_edge_overwrites_in_reversed_orientation() {
    let mut g = MappedGraph::new();
    let a = g.add_node(Node::new(String::from("A")));
    let b = g.add_node(Node::new(String::from("B")));
    g.add_edge(a, b, String::from("first"));
    g.add_edge(b, a, String::from("second"));
    assert_eq!(g.edges.len(), 1);
    assert_eq!(edge_label(&g, a, b), Some("second"));
}

#[test]
fn self_loop_is_one_pair() {
    let mut g = MappedGraph::new();
    let a = g.add_node(Node::new(String::from("A")));
    g.add_edge(a, a, String::from("l"));
    g.add_edge(a, a, String::from("m"));
    assert_eq!(g.edges.len(), 1);
    assert_eq!(edge_label(&g, a, a), Some("m"));
}

#[test]
fn find_node_absent() {
    let mut g = MappedGraph::new();
    g.add_node(Node::new(String::from("A")));
    assert_eq!(handle_of(&g, "A"), Some(0));
    assert_eq!(handle_of(&g, "B"), None);
}
