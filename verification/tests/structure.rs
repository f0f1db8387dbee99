use graph::edge::Edge;
use graph::graph::{Bounded, Graph};
use graph::node::Node;
use graph::path::{KeySet, Path, SharedPath};

fn key_set(keys: &[u64]) -> KeySet {
    let mut ks = KeySet::new();
    for k in keys {
        ks.insert(*k);
    }
    ks
}

#[test]
fn edge_new_keeps_fields() {
    let e = Edge::new(7, 1, 2, -5);
    assert_eq!(e.id, 7);
    assert_eq!(e.a, 1);
    assert_eq!(e.b, 2);
    assert_eq!(e.h, -5);
}

#[test]
fn key_set_deduplicates() {
    let mut ks = KeySet::new();
    assert_eq!(ks.len(), 0);
    assert!(!ks.contains(&4));
    ks.insert(4);
    ks.insert(9);
    ks.insert(4);
    assert_eq!(ks.len(), 2);
    assert!(ks.contains(&4));
    assert!(ks.contains(&9));
    assert!(!ks.contains(&5));
}

#[test]
fn bounded_i32_limits() {
    assert_eq!(<i32 as Bounded>::min_value(), i32::MIN);
    assert_eq!(<i32 as Bounded>::max_value(), i32::MAX);
}

#[test]
fn generate_edges_sequential_ids() {
    let mut g: Graph<Node> = Graph::new();
    let mut n1 = Node::new(1);
    n1.link(2, 3);
    n1.link(3, 4);
    g.add_node(1, n1);
    g.add_node(2, Node::new(2));
    g.add_node(3, Node::new(3));
    let es = g.generate_edges(&1);
    assert_eq!(es.len(), 2);
    assert_eq!((es[0].id, es[0].a, es[0].b, es[0].h), (0, 1, 2, 3));
    assert_eq!((es[1].id, es[1].a, es[1].b, es[1].h), (1, 1, 3, 4));
}

#[test]
fn generate_edges_absent_key_is_empty() {
    let mut g: Graph<Node> = Graph::new();
    g.add_node(1, Node::new(1));
    assert!(g.generate_edges(&42).is_empty());
    assert!(g.generate_edges(&1).is_empty());
}

#[test]
fn propagate_path_extends_by_each_edge() {
    let mut g: Graph<Node> = Graph::new();
    g.add_node(1, Node::new(1));
    let mut n2 = Node::new(2);
    n2.link(3, 4);
    n2.link(4, 6);
    g.add_node(2, n2);
    g.add_node(3, Node::new(3));
    g.add_node(4, Node::new(4));

    let base = Path {
        total: 3,
        path: vec![Edge::new(0, 1, 2, 3)],
        nodes: key_set(&[1, 2]),
    };
    let exts = g.propagate_path(SharedPath::new(base));
    assert_eq!(exts.len(), 2);
    assert_eq!(exts[0].inner.total, 7);
    assert_eq!(exts[0].inner.path.len(), 2);
    assert_eq!(exts[0].inner.path[1].b, 3);
    assert!(exts[0].inner.nodes.contains(&3));
    assert_eq!(exts[0].inner.nodes.len(), 3);
    assert_eq!(exts[1].inner.total, 9);
    assert_eq!(exts[1].inner.path[1].b, 4);
}

#[test]
fn path_ordering_is_reversed_by_total() {
    let cheap = Path {
        total: 3,
        path: vec![Edge::new(0, 1, 2, 3)],
        nodes: key_set(&[1, 2]),
    };
    let dear = Path {
        total: 5,
        path: vec![Edge::new(0, 1, 3, 5)],
        nodes: key_set(&[1, 3]),
    };
    // The larger total sorts as the lesser path.
    assert_eq!(dear.partial_cmp(&cheap), Some(std::cmp::Ordering::Less));
    assert_eq!(cheap.partial_cmp(&dear), Some(std::cmp::Ordering::Greater));
    assert!(dear < cheap);
    let same = Path {
        total: 5,
        path: vec![Edge::new(1, 9, 9, 5)],
        nodes: key_set(&[9]),
    };
    assert_eq!(dear.partial_cmp(&same), Some(std::cmp::Ordering::Equal));
}

#[test]
fn path_equality_uses_total_and_edges() {
    let p1 = Path {
        total: 3,
        path: vec![Edge::new(0, 1, 2, 3)],
        nodes: key_set(&[1, 2]),
    };
    let p2 = Path {
        total: 3,
        path: vec![Edge::new(0, 1, 2, 3)],
        nodes: key_set(&[2, 1]),
    };
    let p3 = Path {
        total: 3,
        path: vec![Edge::new(0, 1, 4, 3)],
        nodes: key_set(&[1, 4]),
    };
    assert!(p1 == p2);
    assert!(p1 != p3);
}

#[test]
fn shared_path_delegates_to_inner() {
    let p1 = Path {
        total: 4,
        path: vec![Edge::new(0, 1, 2, 4)],
        nodes: key_set(&[1, 2]),
    };
    let p2 = Path {
        total: 9,
        path: vec![Edge::new(0, 1, 3, 9)],
        nodes: key_set(&[1, 3]),
    };
    let s1 = SharedPath::new(p1);
    let s2 = SharedPath::new(p2);
    let s1b = s1.duplicate();
    assert!(s1 == s1b);
    assert!(s1 != s2);
    assert_eq!(s2.partial_cmp(&s1), Some(std::cmp::Ordering::Less));
    assert!(s2 < s1);
}

#[test]
fn node_reports_its_links() {
    let mut g: Graph<Node> = Graph::new();
    let mut n = Node::new(5);
    n.link(6, -2);
    g.add_node(5, n);
    g.add_node(6, Node::new(6));
    let es = g.generate_edges(&5);
    assert_eq!(es.len(), 1);
    assert_eq!((es[0].a, es[0].b, es[0].h), (5, 6, -2));
}
