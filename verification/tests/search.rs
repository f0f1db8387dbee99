use graph::bellman;
use graph::graph::Graph;
use graph::node::Node;
use graph::pathfinder;
use graph::pathfinder::Pathfind as _;

/// The three-node diamond: 1->2 costs 1, 2->3 costs 1, 1->3 costs 3.
fn diamond() -> Graph<Node> {
    let mut g: Graph<Node> = Graph::new();
    let mut n1 = Node::new(1);
    n1.link(2, 1);
    n1.link(3, 3);
    let mut n2 = Node::new(2);
    n2.link(3, 1);
    g.add_node(1, n1);
    g.add_node(2, n2);
    g.add_node(3, Node::new(3));
    g
}

#[test]
fn a_star_prefers_cheaper_two_edge_path() {
    let mut g = diamond();
    let r = g.a_star(&1, &3);
    assert_eq!(r.len(), 1);
    let p = &r[0].inner;
    assert_eq!(p.total, 2);
    assert_eq!(p.path.len(), 2);
    assert_eq!((p.path[0].a, p.path[0].b), (1, 2));
    assert_eq!((p.path[1].a, p.path[1].b), (2, 3));
}

#[test]
fn a_star_isolated_source_finds_nothing() {
    let mut g: Graph<Node> = Graph::new();
    g.add_node(1, Node::new(1));
    assert!(g.a_star(&1, &2).is_empty());
    assert!(g.a_star(&9, &1).is_empty());
}

#[test]
fn bellman_single_target_finds_cheapest_simple_path() {
    let g = diamond();
    let r = pathfinder::Pathfind::bellman_ford(&g, &1, &3).expect("a path to 3");
    assert_eq!(r.inner.total, 2);
    assert_eq!(r.inner.path.len(), 2);
    assert_eq!(r.inner.path[0].b, 2);
    assert_eq!(r.inner.path[1].b, 3);
    assert_eq!(r.inner.nodes.len(), 3);
}

#[test]
fn bellman_single_target_source_is_empty_path() {
    let g = diamond();
    let r = pathfinder::Pathfind::bellman_ford(&g, &1, &1).expect("the seed path");
    assert_eq!(r.inner.total, 0);
    assert!(r.inner.path.is_empty());
    assert!(r.inner.nodes.contains(&1));
}

#[test]
fn bellman_single_target_unreached_is_none() {
    let mut g = diamond();
    g.add_node(4, Node::new(4));
    assert!(pathfinder::Pathfind::bellman_ford(&g, &1, &4).is_none());
    // An isolated source reaches no other node.
    assert!(pathfinder::Pathfind::bellman_ford(&g, &3, &1).is_none());
}

#[test]
fn bellman_all_reports_routes_and_costs() {
    let mut g = diamond();
    let m = bellman::Pathfind::bellman_ford(&mut g, &1).expect("no negative cycle");
    assert_eq!(m.len(), 2);
    let (c2, r2) = m.get(&2).expect("route to 2");
    assert_eq!(*c2, 1);
    assert_eq!(r2.len(), 1);
    assert_eq!((r2[0].a, r2[0].b), (1, 2));
    let (c3, r3) = m.get(&3).expect("route to 3");
    assert_eq!(*c3, 2);
    assert_eq!(r3.len(), 2);
    assert_eq!((r3[0].a, r3[0].b), (1, 2));
    assert_eq!((r3[1].a, r3[1].b), (2, 3));
}

#[test]
fn bellman_all_isolated_source_is_empty_map() {
    let mut g: Graph<Node> = Graph::new();
    g.add_node(1, Node::new(1));
    let m = bellman::Pathfind::bellman_ford(&mut g, &1).expect("nothing to relax");
    assert!(m.is_empty());
}

#[test]
fn bellman_all_reports_negative_cycle() {
    let mut g: Graph<Node> = Graph::new();
    let mut n1 = Node::new(1);
    n1.link(2, -1);
    let mut n2 = Node::new(2);
    n2.link(1, -1);
    g.add_node(1, n1);
    g.add_node(2, n2);
    let cyc = bellman::Pathfind::bellman_ford(&mut g, &1).expect_err("a negative cycle");
    assert_eq!(cyc.len(), 2);
    // A closed walk: consecutive edges meet and it returns to its start.
    assert_eq!(cyc[0].b, cyc[1].a);
    assert_eq!(cyc[1].b, cyc[0].a);
    // Strictly negative total weight.
    let total: i64 = cyc.iter().map(|e| e.h).sum();
    assert_eq!(total, -2);
    // Both edges of the two-cycle appear.
    assert!(cyc.iter().any(|e| e.a == 1 && e.b == 2));
    assert!(cyc.iter().any(|e| e.a == 2 && e.b == 1));
}

#[test]
fn map_enumerates_all_simple_paths() {
    let g = diamond();
    let all = g.map(&1);
    // Both routes end at the dead end 3; nothing is recorded elsewhere.
    // The route 1->2->3 is recorded twice: once as a one-edge extension
    // and once again when it is popped at the dead end 3.
    let to3 = all.get(&3).expect("paths ending at 3");
    assert_eq!(to3.len(), 3);
    assert!(!all.contains_key(&1));
    assert!(!all.contains_key(&2));
    let mut totals: Vec<i64> = to3.iter().map(|p| p.inner.total).collect();
    totals.sort();
    assert_eq!(totals, vec![2, 2, 3]);
    for p in to3 {
        // The recorded node set matches the one rebuilt from the edges.
        let mut rebuilt = vec![p.inner.path[0].a];
        for e in p.inner.path.iter() {
            if !rebuilt.contains(&e.b) {
                rebuilt.push(e.b);
            }
        }
        assert_eq!(rebuilt.len(), p.inner.nodes.len());
        for k in rebuilt {
            assert!(p.inner.nodes.contains(&k));
        }
        // Never more than one revisit: at least as many nodes as edges.
        assert!(p.inner.nodes.len() >= p.inner.path.len());
    }
}

#[test]
fn map_stops_on_revisited_nodes() {
    let mut g: Graph<Node> = Graph::new();
    let mut n1 = Node::new(1);
    n1.link(2, 1);
    let mut n2 = Node::new(2);
    n2.link(1, 1);
    g.add_node(1, n1);
    g.add_node(2, n2);
    let all = g.map(&1);
    // The single branch closes the cycle once and goes no further.
    let to1 = all.get(&1).expect("the one recorded arrival back at 1");
    assert_eq!(to1.len(), 1);
    assert_eq!(to1[0].inner.path.len(), 2);
    assert_eq!(to1[0].inner.nodes.len(), 2);
    assert!(!all.contains_key(&2));
}

/// A five-node graph with several competing routes from 1 to 5.
fn braid() -> Graph<Node> {
    let mut g: Graph<Node> = Graph::new();
    let mut n1 = Node::new(1);
    n1.link(2, 2);
    n1.link(3, 5);
    let mut n2 = Node::new(2);
    n2.link(3, 1);
    n2.link(4, 7);
    let mut n3 = Node::new(3);
    n3.link(4, 2);
    n3.link(5, 9);
    let mut n4 = Node::new(4);
    n4.link(5, 1);
    g.add_node(1, n1);
    g.add_node(2, n2);
    g.add_node(3, n3);
    g.add_node(4, n4);
    g.add_node(5, Node::new(5));
    g
}

#[test]
fn a_star_matches_exhaustive_minimum() {
    let mut g = braid();
    // The exhaustive enumeration records every route into 5; the
    // best-first search must report the cheapest of them (1-2-3-4-5,
    // total 6).
    let all = g.map(&1);
    let min_total = all
        .get(&5)
        .expect("routes to 5")
        .iter()
        .map(|p| p.inner.total)
        .min()
        .expect("at least one route");
    let r = g.a_star(&1, &5);
    assert_eq!(r.len(), 1);
    assert_eq!(r[0].inner.total, min_total);
    assert_eq!(r[0].inner.total, 6);
}

#[test]
fn bellman_all_matches_exhaustive_minimum() {
    let mut g = braid();
    let all = g.map(&1);
    let m = bellman::Pathfind::bellman_ford(&mut g, &1).expect("no negative cycle");
    for target in [2u64, 3, 4, 5] {
        let (cost, route) = m.get(&target).expect("reached node");
        let route_total: i64 = route.iter().map(|e| e.h).sum();
        assert_eq!(*cost, route_total);
        if let Some(paths) = all.get(&target) {
            let min_total = paths.iter().map(|p| p.inner.total).min().unwrap();
            assert!(*cost <= min_total);
        }
    }
    assert_eq!(m.get(&5).expect("route to 5").0, 6);
}

#[test]
fn bellman_single_target_reaches_distant_nodes() {
    let g = braid();
    // Node 5 is four hops from node 1; the cycle-avoiding variant still
    // finds it, at the cheapest simple cost.
    let r = pathfinder::Pathfind::bellman_ford(&g, &1, &5).expect("a path to 5");
    assert_eq!(r.inner.total, 6);
    assert_eq!(r.inner.path.len(), 4);
    assert_eq!(r.inner.path[3].b, 5);
}

#[test]
fn bellman_all_is_deterministic() {
    let mut g1 = braid();
    let mut g2 = braid();
    let m1 = bellman::Pathfind::bellman_ford(&mut g1, &1).expect("no negative cycle");
    let m2 = bellman::Pathfind::bellman_ford(&mut g2, &1).expect("no negative cycle");
    assert_eq!(m1.len(), m2.len());
    for (k, (c1, r1)) in m1.iter() {
        let (c2, r2) = m2.get(k).expect("same keys");
        assert_eq!(c1, c2);
        assert_eq!(r1.len(), r2.len());
        for (e1, e2) in r1.iter().zip(r2.iter()) {
            assert_eq!((e1.a, e1.b, e1.h), (e2.a, e2.b, e2.h));
        }
    }
}

#[test]
fn map_isolated_source_is_empty() {
    let mut g: Graph<Node> = Graph::new();
    g.add_node(1, Node::new(1));
    assert!(g.map(&1).is_empty());
}
