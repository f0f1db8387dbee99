//! The adjacency abstraction: a map from node key to node value, where a
//! node value describes its own outgoing connections on demand.

use vstd::prelude::*;
use vstd::seq_lib::*;
use vstd::set_lib::*;
use std::collections::HashMap;
use crate::edge::{Edge, MAX_COST, MAX_NODES};
use crate::path::{
    chained, costs_bounded, edge_targets, extended, sum_costs, KeySet, Path, SharedPath,
};

verus! {

broadcast use vstd::std_specs::hash::group_hash_axioms, vstd::set::group_set_axioms;

/// The contract a connection must satisfy: it can be turned into an edge
/// whose endpoints and cost are the connection's own origin, target and
/// cost, with a caller-chosen sequential identifier.
pub trait Connection: Sized {
    /// The key the connection starts from.
    spec fn origin(&self) -> u64;

    /// The key the connection leads to.
    spec fn target(&self) -> u64;

    /// The cost of following the connection.
    spec fn cost(&self) -> i64;

    /// Materialises the connection as an edge carrying the given id.
    fn into_edge(&self, id: usize) -> (e: Edge)
        ensures
            e == (Edge { id, a: self.origin(), b: self.target(), h: self.cost() }),
    ;
}

/// The contract a node value must satisfy: asked for its connections, it
/// reports, deterministically in the graph's contents, the list of
/// `(target, cost)` pairs given by its specification `conns`, each with
/// the node's own key as origin and a cost within `[-MAX_COST, MAX_COST]`.
pub trait IntoConnections: Sized {
    /// The connection type this node produces.
    type Item: Connection;

    /// The key this node believes it has; a graph stores every node
    /// under this key.
    spec fn key(&self) -> u64;

    /// The `(target, cost)` pairs of the node's outgoing connections,
    /// given the full node map (so a node may filter its candidates by
    /// what else is on the map).
    spec fn conns(&self, m: Map<u64, Self>) -> Seq<(u64, i64)>;

    /// Reports the node's outgoing connections, given the full node map.
    fn into_connections(&self, m: &HashMap<u64, Self>) -> (cs: Vec<Self::Item>)
        ensures
            cs@.len() == self.conns(m@).len(),
            forall|i: int| 0 <= i < cs@.len() ==> {
                &&& (#[trigger] cs@[i]).origin() == self.key()
                &&& cs@[i].target() == self.conns(m@)[i].0
                &&& cs@[i].cost() == self.conns(m@)[i].1
                &&& -MAX_COST <= cs@[i].cost() <= MAX_COST
            },
    ;
}

/// Types with least and greatest values.
pub trait Bounded: Sized {
    /// The least value.
    spec fn spec_min() -> Self;

    /// The greatest value.
    spec fn spec_max() -> Self;

    /// Returns the least value.
    fn min_value() -> (r: Self)
        ensures
            r == Self::spec_min(),
    ;

    /// Returns the greatest value.
    fn max_value() -> (r: Self)
        ensures
            r == Self::spec_max(),
    ;
}

impl Bounded for i32 {
    open spec fn spec_min() -> i32 {
        i32::MIN
    }

    open spec fn spec_max() -> i32 {
        i32::MAX
    }

    fn min_value() -> (r: i32)
        ensures
            r == i32::MIN,
    {
        i32::MIN
    }

    fn max_value() -> (r: i32)
        ensures
            r == i32::MAX,
    {
        i32::MAX
    }
}

/// The edges a well-formed graph generates for key `k`: one edge per
/// connection of the node stored under `k`, with sequential ids starting
/// at 0, or no edges at all when `k` is absent.
pub open spec fn spec_edges<V: IntoConnections>(m: Map<u64, V>, k: u64) -> Seq<Edge> {
    if m.dom().contains(k) {
        Seq::new(
            m[k].conns(m).len(),
            |i: int| Edge { id: i as usize, a: k, b: m[k].conns(m)[i].0, h: m[k].conns(m)[i].1 },
        )
    } else {
        Seq::empty()
    }
}

/// Every edge of `s` is one that the graph `m` generates from the edge's
/// own source key.
pub open spec fn all_graph_edges<V: IntoConnections>(s: Seq<Edge>, m: Map<u64, V>) -> bool {
    forall|i: int| 0 <= i < s.len() ==> spec_edges(m, (#[trigger] s[i]).a).contains(s[i])
}

/// A mapping from node keys to node values.  The map is the only state a
/// graph has; searches read it and never change it.
pub struct Graph<V: IntoConnections> {
    pub(crate) map: HashMap<u64, V>,
}

impl<V: IntoConnections> Graph<V> {
    /// The mathematical content of the graph: which node value sits
    /// under which key.
    pub closed spec fn model(&self) -> Map<u64, V> {
        self.map@
    }

    /// Well-formedness: every node is stored under its own key, and the
    /// node count stays within the supported bound.
    pub open spec fn wf(&self) -> bool {
        &&& forall|k: u64| self.model().dom().contains(k) ==> (#[trigger] self.model()[k]).key() == k
        &&& self.model().dom().len() <= MAX_NODES
    }

    /// A new, empty graph.
    pub fn new() -> (r: Graph<V>)
        ensures
            r.model() == Map::<u64, V>::empty(),
            r.wf(),
    {
        let r = Graph { map: HashMap::new() };
        proof {
            assert(r.model().dom() =~= Set::<u64>::empty());
        }
        r
    }

    /// The graph's key set is finite.
    pub proof fn lemma_model_finite(&self)
        ensures
            self.model().dom().finite(),
    {
        assert(self.map@.dom().finite());
    }

    /// How many nodes the graph holds.
    pub fn node_count(&self) -> (r: usize)
        ensures
            r == self.model().dom().len(),
    {
        self.map.len()
    }

    /// Stores `node` under `key`, replacing any node already there.  A
    /// node must be stored under its own key, and the graph must have
    /// room for it.
    pub fn add_node(&mut self, key: u64, node: V)
        requires
            old(self).wf(),
            node.key() == key,
            old(self).model().dom().len() < MAX_NODES,
        ensures
            final(self).wf(),
            final(self).model() == old(self).model().insert(key, node),
    {
        let ghost before = self.map@;
        self.map.insert(key, node);
        proof {
            assert(self.map@.dom() =~= before.dom().insert(key));
            vstd::set_lib::lemma_len_union::<u64>(before.dom(), Set::empty().insert(key));
            assert(before.dom().union(Set::empty().insert(key)) =~= before.dom().insert(key));
            assert(Set::<u64>::empty().insert(key).len() == 1);
        }
    }

    /// Generates the outgoing edges of the node stored under `key`, with
    /// sequential ids starting at 0 for this call.  An absent key yields
    /// no edges, exactly as a node with no connections does.
    pub fn generate_edges(&self, key: &u64) -> (r: Vec<Edge>)
        requires
            self.wf(),
        ensures
            r@ == spec_edges(self.model(), *key),
            costs_bounded(r@),
    {
        let mut arr: Vec<Edge> = Vec::new();
        let node = match self.map.get(key) {
            Some(node) => node,
            None => {
                proof {
                    assert(!self.model().dom().contains(*key));
                    assert(arr@ =~= spec_edges(self.model(), *key));
                }
                return arr;
            },
        };
        let conns = node.into_connections(&self.map);
        let ghost pairs = node.conns(self.model());
        let mut i: usize = 0;
        while i < conns.len()
            invariant
                self.wf(),
                conns@.len() == pairs.len(),
                forall|j: int| 0 <= j < conns@.len() ==> {
                    &&& (#[trigger] conns@[j]).origin() == *key
                    &&& conns@[j].target() == pairs[j].0
                    &&& conns@[j].cost() == pairs[j].1
                    &&& -MAX_COST <= conns@[j].cost() <= MAX_COST
                },
                pairs == self.model()[*key].conns(self.model()),
                self.model().dom().contains(*key),
                i <= conns@.len(),
                arr@.len() == i,
                forall|j: int| 0 <= j < i ==> arr@[j] == spec_edges(self.model(), *key)[j],
                costs_bounded(arr@),
            decreases conns@.len() - i,
        {
            let e = conns[i].into_edge(i);
            arr.push(e);
            i += 1;
        }
        proof {
            assert(arr@ =~= spec_edges(self.model(), *key));
        }
        arr
    }

    /// Extends `from` by every outgoing edge of its last node: one new
    /// shared path per generated edge, each with that edge appended, its
    /// cost added to the total, and its destination added to the visited
    /// set.
    pub fn propagate_path(&self, from: SharedPath) -> (r: Vec<SharedPath>)
        requires
            self.wf(),
            from.inner.wf(),
            from.inner.path@.len() >= 1,
            from.inner.path@.len() <= MAX_NODES + 1,
        ensures
            ({
                let es = spec_edges(self.model(), from.inner.last_node());
                &&& r@.len() == es.len()
                &&& forall|i: int| 0 <= i < r@.len() ==> {
                    &&& (#[trigger] r@[i]).inner.wf()
                    &&& r@[i].inner.total as int == from.inner.total + es[i].h
                    &&& r@[i].inner.path@ == from.inner.path@.push(es[i])
                    &&& r@[i].inner.nodes@ == from.inner.nodes@.insert(es[i].b)
                }
            }),
    {
        let n = from.inner.path.len();
        let last = from.inner.path[n - 1].b;
        let edges = self.generate_edges(&last);
        let mut out: Vec<SharedPath> = Vec::new();
        let mut i: usize = 0;
        while i < edges.len()
            invariant
                self.wf(),
                from.inner.wf(),
                from.inner.path@.len() >= 1,
                from.inner.path@.len() <= MAX_NODES + 1,
                last == from.inner.last_node(),
                edges@ == spec_edges(self.model(), last),
                costs_bounded(edges@),
                i <= edges@.len(),
                out@.len() == i,
                forall|j: int| 0 <= j < i ==> {
                    &&& (#[trigger] out@[j]).inner.wf()
                    &&& out@[j].inner.total as int == from.inner.total + edges@[j].h
                    &&& out@[j].inner.path@ == from.inner.path@.push(edges@[j])
                    &&& out@[j].inner.nodes@ == from.inner.nodes@.insert(edges@[j].b)
                },
            decreases edges@.len() - i,
        {
            let e = edges[i];
            proof {
                assert(e.a == last);
            }
            let p = extended(&from.inner, &e);
            out.push(SharedPath::new(p));
            i += 1;
        }
        out
    }
}

/// `q` is recorded in the enumeration result `r` under key `k`.
pub open spec fn path_recorded(r: Map<u64, Vec<SharedPath>>, k: u64, q: Seq<Edge>) -> bool {
    r.dom().contains(k) && exists|j: int| 0 <= j < r[k]@.len() && (#[trigger] r[k]@[j]).inner.path@
        == q
}

/// Under key `k`, `a` holds everything `b` holds, in place.
pub open spec fn grows_at(b: Map<u64, Vec<SharedPath>>, a: Map<u64, Vec<SharedPath>>, k: u64) -> bool {
    &&& a.dom().contains(k)
    &&& b[k]@.len() <= a[k]@.len()
    &&& forall|j: int| 0 <= j < b[k]@.len() ==> a[k]@[j] == b[k]@[j]
}

/// `a` extends `b`: every list of recorded paths only grows at its end.
pub open spec fn grows(b: Map<u64, Vec<SharedPath>>, a: Map<u64, Vec<SharedPath>>) -> bool {
    forall|k: u64| b.dom().contains(k) ==> #[trigger] grows_at(b, a, k)
}

/// Whatever was recorded stays recorded as the result grows.
proof fn lemma_grows_recorded(
    b: Map<u64, Vec<SharedPath>>,
    a: Map<u64, Vec<SharedPath>>,
    k: u64,
    q: Seq<Edge>,
)
    requires
        grows(b, a),
        path_recorded(b, k, q),
    ensures
        path_recorded(a, k, q),
{
    let j = choose|j: int| 0 <= j < b[k]@.len() && (#[trigger] b[k]@[j]).inner.path@ == q;
    assert(grows_at(b, a, k));
    assert(a[k]@[j].inner.path@ == q);
}

/// Growth of the recorded result composes.
proof fn lemma_grows_trans(
    x: Map<u64, Vec<SharedPath>>,
    y: Map<u64, Vec<SharedPath>>,
    z: Map<u64, Vec<SharedPath>>,
)
    requires
        grows(x, y),
        grows(y, z),
    ensures
        grows(x, z),
{
    assert forall|k: u64| x.dom().contains(k) implies #[trigger] grows_at(x, z, k) by {
        assert(grows_at(x, y, k));
        assert(grows_at(y, z, k));
        assert forall|j: int| 0 <= j < x[k]@.len() implies z[k]@[j] == x[k]@[j] by {
            assert(y[k]@[j] == x[k]@[j]);
            assert(z[k]@[j] == y[k]@[j]);
        }
    }
}

/// `t` is a branch the enumeration must follow out of a path that ends
/// at `last` having visited `nodes`: it chains on from `last` through
/// graph edges, and every node it reaches before its final step is
/// fresh (not yet visited and not reached twice within `t`).
pub open spec fn explorable<V: IntoConnections>(
    t: Seq<Edge>,
    last: u64,
    nodes: Set<u64>,
    m: Map<u64, V>,
) -> bool {
    &&& t.len() >= 1
    &&& t[0].a == last
    &&& chained(t)
    &&& all_graph_edges(t, m)
    &&& (forall|i: int| 0 <= i < t.len() - 1 ==> !nodes.contains((#[trigger] t[i]).b))
    &&& (forall|i: int, j: int| 0 <= j < i < t.len() - 1 ==> (#[trigger] t[i]).b != (#[trigger] t[j]).b)
}

/// A branch the enumeration must follow from scratch: two or more
/// chained graph edges out of `from` that never re-enter `from` and
/// never reach the same node twice before the final step.
pub open spec fn enumerable<V: IntoConnections>(q: Seq<Edge>, from: u64, m: Map<u64, V>) -> bool {
    &&& q.len() >= 2
    &&& q[0].a == from
    &&& chained(q)
    &&& all_graph_edges(q, m)
    &&& (forall|i: int| 0 <= i < q.len() - 1 ==> (#[trigger] q[i]).b != from)
    &&& (forall|i: int, j: int| 0 <= j < i < q.len() - 1 ==> (#[trigger] q[i]).b != (#[trigger] q[j]).b)
}

/// Every recorded path of the enumeration result `r` is a well-formed
/// walk of graph edges from `from` to the key it is recorded under, and
/// revisits at most one node (its edge count exceeds its visited-set
/// size by at most one).
pub open spec fn rec_ok<V: IntoConnections>(
    r: Map<u64, Vec<SharedPath>>,
    m: Map<u64, V>,
    from: u64,
) -> bool {
    &&& forall|k: u64| r.dom().contains(k) ==> (#[trigger] r[k])@.len() >= 1
    &&& forall|k: u64, j: int|
        r.dom().contains(k) && 0 <= j < r[k]@.len() ==> {
            let p = (#[trigger] r[k]@[j]).inner;
            &&& p.wf()
            &&& p.path@.len() >= 1
            &&& p.path@[0].a == from
            &&& p.path@.last().b == k
            &&& p.path@.len() <= p.nodes@.len() + 1
            &&& all_graph_edges(p.path@, m)
            &&& (p.path@.len() == 1 ==> spec_edges(m, p.path@.last().b).len() == 0)
        }
}

/// Appends `p` to the list of paths recorded under `k`.
fn record<V: IntoConnections>(
    acc: &mut HashMap<u64, Vec<SharedPath>>,
    k: u64,
    p: SharedPath,
    Ghost(m): Ghost<Map<u64, V>>,
    Ghost(from): Ghost<u64>,
)
    requires
        rec_ok(old(acc)@, m, from),
        p.inner.wf(),
        p.inner.path@.len() >= 1,
        p.inner.path@[0].a == from,
        p.inner.path@.last().b == k,
        p.inner.path@.len() <= p.inner.nodes@.len() + 1,
        all_graph_edges(p.inner.path@, m),
        p.inner.path@.len() == 1 ==> spec_edges(m, p.inner.path@.last().b).len() == 0,
    ensures
        rec_ok(final(acc)@, m, from),
        final(acc)@.dom() == old(acc)@.dom().insert(k),
        grows(old(acc)@, final(acc)@),
        path_recorded(final(acc)@, k, p.inner.path@),
{
    let ghost b = acc@;
    let mut v: Vec<SharedPath> = match acc.remove(&k) {
        Some(v) => v,
        None => Vec::new(),
    };
    let ghost held = v@;
    v.push(p);
    acc.insert(k, v);
    proof {
        assert(final(acc)@.dom() =~= old(acc)@.dom().insert(k));
        if b.dom().contains(k) {
            assert(held == b[k]@);
        } else {
            assert(held =~= Seq::<SharedPath>::empty());
        }
        assert(acc@[k]@ == held.push(p));
        assert(acc@[k]@[held.len() as int] == p);
        assert forall|k2: u64| b.dom().contains(k2) implies #[trigger] grows_at(b, acc@, k2) by {
            if k2 != k {
                assert(acc@[k2] == b[k2]);
            }
        }
    }
}

impl<V: IntoConnections> Graph<V> {
    /// One step of the exhaustive enumeration: records `p` when its last
    /// node is a dead end, and otherwise records every one-edge extension
    /// of `p`, exploring further only those extensions whose new last
    /// node `p` had not visited yet.
    fn explore(&self, p: SharedPath, acc: &mut HashMap<u64, Vec<SharedPath>>, Ghost(from): Ghost<u64>)
        requires
            self.wf(),
            p.inner.wf(),
            p.inner.path@.len() >= 1,
            p.inner.path@[0].a == from,
            p.inner.path@.len() <= p.inner.nodes@.len(),
            p.inner.nodes@.subset_of(self.model().dom().insert(p.inner.last_node())),
            all_graph_edges(p.inner.path@, self.model()),
            rec_ok(old(acc)@, self.model(), from),
        ensures
            rec_ok(final(acc)@, self.model(), from),
            old(acc)@.dom().subset_of(final(acc)@.dom()),
            grows(old(acc)@, final(acc)@),
            spec_edges(self.model(), p.inner.last_node()).len() == 0
                ==> path_recorded(final(acc)@, p.inner.last_node(), p.inner.path@),
            forall|t: Seq<Edge>| #[trigger] explorable(t, p.inner.last_node(), p.inner.nodes@, self.model())
                ==> path_recorded(final(acc)@, t.last().b, p.inner.path@ + t),
            spec_edges(self.model(), p.inner.last_node()).len() == 0
                ==> final(acc)@.dom().contains(p.inner.last_node()),
            forall|j: int| 0 <= j < spec_edges(self.model(), p.inner.last_node()).len()
                ==> final(acc)@.dom().contains(
                    spec_edges(self.model(), p.inner.last_node())[j].b,
                ),
        decreases
            self.model().dom().difference(p.inner.nodes@).len(),
            (if self.model().dom().contains(p.inner.last_node()) { 1int } else { 0int }),
    {
        let ghost acc_in = acc@;
        let n = p.inner.path.len();
        let lastn = p.inner.path[n - 1].b;
        let edges = self.generate_edges(&lastn);
        if edges.len() == 0 {
            record::<V>(acc, lastn, p, Ghost(self.model()), Ghost(from));
            proof {
                assert forall|t: Seq<Edge>| explorable(t, lastn, p.inner.nodes@, self.model())
                    implies path_recorded(acc@, t.last().b, p.inner.path@ + t) by {
                    assert(spec_edges(self.model(), (t[0]).a).contains(t[0]));
                    assert(t[0].a == lastn);
                }
            }
            return;
        }
        proof {
            assert(self.model().dom().contains(lastn));
            vstd::set_lib::lemma_len_subset(p.inner.nodes@, self.model().dom().insert(lastn));
        }
        let exts = self.propagate_path(p.duplicate());
        let ghost es = spec_edges(self.model(), lastn);
        let ghost acc0 = acc@.dom();
        let mut i: usize = 0;
        while i < exts.len()
            invariant
                self.wf(),
                p.inner.wf(),
                p.inner.path@.len() >= 1,
                p.inner.path@[0].a == from,
                p.inner.path@.len() <= p.inner.nodes@.len(),
                p.inner.nodes@.subset_of(self.model().dom().insert(p.inner.last_node())),
                all_graph_edges(p.inner.path@, self.model()),
                lastn == p.inner.last_node(),
                n == p.inner.path@.len(),
                self.model().dom().contains(lastn),
                es == spec_edges(self.model(), lastn),
                exts@.len() == es.len(),
                costs_bounded(es),
                forall|j: int| 0 <= j < exts@.len() ==> {
                    &&& (#[trigger] exts@[j]).inner.wf()
                    &&& exts@[j].inner.path@ == p.inner.path@.push(es[j])
                    &&& exts@[j].inner.nodes@ == p.inner.nodes@.insert(es[j].b)
                },
                i <= exts@.len(),
                rec_ok(acc@, self.model(), from),
                acc0.subset_of(acc@.dom()),
                grows(acc_in, acc@),
                forall|x: int| 0 <= x < i ==> acc@.dom().contains((#[trigger] es[x]).b),
                forall|t: Seq<Edge>| #[trigger] explorable(t, lastn, p.inner.nodes@, self.model())
                    && (exists|x: int| 0 <= x < i && (#[trigger] es[x]) == t[0])
                    ==> path_recorded(acc@, t.last().b, p.inner.path@ + t),
            decreases exts@.len() - i,
        {
            let ghost a_start = acc@;
            let q = exts[i].duplicate();
            let dest = q.inner.path[n].b;
            proof {
                assert(exts@[i as int].inner.path@.last() == es[i as int]);
                assert(dest == es[i as int].b);
                assert(exts@[i as int].inner.path@[0] == p.inner.path@[0]);
                assert(spec_edges(self.model(), es[i as int].a).contains(es[i as int]));
            }
            record::<V>(acc, dest, q, Ghost(self.model()), Ghost(from));
            let ghost a_rec = acc@;
            if !p.inner.nodes.contains(&dest) {
                proof {
                    if self.model().dom().contains(dest) {
                        self.model().dom().lemma_set_insert_diff_decreases(p.inner.nodes@, dest);
                    } else {
                        assert(self.model().dom().difference(p.inner.nodes@.insert(dest))
                            =~= self.model().dom().difference(p.inner.nodes@));
                    }
                }
                self.explore(exts[i].duplicate(), acc, Ghost(from));
            }
            proof {
                assert(grows(a_rec, acc@)) by {
                    assert forall|k: u64| a_rec.dom().contains(k) implies #[trigger] grows_at(
                        a_rec, acc@, k) by {
                    }
                }
                lemma_grows_trans(a_start, a_rec, acc@);
                assert(grows(acc_in, a_start));
                lemma_grows_trans(acc_in, a_start, acc@);
                assert forall|t: Seq<Edge>| explorable(t, lastn, p.inner.nodes@, self.model())
                    && (exists|x: int| 0 <= x < i + 1 && (#[trigger] es[x]) == t[0])
                    implies path_recorded(acc@, t.last().b, p.inner.path@ + t) by {
                    if exists|x: int| 0 <= x < i && (#[trigger] es[x]) == t[0] {
                        lemma_grows_recorded(a_start, acc@, t.last().b, p.inner.path@ + t);
                    } else {
                        let x0 = choose|x: int| 0 <= x < i + 1 && (#[trigger] es[x]) == t[0];
                        assert(es[i as int] == t[0]);
                        assert(t[0].b == dest);
                        if t.len() == 1 {
                            assert(t.last() == t[0]);
                            assert(p.inner.path@ + t =~= p.inner.path@.push(es[i as int]));
                            lemma_grows_recorded(a_rec, acc@, dest, p.inner.path@ + t);
                        } else {
                            assert(!p.inner.nodes@.contains(t[0].b)) by {
                                assert(0 < t.len() - 1);
                            }
                            let t2 = t.subrange(1, t.len() as int);
                            assert(t2[0] == t[1]);
                            assert(t[0].b == t[1].a);
                            assert(chained(t2)) by {
                                assert forall|x: int| 0 <= x < t2.len() - 1
                                    implies (#[trigger] t2[x]).b == t2[x + 1].a by {
                                    assert(t2[x] == t[x + 1]);
                                    assert(t2[x + 1] == t[x + 2]);
                                }
                            }
                            assert(all_graph_edges(t2, self.model())) by {
                                assert forall|x: int| 0 <= x < t2.len()
                                    implies spec_edges(self.model(), (#[trigger] t2[x]).a).contains(
                                    t2[x]) by {
                                    assert(t2[x] == t[x + 1]);
                                }
                            }
                            assert forall|x: int| 0 <= x < t2.len() - 1
                                implies !p.inner.nodes@.insert(es[i as int].b).contains(
                                (#[trigger] t2[x]).b) by {
                                assert(t2[x] == t[x + 1]);
                                assert(!p.inner.nodes@.contains(t[x + 1].b));
                                assert(t[x + 1].b != t[0].b);
                            }
                            assert forall|x: int, y: int| 0 <= y < x < t2.len() - 1
                                implies (#[trigger] t2[x]).b != (#[trigger] t2[y]).b by {
                                assert(t2[x] == t[x + 1]);
                                assert(t2[y] == t[y + 1]);
                            }
                            assert(explorable(
                                t2,
                                exts@[i as int].inner.last_node(),
                                exts@[i as int].inner.nodes@,
                                self.model(),
                            )) by {
                                assert(exts@[i as int].inner.path@.last() == es[i as int]);
                                assert(exts@[i as int].inner.last_node() == es[i as int].b);
                                assert(exts@[i as int].inner.nodes@ == p.inner.nodes@.insert(
                                    es[i as int].b));
                            }
                            assert(path_recorded(
                                acc@,
                                t2.last().b,
                                exts@[i as int].inner.path@ + t2,
                            ));
                            assert(exts@[i as int].inner.path@ + t2 =~= p.inner.path@ + t);
                            assert(t2.last() == t.last());
                        }
                    }
                }
            }
            i += 1;
        }
    }

    /// Exhaustively enumerates the paths reachable from `from`: every
    /// branch ends at a dead end or upon revisiting a node, and every
    /// recorded path is keyed by the node it ends at.  Every branch of
    /// two or more edges that never revisits a node before its final
    /// step is recorded, dead ends one edge away are recorded, and a
    /// source with no outgoing edges yields an empty result.
    pub fn map(&self, from: &u64) -> (r: HashMap<u64, Vec<SharedPath>>)
        requires
            self.wf(),
        ensures
            rec_ok(r@, self.model(), *from),
            spec_edges(self.model(), *from).len() == 0 ==> r@ == Map::<u64, Vec<SharedPath>>::empty(),
            forall|i: int| 0 <= i < spec_edges(self.model(), *from).len() ==> ({
                let b = (#[trigger] spec_edges(self.model(), *from)[i]).b;
                &&& (spec_edges(self.model(), b).len() == 0 ==> r@.dom().contains(b))
                &&& (forall|j: int| 0 <= j < spec_edges(self.model(), b).len()
                    ==> r@.dom().contains((#[trigger] spec_edges(self.model(), b)[j]).b))
            }),
            forall|q: Seq<Edge>| #[trigger] enumerable(q, *from, self.model())
                ==> path_recorded(r@, q.last().b, q),
            forall|i: int| 0 <= i < spec_edges(self.model(), *from).len() && spec_edges(
                self.model(),
                (#[trigger] spec_edges(self.model(), *from)[i]).b,
            ).len() == 0 ==> path_recorded(
                r@,
                spec_edges(self.model(), *from)[i].b,
                seq![spec_edges(self.model(), *from)[i]],
            ),
    {
        let mut allpaths: HashMap<u64, Vec<SharedPath>> = HashMap::new();
        let edges = self.generate_edges(from);
        let mut i: usize = 0;
        while i < edges.len()
            invariant
                self.wf(),
                edges@ == spec_edges(self.model(), *from),
                costs_bounded(edges@),
                i <= edges@.len(),
                rec_ok(allpaths@, self.model(), *from),
                edges@.len() == 0 ==> allpaths@ == Map::<u64, Vec<SharedPath>>::empty(),
                forall|x: int| 0 <= x < i ==> ({
                    let b = (#[trigger] edges@[x]).b;
                    &&& (spec_edges(self.model(), b).len() == 0 ==> allpaths@.dom().contains(b))
                    &&& (forall|j: int| 0 <= j < spec_edges(self.model(), b).len()
                        ==> allpaths@.dom().contains((#[trigger] spec_edges(self.model(), b)[j]).b))
                }),
                forall|q: Seq<Edge>| #[trigger] enumerable(q, *from, self.model())
                    && (exists|x: int| 0 <= x < i && (#[trigger] edges@[x]) == q[0])
                    ==> path_recorded(allpaths@, q.last().b, q),
                forall|x: int| 0 <= x < i && spec_edges(self.model(), (#[trigger] edges@[x]).b).len()
                    == 0 ==> path_recorded(allpaths@, edges@[x].b, seq![edges@[x]]),
            decreases edges@.len() - i,
        {
            let e = edges[i];
            let mut ks = KeySet::new();
            ks.insert(e.a);
            ks.insert(e.b);
            let mut pv: Vec<Edge> = Vec::new();
            pv.push(e);
            let seed = Path { total: e.h, path: pv, nodes: ks };
            proof {
                assert(self.model().dom().contains(*from));
                assert(e.a == *from);
                assert(seed.path@.drop_last() =~= Seq::<Edge>::empty());
                assert(sum_costs(Seq::<Edge>::empty()) == 0);
                assert(edge_targets(Seq::<Edge>::empty()) =~= Set::<u64>::empty());
                assert(seed.path@.last() == e);
                assert(sum_costs(seed.path@) == e.h as int);
                assert(edge_targets(seed.path@) =~= Set::<u64>::empty().insert(e.b));
                assert(seed.nodes@ =~= edge_targets(seed.path@).insert(seed.path@[0].a));
                assert(seed.nodes@.subset_of(self.model().dom().insert(e.b)));
                assert(seed.nodes@.len() >= 1) by {
                    assert(seed.nodes@.contains(e.a));
                    if seed.nodes@.len() == 0 {
                        assert(seed.nodes@ =~= Set::<u64>::empty());
                    }
                }
            }
            let ghost m0 = allpaths@;
            let ghost seedp = seed;
            self.explore(SharedPath::new(seed), &mut allpaths, Ghost(*from));
            proof {
                assert(seedp.last_node() == e.b);
                assert(seedp.path@ == seq![e]);
                if spec_edges(self.model(), e.b).len() == 0 {
                    assert(path_recorded(allpaths@, e.b, seedp.path@));
                }
                assert forall|x: int| 0 <= x < i + 1 && spec_edges(
                    self.model(),
                    (#[trigger] edges@[x]).b,
                ).len() == 0 implies path_recorded(allpaths@, edges@[x].b, seq![edges@[x]]) by {
                    if x < i {
                        lemma_grows_recorded(m0, allpaths@, edges@[x].b, seq![edges@[x]]);
                    }
                }
                assert forall|q: Seq<Edge>| enumerable(q, *from, self.model())
                    && (exists|x: int| 0 <= x < i + 1 && (#[trigger] edges@[x]) == q[0])
                    implies path_recorded(allpaths@, q.last().b, q) by {
                    if exists|x: int| 0 <= x < i && (#[trigger] edges@[x]) == q[0] {
                        lemma_grows_recorded(m0, allpaths@, q.last().b, q);
                    } else {
                        let x0 = choose|x: int| 0 <= x < i + 1 && (#[trigger] edges@[x]) == q[0];
                        assert(edges@[i as int] == q[0]);
                        assert(e == q[0]);
                        let t = q.subrange(1, q.len() as int);
                        assert(t[0] == q[1]);
                        assert(q[0].b == q[1].a);
                        assert(t[0].a == e.b);
                        assert(chained(t)) by {
                            assert forall|x: int| 0 <= x < t.len() - 1
                                implies (#[trigger] t[x]).b == t[x + 1].a by {
                                assert(t[x] == q[x + 1]);
                                assert(t[x + 1] == q[x + 2]);
                            }
                        }
                        assert(all_graph_edges(t, self.model())) by {
                            assert forall|x: int| 0 <= x < t.len()
                                implies spec_edges(self.model(), (#[trigger] t[x]).a).contains(
                                t[x]) by {
                                assert(t[x] == q[x + 1]);
                            }
                        }
                        assert forall|x: int| 0 <= x < t.len() - 1
                            implies !seedp.nodes@.contains((#[trigger] t[x]).b) by {
                            assert(t[x] == q[x + 1]);
                            assert(q[x + 1].b != *from);
                            assert(q[x + 1].b != q[0].b);
                            assert(seedp.nodes@ == Set::<u64>::empty().insert(e.a).insert(e.b));
                            assert(e.a == *from);
                        }
                        assert forall|x: int, y: int| 0 <= y < x < t.len() - 1
                            implies (#[trigger] t[x]).b != (#[trigger] t[y]).b by {
                            assert(t[x] == q[x + 1]);
                            assert(t[y] == q[y + 1]);
                        }
                        assert(explorable(t, seedp.last_node(), seedp.nodes@, self.model()));
                        assert(path_recorded(allpaths@, t.last().b, seedp.path@ + t));
                        assert(seedp.path@ + t =~= q);
                        assert(t.last() == q.last());
                    }
                }
            }
            i += 1;
        }
        proof {
            assert forall|q: Seq<Edge>| enumerable(q, *from, self.model())
                implies path_recorded(allpaths@, q.last().b, q) by {
                assert(spec_edges(self.model(), (q[0]).a).contains(q[0]));
                assert(q[0].a == *from);
                assert(edges@.contains(q[0]));
                let x = choose|x: int| 0 <= x < edges@.len() && edges@[x] == q[0];
            }
        }
        allpaths
    }
}

} // verus!
