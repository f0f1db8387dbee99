//! Single-source searches over a graph: a uniform-cost best-first search
//! (named `a_star`, though it consults no heuristic) and a cycle-avoiding
//! single-target Bellman-Ford.

use vstd::prelude::*;
use vstd::set_lib::*;
use crate::edge::{Edge, MAX_NODES};
use crate::graph::{all_graph_edges, spec_edges, Graph, IntoConnections};
use crate::path::{chained, costs_bounded, edge_targets, extended, sum_costs, KeySet, Path, SharedPath};

verus! {

broadcast use vstd::set::group_set_axioms, vstd::std_specs::hash::group_hash_axioms;

/// A chained walk of graph edges out of `src`.
pub open spec fn walk_from<V: IntoConnections>(q: Seq<Edge>, src: u64, m: Map<u64, V>) -> bool {
    &&& q.len() >= 1
    &&& q[0].a == src
    &&& chained(q)
    &&& all_graph_edges(q, m)
}

/// Some entry of the best-paths table has key `k`.
pub open spec fn table_has(s: Seq<(u64, SharedPath)>, k: u64) -> bool {
    exists|i: int| 0 <= i < s.len() && (#[trigger] s[i]).0 == k
}

/// Every outgoing edge of every table key leads to a table key again.
pub open spec fn closed_table<V: IntoConnections>(s: Seq<(u64, SharedPath)>, m: Map<u64, V>) -> bool {
    forall|i: int, y: int| 0 <= i < s.len() && 0 <= y < spec_edges(m, (#[trigger] s[i]).0).len()
        ==> table_has(s, (#[trigger] spec_edges(m, s[i].0)[y]).b)
}

/// Every outgoing edge of `k` leads to a table key.
pub open spec fn tabled_targets<V: IntoConnections>(
    s: Seq<(u64, SharedPath)>,
    k: u64,
    m: Map<u64, V>,
) -> bool {
    forall|y: int| 0 <= y < spec_edges(m, k).len() ==> table_has(
        s,
        (#[trigger] spec_edges(m, k)[y]).b,
    )
}

/// In a table that is closed under outgoing edges and holds the source,
/// every walk out of the source ends at a table key.
proof fn lemma_closed_reach<V: IntoConnections>(
    s: Seq<(u64, SharedPath)>,
    m: Map<u64, V>,
    src: u64,
    q: Seq<Edge>,
)
    requires
        walk_from(q, src, m),
        table_has(s, src),
        closed_table(s, m),
    ensures
        table_has(s, q.last().b),
    decreases q.len(),
{
    if q.len() == 1 {
        let wi = choose|i: int| 0 <= i < s.len() && (#[trigger] s[i]).0 == src;
        assert(spec_edges(m, (q[0]).a).contains(q[0]));
        let y = choose|y: int| 0 <= y < spec_edges(m, src).len() && spec_edges(m, src)[y] == q[0];
        assert(spec_edges(m, s[wi].0)[y] == q[0]);
    } else {
        let qp = q.take(q.len() - 1);
        assert(qp[0] == q[0]);
        assert(chained(qp)) by {
            assert forall|x: int| 0 <= x < qp.len() - 1 implies (#[trigger] qp[x]).b == qp[x + 1].a by {
                assert(qp[x] == q[x]);
                assert(qp[x + 1] == q[x + 1]);
            }
        }
        assert(all_graph_edges(qp, m)) by {
            assert forall|x: int| 0 <= x < qp.len()
                implies spec_edges(m, (#[trigger] qp[x]).a).contains(qp[x]) by {
                assert(qp[x] == q[x]);
            }
        }
        lemma_closed_reach(s, m, src, qp);
        let u = qp.last().b;
        assert(q[q.len() - 2].b == q[q.len() - 1].a);
        assert(u == q.last().a);
        let wi = choose|i: int| 0 <= i < s.len() && (#[trigger] s[i]).0 == u;
        assert(spec_edges(m, (q.last()).a).contains(q.last()));
        assert(q[q.len() - 1] == q.last());
        let y = choose|y: int| 0 <= y < spec_edges(m, u).len() && spec_edges(m, u)[y] == q.last();
        assert(spec_edges(m, s[wi].0)[y] == q.last());
    }
}

/// Some frontier entry's path ends at `k`.
pub open spec fn open_ends_at(s: Seq<SharedPath>, k: u64) -> bool {
    exists|j: int| 0 <= j < s.len() && (#[trigger] s[j]).inner.path@.last().b == k
}

/// Every outgoing edge of `k` leads to a closed node or to the end of
/// some frontier entry.
pub open spec fn covered<V: IntoConnections>(
    open: Seq<SharedPath>,
    closed: Set<u64>,
    k: u64,
    m: Map<u64, V>,
) -> bool {
    forall|y: int| 0 <= y < spec_edges(m, k).len() ==> closed.contains(
        (#[trigger] spec_edges(m, k)[y]).b,
    ) || open_ends_at(open, spec_edges(m, k)[y].b)
}

/// A frontier entry ending at `k` survives appending more entries.
proof fn lemma_ends_at_prefix(a: Seq<SharedPath>, b: Seq<SharedPath>, k: u64)
    requires
        a.len() <= b.len(),
        forall|x: int| 0 <= x < a.len() ==> (#[trigger] b[x]) == a[x],
        open_ends_at(a, k),
    ensures
        open_ends_at(b, k),
{
    let j = choose|j: int| 0 <= j < a.len() && (#[trigger] a[j]).inner.path@.last().b == k;
    assert(b[j].inner.path@.last().b == k);
}

/// When the closed set contains every target of the source's edges and
/// is closed under outgoing edges, it contains the end of every walk
/// out of the source.
proof fn lemma_closed_covers<V: IntoConnections>(
    closed: Set<u64>,
    m: Map<u64, V>,
    src: u64,
    q: Seq<Edge>,
)
    requires
        walk_from(q, src, m),
        forall|y: int| 0 <= y < spec_edges(m, src).len() ==> closed.contains(
            (#[trigger] spec_edges(m, src)[y]).b,
        ),
        forall|u: u64, y: int| closed.contains(u) && 0 <= y < spec_edges(m, u).len()
            ==> closed.contains((#[trigger] spec_edges(m, u)[y]).b),
    ensures
        closed.contains(q.last().b),
    decreases q.len(),
{
    if q.len() == 1 {
        assert(spec_edges(m, (q[0]).a).contains(q[0]));
        let y = choose|y: int| 0 <= y < spec_edges(m, src).len() && spec_edges(m, src)[y] == q[0];
        assert(spec_edges(m, src)[y] == q[0]);
    } else {
        let qp = q.take(q.len() - 1);
        assert(qp[0] == q[0]);
        assert(chained(qp)) by {
            assert forall|x: int| 0 <= x < qp.len() - 1 implies (#[trigger] qp[x]).b == qp[x + 1].a by {
                assert(qp[x] == q[x]);
                assert(qp[x + 1] == q[x + 1]);
            }
        }
        assert(all_graph_edges(qp, m)) by {
            assert forall|x: int| 0 <= x < qp.len()
                implies spec_edges(m, (#[trigger] qp[x]).a).contains(qp[x]) by {
                assert(qp[x] == q[x]);
            }
        }
        lemma_closed_covers(closed, m, src, qp);
        let u = qp.last().b;
        assert(q[q.len() - 2].b == q[q.len() - 1].a);
        assert(u == (q.last()).a);
        assert(spec_edges(m, (q.last()).a).contains(q.last()));
        let y = choose|y: int| 0 <= y < spec_edges(m, u).len() && spec_edges(m, u)[y] == q.last();
        assert(closed.contains((spec_edges(m, u)[y]).b));
    }
}

/// A path the best-first frontier may hold: well formed, made of graph
/// edges, starting at `from`, and no longer than `bound` edges.
pub open spec fn open_ok<V: IntoConnections>(sp: SharedPath, m: Map<u64, V>, from: u64, bound: int) -> bool {
    let p = sp.inner;
    &&& p.wf()
    &&& all_graph_edges(p.path@, m)
    &&& p.path@.len() >= 1
    &&& p.path@[0].a == from
    &&& p.path@.len() <= bound
}

/// What the single-target Bellman-Ford knows of each `(key, path)` entry
/// of its best-paths table: the path is a well-formed simple walk of
/// graph edges from `src` to `key`, visiting `src`, and only the seed
/// entry at `src` itself is the empty path.
pub open spec fn bf_entry_ok<V: IntoConnections>(k: u64, sp: SharedPath, m: Map<u64, V>, src: u64) -> bool {
    let p = sp.inner;
    &&& p.wf()
    &&& all_graph_edges(p.path@, m)
    &&& p.simple()
    &&& p.nodes@.contains(src)
    &&& p.nodes@.contains(k)
    &&& p.nodes@.subset_of(m.dom().insert(k))
    &&& (p.path@.len() == 0 ==> k == src && p.total == 0 && p.nodes@ == Set::<u64>::empty().insert(src))
    &&& (k == src ==> p.path@.len() == 0)
    &&& (p.path@.len() > 0 ==> p.path@[0].a == src && p.path@.last().b == k)
}

/// The single-target Bellman-Ford table as a whole: every entry is good,
/// keys are unique, the source is present, and an isolated source keeps
/// the table at its seed alone.
pub open spec fn bf_ok<V: IntoConnections>(s: Seq<(u64, SharedPath)>, m: Map<u64, V>, src: u64) -> bool {
    &&& forall|i: int| 0 <= i < s.len() ==> bf_entry_ok((#[trigger] s[i]).0, s[i].1, m, src)
    &&& forall|i: int, j: int| 0 <= i < j < s.len() ==> (#[trigger] s[i]).0 != (#[trigger] s[j]).0
    &&& exists|i: int| 0 <= i < s.len() && (#[trigger] s[i]).0 == src
    &&& (spec_edges(m, src).len() == 0 ==> s.len() == 1)
    &&& forall|i: int, nd: u64| #![trigger s[i].1.inner.nodes@.contains(nd)] 0 <= i < s.len()
        && s[i].1.inner.nodes@.contains(nd) ==> table_has(s, nd)
}

/// Removes and returns a path of least total cost from the frontier;
/// this makes a plain vector behave as the priority frontier, popping
/// what the reversed path ordering calls a greatest element.
fn pop_best(open: &mut Vec<SharedPath>) -> (r: SharedPath)
    requires
        old(open)@.len() >= 1,
    ensures
        final(open)@.len() == old(open)@.len() - 1,
        old(open)@.contains(r),
        forall|j: int| 0 <= j < final(open)@.len() ==> old(open)@.contains(#[trigger] final(open)@[j]),
        forall|j: int| 0 <= j < old(open)@.len() ==> r.inner.total <= (#[trigger] old(open)@[j]).inner.total,
        exists|k: int| 0 <= k < old(open)@.len() && old(open)@[k] == r && final(open)@
            == old(open)@.update(k, old(open)@.last()).drop_last(),
{
    let mut best: usize = 0;
    let mut i: usize = 1;
    while i < open.len()
        invariant
            open@.len() >= 1,
            best < i,
            i <= open@.len(),
            forall|j: int| 0 <= j < i ==> open@[best as int].inner.total <= (#[trigger] open@[j]).inner.total,
        decreases open@.len() - i,
    {
        if open[i].inner.total < open[best].inner.total {
            best = i;
        }
        i += 1;
    }
    let ghost before = open@;
    let r = open.swap_remove(best);
    proof {
        assert(before.contains(r)) by {
            assert(before[best as int] == r);
        }
        assert(0 <= best < before.len() && before[best as int] == r && open@
            == before.update(best as int, before.last()).drop_last());
        assert forall|j: int| 0 <= j < open@.len() implies before.contains(#[trigger] open@[j]) by {
            if j == best {
                assert(open@[j] == before[before.len() - 1]);
            } else {
                assert(open@[j] == before[j]);
            }
        }
    }
    r
}

/// Removing one frontier entry that does not end at `to` keeps some
/// entry that does.
proof fn lemma_pop_keeps_witness(
    before: Seq<SharedPath>,
    after: Seq<SharedPath>,
    r: SharedPath,
    k: int,
    to: u64,
)
    requires
        0 <= k < before.len(),
        before[k] == r,
        after == before.update(k, before.last()).drop_last(),
        exists|j: int| 0 <= j < before.len() && (#[trigger] before[j]).inner.path@.last().b == to,
        r.inner.path@.len() >= 1,
        r.inner.path@.last().b != to,
    ensures
        exists|j: int| 0 <= j < after.len() && (#[trigger] after[j]).inner.path@.last().b == to,
{
    let w = choose|j: int| 0 <= j < before.len() && (#[trigger] before[j]).inner.path@.last().b == to;
    assert(w != k);
    if w < before.len() - 1 {
        assert(after[w] == before[w]);
    } else {
        assert(after[k] == before[before.len() - 1]);
    }
}

/// Looks up the entry whose key is `k`.
fn find_entry(best: &Vec<(u64, SharedPath)>, k: &u64) -> (r: Option<usize>)
    ensures
        match r {
            Option::Some(i) => i < best@.len() && best@[i as int].0 == *k,
            Option::None => forall|j: int| 0 <= j < best@.len() ==> (#[trigger] best@[j]).0 != *k,
        },
{
    let mut i: usize = 0;
    while i < best.len()
        invariant
            i <= best@.len(),
            forall|j: int| 0 <= j < i ==> (#[trigger] best@[j]).0 != *k,
        decreases best@.len() - i,
    {
        if best[i].0 == *k {
            return Some(i);
        }
        i += 1;
    }
    None
}

/// The pathfinding operations a graph offers: a best-first search from
/// `from` to `to`, and a cycle-avoiding single-target Bellman-Ford.
pub trait Pathfind<N: IntoConnections>: Sized {
    /// The node map the searches run over.
    spec fn graph_model(&self) -> Map<u64, N>;

    /// Whether the graph is well formed.
    spec fn graph_wf(&self) -> bool;

    /// Uniform-cost best-first search from `from` to `to`.  Despite its
    /// name it consults no heuristic, and it assumes non-negative edge
    /// costs: with negative costs it still terminates and still returns
    /// only real paths, but the result may not be the cheapest one.
    ///
    /// Returns at most one path; every returned path is a well-formed
    /// walk of graph edges from `from` to `to`, and a source with no
    /// outgoing edges yields no paths at all.
    fn a_star(&mut self, from: &u64, to: &u64) -> (r: Vec<SharedPath>)
        requires
            old(self).graph_wf(),
        ensures
            *final(self) == *old(self),
            r@.len() <= 1,
            forall|j: int| 0 <= j < r@.len() ==> {
                let p = (#[trigger] r@[j]).inner;
                &&& p.wf()
                &&& all_graph_edges(p.path@, old(self).graph_model())
                &&& p.path@.len() >= 1
                &&& p.path@[0].a == *from
                &&& p.path@.last().b == *to
            },
            spec_edges(old(self).graph_model(), *from).len() == 0 ==> r@.len() == 0,
            (exists|i: int| 0 <= i < spec_edges(old(self).graph_model(), *from).len()
                && (#[trigger] spec_edges(old(self).graph_model(), *from)[i]).b == *to)
                ==> r@.len() == 1,
            (exists|q: Seq<Edge>| #[trigger] walk_from(q, *from, old(self).graph_model())
                && q.last().b == *to) ==> r@.len() == 1,
    ;

    /// Single-target Bellman-Ford that never extends a path into a node
    /// the path has already visited, trading true optimality on cyclic
    /// graphs for guaranteed termination and simple paths.
    ///
    /// Returns a well-formed simple walk of graph edges from `source` to
    /// `target` when one is retained, the zero-cost empty path exactly
    /// when `target == source`, and nothing when the target was never
    /// reached; a source with no outgoing edges reaches nothing else.
    fn bellman_ford(&self, source: &u64, target: &u64) -> (r: Option<SharedPath>)
        requires
            self.graph_wf(),
            self.graph_model().dom().len() >= 1,
        ensures
            match r {
                Option::Some(p) => {
                    &&& p.inner.wf()
                    &&& all_graph_edges(p.inner.path@, self.graph_model())
                    &&& p.inner.simple()
                    &&& p.inner.nodes@.contains(*source)
                    &&& (p.inner.path@.len() == 0 <==> *target == *source)
                    &&& (*target == *source ==> p.inner.total == 0)
                    &&& (p.inner.path@.len() > 0 ==> p.inner.path@[0].a == *source
                        && p.inner.path@.last().b == *target)
                },
                Option::None => *target != *source,
            },
            *target == *source ==> r is Some,
            spec_edges(self.graph_model(), *source).len() == 0 && *target != *source ==> r is None,
            (self.graph_model().dom().len() >= 2 && *target != *source && exists|i: int|
                0 <= i < spec_edges(self.graph_model(), *source).len()
                    && (#[trigger] spec_edges(self.graph_model(), *source)[i]).b == *target)
                ==> r is Some,
            (exists|q: Seq<Edge>| #[trigger] walk_from(q, *source, self.graph_model())
                && q.last().b == *target && q.len() <= self.graph_model().dom().len() - 1)
                ==> r is Some,
    ;
}

impl<V: IntoConnections> Pathfind<V> for Graph<V> {
    open spec fn graph_model(&self) -> Map<u64, V> {
        self.model()
    }

    open spec fn graph_wf(&self) -> bool {
        self.wf()
    }

    fn a_star(&mut self, from: &u64, to: &u64) -> (r: Vec<SharedPath>) {
        let ghost gm = self.model();
        let ghost reach_to = exists|i: int| 0 <= i < spec_edges(gm, *from).len()
            && (#[trigger] spec_edges(gm, *from)[i]).b == *to;
        proof {
            self.lemma_model_finite();
        }
        let mut closed = KeySet::new();
        let mut open: Vec<SharedPath> = Vec::new();
        let mut all_paths: Vec<SharedPath> = Vec::new();
        let edges = self.generate_edges(from);
        let mut i: usize = 0;
        while i < edges.len()
            invariant
                self.wf(),
                gm == self.model(),
                gm.dom().finite(),
                edges@ == spec_edges(gm, *from),
                costs_bounded(edges@),
                i <= edges@.len(),
                open@.len() == i,
                forall|j: int| 0 <= j < i ==> open_ok((#[trigger] open@[j]), gm, *from, 1),
                forall|j: int| 0 <= j < i ==> (#[trigger] open@[j]).inner.path@.last().b
                    == edges@[j].b,
            decreases edges@.len() - i,
        {
            let e = edges[i];
            let mut ks = KeySet::new();
            ks.insert(e.a);
            ks.insert(e.b);
            let mut pv: Vec<Edge> = Vec::new();
            pv.push(e);
            let seed = Path { total: e.h, path: pv, nodes: ks };
            proof {
                assert(e.a == *from);
                assert(seed.path@.drop_last() =~= Seq::<Edge>::empty());
                assert(sum_costs(Seq::<Edge>::empty()) == 0);
                assert(edge_targets(Seq::<Edge>::empty()) =~= Set::<u64>::empty());
                assert(seed.path@.last() == e);
                assert(seed.nodes@ =~= edge_targets(seed.path@).insert(seed.path@[0].a));
                assert(seed.nodes@.len() >= 1) by {
                    assert(seed.nodes@.contains(e.a));
                    if seed.nodes@.len() == 0 {
                        assert(seed.nodes@ =~= Set::<u64>::empty());
                    }
                }
                assert(spec_edges(gm, e.a).contains(e));
            }
            open.push(SharedPath::new(seed));
            i += 1;
        }
        proof {
            assert(gm.dom().intersect(closed@).len() as int + 1 >= 1) by {
                assert(gm.dom().intersect(closed@) =~= Set::<u64>::empty());
            }
            if reach_to {
                let i0 = choose|i: int| 0 <= i < spec_edges(gm, *from).len()
                    && (#[trigger] spec_edges(gm, *from)[i]).b == *to;
                assert(open@[i0].inner.path@.last().b == *to);
            }
            assert(covered(open@, closed@, *from, gm)) by {
                assert forall|y: int| 0 <= y < spec_edges(gm, *from).len() implies closed@.contains(
                    (#[trigger] spec_edges(gm, *from)[y]).b,
                ) || open_ends_at(open@, spec_edges(gm, *from)[y].b) by {
                    assert(open@[y].inner.path@.last().b == edges@[y].b);
                }
            }
        }
        while open.len() != 0
            invariant_except_break
                all_paths@.len() == 0,
                reach_to ==> !closed@.contains(*to) && exists|j: int| 0 <= j < open@.len()
                    && (#[trigger] open@[j]).inner.path@.last().b == *to,
                !closed@.contains(*to),
                covered(open@, closed@, *from, gm),
                forall|u: u64| #[trigger] closed@.contains(u) ==> covered(open@, closed@, u, gm),
            invariant
                self.wf(),
                gm == self.model(),
                gm.dom().finite(),
                closed.wf(),
                closed@.finite(),
                forall|j: int| 0 <= j < open@.len() ==> open_ok(
                    (#[trigger] open@[j]),
                    gm,
                    *from,
                    gm.dom().intersect(closed@).len() as int + 1,
                ),
                spec_edges(gm, *from).len() == 0 ==> open@.len() == 0 && all_paths@.len() == 0,
                all_paths@.len() <= 1,
                forall|j: int| 0 <= j < all_paths@.len() ==> {
                    let p = (#[trigger] all_paths@[j]).inner;
                    &&& p.wf()
                    &&& all_graph_edges(p.path@, gm)
                    &&& p.path@.len() >= 1
                    &&& p.path@[0].a == *from
                    &&& p.path@.last().b == *to
                },
            ensures
                self.wf(),
                gm == self.model(),
                gm.dom().finite(),
                all_paths@.len() <= 1,
                forall|j: int| 0 <= j < all_paths@.len() ==> {
                    let p = (#[trigger] all_paths@[j]).inner;
                    &&& p.wf()
                    &&& all_graph_edges(p.path@, gm)
                    &&& p.path@.len() >= 1
                    &&& p.path@[0].a == *from
                    &&& p.path@.last().b == *to
                },
                spec_edges(gm, *from).len() == 0 ==> all_paths@.len() == 0,
                reach_to ==> all_paths@.len() == 1,
                all_paths@.len() == 0 ==> open@.len() == 0 && !closed@.contains(*to)
                    && covered(open@, closed@, *from, gm)
                    && (forall|u: u64| #[trigger] closed@.contains(u) ==> covered(open@, closed@, u, gm)),
            decreases gm.dom().difference(closed@).len(), open@.len(),
        {
            let ghost closed_before = closed@;
            let ghost open_before = open@;
            let cur = pop_best(&mut open);
            let nlen = cur.inner.path.len();
            let last_b = cur.inner.path[nlen - 1].b;
            proof {
                assert(open_ok(cur, gm, *from, gm.dom().intersect(closed_before).len() as int + 1));
                if reach_to && last_b != *to {
                    let k = choose|k: int| 0 <= k < open_before.len() && open_before[k] == cur
                        && open@ == open_before.update(k, open_before.last()).drop_last();
                    lemma_pop_keeps_witness(open_before, open@, cur, k, *to);
                }
            }
            if closed.contains(&last_b) {
                proof {
                    let k = choose|k: int| 0 <= k < open_before.len() && open_before[k] == cur
                        && open@ == open_before.update(k, open_before.last()).drop_last();
                    assert forall|u: u64| #[trigger] closed@.contains(u)
                        implies covered(open@, closed@, u, gm) by {
                        assert(covered(open_before, closed_before, u, gm));
                        assert forall|y: int| 0 <= y < spec_edges(gm, u).len()
                            implies closed@.contains((#[trigger] spec_edges(gm, u)[y]).b)
                            || open_ends_at(open@, spec_edges(gm, u)[y].b) by {
                            let tn = spec_edges(gm, u)[y].b;
                            if !closed@.contains(tn) {
                                assert(tn != last_b);
                                lemma_pop_keeps_witness(open_before, open@, cur, k, tn);
                            }
                        }
                    }
                    assert(covered(open@, closed@, *from, gm)) by {
                        assert forall|y: int| 0 <= y < spec_edges(gm, *from).len()
                            implies closed@.contains((#[trigger] spec_edges(gm, *from)[y]).b)
                            || open_ends_at(open@, spec_edges(gm, *from)[y].b) by {
                            let tn = spec_edges(gm, *from)[y].b;
                            if !closed@.contains(tn) {
                                assert(tn != last_b);
                                lemma_pop_keeps_witness(open_before, open@, cur, k, tn);
                            }
                        }
                    }
                }
                continue;
            }
            closed.insert(last_b);
            proof {
                if gm.dom().contains(last_b) {
                    gm.dom().lemma_set_insert_diff_decreases(closed_before, last_b);
                    assert(gm.dom().intersect(closed@) =~= gm.dom().intersect(closed_before).insert(
                        last_b,
                    ));
                } else {
                    assert(gm.dom().difference(closed@) =~= gm.dom().difference(closed_before));
                    assert(gm.dom().intersect(closed@) =~= gm.dom().intersect(closed_before));
                }
                lemma_len_subset(gm.dom().intersect(closed_before), gm.dom().intersect(closed@));
                assert forall|j: int| 0 <= j < open@.len() implies open_ok(
                    (#[trigger] open@[j]),
                    gm,
                    *from,
                    gm.dom().intersect(closed@).len() as int + 1,
                ) by {
                    assert(open_ok(open@[j], gm, *from, gm.dom().intersect(closed_before).len() as int + 1));
                }
            }
            if last_b == *to {
                all_paths.push(cur);
                break;
            }
            proof {
                lemma_len_subset(gm.dom().intersect(closed@), gm.dom());
                assert(nlen <= MAX_NODES + 1);
            }
            let exts = self.propagate_path(cur);
            let ghost es = spec_edges(gm, last_b);
            let ghost after_pop = open@.len();
            let ghost open_ap = open@;
            let mut j: usize = 0;
            while j < exts.len()
                invariant
                    self.wf(),
                    gm == self.model(),
                    gm.dom().finite(),
                    closed.wf(),
                    closed@.finite(),
                    es == spec_edges(gm, last_b),
                    exts@.len() == es.len(),
                    es.len() > 0 ==> gm.dom().contains(last_b),
                    es.len() > 0 ==> gm.dom().intersect(closed@).contains(last_b),
                    forall|x: int| 0 <= x < exts@.len() ==> {
                        let p = (#[trigger] exts@[x]).inner;
                        &&& p.wf()
                        &&& all_graph_edges(p.path@, gm)
                        &&& p.path@.len() >= 1
                        &&& p.path@[0].a == *from
                        &&& p.path@.len() <= gm.dom().intersect(closed@).len() as int + 1
                    },
                    j <= exts@.len(),
                    open@.len() == after_pop + j,
                    after_pop == open_ap.len(),
                    forall|x: int| 0 <= x < open_ap.len() ==> (#[trigger] open@[x]) == open_ap[x],
                    forall|y: int| 0 <= y < j ==> (#[trigger] open@[open_ap.len() + y]) == exts@[y],
                    reach_to ==> exists|x: int| 0 <= x < open@.len()
                        && (#[trigger] open@[x]).inner.path@.last().b == *to,
                    forall|x: int| 0 <= x < open@.len() ==> open_ok(
                        (#[trigger] open@[x]),
                        gm,
                        *from,
                        gm.dom().intersect(closed@).len() as int + 1,
                    ),
                    spec_edges(gm, *from).len() == 0 ==> open@.len() == 0,
                decreases exts@.len() - j,
            {
                let ghost ob = open@;
                open.push(exts[j].duplicate());
                proof {
                    if reach_to {
                        let x = choose|x: int| 0 <= x < ob.len()
                            && (#[trigger] ob[x]).inner.path@.last().b == *to;
                        assert(open@[x].inner.path@.last().b == *to);
                    }
                }
                j += 1;
            }
            proof {
                let k = choose|k: int| 0 <= k < open_before.len() && open_before[k] == cur
                    && open_ap == open_before.update(k, open_before.last()).drop_last();
                assert forall|u: u64| #[trigger] closed@.contains(u)
                    implies covered(open@, closed@, u, gm) by {
                    if u == last_b {
                        assert forall|y: int| 0 <= y < spec_edges(gm, u).len()
                            implies closed@.contains((#[trigger] spec_edges(gm, u)[y]).b)
                            || open_ends_at(open@, spec_edges(gm, u)[y].b) by {
                            assert(open@[open_ap.len() + y] == exts@[y]);
                            assert(exts@[y].inner.path@.last() == es[y]);
                            assert(open@[open_ap.len() + y].inner.path@.last().b
                                == spec_edges(gm, u)[y].b);
                        }
                    } else {
                        assert(closed_before.contains(u));
                        assert(covered(open_before, closed_before, u, gm));
                        assert forall|y: int| 0 <= y < spec_edges(gm, u).len()
                            implies closed@.contains((#[trigger] spec_edges(gm, u)[y]).b)
                            || open_ends_at(open@, spec_edges(gm, u)[y].b) by {
                            let tn = spec_edges(gm, u)[y].b;
                            if !closed@.contains(tn) {
                                assert(tn != last_b);
                                lemma_pop_keeps_witness(open_before, open_ap, cur, k, tn);
                                lemma_ends_at_prefix(open_ap, open@, tn);
                            }
                        }
                    }
                }
                assert(covered(open@, closed@, *from, gm)) by {
                    assert forall|y: int| 0 <= y < spec_edges(gm, *from).len()
                        implies closed@.contains((#[trigger] spec_edges(gm, *from)[y]).b)
                        || open_ends_at(open@, spec_edges(gm, *from)[y].b) by {
                        let tn = spec_edges(gm, *from)[y].b;
                        if !closed@.contains(tn) {
                            assert(tn != last_b);
                            assert(covered(open_before, closed_before, *from, gm));
                            lemma_pop_keeps_witness(open_before, open_ap, cur, k, tn);
                            lemma_ends_at_prefix(open_ap, open@, tn);
                        }
                    }
                }
            }
        }
        proof {
            if exists|q: Seq<Edge>| #[trigger] walk_from(q, *from, gm) && q.last().b == *to {
                if all_paths@.len() == 0 {
                    let q = choose|q: Seq<Edge>| #[trigger] walk_from(q, *from, gm)
                        && q.last().b == *to;
                    assert forall|y: int| 0 <= y < spec_edges(gm, *from).len()
                        implies closed@.contains((#[trigger] spec_edges(gm, *from)[y]).b) by {
                        assert(!open_ends_at(open@, spec_edges(gm, *from)[y].b));
                    }
                    assert forall|u: u64, y: int| closed@.contains(u) && 0 <= y < spec_edges(
                        gm,
                        u,
                    ).len() implies closed@.contains((#[trigger] spec_edges(gm, u)[y]).b) by {
                        assert(covered(open@, closed@, u, gm));
                        assert(!open_ends_at(open@, spec_edges(gm, u)[y].b));
                    }
                    lemma_closed_covers(closed@, gm, *from, q);
                }
            }
        }
        all_paths
    }

    fn bellman_ford(&self, source: &u64, target: &u64) -> (r: Option<SharedPath>) {
        let ghost gm = self.model();
        let ghost reach2 = gm.dom().len() >= 2 && *target != *source && exists|i: int|
            0 <= i < spec_edges(gm, *source).len()
                && (#[trigger] spec_edges(gm, *source)[i]).b == *target;
        proof {
            self.lemma_model_finite();
        }
        let mut best: Vec<(u64, SharedPath)> = Vec::new();
        let mut ks = KeySet::new();
        ks.insert(*source);
        let init = Path { total: 0, path: Vec::new(), nodes: ks };
        proof {
            assert(init.path@.len() == 0);
            assert(init.nodes@ == Set::<u64>::empty().insert(*source));
            assert(init.nodes@.len() == 1) by {
                assert(Set::<u64>::empty().insert(*source).len() == 1);
            }
            assert(init.wf());
        }
        best.push((*source, SharedPath::new(init)));
        let n = self.node_count();
        let mut round: usize = 0;
        let mut go = true;
        proof {
            assert(bf_ok(best@, gm, *source)) by {
                assert(best@[0].0 == *source);
                assert forall|i: int, nd: u64| #![trigger best@[i].1.inner.nodes@.contains(nd)]
                    0 <= i < best@.len() && best@[i].1.inner.nodes@.contains(nd)
                    implies table_has(best@, nd) by {
                    assert(best@[i].1.inner.nodes@ == Set::<u64>::empty().insert(*source));
                    assert(nd == *source);
                }
            }
        }
        while round < n - 1 && go
            invariant
                self.wf(),
                gm == self.model(),
                gm.dom().finite(),
                n == gm.dom().len(),
                n >= 1,
                bf_ok(best@, gm, *source),
                round == 0 ==> best@.len() == 1,
                round == 0 ==> go,
                reach2 == (gm.dom().len() >= 2 && *target != *source && exists|i: int|
                    0 <= i < spec_edges(gm, *source).len()
                        && (#[trigger] spec_edges(gm, *source)[i]).b == *target),
                reach2 && round >= 1 ==> exists|x: int| 0 <= x < best@.len()
                    && (#[trigger] best@[x]).0 == *target,
                forall|q: Seq<Edge>| #[trigger] walk_from(q, *source, gm) && q.len() <= round
                    ==> table_has(best@, q.last().b),
                !go ==> closed_table(best@, gm),
            decreases n - 1 - round, (if go { 1int } else { 0int }),
        {
            go = false;
            let ghost best0 = best@;
            let ghost fr = round == 0;
            let ghost had_t = exists|x: int| 0 <= x < best@.len()
                && (#[trigger] best@[x]).0 == *target;
            let mut keys: Vec<u64> = Vec::new();
            let mut ki: usize = 0;
            while ki < best.len()
                invariant
                    ki <= best@.len(),
                    keys@.len() == ki,
                    forall|x: int| 0 <= x < ki ==> (#[trigger] keys@[x]) == best@[x].0,
                decreases best@.len() - ki,
            {
                keys.push(best[ki].0);
                ki += 1;
            }
            proof {
                if fr {
                    let ws = choose|x: int| 0 <= x < best@.len() && (#[trigger] best@[x]).0 == *source;
                    assert(ws == 0);
                    assert(keys@[0] == *source);
                }
            }
            let mut kk: usize = 0;
            while kk < keys.len()
                invariant
                    self.wf(),
                    gm == self.model(),
                    gm.dom().finite(),
                    bf_ok(best@, gm, *source),
                    fr ==> keys@.len() == 1 && keys@[0] == *source,
                    reach2 == (gm.dom().len() >= 2 && *target != *source && exists|i: int|
                        0 <= i < spec_edges(gm, *source).len()
                            && (#[trigger] spec_edges(gm, *source)[i]).b == *target),
                    had_t ==> exists|x: int| 0 <= x < best@.len()
                        && (#[trigger] best@[x]).0 == *target,
                    reach2 && fr && kk >= 1 ==> exists|x: int| 0 <= x < best@.len()
                        && (#[trigger] best@[x]).0 == *target,
                    keys@.len() == best0.len(),
                    forall|x: int| 0 <= x < keys@.len() ==> (#[trigger] keys@[x]) == best0[x].0,
                    forall|k2: u64| table_has(best0, k2) ==> table_has(best@, k2),
                    !go ==> best@ == best0,
                    forall|x: int| 0 <= x < kk ==> tabled_targets(best@, #[trigger] keys@[x], gm),
                decreases keys@.len() - kk,
            {
                let key = keys[kk];
                let cur = match find_entry(&best, &key) {
                    Some(ci) => {
                        let c0 = best[ci].1.duplicate();
                        proof {
                            assert forall|nd: u64| c0.inner.nodes@.contains(nd)
                                implies table_has(best@, nd) by {
                                assert(best@[ci as int].1.inner.nodes@.contains(nd));
                            }
                        }
                        c0
                    },
                    None => {
                        proof {
                            assert(best0[kk as int].0 == keys@[kk as int]);
                            assert(table_has(best0, key));
                            assert(table_has(best@, key));
                            let w = choose|x: int| 0 <= x < best@.len()
                                && (#[trigger] best@[x]).0 == key;
                            assert(best@[w].0 == key);
                        }
                        kk += 1;
                        continue;
                    },
                };
                let ghost curk = key;
                proof {
                    assert(bf_entry_ok(curk, cur, gm, *source));
                }
                let edges = self.generate_edges(&key);
                let mut ei: usize = 0;
                while ei < edges.len()
                    invariant
                        self.wf(),
                        gm == self.model(),
                        gm.dom().finite(),
                        bf_ok(best@, gm, *source),
                        edges@ == spec_edges(gm, key),
                        costs_bounded(edges@),
                        bf_entry_ok(curk, cur, gm, *source),
                        curk == key,
                        exists|i: int| 0 <= i < best@.len() && (#[trigger] best@[i]).0 == curk,
                        forall|nd: u64| cur.inner.nodes@.contains(nd) ==> table_has(best@, nd),
                        forall|k2: u64| table_has(best0, k2) ==> table_has(best@, k2),
                        !go ==> best@ == best0,
                        forall|y: int| 0 <= y < ei ==> table_has(best@, (#[trigger] edges@[y]).b),
                        forall|x: int| 0 <= x < kk ==> tabled_targets(best@, #[trigger] keys@[x], gm),
                        ei <= edges@.len(),
                        had_t ==> exists|x: int| 0 <= x < best@.len()
                            && (#[trigger] best@[x]).0 == *target,
                        fr && curk == *source ==> forall|x: int| 0 <= x < ei
                            && (#[trigger] edges@[x]).b == *target && *target != *source
                            ==> exists|y: int| 0 <= y < best@.len()
                                && (#[trigger] best@[y]).0 == *target,
                    decreases edges@.len() - ei,
                {
                    let ghost bhead = best@;
                    let e = edges[ei];
                    if !cur.inner.nodes.contains(&e.b) {
                        proof {
                            assert(e.a == key);
                            assert(gm.dom().contains(key));
                            assert(cur.inner.nodes@.subset_of(gm.dom().insert(curk)));
                            lemma_len_subset(cur.inner.nodes@, gm.dom().insert(curk));
                            assert(gm.dom().insert(curk).len() <= gm.dom().len() + 1);
                            assert(cur.inner.path@.len() <= MAX_NODES + 1);
                            if cur.inner.path@.len() > 0 {
                                assert(e.a == cur.inner.last_node());
                            } else {
                                assert(curk == *source);
                                assert(cur.inner.nodes@ == Set::<u64>::empty().insert(e.a));
                            }
                        }
                        let newp = extended(&cur.inner, &e);
                        proof {
                            assert(newp.path@.last() == e);
                            assert(newp.path@[0].a == *source) by {
                                if cur.inner.path@.len() > 0 {
                                    assert(newp.path@[0] == cur.inner.path@[0]);
                                }
                            }
                            assert(newp.nodes@.len() == cur.inner.nodes@.len() + 1);
                            assert(spec_edges(gm, e.a).contains(e));
                            assert(all_graph_edges(newp.path@, gm)) by {
                                assert(forall|x: int| 0 <= x < cur.inner.path@.len() ==> newp.path@[x]
                                    == cur.inner.path@[x]);
                            }
                            assert(newp.nodes@.subset_of(gm.dom().insert(e.b)));
                            assert(e.b != *source);
                        }
                        let relax: bool = match find_entry(&best, &e.b) {
                            Some(bi) => {
                                if newp.total < best[bi].1.inner.total {
                                    let ghost oldseq = best@;
                                    proof {
                                        if spec_edges(gm, *source).len() == 0 {
                                            let wc = choose|i: int| 0 <= i < oldseq.len() && (#[trigger] oldseq[i]).0 == curk;
                                            let ws = choose|i: int| 0 <= i < oldseq.len() && (#[trigger] oldseq[i]).0 == *source;
                                            assert(wc == 0 && ws == 0);
                                            assert(spec_edges(gm, curk).len() > 0);
                                        }
                                    }
                                    best.set(bi, (e.b, SharedPath::new(newp)));
                                    proof {
                                        assert forall|x: int, y: int| 0 <= x < y < best@.len()
                                            implies (#[trigger] best@[x]).0 != (#[trigger] best@[y]).0 by {
                                            assert(oldseq[x].0 == best@[x].0);
                                            assert(oldseq[y].0 == best@[y].0);
                                        }
                                        let wi = choose|i: int| 0 <= i < oldseq.len() && (#[trigger] oldseq[i]).0 == *source;
                                        assert(best@[wi].0 == *source);
                                        assert(e.b != curk);
                                        let wk = choose|i: int| 0 <= i < oldseq.len() && (#[trigger] oldseq[i]).0 == curk;
                                        assert(best@[wk].0 == curk);
                                        if exists|x: int| 0 <= x < oldseq.len()
                                            && (#[trigger] oldseq[x]).0 == *target {
                                            let wt = choose|x: int| 0 <= x < oldseq.len()
                                                && (#[trigger] oldseq[x]).0 == *target;
                                            assert(best@[wt].0 == *target);
                                        }
                                        assert forall|k2: u64| table_has(oldseq, k2)
                                            implies table_has(best@, k2) by {
                                            let w = choose|x: int| 0 <= x < oldseq.len()
                                                && (#[trigger] oldseq[x]).0 == k2;
                                            assert(best@[w].0 == k2);
                                        }
                                        assert(table_has(best@, e.b)) by {
                                            assert(best@[bi as int].0 == e.b);
                                        }
                                        assert forall|i2: int, nd: u64|
                                            #![trigger best@[i2].1.inner.nodes@.contains(nd)]
                                            0 <= i2 < best@.len()
                                                && best@[i2].1.inner.nodes@.contains(nd)
                                            implies table_has(best@, nd) by {
                                            if i2 == bi {
                                                assert(best@[i2].1.inner.nodes@
                                                    == cur.inner.nodes@.insert(e.b));
                                                if nd != e.b {
                                                    assert(cur.inner.nodes@.contains(nd));
                                                    assert(table_has(oldseq, nd));
                                                }
                                            } else {
                                                assert(oldseq[i2].1.inner.nodes@.contains(nd));
                                                assert(table_has(oldseq, nd));
                                            }
                                        }
                                        assert forall|nd: u64| cur.inner.nodes@.contains(nd)
                                            implies table_has(best@, nd) by {
                                            assert(table_has(oldseq, nd));
                                        }
                                    }
                                    true
                                } else {
                                    proof {
                                        assert(best@[bi as int].0 == e.b);
                                    }
                                    false
                                }
                            },
                            None => {
                                let ghost oldseq = best@;
                                proof {
                                    if spec_edges(gm, *source).len() == 0 {
                                        let wc = choose|i: int| 0 <= i < oldseq.len() && (#[trigger] oldseq[i]).0 == curk;
                                        let ws = choose|i: int| 0 <= i < oldseq.len() && (#[trigger] oldseq[i]).0 == *source;
                                        assert(wc == 0 && ws == 0);
                                        assert(spec_edges(gm, curk).len() > 0);
                                    }
                                }
                                best.push((e.b, SharedPath::new(newp)));
                                proof {
                                    assert forall|x: int, y: int| 0 <= x < y < best@.len()
                                        implies (#[trigger] best@[x]).0 != (#[trigger] best@[y]).0 by {
                                        if y < oldseq.len() {
                                            assert(oldseq[x].0 == best@[x].0);
                                            assert(oldseq[y].0 == best@[y].0);
                                        } else {
                                            assert(best@[y].0 == e.b);
                                            assert(oldseq[x].0 == best@[x].0);
                                        }
                                    }
                                    let wi = choose|i: int| 0 <= i < oldseq.len() && (#[trigger] oldseq[i]).0 == *source;
                                    assert(best@[wi].0 == *source);
                                    let wk = choose|i: int| 0 <= i < oldseq.len() && (#[trigger] oldseq[i]).0 == curk;
                                    assert(best@[wk].0 == curk);
                                    if exists|x: int| 0 <= x < oldseq.len()
                                        && (#[trigger] oldseq[x]).0 == *target {
                                        let wt = choose|x: int| 0 <= x < oldseq.len()
                                            && (#[trigger] oldseq[x]).0 == *target;
                                        assert(best@[wt].0 == *target);
                                    }
                                    assert(best@[best@.len() - 1].0 == e.b);
                                    assert forall|k2: u64| table_has(oldseq, k2)
                                        implies table_has(best@, k2) by {
                                        let w = choose|x: int| 0 <= x < oldseq.len()
                                            && (#[trigger] oldseq[x]).0 == k2;
                                        assert(best@[w].0 == k2);
                                    }
                                    assert(table_has(best@, e.b));
                                    assert forall|i2: int, nd: u64|
                                        #![trigger best@[i2].1.inner.nodes@.contains(nd)]
                                        0 <= i2 < best@.len()
                                            && best@[i2].1.inner.nodes@.contains(nd)
                                        implies table_has(best@, nd) by {
                                        if i2 == best@.len() - 1 {
                                            assert(best@[i2].1.inner.nodes@
                                                == cur.inner.nodes@.insert(e.b));
                                            if nd != e.b {
                                                assert(cur.inner.nodes@.contains(nd));
                                                assert(table_has(oldseq, nd));
                                            }
                                        } else {
                                            assert(oldseq[i2].1.inner.nodes@.contains(nd));
                                            assert(table_has(oldseq, nd));
                                        }
                                    }
                                    assert forall|nd: u64| cur.inner.nodes@.contains(nd)
                                        implies table_has(best@, nd) by {
                                        assert(table_has(oldseq, nd));
                                    }
                                }
                                true
                            },
                        };
                        if relax {
                            go = true;
                        }
                    }
                    proof {
                        assert forall|k2: u64| table_has(bhead, k2) implies table_has(best@, k2)
                            by {}
                        assert forall|k2: u64| table_has(best0, k2) implies table_has(best@, k2) by {
                            assert(table_has(bhead, k2));
                        }
                        assert(table_has(best@, edges@[ei as int].b)) by {
                            if cur.inner.nodes@.contains(e.b) {
                                assert(table_has(bhead, e.b));
                            }
                        }
                        assert forall|y: int| 0 <= y < ei + 1
                            implies table_has(best@, (#[trigger] edges@[y]).b) by {
                            if y < ei {
                                assert(table_has(bhead, edges@[y].b));
                            }
                        }
                        assert forall|x: int| 0 <= x < kk
                            implies tabled_targets(best@, #[trigger] keys@[x], gm) by {
                            assert(tabled_targets(bhead, keys@[x], gm));
                            assert forall|y: int| 0 <= y < spec_edges(gm, keys@[x]).len()
                                implies table_has(best@, (#[trigger] spec_edges(gm, keys@[x])[y]).b)
                                by {
                                assert(table_has(bhead, spec_edges(gm, keys@[x])[y].b));
                            }
                        }
                    }
                    ei += 1;
                }
                proof {
                    if reach2 && fr && curk == *source {
                        let x0 = choose|i: int| 0 <= i < spec_edges(gm, *source).len()
                            && (#[trigger] spec_edges(gm, *source)[i]).b == *target;
                        assert(edges@[x0].b == *target);
                    }
                    assert(tabled_targets(best@, key, gm)) by {
                        assert forall|y: int| 0 <= y < spec_edges(gm, key).len()
                            implies table_has(best@, (#[trigger] spec_edges(gm, key)[y]).b) by {
                            assert(edges@[y] == spec_edges(gm, key)[y]);
                            assert(table_has(best@, edges@[y].b));
                        }
                    }
                    assert forall|x: int| 0 <= x < kk + 1
                        implies tabled_targets(best@, #[trigger] keys@[x], gm) by {
                        if x == kk {
                            assert(keys@[x] == key);
                        }
                    }
                }
                kk += 1;
            }
            proof {
                assert forall|q: Seq<Edge>| #[trigger] walk_from(q, *source, gm)
                    && q.len() <= round + 1 implies table_has(best@, q.last().b) by {
                    if q.len() <= round {
                        assert(table_has(best0, q.last().b));
                    } else {
                        let u = (q.last()).a;
                        if q.len() == 1 {
                            assert(u == *source);
                            let ws = choose|x: int| 0 <= x < best0.len()
                                && (#[trigger] best0[x]).0 == *source;
                            assert(table_has(best0, u));
                        } else {
                            let qp = q.take(q.len() - 1);
                            assert(qp[0] == q[0]);
                            assert(chained(qp)) by {
                                assert forall|x: int| 0 <= x < qp.len() - 1
                                    implies (#[trigger] qp[x]).b == qp[x + 1].a by {
                                    assert(qp[x] == q[x]);
                                    assert(qp[x + 1] == q[x + 1]);
                                }
                            }
                            assert(all_graph_edges(qp, gm)) by {
                                assert forall|x: int| 0 <= x < qp.len()
                                    implies spec_edges(gm, (#[trigger] qp[x]).a).contains(qp[x]) by {
                                    assert(qp[x] == q[x]);
                                }
                            }
                            assert(walk_from(qp, *source, gm));
                            assert(table_has(best0, qp.last().b));
                            assert(qp.last() == q[q.len() - 2]);
                            assert(q[q.len() - 2].b == q[q.len() - 1].a);
                            assert(table_has(best0, u));
                        }
                        let w = choose|x: int| 0 <= x < best0.len() && (#[trigger] best0[x]).0 == u;
                        assert(keys@[w] == u);
                        assert(tabled_targets(best@, keys@[w], gm));
                        assert(spec_edges(gm, (q.last()).a).contains(q.last()));
                        let y = choose|y: int| 0 <= y < spec_edges(gm, u).len()
                            && spec_edges(gm, u)[y] == q.last();
                        assert(table_has(best@, (spec_edges(gm, u)[y]).b));
                    }
                }
                if !go {
                    assert(best@ == best0);
                    assert forall|i: int, y: int| 0 <= i < best@.len() && 0 <= y < spec_edges(
                        gm,
                        (#[trigger] best@[i]).0,
                    ).len() implies table_has(best@, (#[trigger] spec_edges(gm, best@[i].0)[y]).b)
                        by {
                        assert(keys@[i] == best0[i].0);
                        assert(tabled_targets(best@, keys@[i], gm));
                    }
                    assert(closed_table(best@, gm));
                }
            }
            round += 1;
        }
        match find_entry(&best, target) {
            Some(ti) => {
                proof {
                    assert(bf_entry_ok(best@[ti as int].0, best@[ti as int].1, gm, *source));
                }
                Some(best[ti].1.duplicate())
            },
            None => {
                proof {
                    let wi = choose|i: int| 0 <= i < best@.len() && (#[trigger] best@[i]).0 == *source;
                    assert(best@[wi].0 != *target);
                    if reach2 {
                        assert(round >= 1);
                        let wt = choose|x: int| 0 <= x < best@.len()
                            && (#[trigger] best@[x]).0 == *target;
                        assert(best@[wt].0 != *target);
                    }
                    if exists|q: Seq<Edge>| #[trigger] walk_from(q, *source, gm)
                        && q.last().b == *target && q.len() <= gm.dom().len() - 1 {
                        let q = choose|q: Seq<Edge>| #[trigger] walk_from(q, *source, gm)
                            && q.last().b == *target && q.len() <= gm.dom().len() - 1;
                        if go {
                            assert(round == n - 1);
                            assert(table_has(best@, *target));
                        } else {
                            assert(table_has(best@, *source)) by {
                                assert(best@[wi].0 == *source);
                            }
                            lemma_closed_reach(best@, gm, *source, q);
                        }
                        let w = choose|x: int| 0 <= x < best@.len()
                            && (#[trigger] best@[x]).0 == *target;
                        assert(best@[w].0 != *target);
                    }
                }
                None
            },
        }
    }
}

} // verus!
