//! All-destinations Bellman-Ford with negative-cycle detection: from one
//! source, the cheapest known route to every reached node, or, when an
//! extra relaxation round still finds an improvement, a closed walk of
//! graph edges standing for the negative cycle.

use vstd::prelude::*;
use vstd::arithmetic::mul::*;
use vstd::set_lib::*;
use std::collections::HashMap;
use crate::edge::{Edge, MAX_COST, MAX_NODES};
use crate::graph::{all_graph_edges, spec_edges, Graph, IntoConnections};
use crate::path::{chained, costs_bounded, sum_costs};

verus! {

broadcast use
    vstd::set::group_set_axioms,
    vstd::std_specs::hash::group_hash_axioms,
    vstd::seq_lib::seq_to_set_is_finite;

/// Whether some entry of the predecessor table has key `k`.
pub open spec fn has_key(s: Seq<(u64, (i64, Edge))>, k: u64) -> bool {
    exists|i: int| 0 <= i < s.len() && (#[trigger] s[i]).0 == k
}

/// The index of the entry with key `k` (meaningful when `k` is a key of
/// a duplicate-free table).
pub open spec fn key_index(s: Seq<(u64, (i64, Edge))>, k: u64) -> int {
    choose|i: int| 0 <= i < s.len() && (#[trigger] s[i]).0 == k
}

/// The cost stored for key `k`.
pub open spec fn key_cost(s: Seq<(u64, (i64, Edge))>, k: u64) -> i64 {
    s[key_index(s, k)].1.0
}

/// The predecessor edge stored for key `k`.
pub open spec fn key_pred(s: Seq<(u64, (i64, Edge))>, k: u64) -> Edge {
    s[key_index(s, k)].1.1
}

/// Replacing the entry at `i` while keeping its key, or appending an
/// entry with a fresh key, leaves every other key's stored cost alone.
proof fn lemma_key_cost_stable(before: Seq<(u64, (i64, Edge))>, after: Seq<(u64, (i64, Edge))>, i: int)
    requires
        forall|x: int, y: int| 0 <= x < y < before.len() ==> (#[trigger] before[x]).0 != (#[trigger] before[y]).0,
        0 <= i < after.len(),
        before.len() <= after.len() <= before.len() + 1,
        after.len() == before.len() ==> i < before.len() && after[i].0 == before[i].0,
        after.len() == before.len() + 1 ==> i == before.len() && !has_key(before, after[i].0),
        forall|x: int| 0 <= x < before.len() && x != i ==> after[x] == before[x],
    ensures
        forall|x: int, y: int| 0 <= x < y < after.len() ==> (#[trigger] after[x]).0 != (#[trigger] after[y]).0,
        forall|k: u64| has_key(before, k) ==> has_key(after, k),
        forall|k: u64| #![trigger key_cost(after, k)] has_key(before, k) && k != after[i].0
            ==> key_cost(after, k) == key_cost(before, k),
        key_cost(after, after[i].0) == after[i].1.0,
        has_key(after, after[i].0),
{
    assert forall|x: int, y: int| 0 <= x < y < after.len()
        implies (#[trigger] after[x]).0 != (#[trigger] after[y]).0 by {
        if y < before.len() {
            assert(before[x].0 == after[x].0 || x == i);
            assert(before[y].0 == after[y].0 || y == i);
        } else {
            assert(after[x].0 == before[x].0 || x == i);
            if x != i {
                assert(has_key(before, before[x].0)) by {
                    assert(before[x].0 == before[x].0);
                }
            }
        }
    }
    assert forall|k: u64| has_key(before, k) implies has_key(after, k) by {
        let w = choose|x: int| 0 <= x < before.len() && (#[trigger] before[x]).0 == k;
        if w == i {
            assert(after[w].0 == k);
        } else {
            assert(after[w].0 == k);
        }
    }
    assert forall|k: u64| has_key(before, k) && k != after[i].0
        implies #[trigger] key_cost(after, k) == key_cost(before, k) by {
        let w = choose|x: int| 0 <= x < before.len() && (#[trigger] before[x]).0 == k;
        assert(w != i);
        assert(after[w] == before[w]);
        lemma_key_index(before, k, w);
        lemma_key_index(after, k, w);
    }
    lemma_key_index(after, after[i].0, i);
}

/// In a duplicate-free table, an entry's index is the one `key_index`
/// names, so its cost is the one `key_cost` names.
proof fn lemma_key_index(s: Seq<(u64, (i64, Edge))>, k: u64, i: int)
    requires
        forall|x: int, y: int| 0 <= x < y < s.len() ==> (#[trigger] s[x]).0 != (#[trigger] s[y]).0,
        0 <= i < s.len(),
        s[i].0 == k,
    ensures
        key_index(s, k) == i,
        key_cost(s, k) == s[i].1.0,
{
    assert(has_key(s, k));
    let j = key_index(s, k);
    assert(0 <= j < s.len() && s[j].0 == k);
    if i < j {
        assert(s[i].0 != s[j].0);
    } else if j < i {
        assert(s[j].0 != s[i].0);
    }
}

/// What each `(vertex, (cost, edge))` entry of the predecessor table
/// satisfies: the stored edge is a graph edge into the vertex, its source
/// is the search source or another table vertex, and the cost stays
/// within `bound`.
pub open spec fn pred_ok<V: IntoConnections>(
    s: Seq<(u64, (i64, Edge))>,
    m: Map<u64, V>,
    from: u64,
    bound: int,
) -> bool {
    &&& forall|i: int| 0 <= i < s.len() ==> {
        let v = (#[trigger] s[i]).0;
        let c = s[i].1.0;
        let e = s[i].1.1;
        &&& e.b == v
        &&& spec_edges(m, e.a).contains(e)
        &&& (e.a == from || has_key(s, e.a))
        &&& -bound <= c <= bound
        &&& -MAX_COST <= e.h <= MAX_COST
        &&& (e.a != from ==> c >= key_cost(s, e.a) + e.h)
    }
    &&& forall|i: int, j: int| 0 <= i < j < s.len() ==> (#[trigger] s[i]).0 != (#[trigger] s[j]).0
    &&& (spec_edges(m, from).len() == 0 ==> s.len() == 0)
}

/// What every entry of the reconstructed result map satisfies: a
/// nonempty chained walk of graph edges from `from` to the entry's key,
/// reported together with the walk's own weight sum (whenever that sum
/// fits the cost type at all).
pub open spec fn routes_ok<V: IntoConnections>(
    r: Map<u64, (i64, Vec<Edge>)>,
    m: Map<u64, V>,
    from: u64,
) -> bool {
    forall|k: u64| r.dom().contains(k) ==> {
        let es = (#[trigger] r[k]).1;
        &&& es@.len() >= 1
        &&& chained(es@)
        &&& es@[0].a == from
        &&& es@.last().b == k
        &&& all_graph_edges(es@, m)
        &&& (i64::MIN <= sum_costs(es@) <= i64::MAX ==> r[k].0 == sum_costs(es@))
    }
}

/// A closed walk: consecutive edges meet, and the last edge's destination
/// is the first edge's source.
pub open spec fn closed_walk(s: Seq<Edge>) -> bool {
    &&& s.len() >= 1
    &&& chained(s)
    &&& s.last().b == s[0].a
}

/// Peeling the first edge off a nonempty sequence splits its cost sum.
proof fn lemma_sum_first(s: Seq<Edge>)
    requires
        s.len() >= 1,
    ensures
        sum_costs(s) == s[0].h + sum_costs(s.subrange(1, s.len() as int)),
    decreases s.len(),
{
    if s.len() == 1 {
        assert(s.drop_last() =~= Seq::<Edge>::empty());
        assert(s.subrange(1, s.len() as int) =~= Seq::<Edge>::empty());
    } else {
        lemma_sum_first(s.drop_last());
        assert(s.drop_last().subrange(1, s.drop_last().len() as int)
            =~= s.subrange(1, s.len() as int).drop_last());
        assert(s.subrange(1, s.len() as int).last() == s.last());
        assert(s.drop_last()[0] == s[0]);
    }
}

/// Reversing an edge sequence keeps its cost sum.
proof fn lemma_sum_reversed(a: Seq<Edge>, b: Seq<Edge>)
    requires
        a.len() == b.len(),
        forall|i: int| 0 <= i < a.len() ==> b[i] == a[a.len() - 1 - i],
    ensures
        sum_costs(a) == sum_costs(b),
    decreases a.len(),
{
    if a.len() > 0 {
        let at = a.subrange(1, a.len() as int);
        lemma_sum_reversed(at, b.drop_last());
        lemma_sum_first(a);
        assert(b.last() == a[0]);
    }
}

/// Looks up `k` in a plain key vector.
fn find_key(v: &Vec<u64>, k: &u64) -> (r: Option<usize>)
    ensures
        match r {
            Option::Some(i) => i < v@.len() && v@[i as int] == *k,
            Option::None => forall|j: int| 0 <= j < v@.len() ==> (#[trigger] v@[j]) != *k,
        },
{
    let mut i: usize = 0;
    while i < v.len()
        invariant
            i <= v@.len(),
            forall|j: int| 0 <= j < i ==> (#[trigger] v@[j]) != *k,
        decreases v@.len() - i,
    {
        if v[i] == *k {
            return Some(i);
        }
        i += 1;
    }
    None
}

/// Telescoping the stored-cost inequalities along a predecessor chain:
/// the cost at the chain's first vertex dominates the cost at any later
/// predecessor plus the weight collected so far.
proof fn lemma_pred_telescope(
    s: Seq<Edge>,
    paths: Seq<(u64, (i64, Edge))>,
    from: u64,
    x: int,
)
    requires
        forall|i: int, j: int| 0 <= i < j < paths.len() ==> (#[trigger] paths[i]).0 != (#[trigger] paths[j]).0,
        forall|i: int| 0 <= i < paths.len() ==> {
            let e = (#[trigger] paths[i]).1.1;
            e.a != from ==> paths[i].1.0 >= key_cost(paths, e.a) + e.h
        },
        forall|y: int| 0 <= y < s.len() ==> has_key(paths, (#[trigger] s[y]).b)
            && key_pred(paths, s[y].b) == s[y],
        forall|y: int| 0 <= y < s.len() - 1 ==> (#[trigger] s[y]).a == s[y + 1].b,
        forall|y: int| 0 <= y < s.len() ==> (#[trigger] s[y]).a != from,
        0 <= x < s.len(),
    ensures
        key_cost(paths, s[0].b) >= key_cost(paths, s[x].a) + sum_costs(s.take(x + 1)),
    decreases x,
{
    assert(s.take(x + 1).drop_last() =~= s.take(x));
    assert(s.take(x + 1).last() == s[x]);
    let i = key_index(paths, s[x].b);
    assert(has_key(paths, s[x].b));
    assert(0 <= i < paths.len() && paths[i].0 == s[x].b);
    assert(paths[i].1.1 == s[x]);
    assert(paths[i].1.0 >= key_cost(paths, s[x].a) + s[x].h);
    assert(key_cost(paths, s[x].b) == paths[i].1.0);
    if x == 0 {
        assert(sum_costs(s.take(0int)) == 0) by {
            assert(s.take(0int) =~= Seq::<Edge>::empty());
        }
    } else {
        lemma_pred_telescope(s, paths, from, x - 1);
        assert(s[x - 1].a == s[x].b);
    }
}

/// A cycle of stored predecessor edges that stays clear of the source
/// has non-positive total weight: every relaxation that wrote an entry
/// respected the stored-cost inequality, and those telescope around the
/// cycle.
proof fn lemma_pred_cycle_sum(
    s: Seq<Edge>,
    paths: Seq<(u64, (i64, Edge))>,
    from: u64,
)
    requires
        forall|i: int, j: int| 0 <= i < j < paths.len() ==> (#[trigger] paths[i]).0 != (#[trigger] paths[j]).0,
        forall|i: int| 0 <= i < paths.len() ==> {
            let e = (#[trigger] paths[i]).1.1;
            e.a != from ==> paths[i].1.0 >= key_cost(paths, e.a) + e.h
        },
        forall|y: int| 0 <= y < s.len() ==> has_key(paths, (#[trigger] s[y]).b)
            && key_pred(paths, s[y].b) == s[y],
        forall|y: int| 0 <= y < s.len() - 1 ==> (#[trigger] s[y]).a == s[y + 1].b,
        s.len() >= 1,
        s.last().a == s[0].b,
        forall|y: int| 0 <= y < s.len() ==> (#[trigger] s[y]).a != from,
    ensures
        sum_costs(s) <= 0,
{
    lemma_pred_telescope(s, paths, from, s.len() - 1);
    assert(s.take(s.len() as int) =~= s);
}

/// Looks up the predecessor entry whose key is `k`.
fn find_pred(s: &Vec<(u64, (i64, Edge))>, k: &u64) -> (r: Option<usize>)
    ensures
        match r {
            Option::Some(i) => i < s@.len() && s@[i as int].0 == *k,
            Option::None => forall|j: int| 0 <= j < s@.len() ==> (#[trigger] s@[j]).0 != *k,
        },
{
    let mut i: usize = 0;
    while i < s.len()
        invariant
            i <= s@.len(),
            forall|j: int| 0 <= j < i ==> (#[trigger] s@[j]).0 != *k,
        decreases s@.len() - i,
    {
        if s[i].0 == *k {
            return Some(i);
        }
        i += 1;
    }
    None
}

/// An independent copy of the predecessor table.
fn snapshot(s: &Vec<(u64, (i64, Edge))>) -> (r: Vec<(u64, (i64, Edge))>)
    ensures
        r@ == s@,
{
    let mut out: Vec<(u64, (i64, Edge))> = Vec::new();
    let mut i: usize = 0;
    while i < s.len()
        invariant
            i <= s@.len(),
            out@ == s@.take(i as int),
        decreases s@.len() - i,
    {
        out.push(s[i]);
        proof {
            assert(out@ =~= s@.take(i + 1));
        }
        i += 1;
    }
    proof {
        assert(out@ =~= s@);
    }
    out
}

/// The same edges in the opposite order.
fn reversed(v: &Vec<Edge>) -> (r: Vec<Edge>)
    ensures
        r@.len() == v@.len(),
        forall|i: int| 0 <= i < v@.len() ==> r@[i] == v@[v@.len() - 1 - i],
{
    let mut out: Vec<Edge> = Vec::new();
    let mut i: usize = v.len();
    while i > 0
        invariant
            i <= v@.len(),
            out@.len() == v@.len() - i,
            forall|j: int| 0 <= j < out@.len() ==> out@[j] == v@[v@.len() - 1 - j],
        decreases i,
    {
        i -= 1;
        out.push(v[i]);
    }
    out
}

/// The all-destinations shortest-route operation a graph offers.
pub trait Pathfind<N: IntoConnections>: Sized {
    /// The node map the search runs over.
    spec fn graph_model(&self) -> Map<u64, N>;

    /// Whether the graph is well formed.
    spec fn graph_wf(&self) -> bool;

    /// Single-source Bellman-Ford over every reachable node, tolerant of
    /// negative costs.  After the bounded relaxation rounds one extra
    /// detection round runs: when an edge can still be relaxed, the walk
    /// along predecessor edges is closed into a cycle and returned as the
    /// failure value; a predecessor chain that loops instead of reaching
    /// the source during route reconstruction is returned the same way.
    ///
    /// On success, every reported route is a nonempty chained walk of
    /// graph edges from `from` to the node it is reported under, every
    /// immediate neighbour of the source is reported, and a source with
    /// no outgoing edges yields the empty map.  On failure the returned
    /// edges form a closed walk of graph edges whose total weight,
    /// whenever the walk stays clear of the source itself, is not
    /// positive.
    fn bellman_ford(&mut self, from: &u64) -> (r: Result<HashMap<u64, (i64, Vec<Edge>)>, Vec<Edge>>)
        requires
            old(self).graph_wf(),
            old(self).graph_model().dom().len() >= 1,
        ensures
            *final(self) == *old(self),
            match r {
                Result::Ok(m) => {
                    &&& routes_ok(m@, old(self).graph_model(), *from)
                    &&& (spec_edges(old(self).graph_model(), *from).len() == 0 ==> m@
                        == Map::<u64, (i64, Vec<Edge>)>::empty())
                    &&& forall|i: int| 0 <= i < spec_edges(old(self).graph_model(), *from).len()
                        ==> m@.dom().contains(
                            (#[trigger] spec_edges(old(self).graph_model(), *from)[i]).b,
                        )
                },
                Result::Err(c) => {
                    &&& closed_walk(c@)
                    &&& all_graph_edges(c@, old(self).graph_model())
                    &&& ((forall|i: int| 0 <= i < c@.len() ==> (#[trigger] c@[i]).a != *from)
                        ==> sum_costs(c@) <= 0)
                },
            },
            spec_edges(old(self).graph_model(), *from).len() == 0 ==> r is Ok,
    ;
}

impl<V: IntoConnections> Pathfind<V> for Graph<V> {
    open spec fn graph_model(&self) -> Map<u64, V> {
        self.model()
    }

    open spec fn graph_wf(&self) -> bool {
        self.wf()
    }

    fn bellman_ford(&mut self, from: &u64) -> (r: Result<HashMap<u64, (i64, Vec<Edge>)>, Vec<Edge>>) {
        let ghost gm = self.model();
        proof {
            self.lemma_model_finite();
            assert((MAX_NODES as int) * (MAX_COST as int) == 0x1000_0000_0000_0000int)
                by (nonlinear_arith);
        }
        let n = self.node_count();
        let mut paths: Vec<(u64, (i64, Edge))> = Vec::new();

        // Seed: one entry per immediate neighbour of the source.
        let edges = self.generate_edges(from);
        let ghost seedv = edges@;
        let mut i: usize = 0;
        while i < edges.len()
            invariant
                self.wf(),
                gm == self.model(),
                edges@ == spec_edges(gm, *from),
                costs_bounded(edges@),
                i <= edges@.len(),
                pred_ok(paths@, gm, *from, MAX_COST as int),
                seedv == edges@,
                forall|x: int| 0 <= x < paths@.len() ==> (#[trigger] paths@[x]).1.1.a == *from,
                forall|x: int| 0 <= x < i ==> has_key(paths@, (#[trigger] seedv[x]).b),
            decreases edges@.len() - i,
        {
            let e = edges[i];
            proof {
                assert(spec_edges(gm, e.a).contains(e));
            }
            let ghost sbefore = paths@;
            match find_pred(&paths, &e.b) {
                Some(pi) => {
                    paths.set(pi, (e.b, (e.h, e)));
                    proof {
                        assert(paths@[pi as int].0 == e.b);
                    }
                },
                None => {
                    paths.push((e.b, (e.h, e)));
                    proof {
                        assert(paths@[paths@.len() - 1].0 == e.b);
                    }
                },
            }
            proof {
                assert forall|k: u64| has_key(sbefore, k) implies has_key(paths@, k) by {
                    let w = choose|x: int| 0 <= x < sbefore.len() && (#[trigger] sbefore[x]).0 == k;
                    assert(paths@[w].0 == k);
                }
                assert(has_key(paths@, e.b));
                assert forall|x: int| 0 <= x <= i implies has_key(paths@, (#[trigger] seedv[x]).b) by {
                    if x < i {
                        assert(has_key(sbefore, seedv[x].b));
                    } else {
                        assert(seedv[x] == e);
                    }
                }
            }
            i += 1;
        }

        // Relaxation rounds: at most |V| - 1, stopping early once a full
        // round brings no update.
        let mut round: usize = 0;
        let mut go = true;
        let ghost mut cb = MAX_COST as int;
        while round < n - 1 && go
            invariant
                self.wf(),
                gm == self.model(),
                n == gm.dom().len(),
                n >= 1,
                n <= MAX_NODES,
                round <= n - 1,
                seedv == spec_edges(gm, *from),
                cb == (round + 1) * (MAX_COST as int),
                pred_ok(paths@, gm, *from, cb),
                forall|x: int| 0 <= x < seedv.len() ==> has_key(paths@, (#[trigger] seedv[x]).b),
            decreases n - 1 - round,
        {
            go = false;
            let snap = snapshot(&paths);
            let ghost snapv = snap@;
            let mut si: usize = 0;
            proof {
                assert(cb + MAX_COST == (round + 2) * (MAX_COST as int)) by (nonlinear_arith)
                    requires cb == (round + 1) * (MAX_COST as int);
                lemma_mul_inequality(round as int + 2, MAX_NODES as int, MAX_COST as int);
            }
            while si < snap.len()
                invariant
                    self.wf(),
                    gm == self.model(),
                    snap@ == snapv,
                    pred_ok(snapv, gm, *from, cb),
                    cb >= 0,
                    cb + MAX_COST <= (MAX_NODES as int) * (MAX_COST as int) + MAX_COST,
                    (MAX_NODES as int) * (MAX_COST as int) == 0x1000_0000_0000_0000int,
                    si <= snapv.len(),
                    pred_ok(paths@, gm, *from, cb + MAX_COST),
                    forall|k: u64| #![trigger has_key(snapv, k)] has_key(snapv, k)
                        ==> has_key(paths@, k) && key_cost(paths@, k) <= key_cost(snapv, k),
                    forall|x: int| 0 <= x < seedv.len() ==> has_key(paths@, (#[trigger] seedv[x]).b),
                decreases snapv.len() - si,
            {
                let (v, (c, pe)) = snap[si];
                let new_edges = self.generate_edges(&pe.b);
                let mut ei: usize = 0;
                while ei < new_edges.len()
                    invariant
                        self.wf(),
                        gm == self.model(),
                        snap@ == snapv,
                        pred_ok(snapv, gm, *from, cb),
                        cb >= 0,
                        cb + MAX_COST <= (MAX_NODES as int) * (MAX_COST as int) + MAX_COST,
                        (MAX_NODES as int) * (MAX_COST as int) == 0x1000_0000_0000_0000int,
                        si < snapv.len(),
                        (v, (c, pe)) == snapv[si as int],
                        new_edges@ == spec_edges(gm, pe.b),
                        costs_bounded(new_edges@),
                        ei <= new_edges@.len(),
                        pred_ok(paths@, gm, *from, cb + MAX_COST),
                        forall|k: u64| #![trigger has_key(snapv, k)] has_key(snapv, k)
                            ==> has_key(paths@, k) && key_cost(paths@, k) <= key_cost(snapv, k),
                        forall|x: int| 0 <= x < seedv.len() ==> has_key(paths@, (#[trigger] seedv[x]).b),
                    decreases new_edges@.len() - ei,
                {
                    let ne = new_edges[ei];
                    proof {
                        assert(-cb <= c <= cb);
                        assert(-MAX_COST <= ne.h <= MAX_COST);
                        assert(spec_edges(gm, ne.a).contains(ne));
                        assert(ne.a == pe.b);
                        assert(has_key(snapv, pe.b)) by {
                            assert(snapv[si as int].0 == v && pe.b == v);
                        }
                        assert(has_key(paths@, pe.b));
                        if spec_edges(gm, *from).len() == 0 {
                            assert(snapv.len() == 0);
                        }
                    }
                    proof {
                        lemma_key_index(snapv, v, si as int);
                        assert(key_cost(snapv, ne.a) == c);
                        assert(key_cost(paths@, ne.a) <= c);
                    }
                    let new_cost = c + ne.h;
                    let ghost before = paths@;
                    let mut relaxed = false;
                    let mut at: usize = 0;
                    match find_pred(&paths, &ne.b) {
                        Some(pi) => {
                            if new_cost < paths[pi].1.0 {
                                proof {
                                    lemma_key_index(before, ne.b, pi as int);
                                }
                                paths.set(pi, (ne.b, (new_cost, ne)));
                                relaxed = true;
                                at = pi;
                            }
                        },
                        None => {
                            at = paths.len();
                            paths.push((ne.b, (new_cost, ne)));
                            relaxed = true;
                        },
                    }
                    proof {
                        if relaxed {
                            lemma_key_cost_stable(before, paths@, at as int);
                            assert(key_cost(paths@, ne.b) == new_cost);
                            // The new entry still satisfies the cost chain: its
                            // predecessor's live cost is at most the snapshot
                            // cost the relaxation computed with.
                            if ne.a != *from {
                                if ne.a == ne.b {
                                    assert(key_cost(before, ne.b) <= c);
                                    assert(new_cost >= key_cost(paths@, ne.a) + ne.h);
                                } else {
                                    assert(has_key(before, ne.a));
                                    assert(key_cost(paths@, ne.a) == key_cost(before, ne.a));
                                    assert(new_cost >= key_cost(paths@, ne.a) + ne.h);
                                }
                            }
                            assert(has_key(paths@, ne.a) || ne.a == *from) by {
                                if ne.a != *from {
                                    assert(has_key(before, ne.a));
                                }
                            }
                            // Every older entry keeps its clauses: only the
                            // cost under `ne.b` changed, and it only went down.
                            assert forall|x: int| 0 <= x < before.len() && x != at implies ({
                                let w = (#[trigger] paths@[x]).0;
                                let cw = paths@[x].1.0;
                                let ew = paths@[x].1.1;
                                &&& (ew.a == *from || has_key(paths@, ew.a))
                                &&& (ew.a != *from ==> cw >= key_cost(paths@, ew.a) + ew.h)
                            }) by {
                                let ew = before[x].1.1;
                                assert(paths@[x] == before[x]);
                                if ew.a != *from {
                                    assert(has_key(before, ew.a));
                                    if ew.a == ne.b {
                                        assert(key_cost(paths@, ne.b) <= key_cost(before, ne.b));
                                    } else {
                                        assert(key_cost(paths@, ew.a) == key_cost(before, ew.a));
                                    }
                                }
                            }
                            // The live costs of snapshot keys never rise.
                            assert forall|k: u64| #![trigger has_key(snapv, k)] has_key(snapv, k)
                                implies has_key(paths@, k) && key_cost(paths@, k) <= key_cost(snapv, k) by {
                                assert(has_key(before, k));
                                if k == ne.b {
                                    assert(key_cost(paths@, k) <= key_cost(before, k));
                                } else {
                                    assert(key_cost(paths@, k) == key_cost(before, k));
                                }
                            }
                            assert forall|x: int| 0 <= x < seedv.len()
                                implies has_key(paths@, (#[trigger] seedv[x]).b) by {
                                assert(has_key(before, seedv[x].b));
                            }
                        }
                    }
                    if relaxed {
                        go = true;
                    }
                    ei += 1;
                }
                si += 1;
            }
            round += 1;
            proof {
                cb = cb + MAX_COST;
            }
        }
        proof {
            lemma_mul_inequality(round as int + 1, MAX_NODES as int, MAX_COST as int);
            assert(cb <= (MAX_NODES as int) * (MAX_COST as int)) by (nonlinear_arith)
                requires
                    cb == (round + 1) * (MAX_COST as int),
                    round + 1 <= MAX_NODES,
            ;
        }

        // Detection round: any edge that can still be relaxed betrays a
        // negative cycle; close the predecessor walk into one.
        let det = snapshot(&paths);
        let ghost detv = det@;
        let mut di: usize = 0;
        while di < det.len()
            invariant
                self.wf(),
                gm == self.model(),
                detv == det@,
                detv == paths@,
                pred_ok(paths@, gm, *from, cb),
                cb >= 0,
                cb <= (MAX_NODES as int) * (MAX_COST as int),
                (MAX_NODES as int) * (MAX_COST as int) == 0x1000_0000_0000_0000int,
                di <= detv.len(),
                n >= 1,
                forall|x: int| 0 <= x < seedv.len() ==> has_key(paths@, (#[trigger] seedv[x]).b),
            decreases detv.len() - di,
        {
            let (v, (c, pe)) = det[di];
            let new_edges = self.generate_edges(&pe.b);
            let mut ei: usize = 0;
            while ei < new_edges.len()
                invariant
                    self.wf(),
                    gm == self.model(),
                    detv == det@,
                    detv == paths@,
                    pred_ok(paths@, gm, *from, cb),
                    cb >= 0,
                    cb <= (MAX_NODES as int) * (MAX_COST as int),
                    (MAX_NODES as int) * (MAX_COST as int) == 0x1000_0000_0000_0000int,
                    di < detv.len(),
                    (v, (c, pe)) == detv[di as int],
                    new_edges@ == spec_edges(gm, pe.b),
                    costs_bounded(new_edges@),
                    ei <= new_edges@.len(),
                    n >= 1,
                decreases new_edges@.len() - ei,
            {
                let ne = new_edges[ei];
                proof {
                    assert(-cb <= c <= cb);
                    assert(-MAX_COST <= ne.h <= MAX_COST);
                }
                let new_cost = c + ne.h;
                let relaxable: bool = match find_pred(&paths, &ne.b) {
                    Some(pi) => new_cost < paths[pi].1.0,
                    None => true,
                };
                if relaxable {
                    // Walk predecessors |V| times to get inside the cycle.
                    let mut cv: u64 = ne.b;
                    let mut steps: usize = 0;
                    let mut alive = true;
                    while steps < n && alive
                        invariant
                            detv == paths@,
                            steps <= n,
                        decreases n - steps,
                    {
                        match find_pred(&paths, &cv) {
                            Some(wi) => {
                                cv = paths[wi].1.1.a;
                            },
                            None => {
                                alive = false;
                            },
                        }
                        steps += 1;
                    }
                    // Collect predecessor edges until the walk closes.
                    let start = cv;
                    let mut cur = cv;
                    let mut cyc: Vec<Edge> = Vec::new();
                    proof {
                        assert(sum_costs(Seq::<Edge>::empty()) == 0);
                    }
                    let mut fuel = paths.len();
                    let mut closed = false;
                    let mut dead = false;
                    while fuel > 0 && !closed && !dead
                        invariant
                            detv == paths@,
                            pred_ok(paths@, gm, *from, cb),
                            fuel <= paths@.len(),
                            cyc@.len() == 0 ==> cur == start && !closed,
                            cyc@.len() > 0 ==> cyc@[0].b == start,
                            cyc@.len() > 0 ==> cur == cyc@.last().a,
                            forall|x: int| 0 <= x < cyc@.len() - 1 ==> (#[trigger] cyc@[x]).a == cyc@[x + 1].b,
                            forall|x: int| 0 <= x < cyc@.len() ==> spec_edges(gm, (#[trigger] cyc@[x]).a).contains(cyc@[x]),
                            closed ==> cyc@.len() >= 1 && cur == start,
                            (forall|x: int| 0 <= x < cyc@.len() ==> (#[trigger] cyc@[x]).a != *from)
                                ==> key_cost(paths@, start) >= key_cost(paths@, cur) + sum_costs(cyc@),
                        decreases fuel,
                    {
                        fuel -= 1;
                        match find_pred(&paths, &cur) {
                            Some(wi) => {
                                let we = paths[wi].1.1;
                                let ghost oldcyc = cyc@;
                                proof {
                                    assert(we.b == cur);
                                    assert(spec_edges(gm, we.a).contains(we));
                                    lemma_key_index(paths@, cur, wi as int);
                                }
                                cyc.push(we);
                                cur = we.a;
                                if cur == start {
                                    closed = true;
                                }
                                proof {
                                    assert(cyc@.drop_last() =~= oldcyc);
                                    assert(cyc@.last() == we);
                                    if forall|x: int| 0 <= x < cyc@.len() ==> (#[trigger] cyc@[x]).a != *from {
                                        assert forall|x: int| 0 <= x < oldcyc.len()
                                            implies (#[trigger] oldcyc[x]).a != *from by {
                                            assert(cyc@[x] == oldcyc[x]);
                                        }
                                        assert(we.a != *from) by {
                                            assert(cyc@[cyc@.len() - 1] == we);
                                        }
                                        assert(key_cost(paths@, we.b) >= key_cost(paths@, we.a) + we.h);
                                        assert(sum_costs(cyc@) == sum_costs(oldcyc) + we.h);
                                    }
                                }
                            },
                            None => {
                                dead = true;
                            },
                        }
                    }
                    if closed {
                        let rev = reversed(&cyc);
                        proof {
                            let l = cyc@.len() as int;
                            assert(rev@.len() == l);
                            assert forall|x: int| 0 <= x < l - 1 implies (#[trigger] rev@[x]).b == rev@[x + 1].a by {
                                assert(rev@[x] == cyc@[l - 1 - x]);
                                assert(rev@[x + 1] == cyc@[l - 2 - x]);
                                assert(cyc@[l - 2 - x].a == cyc@[l - 1 - x].b);
                            }
                            assert(rev@[l - 1] == cyc@[0]);
                            assert(rev@[0] == cyc@[l - 1]);
                            assert(rev@.last().b == cyc@[0].b);
                            assert(rev@[0].a == cyc@[l - 1].a);
                            assert(cyc@.last().a == start);
                            assert(closed_walk(rev@));
                            assert forall|x: int| 0 <= x < rev@.len()
                                implies spec_edges(gm, (#[trigger] rev@[x]).a).contains(rev@[x]) by {
                                assert(rev@[x] == cyc@[l - 1 - x]);
                            }
                            if forall|x: int| 0 <= x < rev@.len() ==> (#[trigger] rev@[x]).a != *from {
                                assert forall|x: int| 0 <= x < cyc@.len()
                                    implies (#[trigger] cyc@[x]).a != *from by {
                                    assert(cyc@[x] == rev@[l - 1 - x]);
                                }
                                assert(key_cost(paths@, start) >= key_cost(paths@, start) + sum_costs(cyc@));
                                lemma_sum_reversed(cyc@, rev@);
                                assert(sum_costs(rev@) <= 0);
                            }
                        }
                        return Err(rev);
                    }
                }
                ei += 1;
            }
            di += 1;
        }

        // Reconstruct full routes by following predecessor edges back to
        // the source and reversing.  A predecessor chain that revisits a
        // vertex instead of reaching the source is itself a cycle left
        // by the relaxation anomalies of negative weights, and is
        // returned as the failure value.
        let ghost keyseq = Seq::new(paths@.len() as nat, |i: int| paths@[i].0);
        let mut rpaths: HashMap<u64, (i64, Vec<Edge>)> = HashMap::new();
        let mut ri: usize = 0;
        while ri < paths.len()
            invariant
                self.wf(),
                gm == self.model(),
                pred_ok(paths@, gm, *from, cb),
                keyseq == Seq::new(paths@.len() as nat, |i: int| paths@[i].0),
                ri <= paths@.len(),
                routes_ok(rpaths@, gm, *from),
                paths@.len() == 0 ==> rpaths@ == Map::<u64, (i64, Vec<Edge>)>::empty(),
                forall|x: int| 0 <= x < ri ==> rpaths@.dom().contains((#[trigger] paths@[x]).0),
                forall|x: int| 0 <= x < seedv.len() ==> has_key(paths@, (#[trigger] seedv[x]).b),
            decreases paths@.len() - ri,
        {
            let (v, (c, pe)) = paths[ri];
            let mut route: Vec<Edge> = Vec::new();
            let mut chain: Vec<u64> = Vec::new();
            chain.push(v);
            let mut cure = pe;
            let mut done = false;
            let mut cycled = false;
            let mut cyc_at: usize = 0;
            proof {
                assert(pe.b == v);
                lemma_key_index(paths@, v, ri as int);
                assert(chain@ =~= seq![v]);
                assert(has_key(paths@, v)) by {
                    assert(paths@[ri as int].0 == v);
                }
            }
            while !done && !cycled
                invariant
                    pred_ok(paths@, gm, *from, cb),
                    keyseq == Seq::new(paths@.len() as nat, |i: int| paths@[i].0),
                    chain@.len() >= 1,
                    chain@.len() <= keyseq.len(),
                    chain@[0] == v,
                    chain@.no_duplicates(),
                    forall|x: int| 0 <= x < chain@.len() ==> has_key(paths@, #[trigger] chain@[x]),
                    route@.len() <= chain@.len(),
                    forall|x: int| 0 <= x < route@.len() ==> (#[trigger] route@[x]).b == chain@[x],
                    forall|x: int| 0 <= x < route@.len() && x + 1 < chain@.len()
                        ==> (#[trigger] route@[x]).a == chain@[x + 1],
                    forall|x: int| 0 <= x < route@.len() ==> has_key(paths@, (#[trigger] route@[x]).b)
                        && key_pred(paths@, route@[x].b) == route@[x]
                        && spec_edges(gm, route@[x].a).contains(route@[x])
                        && -MAX_COST <= route@[x].h <= MAX_COST,
                    !done && !cycled ==> chain@.len() == route@.len() + 1
                        && cure == key_pred(paths@, chain@.last())
                        && cure.b == chain@.last()
                        && spec_edges(gm, cure.a).contains(cure)
                        && -MAX_COST <= cure.h <= MAX_COST,
                    done ==> chain@.len() == route@.len() && route@.len() >= 1
                        && route@.last().a == *from,
                    cycled ==> chain@.len() == route@.len() && route@.len() >= 1
                        && cyc_at < route@.len() && route@.last().a == chain@[cyc_at as int],
                decreases
                    keyseq.len() + 1 - chain@.len(),
                    (if done || cycled { 0int } else { 1int }),
            {
                route.push(cure);
                let nxt = cure.a;
                if nxt == *from {
                    done = true;
                } else {
                    proof {
                        // The predecessor of the chain's end is itself on
                        // the table: its source is the search source or a
                        // table key, and the source case was just ruled out.
                        let kk = chain@.last();
                        let ii = key_index(paths@, kk);
                        assert(0 <= ii < paths@.len() && paths@[ii].0 == kk);
                        assert(paths@[ii].1.1 == cure);
                        assert(has_key(paths@, nxt));
                    }
                    match find_key(&chain, &nxt) {
                        Some(j) => {
                            cyc_at = j;
                            cycled = true;
                        },
                        None => {
                            let ghost oldchain = chain@;
                            chain.push(nxt);
                            proof {
                                assert(chain@.drop_last() =~= oldchain);
                                assert(chain@.no_duplicates()) by {
                                    assert(forall|x: int| 0 <= x < oldchain.len()
                                        ==> oldchain[x] != nxt);
                                }
                                // A duplicate-free vector of table keys can
                                // hold at most as many keys as the table.
                                chain@.unique_seq_to_set();
                                assert forall|k: u64| chain@.to_set().contains(k)
                                    implies keyseq.to_set().contains(k) by {
                                    assert(chain@.contains(k));
                                    assert(has_key(paths@, k));
                                    let w = choose|y: int| 0 <= y < paths@.len()
                                        && (#[trigger] paths@[y]).0 == k;
                                    assert(keyseq[w] == k);
                                    assert(keyseq.contains(k));
                                }
                                lemma_len_subset(chain@.to_set(), keyseq.to_set());
                                keyseq.lemma_cardinality_of_set();
                            }
                            match find_pred(&paths, &nxt) {
                                Some(wi) => {
                                    proof {
                                        lemma_key_index(paths@, nxt, wi as int);
                                    }
                                    cure = paths[wi].1.1;
                                    proof {
                                        assert(cure.b == nxt);
                                        assert(spec_edges(gm, cure.a).contains(cure));
                                    }
                                },
                                None => {
                                    // Contradicts has_key(paths@, nxt) above.
                                    proof {
                                        let w = choose|y: int| 0 <= y < paths@.len()
                                            && (#[trigger] paths@[y]).0 == nxt;
                                        assert(paths@[w].0 == nxt);
                                    }
                                    done = true;
                                },
                            }
                        },
                    }
                }
            }
            if cycled {
                // The chain closed on itself: hand back the cycle it traced.
                let mut cycv: Vec<Edge> = Vec::new();
                let mut x = cyc_at;
                while x < route.len()
                    invariant
                        cyc_at <= x <= route@.len(),
                        cycv@ == route@.subrange(cyc_at as int, x as int),
                    decreases route@.len() - x,
                {
                    cycv.push(route[x]);
                    proof {
                        assert(cycv@ =~= route@.subrange(cyc_at as int, x + 1));
                    }
                    x += 1;
                }
                proof {
                    assert(cycv@ =~= route@.subrange(cyc_at as int, route@.len() as int));
                    assert(cycv@.len() >= 1);
                    assert forall|y: int| 0 <= y < cycv@.len() - 1
                        implies (#[trigger] cycv@[y]).a == cycv@[y + 1].b by {
                        assert(cycv@[y] == route@[cyc_at + y]);
                        assert(cycv@[y + 1] == route@[cyc_at + y + 1]);
                        assert(route@[cyc_at + y].a == chain@[cyc_at + y + 1]);
                        assert(route@[cyc_at + y + 1].b == chain@[cyc_at + y + 1]);
                    }
                    assert(cycv@.last() == route@.last());
                    assert(cycv@[0].b == chain@[cyc_at as int]);
                    assert(cycv@.last().a == cycv@[0].b);
                    assert forall|y: int| 0 <= y < cycv@.len() implies ({
                        &&& has_key(paths@, (#[trigger] cycv@[y]).b)
                        &&& key_pred(paths@, cycv@[y].b) == cycv@[y]
                        &&& spec_edges(gm, cycv@[y].a).contains(cycv@[y])
                    }) by {
                        assert(cycv@[y] == route@[cyc_at + y]);
                    }
                }
                let rev = reversed(&cycv);
                proof {
                    let l = cycv@.len() as int;
                    assert forall|y: int| 0 <= y < l - 1 implies (#[trigger] rev@[y]).b == rev@[y + 1].a by {
                        assert(rev@[y] == cycv@[l - 1 - y]);
                        assert(rev@[y + 1] == cycv@[l - 2 - y]);
                        assert(cycv@[l - 2 - y].a == cycv@[l - 1 - y].b);
                    }
                    assert(rev@[l - 1] == cycv@[0]);
                    assert(rev@[0] == cycv@[l - 1]);
                    assert(rev@.last().b == cycv@[0].b);
                    assert(rev@[0].a == cycv@[l - 1].a);
                    assert(closed_walk(rev@));
                    assert forall|y: int| 0 <= y < rev@.len()
                        implies spec_edges(gm, (#[trigger] rev@[y]).a).contains(rev@[y]) by {
                        assert(rev@[y] == cycv@[l - 1 - y]);
                    }
                    if forall|y: int| 0 <= y < rev@.len() ==> (#[trigger] rev@[y]).a != *from {
                        assert forall|y: int| 0 <= y < cycv@.len()
                            implies (#[trigger] cycv@[y]).a != *from by {
                            assert(cycv@[y] == rev@[l - 1 - y]);
                        }
                        lemma_pred_cycle_sum(cycv@, paths@, *from);
                        lemma_sum_reversed(cycv@, rev@);
                        assert(sum_costs(rev@) <= 0);
                    }
                }
                return Err(rev);
            }
            let ghost beforer = rpaths@;
            proof {
                assert forall|x: int| 0 <= x < route@.len() - 1
                    implies (#[trigger] route@[x]).a == route@[x + 1].b by {
                    assert(route@[x].a == chain@[x + 1]);
                    assert(route@[x + 1].b == chain@[x + 1]);
                }
            }
            let rev = reversed(&route);
            proof {
                let l = route@.len() as int;
                assert forall|x: int| 0 <= x < l - 1 implies (#[trigger] rev@[x]).b == rev@[x + 1].a by {
                    assert(rev@[x] == route@[l - 1 - x]);
                    assert(rev@[x + 1] == route@[l - 2 - x]);
                    assert(route@[l - 2 - x].a == route@[l - 1 - x].b);
                }
                assert(rev@[0] == route@[l - 1]);
                assert(rev@[l - 1] == route@[0]);
                assert(route@[0].b == v);
                assert forall|x: int| 0 <= x < rev@.len()
                    implies spec_edges(gm, (#[trigger] rev@[x]).a).contains(rev@[x]) by {
                    assert(rev@[x] == route@[l - 1 - x]);
                }
                assert forall|x: int| 0 <= x < rev@.len() implies -MAX_COST
                    <= (#[trigger] rev@[x]).h <= MAX_COST by {
                    assert(rev@[x] == route@[l - 1 - x]);
                }
            }
            // The reported cost is the route's own weight sum, accumulated
            // wide enough that it cannot overflow; only a sum beyond the
            // cost type itself falls back to the relaxed cost.
            let mut total: i128 = 0;
            let mut sx: usize = 0;
            proof {
                assert(sum_costs(rev@.take(0int)) == 0) by {
                    assert(rev@.take(0int) =~= Seq::<Edge>::empty());
                }
            }
            while sx < rev.len()
                invariant
                    sx <= rev@.len(),
                    forall|x: int| 0 <= x < rev@.len() ==> -MAX_COST
                        <= (#[trigger] rev@[x]).h <= MAX_COST,
                    total as int == sum_costs(rev@.take(sx as int)),
                    -(sx as int) * (MAX_COST as int) <= total as int <= (sx as int) * (MAX_COST as int),
                decreases rev@.len() - sx,
            {
                proof {
                    lemma_mul_inequality(sx as int + 1, 0x1_0000_0000_0000_0000int, MAX_COST as int);
                    assert(0x1_0000_0000_0000_0000int * (MAX_COST as int)
                        == 0x4000_0000_0000_0000_0000_0000int) by (nonlinear_arith);
                    assert(rev@.take(sx + 1).drop_last() =~= rev@.take(sx as int));
                    assert(rev@.take(sx + 1).last() == rev@[sx as int]);
                    assert((sx as int) * (MAX_COST as int) + MAX_COST
                        == (sx as int + 1) * (MAX_COST as int)) by (nonlinear_arith);
                }
                total = total + rev[sx].h as i128;
                sx += 1;
            }
            proof {
                assert(rev@.take(rev@.len() as int) =~= rev@);
            }
            let rep: i64 = if total >= i64::MIN as i128 && total <= i64::MAX as i128 {
                total as i64
            } else {
                c
            };
            rpaths.insert(v, (rep, rev));
            proof {
                assert forall|k: u64| rpaths@.dom().contains(k) implies ({
                    let es = (#[trigger] rpaths@[k]).1;
                    &&& es@.len() >= 1
                    &&& chained(es@)
                    &&& es@[0].a == *from
                    &&& es@.last().b == k
                    &&& all_graph_edges(es@, gm)
                    &&& (i64::MIN <= sum_costs(es@) <= i64::MAX ==> rpaths@[k].0 == sum_costs(es@))
                }) by {
                    if k != v {
                        assert(rpaths@[k] == beforer[k]);
                    }
                }
            }
            ri += 1;
        }
        Ok(rpaths)
    }
}

} // verus!
