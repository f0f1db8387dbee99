//! Accumulated search paths: an edge sequence, its total cost and the set
//! of visited node keys, plus the shared handle used by the searches.

use vstd::prelude::*;
use vstd::seq_lib::*;
use vstd::set_lib::*;
use std::rc::Rc;
use crate::edge::{Edge, MAX_COST, MAX_NODES};

verus! {

broadcast use vstd::set::group_set_axioms, vstd::seq_lib::seq_to_set_is_finite;

/// A finite set of node keys, kept as a duplicate-free vector.
#[derive(Clone, Debug)]
pub struct KeySet {
    items: Vec<u64>,
}

impl View for KeySet {
    type V = Set<u64>;

    closed spec fn view(&self) -> Set<u64> {
        self.items@.to_set()
    }
}

impl KeySet {
    /// The stored vector never holds a key twice.
    pub closed spec fn wf(&self) -> bool {
        self.items@.no_duplicates()
    }

    /// The empty key set.
    pub fn new() -> (r: KeySet)
        ensures
            r@ == Set::<u64>::empty(),
            r.wf(),
    {
        let r = KeySet { items: Vec::new() };
        proof {
            assert(r.items@.to_set() =~= Set::<u64>::empty());
        }
        r
    }

    /// Whether `k` is in the set.
    pub fn contains(&self, k: &u64) -> (r: bool)
        ensures
            r == self@.contains(*k),
    {
        let mut i: usize = 0;
        while i < self.items.len()
            invariant
                i <= self.items@.len(),
                forall|j: int| 0 <= j < i ==> self.items@[j] != *k,
            decreases self.items@.len() - i,
        {
            if self.items[i] == *k {
                proof {
                    assert(self.items@.contains(*k));
                }
                return true;
            }
            i += 1;
        }
        proof {
            assert(!self.items@.contains(*k));
        }
        false
    }

    /// Adds `k`; the set is unchanged when `k` is already present.
    pub fn insert(&mut self, k: u64)
        requires
            old(self).wf(),
        ensures
            final(self).wf(),
            final(self)@ == old(self)@.insert(k),
    {
        if !self.contains(&k) {
            let ghost before = self.items@;
            self.items.push(k);
            proof {
                assert(self.items@.drop_last() =~= before);
                assert(self.items@.no_duplicates()) by {
                    assert(forall|j: int| 0 <= j < before.len() ==> before[j] != k);
                }
                assert forall|x: u64| self.items@.contains(x) <==> (before.contains(x) || x == k) by {
                    if self.items@.contains(x) {
                        let i = choose|i: int| 0 <= i < self.items@.len() && self.items@[i] == x;
                        if i < before.len() {
                            assert(before[i] == x);
                        }
                    }
                    if before.contains(x) {
                        let i = choose|i: int| 0 <= i < before.len() && before[i] == x;
                        assert(self.items@[i] == x);
                    }
                    if x == k {
                        assert(self.items@[before.len() as int] == k);
                    }
                }
                assert(self.items@.to_set() =~= before.to_set().insert(k));
            }
        } else {
            proof {
                assert(self@.insert(k) =~= self@);
            }
        }
    }

    /// How many keys the set holds.
    pub fn len(&self) -> (r: usize)
        requires
            self.wf(),
        ensures
            r == self@.len(),
    {
        proof {
            self.items@.unique_seq_to_set();
        }
        self.items.len()
    }

    /// An independent copy of the set.
    pub fn duplicate(&self) -> (r: KeySet)
        ensures
            r@ == self@,
            self.wf() ==> r.wf(),
    {
        let mut out: Vec<u64> = Vec::new();
        let mut i: usize = 0;
        while i < self.items.len()
            invariant
                i <= self.items@.len(),
                out@ == self.items@.take(i as int),
            decreases self.items@.len() - i,
        {
            out.push(self.items[i]);
            proof {
                assert(out@ =~= self.items@.take(i + 1));
            }
            i += 1;
        }
        proof {
            assert(out@ =~= self.items@);
        }
        KeySet { items: out }
    }
}

/// The sum of the edge costs of `s`, as an unbounded integer.
pub open spec fn sum_costs(s: Seq<Edge>) -> int
    decreases s.len(),
{
    if s.len() == 0 {
        0
    } else {
        sum_costs(s.drop_last()) + s.last().h
    }
}

/// The set of destination keys of the edges of `s`.
pub open spec fn edge_targets(s: Seq<Edge>) -> Set<u64>
    decreases s.len(),
{
    if s.len() == 0 {
        Set::empty()
    } else {
        edge_targets(s.drop_last()).insert(s.last().b)
    }
}

/// Consecutive edges meet: each edge starts at the node where the
/// previous one ended.
pub open spec fn chained(s: Seq<Edge>) -> bool {
    forall|i: int| 0 <= i < s.len() - 1 ==> (#[trigger] s[i]).b == s[i + 1].a
}

/// Every cost of `s` lies within `[-MAX_COST, MAX_COST]`.
pub open spec fn costs_bounded(s: Seq<Edge>) -> bool {
    forall|i: int| 0 <= i < s.len() ==> -MAX_COST <= (#[trigger] s[i]).h <= MAX_COST
}

/// A bounded-cost edge sequence has a total bounded by its length.
pub proof fn lemma_sum_costs_bound(s: Seq<Edge>)
    requires
        costs_bounded(s),
    ensures
        -(s.len() as int) * (MAX_COST as int) <= sum_costs(s) <= (s.len() as int) * (MAX_COST as int),
    decreases s.len(),
{
    if s.len() > 0 {
        lemma_sum_costs_bound(s.drop_last());
        assert(-MAX_COST <= s.last().h <= MAX_COST);
        assert((s.len() - 1) * (MAX_COST as int) + MAX_COST == (s.len() as int) * (MAX_COST as int))
            by (nonlinear_arith);
    }
}

/// An accumulated sequence of edges with its running total cost and the
/// set of node keys it has visited.
///
/// A well-formed path's `nodes` set is exactly its start key plus the
/// destination key of every edge, and `total` is the sum of its edge
/// costs; the empty path stands for "already at the source" and carries
/// cost zero.
#[derive(Clone, Debug)]
pub struct Path {
    pub total: i64,
    pub path: Vec<Edge>,
    pub nodes: KeySet,
}

impl Path {
    /// Well-formedness: the totals, the visited set and the chaining of
    /// the edge sequence all agree.
    pub open spec fn wf(&self) -> bool {
        &&& self.nodes.wf()
        &&& self.nodes@.finite()
        &&& chained(self.path@)
        &&& costs_bounded(self.path@)
        &&& self.total as int == sum_costs(self.path@)
        &&& (self.path@.len() == 0 ==> self.total == 0 && self.nodes@.len() == 1)
        &&& (self.path@.len() > 0 ==> self.nodes@ == edge_targets(self.path@).insert(self.path@[0].a))
    }

    /// The key the path currently ends at (meaningful when nonempty).
    pub open spec fn last_node(&self) -> u64 {
        self.path@.last().b
    }

    /// A path is simple when no node is visited twice: the visited set
    /// then has one more element than the edge sequence.
    pub open spec fn simple(&self) -> bool {
        self.nodes@.len() == self.path@.len() + 1
    }
}

/// An independent copy of an edge vector.
fn copy_edges(v: &Vec<Edge>) -> (r: Vec<Edge>)
    ensures
        r@ == v@,
{
    let mut out: Vec<Edge> = Vec::new();
    let mut i: usize = 0;
    while i < v.len()
        invariant
            i <= v@.len(),
            out@ == v@.take(i as int),
        decreases v@.len() - i,
    {
        out.push(v[i]);
        proof {
            assert(out@ =~= v@.take(i + 1));
        }
        i += 1;
    }
    proof {
        assert(out@ =~= v@);
    }
    out
}

/// The path that extends `base` with the edge `e`: one more edge, the
/// cost of `e` added to the total, and `e`'s destination added to the
/// visited set.
pub fn extended(base: &Path, e: &Edge) -> (r: Path)
    requires
        base.wf(),
        base.path@.len() <= MAX_NODES + 1,
        -MAX_COST <= e.h <= MAX_COST,
        base.path@.len() > 0 ==> e.a == base.last_node(),
        base.path@.len() == 0 ==> base.nodes@ == Set::<u64>::empty().insert(e.a),
    ensures
        r.wf(),
        r.total as int == base.total + e.h,
        r.path@ == base.path@.push(*e),
        r.nodes@ == base.nodes@.insert(e.b),
{
    proof {
        lemma_sum_costs_bound(base.path@);
        assert((base.path@.len() as int) * (MAX_COST as int) + MAX_COST < i64::MAX) by (nonlinear_arith)
            requires base.path@.len() <= MAX_NODES + 1;
    }
    let total = base.total + e.h;
    let mut path = copy_edges(&base.path);
    path.push(*e);
    let mut nodes = base.nodes.duplicate();
    nodes.insert(e.b);
    let r = Path { total, path, nodes };
    proof {
        assert(r.path@.drop_last() =~= base.path@);
        assert(r.path@.last() == *e);
        if base.path@.len() == 0 {
            assert(edge_targets(base.path@) =~= Set::<u64>::empty());
            assert(edge_targets(r.path@) =~= Set::<u64>::empty().insert(e.b));
            assert(r.nodes@ =~= edge_targets(r.path@).insert(r.path@[0].a));
        } else {
            assert(r.nodes@ =~= edge_targets(r.path@).insert(r.path@[0].a));
        }
        assert(chained(r.path@)) by {
            assert(forall|i: int| 0 <= i < base.path@.len() ==> r.path@[i] == base.path@[i]);
        }
        assert(costs_bounded(r.path@));
    }
    r
}

/// Whether two edge vectors hold the same edges in the same order.
fn edges_eq(a: &Vec<Edge>, b: &Vec<Edge>) -> (r: bool)
    ensures
        r == (a@ == b@),
{
    if a.len() != b.len() {
        return false;
    }
    let mut i: usize = 0;
    while i < a.len()
        invariant
            a@.len() == b@.len(),
            i <= a@.len(),
            forall|j: int| 0 <= j < i ==> a@[j] == b@[j],
        decreases a@.len() - i,
    {
        if a[i] != b[i] {
            return false;
        }
        i += 1;
    }
    proof {
        assert(a@ =~= b@);
    }
    true
}

impl PartialEq for Path {
    /// Two paths are equal when their totals and their edge sequences
    /// are; the visited set is derived data and takes no part.
    fn eq(&self, other: &Self) -> (r: bool) {
        self.total == other.total && edges_eq(&self.path, &other.path)
    }
}

impl vstd::std_specs::cmp::PartialEqSpecImpl for Path {
    open spec fn obeys_eq_spec() -> bool {
        true
    }

    open spec fn eq_spec(&self, other: &Self) -> bool {
        self.total == other.total && self.path@ == other.path@
    }
}

impl PartialOrd for Path {
    /// Paths order by total cost **reversed**: the path with the larger
    /// total sorts as the lesser one, so a max-first priority structure
    /// over paths hands out the cheapest path first.
    fn partial_cmp(&self, other: &Self) -> (r: Option<std::cmp::Ordering>) {
        if other.total < self.total {
            Some(std::cmp::Ordering::Less)
        } else if other.total == self.total {
            Some(std::cmp::Ordering::Equal)
        } else {
            Some(std::cmp::Ordering::Greater)
        }
    }
}

impl vstd::std_specs::cmp::PartialOrdSpecImpl for Path {
    open spec fn obeys_partial_cmp_spec() -> bool {
        true
    }

    open spec fn partial_cmp_spec(&self, other: &Self) -> Option<core::cmp::Ordering> {
        if other.total < self.total {
            Some(core::cmp::Ordering::Less)
        } else if other.total == self.total {
            Some(core::cmp::Ordering::Equal)
        } else {
            Some(core::cmp::Ordering::Greater)
        }
    }
}

/// A shared, read-only handle to a [`Path`].  Extending a path never
/// mutates the shared instance: it always builds a new `Path` and wraps
/// it in a new `SharedPath`, so many open search branches can share a
/// common prefix.
#[derive(Clone, Debug)]
pub struct SharedPath {
    pub inner: Rc<Path>,
}

impl SharedPath {
    /// Wraps a path in a new shared handle.
    pub fn new(path: Path) -> (r: SharedPath)
        ensures
            r.inner == path,
    {
        SharedPath { inner: Rc::new(path) }
    }

    /// Another handle to the same underlying path.
    pub fn duplicate(&self) -> (r: SharedPath)
        ensures
            r.inner == self.inner,
    {
        SharedPath { inner: self.inner.clone() }
    }
}

impl PartialEq for SharedPath {
    /// Equality of shared paths is equality of the paths they point to.
    fn eq(&self, other: &Self) -> (r: bool) {
        *self.inner == *other.inner
    }
}

impl vstd::std_specs::cmp::PartialEqSpecImpl for SharedPath {
    open spec fn obeys_eq_spec() -> bool {
        true
    }

    open spec fn eq_spec(&self, other: &Self) -> bool {
        self.inner.total == other.inner.total && self.inner.path@ == other.inner.path@
    }
}

impl PartialOrd for SharedPath {
    /// Ordering of shared paths is the pointed-to paths' reversed
    /// total-cost ordering.
    fn partial_cmp(&self, other: &Self) -> (r: Option<std::cmp::Ordering>) {
        (*self.inner).partial_cmp(&*other.inner)
    }
}

impl vstd::std_specs::cmp::PartialOrdSpecImpl for SharedPath {
    open spec fn obeys_partial_cmp_spec() -> bool {
        true
    }

    open spec fn partial_cmp_spec(&self, other: &Self) -> Option<core::cmp::Ordering> {
        if other.inner.total < self.inner.total {
            Some(core::cmp::Ordering::Less)
        } else if other.inner.total == self.inner.total {
            Some(core::cmp::Ordering::Equal)
        } else {
            Some(core::cmp::Ordering::Greater)
        }
    }
}

/// The node set a well-formed nonempty path records is exactly the one
/// reconstructed from its edge list: the first edge's source plus every
/// edge's destination.
pub proof fn lemma_nodes_round_trip(p: Path)
    requires
        p.wf(),
        p.path@.len() >= 1,
    ensures
        p.nodes@ == edge_targets(p.path@).insert(p.path@[0].a),
{
}

} // verus!
