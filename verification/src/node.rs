//! A basic node value: it knows its own key and lists its outgoing
//! `(target, cost)` links directly.  Domains with richer node values
//! implement [`crate::graph::IntoConnections`] themselves; this one is
//! enough for plain weighted graphs.

use vstd::prelude::*;
use std::collections::HashMap;
use crate::edge::{Edge, MAX_COST};
use crate::graph::{Connection, IntoConnections};

verus! {

/// A connection reported by a [`Node`]: origin key `a`, target key `b`,
/// cost `h`.
#[derive(Clone, Copy, PartialEq, Eq, Structural, Debug)]
pub struct Link {
    pub a: u64,
    pub b: u64,
    pub h: i64,
}

impl Connection for Link {
    open spec fn origin(&self) -> u64 {
        self.a
    }

    open spec fn target(&self) -> u64 {
        self.b
    }

    open spec fn cost(&self) -> i64 {
        self.h
    }

    fn into_edge(&self, id: usize) -> (e: Edge)
        ensures
            e == (Edge { id, a: self.a, b: self.b, h: self.h }),
    {
        Edge::new(id, self.a, self.b, self.h)
    }
}

/// A node value holding its own key and its outgoing links.
pub struct Node {
    id: u64,
    links: Vec<(u64, i64)>,
}

impl Node {
    /// Every stored link cost stays within the supported range.
    #[verifier::type_invariant]
    pub closed spec fn inv(&self) -> bool {
        forall|i: int| 0 <= i < self.links@.len() ==> -MAX_COST <= (#[trigger] self.links@[i]).1 <= MAX_COST
    }

    /// The node's outgoing `(target, cost)` pairs.
    pub closed spec fn links(&self) -> Seq<(u64, i64)> {
        self.links@
    }

    /// A node with the given key and no links yet.
    pub fn new(id: u64) -> (r: Node)
        ensures
            r.key() == id,
            r.links() == Seq::<(u64, i64)>::empty(),
    {
        let r = Node { id, links: Vec::new() };
        proof {
            assert(r.links@ =~= Seq::<(u64, i64)>::empty());
        }
        r
    }

    /// Adds an outgoing link to `to` with the given cost.
    pub fn link(&mut self, to: u64, cost: i64)
        requires
            -MAX_COST <= cost <= MAX_COST,
        ensures
            final(self).key() == old(self).key(),
            final(self).links() == old(self).links().push((to, cost)),
    {
        proof {
            use_type_invariant(&*self);
        }
        let mut links: Vec<(u64, i64)> = Vec::new();
        core::mem::swap(&mut self.links, &mut links);
        links.push((to, cost));
        core::mem::swap(&mut self.links, &mut links);
    }
}

/// A `Node` reports exactly its stored links, whatever else the map
/// holds.
pub proof fn lemma_node_conns(n: Node, m: Map<u64, Node>)
    ensures
        n.conns(m) == n.links(),
{
}

impl IntoConnections for Node {
    type Item = Link;

    closed spec fn key(&self) -> u64 {
        self.id
    }

    closed spec fn conns(&self, m: Map<u64, Node>) -> Seq<(u64, i64)> {
        self.links()
    }

    fn into_connections(&self, m: &HashMap<u64, Node>) -> (cs: Vec<Link>)
        ensures
            cs@.len() == self.conns(m@).len(),
            forall|i: int| 0 <= i < cs@.len() ==> {
                &&& (#[trigger] cs@[i]).origin() == self.key()
                &&& cs@[i].target() == self.conns(m@)[i].0
                &&& cs@[i].cost() == self.conns(m@)[i].1
                &&& -MAX_COST <= cs@[i].cost() <= MAX_COST
            },
    {
        proof {
            use_type_invariant(self);
        }
        let mut cs: Vec<Link> = Vec::new();
        let mut i: usize = 0;
        while i < self.links.len()
            invariant
                self.inv(),
                i <= self.links@.len(),
                cs@.len() == i,
                forall|j: int| 0 <= j < i ==> {
                    &&& (#[trigger] cs@[j]).a == self.id
                    &&& cs@[j].b == self.links@[j].0
                    &&& cs@[j].h == self.links@[j].1
                },
            decreases self.links@.len() - i,
        {
            let (to, cost) = self.links[i];
            cs.push(Link { a: self.id, b: to, h: cost });
            i += 1;
        }
        cs
    }
}

} // verus!
