//! A weighted directed-graph engine.
//!
//! A [`graph::Graph`] maps node keys to node values; a node value describes
//! its own outgoing connections through the [`graph::IntoConnections`] and
//! [`graph::Connection`] contracts, and the engine turns those connections
//! into [`edge::Edge`] values on demand.  On top of that sit three searches:
//! a uniform-cost best-first search and a cycle-avoiding single-target
//! Bellman-Ford ([`pathfinder::Pathfind`]), an all-destinations Bellman-Ford
//! with negative-cycle detection ([`bellman::Pathfind`]), and an exhaustive
//! enumeration of simple paths ([`graph::Graph::map`]).

pub mod bellman;
pub mod edge;
pub mod graph;
pub mod node;
pub mod path;
pub mod pathfinder;
