//! Exact subgraph statistics over an undirected simple graph, together with
//! the integer side of their differentially private release.
//!
//! * `graph`: the graph store and its mutators.
//! * `sums`, `combinatorics`: finite sums and binomial coefficients.
//! * `counting`: triangles, stars, 4-cliques and near-4-cliques.
//! * `multiplicity`, `invariance`: how the counts relate to each other and
//!   to the shape of the graph.
//! * `release`: sensitivities and the count under a degree cap.
//! * `distances`: breadth-first distances from a vertex.
//! * `edge_list`, `lattice`, `rewiring`: reading and generating graphs.

pub mod combinatorics;
pub mod counting;
pub mod distances;
pub mod edge_list;
pub mod graph;
pub mod invariance;
pub mod lattice;
pub mod multiplicity;
pub mod release;
pub mod rewiring;
pub mod sums;
