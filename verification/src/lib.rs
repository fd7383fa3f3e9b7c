//! Orientable genus of small undirected multigraphs by exhaustive search over
//! rotation systems, with every step stated and proved.
//!
//! A graph is a list of edges. `full_genus` splits it into connected
//! components and adds up their genera; `genus` finds the genus of one
//! component by trying each of its rotation systems, counting the faces of
//! each and applying Euler's formula to the largest count.
//!
//! - `graph`: vertices, edges, connectedness.
//! - `permutation`: permutations, their cycles, and the effect of a transposition.
//! - `splitter`: the connected components of an edge list.
//! - `half_edge`: the two halves of every edge, paired and gathered by vertex.
//! - `rotation`: counting the rotation systems and decoding one from its number.
//! - `faces`: tracing the faces of an embedding.
//! - `euler`: Euler's relation for every rotation system of a connected graph.
//! - `enumeration`: the numbers below the count and the rotation systems match one to one.
//! - `genus`: the search, and the sum over components.

pub mod graph;
pub mod permutation;
pub mod splitter;
pub mod half_edge;
pub mod rotation;
pub mod faces;
pub mod euler;
pub mod enumeration;
pub mod genus;

pub use crate::faces::{count_faces, trace_faces};
pub use crate::genus::{full_genus, genus, search_is_feasible};
pub use crate::graph::{is_incident, Edge, Graph, Vertex};
pub use crate::half_edge::half_edge_model;
pub use crate::rotation::{checked_factorial, decode_rotation, rotation_count};
pub use crate::splitter::componenets;
