//! Vertices, edges and edge lists, and the vocabulary used to speak about them.

use vstd::prelude::*;

verus! {

/// A vertex is an opaque identifier; two vertices are the same when their identifiers are.
#[derive(PartialEq, Eq, Structural, Clone, Copy, Debug, Hash)]
pub struct Vertex(pub u64);

/// An undirected edge. Loops and repeated edges are allowed, and each occurrence counts.
pub type Edge = (Vertex, Vertex);

/// A graph is the list of its edges, in insertion order.
pub type Graph = Vec<Edge>;

/// The vertex `v` is an end of the edge `e`.
pub open spec fn has_end(e: Edge, v: Vertex) -> bool {
    e.0 == v || e.1 == v
}

/// The vertex `v` is an end of some edge of `es`.
pub open spec fn touches(es: Seq<Edge>, v: Vertex) -> bool {
    exists|i: int| 0 <= i < es.len() && #[trigger] has_end(es[i], v)
}

/// Whether `v` is an end of some edge of `edges`.
pub fn is_incident(edges: &Vec<Edge>, v: Vertex) -> (found: bool)
    ensures
        found == touches(edges@, v),
{
    let mut i: usize = 0;
    while i < edges.len()
        invariant
            i <= edges.len(),
            forall|k: int| 0 <= k < i ==> !#[trigger] has_end(edges@[k], v),
        decreases edges.len() - i,
    {
        if edges[i].0 == v || edges[i].1 == v {
            assert(has_end(edges@[i as int], v));
            return true;
        }
        i += 1;
    }
    false
}

/// A set of vertices that no edge of `es` leaves: each edge has both ends in
/// it or both ends outside.
pub open spec fn crosses_no_edge(side: Set<Vertex>, es: Seq<Edge>) -> bool {
    forall|i: int|
        0 <= i < es.len() ==> side.contains((#[trigger] es[i]).0) == side.contains(es[i].1)
}

/// All edges of `es` lie on the same side of the set `side`.
pub open spec fn on_one_side(side: Set<Vertex>, es: Seq<Edge>) -> bool {
    forall|i: int, j: int|
        0 <= i < es.len() && 0 <= j < es.len() ==> side.contains((#[trigger] es[i]).0)
            == side.contains((#[trigger] es[j]).0)
}

/// The edges of `es` hang together: they cannot be parted into two lots
/// without a vertex in common. The empty list counts as connected.
pub open spec fn connected(es: Seq<Edge>) -> bool {
    forall|side: Set<Vertex>| #[trigger] crosses_no_edge(side, es) ==> on_one_side(side, es)
}

/// The other half of the edge that the half-edge `d` belongs to.
pub open spec fn mate(d: int) -> int {
    if d % 2 == 0 {
        d + 1
    } else {
        d - 1
    }
}

/// The vertex at which the half-edge `d` sits: edge `i` has the half-edges
/// `2i`, at its first endpoint, and `2i + 1`, at its second.
pub open spec fn dart_vertex(es: Seq<Edge>, d: int) -> Vertex {
    if d % 2 == 0 {
        es[d / 2].0
    } else {
        es[d / 2].1
    }
}

/// The vertices at which the half-edges `0, 1, 2, ..` of `es` sit, in that order.
pub open spec fn endpoints(es: Seq<Edge>) -> Seq<Vertex> {
    Seq::new(2 * es.len(), |d: int| dart_vertex(es, d))
}

/// The number of distinct vertices that the edges of `es` touch.
pub open spec fn vertex_count(es: Seq<Edge>) -> nat {
    endpoints(es).to_set().len()
}

/// A list of lists, seen as sequences.
pub open spec fn lists<T>(v: Seq<Vec<T>>) -> Seq<Seq<T>> {
    Seq::new(v.len(), |i: int| v[i]@)
}

} // verus!
