//! Euler's relation for rotation systems: on a connected graph no rotation
//! system has more than `E - V + 2` faces, and `V - E + F` is always even.

use crate::graph::{
    connected, crosses_no_edge, dart_vertex, endpoints, mate, vertex_count, Edge, Vertex,
};
use crate::half_edge::one_list_per_vertex;
use crate::permutation::{
    cycle_count, is_cycle_decomposition, is_perm, lemma_cycles_counted, lemma_swap_changes_cycles,
    lemma_swap_then_is_perm, listed, steps, swap_then,
};
use vstd::prelude::*;
use vstd::seq_lib::seq_to_set_is_finite;

verus! {

/// The face permutation of the rotation `rho`: first cross the edge, then
/// turn to the next half-edge at the vertex reached.
pub open spec fn face_permutation(rho: Seq<usize>) -> Seq<usize> {
    Seq::new(rho.len(), |d: int| rho[mate(d)])
}

/// `rho` is a rotation system of `es`: a permutation of the half-edges whose
/// cycles are the vertices, each cycle running once through all the
/// half-edges at its vertex. The lists `cs` are those cycles.
pub open spec fn is_rotation_with_cycles(
    es: Seq<Edge>,
    rho: Seq<usize>,
    cs: Seq<Seq<usize>>,
) -> bool {
    &&& rho.len() == 2 * es.len()
    &&& is_perm(rho)
    &&& is_cycle_decomposition(rho, cs)
    &&& one_list_per_vertex(es, cs)
}

/// `rho` is a rotation system of `es`.
pub open spec fn is_rotation_system(es: Seq<Edge>, rho: Seq<usize>) -> bool {
    exists|cs: Seq<Seq<usize>>| #[trigger] is_rotation_with_cycles(es, rho, cs)
}

/// The number of faces of the embedding that `rho` describes.
pub open spec fn face_count(rho: Seq<usize>) -> nat {
    cycle_count(face_permutation(rho))
}

/// The class of `v` when the first `k` edges of `es` have been drawn: ends of
/// a drawn edge are in one class, and each class is named by one of its vertices.
spec fn root(es: Seq<Edge>, k: nat, v: Vertex) -> Vertex
    decreases k,
{
    if k == 0 {
        v
    } else {
        let r = root(es, (k - 1) as nat, v);
        if r == root(es, (k - 1) as nat, es[k - 1].1) {
            root(es, (k - 1) as nat, es[k - 1].0)
        } else {
            r
        }
    }
}

/// How many of the first `k` edges joined two classes that were apart before.
spec fn merges(es: Seq<Edge>, k: nat) -> nat
    decreases k,
{
    if k == 0 {
        0
    } else {
        merges(es, (k - 1) as nat) + if root(es, (k - 1) as nat, es[k - 1].0) != root(
            es,
            (k - 1) as nat,
            es[k - 1].1,
        ) {
            1nat
        } else {
            0nat
        }
    }
}

/// The two ends of a drawn edge are in one class.
proof fn lemma_root_joins(es: Seq<Edge>, k: nat, i: int)
    requires
        0 <= i < k <= es.len(),
    ensures
        root(es, k, es[i].0) == root(es, k, es[i].1),
    decreases k,
{
    if i < k - 1 {
        lemma_root_joins(es, (k - 1) as nat, i);
    }
}

/// `rho` with the first `k` edges crossed before turning, the others not.
spec fn partly_glued(rho: Seq<usize>, k: nat) -> Seq<usize> {
    Seq::new(rho.len(), |d: int| if d < 2 * k { rho[mate(d)] } else { rho[d] })
}

/// Crossing one more edge changes the number of cycles by one, and takes
/// one away whenever the edge joins two classes: after `k` edges the cycles
/// are at most `V + k` less twice the number of joins, and differ from
/// `V + k` by an even number.
proof fn lemma_glue(es: Seq<Edge>, rho: Seq<usize>, k: nat)
    requires
        rho.len() == 2 * es.len(),
        is_perm(rho),
        forall|d: int|
            0 <= d < rho.len() ==> dart_vertex(es, #[trigger] rho[d] as int) == dart_vertex(es, d),
        k <= es.len(),
    ensures
        is_perm(partly_glued(rho, k)),
        cycle_count(partly_glued(rho, k)) + 2 * merges(es, k) <= cycle_count(rho) + k,
        (cycle_count(partly_glued(rho, k)) + cycle_count(rho) + k) % 2 == 0,
    decreases k,
{
    if k == 0 {
        assert(partly_glued(rho, 0) =~= rho);
    } else {
        let k1 = (k - 1) as nat;
        lemma_glue(es, rho, k1);
        let p = partly_glued(rho, k1);
        let a: int = 2 * (k1 as int);
        let b: int = a + 1;
        let ra = root(es, k1, es[k1 as int].0);
        let side = Set::new(|d: int| 0 <= d < rho.len() && root(es, k1, dart_vertex(es, d)) == ra);
        assert forall|x: int| 0 <= x < p.len() implies side.contains(#[trigger] p[x] as int)
            == side.contains(x) by {
            if x < 2 * k1 {
                lemma_root_joins(es, k1, x / 2);
            }
        }
        lemma_swap_changes_cycles(p, a, b, side);
        lemma_swap_then_is_perm(p, a, b);
        assert(partly_glued(rho, k) =~= swap_then(p, a, b));
    }
}

/// The names of the classes among the vertices of `es` when its first `k`
/// edges have been drawn.
spec fn classes(es: Seq<Edge>, k: nat) -> Set<Vertex> {
    Set::new(
        |r: Vertex| exists|v: Vertex| endpoints(es).contains(v) && #[trigger] root(es, k, v) == r,
    )
}

/// Both ends of an edge are among the endpoints.
proof fn lemma_ends_are_endpoints(es: Seq<Edge>, i: int)
    requires
        0 <= i < es.len(),
    ensures
        endpoints(es).contains(es[i].0),
        endpoints(es).contains(es[i].1),
{
    assert(endpoints(es)[2 * i] == es[i].0);
    assert(endpoints(es)[2 * i + 1] == es[i].1);
}

/// Every join takes one class away: classes and joins together make up
/// the number of vertices.
proof fn lemma_classes_counted(es: Seq<Edge>, k: nat)
    requires
        k <= es.len(),
    ensures
        classes(es, k).finite(),
        classes(es, k).len() + merges(es, k) == vertex_count(es),
    decreases k,
{
    let s = endpoints(es).to_set();
    seq_to_set_is_finite(endpoints(es));
    if k == 0 {
        assert forall|r: Vertex| classes(es, 0).contains(r) <==> s.contains(r) by {
            if s.contains(r) {
                assert(root(es, 0, r) == r);
            }
        }
        assert(classes(es, 0) =~= s);
    } else {
        let k1 = (k - 1) as nat;
        lemma_classes_counted(es, k1);
        let ra = root(es, k1, es[k1 as int].0);
        let rb = root(es, k1, es[k1 as int].1);
        lemma_ends_are_endpoints(es, k1 as int);
        if ra != rb {
            let less = classes(es, k1).remove(rb);
            assert forall|r: Vertex| classes(es, k).contains(r) <==> less.contains(r) by {
                if classes(es, k).contains(r) {
                    let v = choose|v: Vertex|
                        endpoints(es).contains(v) && #[trigger] root(es, k, v) == r;
                    if root(es, k1, v) == rb {
                        assert(r == ra);
                    }
                }
                if less.contains(r) {
                    let v = choose|v: Vertex|
                        endpoints(es).contains(v) && #[trigger] root(es, k1, v) == r;
                    assert(root(es, k, v) == r);
                }
            }
            assert(classes(es, k) =~= less);
        } else {
            assert forall|r: Vertex| classes(es, k).contains(r) <==> classes(es, k1).contains(
                r,
            ) by {
                if classes(es, k).contains(r) {
                    let v = choose|v: Vertex|
                        endpoints(es).contains(v) && #[trigger] root(es, k, v) == r;
                    assert(root(es, k1, v) == r);
                }
                if classes(es, k1).contains(r) {
                    let v = choose|v: Vertex|
                        endpoints(es).contains(v) && #[trigger] root(es, k1, v) == r;
                    assert(root(es, k, v) == r);
                }
            }
            assert(classes(es, k) =~= classes(es, k1));
        }
    }
}

/// Drawing a connected graph joins classes one time less than it has vertices.
proof fn lemma_connected_is_one_class(es: Seq<Edge>)
    requires
        connected(es),
        es.len() >= 1,
    ensures
        merges(es, es.len()) + 1 == vertex_count(es),
{
    let n = es.len();
    let r0 = root(es, n, es[0].0);
    let side = Set::new(|v: Vertex| root(es, n, v) == r0);
    assert(crosses_no_edge(side, es)) by {
        assert forall|i: int| 0 <= i < es.len() implies side.contains((#[trigger] es[i]).0)
            == side.contains(es[i].1) by {
            lemma_root_joins(es, n, i);
        }
    }
    lemma_ends_are_endpoints(es, 0);
    assert forall|r: Vertex| classes(es, n).contains(r) <==> r == r0 by {
        if classes(es, n).contains(r) {
            let v = choose|v: Vertex| endpoints(es).contains(v) && #[trigger] root(es, n, v) == r;
            let d = choose|d: int| 0 <= d < endpoints(es).len() && endpoints(es)[d] == v;
            assert(side.contains(es[d / 2].0) == side.contains(es[0].0));
            assert(side.contains(v));
        }
    }
    assert(classes(es, n) =~= set![r0]);
    lemma_classes_counted(es, n);
}

/// A rotation system turns every half-edge to a half-edge at the same
/// vertex, and has as many cycles as the graph has vertices.
pub proof fn lemma_rotation_cycles_are_vertices(es: Seq<Edge>, rho: Seq<usize>, cs: Seq<Seq<usize>>)
    requires
        is_rotation_with_cycles(es, rho, cs),
    ensures
        forall|d: int|
            0 <= d < rho.len() ==> dart_vertex(es, #[trigger] rho[d] as int) == dart_vertex(es, d),
        cs.len() == vertex_count(es),
        cycle_count(rho) == vertex_count(es),
{
    assert forall|d: int| 0 <= d < rho.len() implies dart_vertex(es, #[trigger] rho[d] as int)
        == dart_vertex(es, d) by {
        assert(listed(cs, d));
        let (j, t) = choose|j: int, t: int|
            0 <= j < cs.len() && 0 <= t < cs[j].len() && #[trigger] cs[j][t] == d;
        assert(steps(rho, cs[j], t));
    }
    let heads = Seq::new(cs.len(), |j: int| dart_vertex(es, cs[j][0] as int));
    assert forall|v: Vertex| heads.to_set().contains(v) <==> endpoints(es).to_set().contains(v) by {
        if heads.contains(v) {
            let j = choose|j: int| 0 <= j < heads.len() && heads[j] == v;
            assert(steps(rho, cs[j], 0));
            assert(endpoints(es)[cs[j][0] as int] == v);
        }
        if endpoints(es).contains(v) {
            let d = choose|d: int| 0 <= d < endpoints(es).len() && endpoints(es)[d] == v;
            assert(listed(cs, d));
            let (j, t) = choose|j: int, t: int|
                0 <= j < cs.len() && 0 <= t < cs[j].len() && #[trigger] cs[j][t] == d;
            assert(heads[j] == v);
        }
    }
    assert(heads.to_set() =~= endpoints(es).to_set());
    heads.unique_seq_to_set();
    lemma_cycles_counted(rho, cs);
}

/// Euler's relation. Whatever rotation system a connected graph is given,
/// `V - E + F` is even and at most 2: the genus `1 - (V - E + F) / 2` of the
/// embedding is a whole number and not negative.
pub proof fn lemma_euler_relation(es: Seq<Edge>, rho: Seq<usize>)
    requires
        connected(es),
        is_rotation_system(es, rho),
    ensures
        vertex_count(es) + face_count(rho) <= es.len() + 2,
        (vertex_count(es) + es.len() + face_count(rho)) % 2 == 0,
{
    let cs = choose|cs: Seq<Seq<usize>>| #[trigger] is_rotation_with_cycles(es, rho, cs);
    lemma_rotation_cycles_are_vertices(es, rho, cs);
    lemma_glue(es, rho, es.len());
    assert(partly_glued(rho, es.len()) =~= face_permutation(rho));
    if es.len() >= 1 {
        lemma_connected_is_one_class(es);
    }
}

} // verus!
