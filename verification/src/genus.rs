//! The genus of a connected graph, found by trying every rotation system,
//! and the genus of any graph as the sum over its components.

use crate::enumeration::{
    lemma_rotation_at_is_rotation_system, lemma_rotation_system_has_a_number, rotation_at,
    rotation_total,
};
use crate::euler::{
    face_count, face_permutation, is_rotation_system, lemma_euler_relation,
    lemma_rotation_cycles_are_vertices,
};
use crate::faces::count_faces;
use crate::graph::{connected, endpoints, lists, vertex_count, Edge, Graph};
use crate::half_edge::{half_edge_model, incidence_groups, pairing};
use crate::permutation::{
    compose, is_grouping, is_perm, lemma_compose_is_perm, lemma_some_cycle, reached,
};
use crate::rotation::{
    cyclic_orders, decode_rotation, lemma_cyclic_orders_part, lemma_rotation_space_positive,
    rotation_count,
};
use crate::splitter::{all_edges, are_components, componenets, lemma_split_parts, split};
use vstd::prelude::*;

verus! {

/// The largest number of faces among the rotation systems numbered below `count`.
pub open spec fn most_faces(es: Seq<Edge>, count: nat) -> nat
    decreases count,
{
    if count == 0 {
        0
    } else {
        let before = most_faces(es, (count - 1) as nat);
        let here = face_count(rotation_at(es, (count - 1) as nat));
        if here > before {
            here
        } else {
            before
        }
    }
}

/// The genus of a connected graph: `1 - (V - E + F) / 2`, where `F` is the
/// largest number of faces that any of its rotation systems has.
pub open spec fn genus_of(es: Seq<Edge>) -> int {
    1 - (vertex_count(es) - es.len() + most_faces(es, rotation_total(es))) / 2
}

/// The genus of the embedding that the rotation system `rho` gives the
/// graph `es`, by Euler's formula.
pub open spec fn genus_of_embedding(es: Seq<Edge>, rho: Seq<usize>) -> int {
    1 - (vertex_count(es) - es.len() + face_count(rho)) / 2
}

/// `g` is the least genus among the embeddings of `es`: some rotation
/// system has genus `g`, and none has less.
pub open spec fn is_least_genus(es: Seq<Edge>, g: int) -> bool {
    &&& exists|rho: Seq<usize>|
        #[trigger] is_rotation_system(es, rho) && genus_of_embedding(es, rho) == g
    &&& forall|rho: Seq<usize>|
        #[trigger] is_rotation_system(es, rho) ==> g <= genus_of_embedding(es, rho)
}

/// No rotation system numbered below `count` has more faces than
/// `most_faces` says, and one of them has that many.
pub proof fn lemma_most_faces_is_largest(es: Seq<Edge>, count: nat)
    ensures
        forall|w: nat|
            w < count ==> face_count(#[trigger] rotation_at(es, w)) <= most_faces(es, count),
        count > 0 ==> exists|w: nat|
            w < count && face_count(#[trigger] rotation_at(es, w)) == most_faces(es, count),
    decreases count,
{
    if count > 0 {
        let c = (count - 1) as nat;
        lemma_most_faces_is_largest(es, c);
        if face_count(rotation_at(es, c)) > most_faces(es, c) || c == 0 {
            assert(face_count(rotation_at(es, c)) == most_faces(es, count));
        } else {
            let w = choose|w: nat|
                w < c && face_count(#[trigger] rotation_at(es, w)) == most_faces(es, c);
            assert(w < count && face_count(rotation_at(es, w)) == most_faces(es, count));
        }
    }
}

/// Euler's relation for the search: on a connected graph the best rotation
/// system has `V - E + F` even and at most 2, so the genus is a whole
/// number and not negative.
pub proof fn lemma_genus_is_whole(es: Seq<Edge>)
    requires
        connected(es),
        2 * es.len() <= usize::MAX,
    ensures
        vertex_count(es) + most_faces(es, rotation_total(es)) <= es.len() + 2,
        (vertex_count(es) + es.len() + most_faces(es, rotation_total(es))) % 2 == 0,
        genus_of(es) >= 0,
        2 * genus_of(es) == 2 - (vertex_count(es) - es.len() + most_faces(es, rotation_total(es))),
{
    let count = rotation_total(es);
    lemma_rotation_space_positive(incidence_groups(es));
    lemma_most_faces_is_largest(es, count);
    let w = choose|w: nat|
        w < count && face_count(#[trigger] rotation_at(es, w)) == most_faces(es, count);
    lemma_rotation_at_is_rotation_system(es, w);
    lemma_euler_relation(es, rotation_at(es, w));
}

/// The search finds the least genus: the genus it computes is that of some
/// rotation system, and no rotation system of the graph has a smaller one.
pub proof fn lemma_genus_is_least(es: Seq<Edge>)
    requires
        2 * es.len() <= usize::MAX,
    ensures
        is_least_genus(es, genus_of(es)),
{
    let count = rotation_total(es);
    lemma_rotation_space_positive(incidence_groups(es));
    lemma_most_faces_is_largest(es, count);
    let w = choose|w: nat|
        w < count && face_count(#[trigger] rotation_at(es, w)) == most_faces(es, count);
    lemma_rotation_at_is_rotation_system(es, w);
    assert forall|rho: Seq<usize>| #[trigger] is_rotation_system(es, rho) implies genus_of(es)
        <= genus_of_embedding(es, rho) by {
        let v = lemma_rotation_system_has_a_number(es, rho);
        assert(face_count(rotation_at(es, v)) <= most_faces(es, count));
    }
}

/// The face permutation is the rotation after the pairing.
pub proof fn lemma_face_permutation_composes(rho: Seq<usize>)
    requires
        is_perm(rho),
        rho.len() % 2 == 0,
    ensures
        compose(rho, pairing(rho.len())) == face_permutation(rho),
{
    if rho.len() > 0 {
        assert(reached(rho, rho.len() - 1));
    }
}

/// The genus of the connected graph `graph`: the least genus of a surface
/// on which it can be drawn without crossings, found by trying each of its
/// rotation systems and keeping the largest number of faces.
///
/// A graph is given by its edges, so a vertex without edges is no part of
/// it and counts for nothing. For the list without edges, which has no
/// vertex and no face, the formula gives 1; `full_genus` never asks for it.
pub fn genus(graph: &Graph) -> (g: usize)
    requires
        connected(graph@),
        2 * graph.len() <= usize::MAX,
        rotation_total(graph@) <= usize::MAX,
    ensures
        g == genus_of(graph@),
        is_least_genus(graph@, g as int),
{
    let ghost es = graph@;
    let (halves, groups) = half_edge_model(graph);
    let darts = halves.len();
    let count = match rotation_count(&groups) {
        Some(count) => count,
        None => vstd::pervasive::unreached(),
    };
    proof {
        lemma_rotation_at_is_rotation_system(es, 0);
        assert(is_perm(halves@)) by {
            lemma_pairing_is_perm(darts as nat);
        }
    }
    let mut best: usize = 0;
    let mut index: usize = 0;
    while index < count
        invariant
            index <= count,
            es == graph@,
            darts == 2 * es.len(),
            halves@ == pairing(darts as nat),
            is_perm(halves@),
            lists(groups@) == incidence_groups(es),
            is_grouping(lists(groups@), darts as nat),
            best == most_faces(es, index as nat),
        decreases count - index,
    {
        let rotation = decode_rotation(&groups, darts, index);
        let faces = count_faces(&halves, &rotation);
        proof {
            lemma_face_permutation_composes(rotation@);
        }
        if faces > best {
            best = faces;
        }
        index += 1;
    }
    proof {
        lemma_genus_is_whole(es);
        lemma_genus_is_least(es);
        lemma_rotation_cycles_are_vertices(
            es,
            rotation_at(es, 0),
            cyclic_orders(incidence_groups(es), 0),
        );
        lemma_cyclic_orders_part(incidence_groups(es), darts as nat, 0);
    }
    (graph.len() + 2 - groups.len() - best) / 2
}

/// The pairing exchanges the two halves of every edge, so it is a permutation.
pub proof fn lemma_pairing_is_perm(n: nat)
    requires
        n % 2 == 0,
        n <= usize::MAX,
    ensures
        is_perm(pairing(n)),
{
    let p = pairing(n);
    assert forall|y: int| 0 <= y < p.len() implies #[trigger] reached(p, y) by {
        let x = if y % 2 == 0 { y + 1 } else { y - 1 };
        assert(p[x] == y);
    }
}

/// The sum of the genera of the graphs `cs`.
pub open spec fn total_genus(cs: Seq<Seq<Edge>>) -> int
    decreases cs.len(),
{
    if cs.len() == 0 {
        0
    } else {
        total_genus(cs.drop_last()) + genus_of(cs.last())
    }
}

/// The number of edges in the lists `cs` together.
pub open spec fn total_len(cs: Seq<Seq<Edge>>) -> nat
    decreases cs.len(),
{
    if cs.len() == 0 {
        0
    } else {
        total_len(cs.drop_last()) + cs.last().len()
    }
}

/// The lists together hold as many edges as their multiset.
proof fn lemma_total_len(cs: Seq<Seq<Edge>>)
    ensures
        all_edges(cs).len() == total_len(cs),
    decreases cs.len(),
{
    if cs.len() > 0 {
        lemma_total_len(cs.drop_last());
        cs.last().to_multiset_ensures();
    }
}

/// The first lists hold no more edges than all of them, and leave room
/// for the next one.
proof fn lemma_total_len_grows(cs: Seq<Seq<Edge>>, j: int)
    requires
        0 <= j <= cs.len(),
    ensures
        total_len(cs.take(j)) <= total_len(cs),
        j < cs.len() ==> total_len(cs.take(j)) + cs[j].len() <= total_len(cs),
    decreases cs.len(),
{
    if j == cs.len() {
        assert(cs.take(j) =~= cs);
    } else {
        assert(cs.drop_last().take(j) =~= cs.take(j));
        lemma_total_len_grows(cs.drop_last(), j);
    }
}

/// No component has more edges than the graph.
pub proof fn lemma_component_is_no_longer(es: Seq<Edge>, j: int)
    requires
        0 <= j < split(es).len(),
    ensures
        split(es)[j].len() <= es.len(),
{
    lemma_split_parts(es);
    lemma_total_len(split(es));
    lemma_total_len_grows(split(es), j);
    es.to_multiset_ensures();
}

/// A connected graph with an edge has a genus of at most half its number of edges.
pub proof fn lemma_genus_is_small(es: Seq<Edge>)
    requires
        connected(es),
        2 * es.len() <= usize::MAX,
        es.len() >= 1,
    ensures
        0 <= 2 * genus_of(es) <= es.len(),
{
    let count = rotation_total(es);
    lemma_genus_is_whole(es);
    lemma_rotation_space_positive(incidence_groups(es));
    lemma_most_faces_is_largest(es, count);
    let w = choose|w: nat|
        w < count && face_count(#[trigger] rotation_at(es, w)) == most_faces(es, count);
    let rho = rotation_at(es, w);
    lemma_rotation_at_is_rotation_system(es, w);
    lemma_face_permutation_composes(rho);
    lemma_pairing_is_perm(2 * es.len());
    lemma_compose_is_perm(rho, pairing(rho.len()));
    lemma_some_cycle(face_permutation(rho));
    endpoints(es).lemma_cardinality_of_empty_set_is_0();
}

/// The search over `es` stays within the machine's numbers: its half-edges
/// can be numbered, and so can the rotation systems of each component.
pub open spec fn search_fits(es: Seq<Edge>) -> bool {
    &&& 2 * es.len() <= usize::MAX
    &&& forall|j: int|
        0 <= j < split(es).len() ==> rotation_total(#[trigger] split(es)[j]) <= usize::MAX
}

/// Whether the search over `graph` stays within the machine's numbers, so
/// that `full_genus` can be asked for its genus.
pub fn search_is_feasible(graph: &Graph) -> (ok: bool)
    ensures
        ok == search_fits(graph@),
{
    if graph.len() > usize::MAX / 2 {
        return false;
    }
    let parts = componenets(graph);
    let ghost cs = lists(parts@);
    proof {
        lemma_total_len(cs);
        graph@.to_multiset_ensures();
    }
    let mut j: usize = 0;
    while j < parts.len()
        invariant
            j <= parts.len(),
            cs == lists(parts@),
            cs == split(graph@),
            total_len(cs) == graph@.len(),
            2 * graph@.len() <= usize::MAX,
            forall|k: int| 0 <= k < j ==> rotation_total(#[trigger] cs[k]) <= usize::MAX,
        decreases parts.len() - j,
    {
        proof {
            lemma_total_len_grows(cs, j as int);
        }
        let (_, groups) = half_edge_model(&parts[j]);
        if rotation_count(&groups).is_none() {
            return false;
        }
        j += 1;
    }
    true
}

/// The genus of `graph`: the sum over its connected components of the
/// least genus of each. A graph without edges has genus 0.
pub fn full_genus(graph: &Graph) -> (g: usize)
    requires
        search_fits(graph@),
    ensures
        g == total_genus(split(graph@)),
        forall|j: int|
            0 <= j < split(graph@).len() ==> is_least_genus(
                #[trigger] split(graph@)[j],
                genus_of(split(graph@)[j]),
            ),
{
    let parts = componenets(graph);
    let ghost cs = lists(parts@);
    let mut total: usize = 0;
    let mut j: usize = 0;
    proof {
        lemma_total_len(cs);
        graph@.to_multiset_ensures();
    }
    while j < parts.len()
        invariant
            j <= parts.len(),
            cs == lists(parts@),
            cs == split(graph@),
            are_components(cs),
            total_len(cs) == graph@.len(),
            2 * graph@.len() <= usize::MAX,
            forall|j: int| 0 <= j < cs.len() ==> rotation_total(#[trigger] cs[j]) <= usize::MAX,
            total == total_genus(cs.take(j as int)),
            0 <= 2 * total <= total_len(cs.take(j as int)),
        decreases parts.len() - j,
    {
        proof {
            lemma_total_len_grows(cs, j as int);
            lemma_total_len_grows(cs, j + 1);
            assert(cs.take(j + 1).drop_last() =~= cs.take(j as int));
            lemma_genus_is_small(cs[j as int]);
        }
        let part = genus(&parts[j]);
        total = total + part;
        j += 1;
    }
    proof {
        assert(cs.take(j as int) =~= cs);
        assert forall|j: int| 0 <= j < cs.len() implies is_least_genus(
            #[trigger] cs[j],
            genus_of(cs[j]),
        ) by {
            lemma_component_is_no_longer(graph@, j);
            lemma_genus_is_least(cs[j]);
        }
    }
    total
}

} // verus!
