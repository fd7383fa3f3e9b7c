//! Splitting an edge list into its connected components.

use crate::graph::{
    connected, crosses_no_edge, has_end, is_incident, lists, on_one_side, touches, Edge, Graph,
    Vertex,
};
use vstd::multiset::Multiset;
use vstd::prelude::*;
use vstd::seq_lib::{lemma_multiset_commutative, to_multiset_build};

verus! {

/// Some list of `cs` has an edge at `v`.
pub open spec fn has_component(cs: Seq<Seq<Edge>>, v: Vertex) -> bool {
    exists|j: int| 0 <= j < cs.len() && touches(#[trigger] cs[j], v)
}

/// The place in `cs` of a list with an edge at `v`.
pub open spec fn component_at(cs: Seq<Seq<Edge>>, v: Vertex) -> int {
    choose|j: int| 0 <= j < cs.len() && touches(#[trigger] cs[j], v)
}

/// The components `cs` with one more edge `e`. Where neither end is known,
/// `e` starts a new last component. Where the ends lie in one component, or
/// only one end is known, `e` is added to that component. Where the ends
/// lie in two components, these leave their places and a new last component
/// holds the edges of the first end's component, then those of the second
/// end's, then `e`.
pub open spec fn with_edge(cs: Seq<Seq<Edge>>, e: Edge) -> Seq<Seq<Edge>> {
    let i = component_at(cs, e.0);
    let j = component_at(cs, e.1);
    if has_component(cs, e.0) && has_component(cs, e.1) {
        if i == j {
            cs.update(i, cs[i].push(e))
        } else {
            cs.remove(i).remove(
                if i < j {
                    j - 1
                } else {
                    j
                },
            ).push(cs[i] + cs[j] + seq![e])
        }
    } else if has_component(cs, e.0) {
        cs.update(i, cs[i].push(e))
    } else if has_component(cs, e.1) {
        cs.update(j, cs[j].push(e))
    } else {
        cs.push(seq![e])
    }
}

/// The connected components of `es`, grown edge by edge in the order of `es`.
pub open spec fn split(es: Seq<Edge>) -> Seq<Seq<Edge>>
    decreases es.len(),
{
    if es.len() == 0 {
        Seq::empty()
    } else {
        with_edge(split(es.drop_last()), es.last())
    }
}

/// The edge lists `a` and `b` have no vertex in common.
pub open spec fn apart(a: Seq<Edge>, b: Seq<Edge>) -> bool {
    forall|v: Vertex| !(#[trigger] touches(a, v) && touches(b, v))
}

/// The lists `cs` are connected components: none is empty, each hangs
/// together, and no two have a vertex in common.
pub open spec fn are_components(cs: Seq<Seq<Edge>>) -> bool {
    &&& forall|j: int| 0 <= j < cs.len() ==> (#[trigger] cs[j]).len() > 0 && connected(cs[j])
    &&& forall|j: int, k: int|
        0 <= j < cs.len() && 0 <= k < cs.len() && j != k ==> apart(
            #[trigger] cs[j],
            #[trigger] cs[k],
        )
}

/// All the edges of the lists `cs`, each as often as it occurs.
pub open spec fn all_edges(cs: Seq<Seq<Edge>>) -> Multiset<Edge>
    decreases cs.len(),
{
    if cs.len() == 0 {
        Multiset::empty()
    } else {
        all_edges(cs.drop_last()).add(cs.last().to_multiset())
    }
}

/// A list with one more edge touches what it touched, and the ends of that edge.
proof fn lemma_touches_push(g: Seq<Edge>, e: Edge, v: Vertex)
    ensures
        touches(g.push(e), v) == (touches(g, v) || has_end(e, v)),
{
    let h = g.push(e);
    if touches(g, v) {
        let i = choose|i: int| 0 <= i < g.len() && #[trigger] has_end(g[i], v);
        assert(has_end(h[i], v));
    }
    if has_end(e, v) {
        assert(has_end(h[g.len() as int], v));
    }
    if touches(h, v) {
        let i = choose|i: int| 0 <= i < h.len() && #[trigger] has_end(h[i], v);
        assert(i < g.len() ==> has_end(g[i], v));
    }
}

/// Two lists in a row touch what either touches.
proof fn lemma_touches_add(a: Seq<Edge>, b: Seq<Edge>, v: Vertex)
    ensures
        touches(a + b, v) == (touches(a, v) || touches(b, v)),
{
    let h = a + b;
    if touches(a, v) {
        let i = choose|i: int| 0 <= i < a.len() && #[trigger] has_end(a[i], v);
        assert(has_end(h[i], v));
    }
    if touches(b, v) {
        let i = choose|i: int| 0 <= i < b.len() && #[trigger] has_end(b[i], v);
        assert(has_end(h[a.len() + i], v));
    }
    if touches(h, v) {
        let i = choose|i: int| 0 <= i < h.len() && #[trigger] has_end(h[i], v);
        if i < a.len() {
            assert(has_end(a[i], v));
        } else {
            assert(has_end(b[i - a.len()], v));
        }
    }
}

/// On a connected list, a set that no edge leaves holds every touched
/// vertex or none.
proof fn lemma_side_of_connected(g: Seq<Edge>, side: Set<Vertex>, v: Vertex)
    requires
        connected(g),
        crosses_no_edge(side, g),
        g.len() > 0,
        touches(g, v),
    ensures
        side.contains(v) == side.contains(g[0].0),
{
}

/// One edge alone is connected.
proof fn lemma_connected_single(e: Edge)
    ensures
        connected(seq![e]),
{
}

/// A connected list stays connected when an edge at one of its vertices is added.
proof fn lemma_connected_push(g: Seq<Edge>, e: Edge)
    requires
        connected(g),
        g.len() > 0,
        touches(g, e.0) || touches(g, e.1),
    ensures
        connected(g.push(e)),
{
    let h = g.push(e);
    assert forall|side: Set<Vertex>|
        #[trigger] crosses_no_edge(side, h) implies on_one_side(side, h) by {
        assert forall|i: int| 0 <= i < g.len() implies side.contains((#[trigger] g[i]).0)
            == side.contains(g[i].1) by {
            assert(h[i] == g[i]);
        }
        assert(crosses_no_edge(side, g));
        assert(h[g.len() as int] == e);
        if touches(g, e.0) {
            lemma_side_of_connected(g, side, e.0);
        } else {
            lemma_side_of_connected(g, side, e.1);
        }
    }
}

/// Two connected lists and an edge from one to the other are connected.
proof fn lemma_connected_join(a: Seq<Edge>, b: Seq<Edge>, e: Edge)
    requires
        connected(a),
        connected(b),
        a.len() > 0,
        b.len() > 0,
        touches(a, e.0),
        touches(b, e.1),
    ensures
        connected(a + b + seq![e]),
{
    let h = a + b + seq![e];
    assert forall|side: Set<Vertex>|
        #[trigger] crosses_no_edge(side, h) implies on_one_side(side, h) by {
        assert forall|i: int| 0 <= i < a.len() implies side.contains((#[trigger] a[i]).0)
            == side.contains(a[i].1) by {
            assert(h[i] == a[i]);
        }
        assert forall|i: int| 0 <= i < b.len() implies side.contains((#[trigger] b[i]).0)
            == side.contains(b[i].1) by {
            assert(h[a.len() + i] == b[i]);
        }
        assert(crosses_no_edge(side, a));
        assert(crosses_no_edge(side, b));
        assert(h[(a.len() + b.len()) as int] == e);
        lemma_side_of_connected(a, side, e.0);
        lemma_side_of_connected(b, side, e.1);
    }
}

/// Adding an edge to one list adds it to the edges of all.
proof fn lemma_all_edges_update(cs: Seq<Seq<Edge>>, i: int, e: Edge)
    requires
        0 <= i < cs.len(),
    ensures
        all_edges(cs.update(i, cs[i].push(e))) == all_edges(cs).insert(e),
    decreases cs.len(),
{
    let ds = cs.update(i, cs[i].push(e));
    if i == cs.len() - 1 {
        assert(ds.drop_last() =~= cs.drop_last());
        to_multiset_build(cs[i], e);
    } else {
        assert(ds.drop_last() =~= cs.drop_last().update(i, cs.drop_last()[i].push(e)));
        lemma_all_edges_update(cs.drop_last(), i, e);
    }
}

/// The edges of all lists are those of one list and those of the others.
proof fn lemma_all_edges_remove(cs: Seq<Seq<Edge>>, i: int)
    requires
        0 <= i < cs.len(),
    ensures
        all_edges(cs) == all_edges(cs.remove(i)).add(cs[i].to_multiset()),
    decreases cs.len(),
{
    let ds = cs.remove(i);
    if !(i == cs.len() - 1) {
        assert(ds.drop_last() =~= cs.drop_last().remove(i));
        lemma_all_edges_remove(cs.drop_last(), i);
    }
}

/// Components stay components when an edge is added to the one that it
/// touches, if it touches no other.
proof fn lemma_extend(cs: Seq<Seq<Edge>>, i: int, e: Edge)
    requires
        are_components(cs),
        0 <= i < cs.len(),
        touches(cs[i], e.0) || touches(cs[i], e.1),
        touches(cs[i], e.0) || !has_component(cs, e.0),
        touches(cs[i], e.1) || !has_component(cs, e.1),
    ensures
        are_components(cs.update(i, cs[i].push(e))),
{
    let g = cs[i].push(e);
    let ds = cs.update(i, g);
    lemma_connected_push(cs[i], e);
    assert forall|j: int, k: int| 0 <= j < ds.len() && 0 <= k < ds.len() && j != k implies apart(
        #[trigger] ds[j],
        #[trigger] ds[k],
    ) by {
        assert forall|v: Vertex| !(#[trigger] touches(ds[j], v) && touches(ds[k], v)) by {
            lemma_touches_push(cs[i], e, v);
        }
    }
}

/// Components stay components when an edge that touches none of them
/// starts a new one.
proof fn lemma_fresh(cs: Seq<Seq<Edge>>, e: Edge)
    requires
        are_components(cs),
        !has_component(cs, e.0),
        !has_component(cs, e.1),
    ensures
        are_components(cs.push(seq![e])),
{
    let g = seq![e];
    let ds = cs.push(g);
    lemma_connected_single(e);
    assert forall|j: int, k: int| 0 <= j < ds.len() && 0 <= k < ds.len() && j != k implies apart(
        #[trigger] ds[j],
        #[trigger] ds[k],
    ) by {
        assert forall|v: Vertex| !(#[trigger] touches(ds[j], v) && touches(ds[k], v)) by {
            if !(j < cs.len() && k < cs.len()) {
                let o = if j < cs.len() { j } else { k };
                if touches(g, v) && touches(cs[o], v) {
                    assert(has_component(cs, v));
                }
            }
        }
    }
}

/// Components stay components when an edge between two of them joins
/// these into one.
proof fn lemma_merge(cs: Seq<Seq<Edge>>, i: int, j: int, e: Edge)
    requires
        are_components(cs),
        0 <= i < cs.len(),
        0 <= j < cs.len(),
        i != j,
        touches(cs[i], e.0),
        touches(cs[j], e.1),
    ensures
        are_components(
            cs.remove(i).remove(
                if i < j {
                    j - 1
                } else {
                    j
                },
            ).push(cs[i] + cs[j] + seq![e]),
        ),
{
    let j1 = if i < j { j - 1 } else { j };
    let rest = cs.remove(i).remove(j1);
    let g = cs[i] + cs[j] + seq![e];
    let ds = rest.push(g);
    let from = |x: int|
        {
            let y = if x < j1 { x } else { x + 1 };
            if y < i {
                y
            } else {
                y + 1
            }
        };
    assert forall|x: int|
        0 <= x < rest.len() implies #[trigger] rest[x] == cs[from(x)] && from(x) != i
        && from(x) != j && 0 <= from(x) < cs.len() by {}
    lemma_connected_join(cs[i], cs[j], e);
    assert forall|x: int, y: int| 0 <= x < ds.len() && 0 <= y < ds.len() && x != y implies apart(
        #[trigger] ds[x],
        #[trigger] ds[y],
    ) by {
        assert forall|v: Vertex| !(#[trigger] touches(ds[x], v) && touches(ds[y], v)) by {
            if !(x < rest.len() && y < rest.len()) {
                lemma_touches_add(cs[i], cs[j], v);
                lemma_touches_push(cs[i] + cs[j], e, v);
            }
        }
    }
}

/// In components, a vertex lies in one component only.
proof fn lemma_component_is_unique(cs: Seq<Seq<Edge>>, v: Vertex, i: int)
    requires
        are_components(cs),
        0 <= i < cs.len(),
        touches(cs[i], v),
    ensures
        has_component(cs, v),
        component_at(cs, v) == i,
{
}

/// Adding an edge keeps components components, and adds just that edge.
pub proof fn lemma_with_edge(cs: Seq<Seq<Edge>>, e: Edge)
    requires
        are_components(cs),
    ensures
        are_components(with_edge(cs, e)),
        all_edges(with_edge(cs, e)) == all_edges(cs).insert(e),
{
    let i = component_at(cs, e.0);
    let j = component_at(cs, e.1);
    if has_component(cs, e.0) && has_component(cs, e.1) {
        if i == j {
            lemma_extend(cs, i, e);
            lemma_all_edges_update(cs, i, e);
        } else {
            let j1 = if i < j { j - 1 } else { j };
            let g = cs[i] + cs[j] + seq![e];
            lemma_merge(cs, i, j, e);
            lemma_all_edges_remove(cs, i);
            lemma_all_edges_remove(cs.remove(i), j1);
            assert(cs.remove(i).remove(j1).push(g).drop_last() =~= cs.remove(i).remove(j1));
            lemma_multiset_commutative(cs[i], cs[j]);
            to_multiset_build(cs[i] + cs[j], e);
            assert(g =~= (cs[i] + cs[j]).push(e));
        }
    } else if has_component(cs, e.0) {
        lemma_extend(cs, i, e);
        lemma_all_edges_update(cs, i, e);
    } else if has_component(cs, e.1) {
        lemma_extend(cs, j, e);
        lemma_all_edges_update(cs, j, e);
    } else {
        lemma_fresh(cs, e);
        assert(cs.push(seq![e]).drop_last() =~= cs);
        let none = Seq::<Edge>::empty();
        none.to_multiset_ensures();
        to_multiset_build(none, e);
    }
}

/// Splitting loses no edge and adds none, and what it hands out are the
/// connected components: each hangs together, and no two share a vertex.
pub proof fn lemma_split_parts(es: Seq<Edge>)
    ensures
        are_components(split(es)),
        all_edges(split(es)) == es.to_multiset(),
    decreases es.len(),
{
    if es.len() == 0 {
        assert(es.to_multiset() =~= Multiset::empty()) by {
            es.to_multiset_ensures();
        }
    } else {
        lemma_split_parts(es.drop_last());
        lemma_with_edge(split(es.drop_last()), es.last());
        to_multiset_build(es.drop_last(), es.last());
        assert(es.drop_last().push(es.last()) =~= es);
    }
}

/// The place of a component with an edge at `v`, if there is one.
fn component_of(parts: &Vec<Vec<Edge>>, v: Vertex) -> (place: Option<usize>)
    ensures
        match place {
            Some(j) => j < parts.len() && touches(lists(parts@)[j as int], v),
            None => !has_component(lists(parts@), v),
        },
{
    let mut j: usize = 0;
    while j < parts.len()
        invariant
            j <= parts.len(),
            forall|k: int| 0 <= k < j ==> !touches(#[trigger] lists(parts@)[k], v),
        decreases parts.len() - j,
    {
        if is_incident(&parts[j], v) {
            return Some(j);
        }
        j += 1;
    }
    None
}

/// Splits `graph` into its connected components. No edge is lost and none
/// added; each component hangs together, and no two share a vertex. The
/// components stand in the order in which `split` grows them.
pub fn componenets(graph: &Graph) -> (parts: Vec<Graph>)
    ensures
        lists(parts@) == split(graph@),
        are_components(lists(parts@)),
        all_edges(lists(parts@)) == graph@.to_multiset(),
{
    let mut parts: Vec<Vec<Edge>> = Vec::new();
    let mut k: usize = 0;
    while k < graph.len()
        invariant
            k <= graph.len(),
            lists(parts@) == split(graph@.take(k as int)),
        decreases graph.len() - k,
    {
        let edge = graph[k];
        let ghost cs = lists(parts@);
        proof {
            lemma_split_parts(graph@.take(k as int));
            assert(graph@.take(k + 1).drop_last() =~= graph@.take(k as int));
        }
        let first = component_of(&parts, edge.0);
        let second = component_of(&parts, edge.1);
        proof {
            if let Some(i) = first {
                lemma_component_is_unique(cs, edge.0, i as int);
            }
            if let Some(j) = second {
                lemma_component_is_unique(cs, edge.1, j as int);
            }
        }
        match first {
            Some(i) => {
                match second {
                    Some(j) => {
                        if i != j {
                            let mut joined = parts.remove(i);
                            let j1 = if i < j { j - 1 } else { j };
                            let mut other = parts.remove(j1);
                            joined.append(&mut other);
                            joined.push(edge);
                            assert(joined@ =~= cs[i as int] + cs[j as int] + seq![edge]);
                            parts.push(joined);
                            assert(lists(parts@) =~= cs.remove(i as int).remove(j1 as int).push(
                                cs[i as int] + cs[j as int] + seq![edge],
                            ));
                        } else {
                            parts[i].push(edge);
                        }
                    },
                    None => {
                        parts[i].push(edge);
                    },
                }
            },
            None => {
                match second {
                    Some(j) => {
                        parts[j].push(edge);
                    },
                    None => {
                        let mut fresh: Vec<Edge> = Vec::new();
                        fresh.push(edge);
                        parts.push(fresh);
                    },
                }
            },
        }
        k += 1;
    }
    proof {
        assert(graph@.take(k as int) =~= graph@);
        lemma_split_parts(graph@);
    }
    parts
}

} // verus!
