//! The half-edge model of an edge list: the pairing of the two halves of
//! every edge, and the half-edges gathered vertex by vertex.

use crate::graph::{dart_vertex, lists, mate, Edge, Graph, Vertex};
use crate::permutation::{is_grouping, listed, no_repeats};
use vstd::prelude::*;

verus! {

/// The edge pairing on `n` half-edges: it exchanges `2i` and `2i + 1`.
pub open spec fn pairing(n: nat) -> Seq<usize> {
    Seq::new(n, |d: int| mate(d) as usize)
}

/// The lists `cs` hold one list for each vertex of `es`, made of the
/// half-edges at that vertex.
pub open spec fn one_list_per_vertex(es: Seq<Edge>, cs: Seq<Seq<usize>>) -> bool {
    &&& forall|j: int, t: int|
        0 <= j < cs.len() && 0 <= t < cs[j].len() ==> dart_vertex(es, #[trigger] cs[j][t] as int)
            == dart_vertex(es, cs[j][0] as int)
    &&& forall|j: int, k: int|
        0 <= j < k < cs.len() ==> dart_vertex(es, (#[trigger] cs[j])[0] as int) != dart_vertex(
            es,
            (#[trigger] cs[k])[0] as int,
        )
}

/// The vertex whose half-edges the list `gs[j]` gathers.
pub open spec fn group_vertex(es: Seq<Edge>, gs: Seq<Seq<usize>>, j: int) -> Vertex {
    dart_vertex(es, gs[j][0] as int)
}

/// Some list of `gs` gathers the half-edges at `v`.
pub open spec fn has_group(es: Seq<Edge>, gs: Seq<Seq<usize>>, v: Vertex) -> bool {
    exists|j: int| 0 <= j < gs.len() && #[trigger] group_vertex(es, gs, j) == v
}

/// The place in `gs` of the list that gathers the half-edges at `v`.
pub open spec fn group_at(es: Seq<Edge>, gs: Seq<Seq<usize>>, v: Vertex) -> int {
    choose|j: int| 0 <= j < gs.len() && #[trigger] group_vertex(es, gs, j) == v
}

/// The lists `gs` with the half-edge `d` added: at the end of the list of
/// its vertex, or as a new last list where the vertex has none yet.
pub open spec fn with_dart(es: Seq<Edge>, gs: Seq<Seq<usize>>, d: int) -> Seq<Seq<usize>> {
    let v = dart_vertex(es, d);
    if has_group(es, gs, v) {
        let j = group_at(es, gs, v);
        gs.update(j, gs[j].push(d as usize))
    } else {
        gs.push(seq![d as usize])
    }
}

/// The half-edges `0..k` of `es` gathered by vertex: the lists stand in the
/// order in which their vertices first occur, each list in rising order.
pub open spec fn groups_upto(es: Seq<Edge>, k: nat) -> Seq<Seq<usize>>
    decreases k,
{
    if k == 0 {
        Seq::empty()
    } else {
        with_dart(es, groups_upto(es, (k - 1) as nat), k - 1)
    }
}

/// The incidence groups of `es`: all its half-edges gathered by vertex.
pub open spec fn incidence_groups(es: Seq<Edge>) -> Seq<Seq<usize>> {
    groups_upto(es, 2 * es.len())
}

/// The groups of the first `k` half-edges part them, one group to a vertex.
pub proof fn lemma_groups_upto(es: Seq<Edge>, k: nat)
    requires
        k <= 2 * es.len() <= usize::MAX,
    ensures
        is_grouping(groups_upto(es, k), k),
        one_list_per_vertex(es, groups_upto(es, k)),
    decreases k,
{
    if k == 0 {
        reveal(no_repeats);
    } else {
        let d = (k - 1) as int;
        let gs = groups_upto(es, d as nat);
        let hs = groups_upto(es, k);
        let v = dart_vertex(es, d);
        lemma_groups_upto(es, d as nat);
        if has_group(es, gs, v) {
            let j = group_at(es, gs, v);
            assert forall|x: int| 0 <= x < k implies #[trigger] listed(hs, x) by {
                if x == d {
                    assert(hs[j][gs[j].len() as int] == d);
                } else {
                    assert(listed(gs, x));
                    let (i, t) = choose|i: int, t: int|
                        0 <= i < gs.len() && 0 <= t < gs[i].len() && #[trigger] gs[i][t] == x;
                    assert(hs[i][t] == x);
                }
            }
            assert(no_repeats(hs)) by {
                reveal(no_repeats);
            }
        } else {
            assert forall|x: int| 0 <= x < k implies #[trigger] listed(hs, x) by {
                if x == d {
                    assert(hs[gs.len() as int][0] == d);
                } else {
                    assert(listed(gs, x));
                    let (i, t) = choose|i: int, t: int|
                        0 <= i < gs.len() && 0 <= t < gs[i].len() && #[trigger] gs[i][t] == x;
                    assert(hs[i][t] == x);
                }
            }
            assert(no_repeats(hs)) by {
                reveal(no_repeats);
            }
            assert forall|i: int, i2: int| 0 <= i < i2 < hs.len() implies dart_vertex(
                es,
                (#[trigger] hs[i])[0] as int,
            ) != dart_vertex(es, (#[trigger] hs[i2])[0] as int) by {
                assert(group_vertex(es, gs, i) != v);
            }
        }
    }
}

/// The entries of `g` rise.
pub open spec fn rising(g: Seq<usize>) -> bool {
    forall|a: int, b: int| 0 <= a < b < g.len() ==> g[a] < g[b]
}

/// Every list of `gs` rises, and the lists are sorted by their first entries.
pub open spec fn in_order(gs: Seq<Seq<usize>>) -> bool {
    &&& forall|j: int| 0 <= j < gs.len() ==> rising(#[trigger] gs[j])
    &&& forall|j: int, k: int|
        0 <= j < k < gs.len() ==> (#[trigger] gs[j])[0] < (#[trigger] gs[k])[0]
}

/// The groups stand in the order in which their vertices first occur, and
/// each lists its half-edges in rising order.
pub proof fn lemma_groups_in_order(es: Seq<Edge>, k: nat)
    requires
        k <= 2 * es.len() <= usize::MAX,
    ensures
        in_order(groups_upto(es, k)),
    decreases k,
{
    if k > 0 {
        let d = (k - 1) as int;
        let gs = groups_upto(es, d as nat);
        let hs = groups_upto(es, k);
        lemma_groups_in_order(es, d as nat);
        lemma_groups_upto(es, d as nat);
        assert forall|j: int| 0 <= j < hs.len() implies rising(#[trigger] hs[j]) by {
            if j < gs.len() {
                assert(rising(gs[j]));
            }
        }
    }
}

/// The place of `v` in `verts`, if it stands there.
fn slot_of(verts: &Vec<Vertex>, v: Vertex) -> (slot: Option<usize>)
    ensures
        match slot {
            Some(j) => j < verts.len() && verts@[j as int] == v,
            None => forall|j: int| 0 <= j < verts.len() ==> verts@[j] != v,
        },
{
    let mut j: usize = 0;
    while j < verts.len()
        invariant
            j <= verts.len(),
            forall|i: int| 0 <= i < j ==> verts@[i] != v,
        decreases verts.len() - j,
    {
        if verts[j] == v {
            return Some(j);
        }
        j += 1;
    }
    None
}

/// `verts` names, list by list, the vertex that each list of `groups` gathers.
spec fn names_groups(es: Seq<Edge>, verts: Seq<Vertex>, gs: Seq<Seq<usize>>) -> bool {
    &&& verts.len() == gs.len()
    &&& forall|j: int| 0 <= j < gs.len() ==> verts[j] == #[trigger] group_vertex(es, gs, j)
}

/// Adds the half-edge `d`, which sits at `v`, to the groups gathered so far.
fn add_half_edge(
    graph: &Graph,
    verts: &mut Vec<Vertex>,
    groups: &mut Vec<Vec<usize>>,
    v: Vertex,
    d: usize,
)
    requires
        d < 2 * graph.len() <= usize::MAX,
        v == dart_vertex(graph@, d as int),
        lists(old(groups)@) == groups_upto(graph@, d as nat),
        names_groups(graph@, old(verts)@, lists(old(groups)@)),
    ensures
        lists(final(groups)@) == groups_upto(graph@, (d + 1) as nat),
        names_groups(graph@, final(verts)@, lists(final(groups)@)),
{
    let ghost es = graph@;
    let ghost gs = lists(groups@);
    proof {
        lemma_groups_upto(es, d as nat);
        lemma_groups_upto(es, (d + 1) as nat);
    }
    match slot_of(verts, v) {
        Some(j) => {
            proof {
                assert(group_vertex(es, gs, j as int) == v);
                let i = group_at(es, gs, v);
            }
            groups[j].push(d);
            proof {
                let hs = lists(groups@);
                assert forall|i: int|
                    0 <= i < hs.len() implies verts@[i] == #[trigger] group_vertex(
                    es,
                    hs,
                    i,
                ) by {
                    assert(verts@[i] == group_vertex(es, gs, i));
                }
            }
        },
        None => {
            proof {
                if has_group(es, gs, v) {
                    let i = group_at(es, gs, v);
                }
            }
            let mut fresh: Vec<usize> = Vec::new();
            fresh.push(d);
            verts.push(v);
            groups.push(fresh);
            proof {
                let hs = lists(groups@);
                assert forall|i: int|
                    0 <= i < hs.len() implies verts@[i] == #[trigger] group_vertex(
                    es,
                    hs,
                    i,
                ) by {
                    if i < gs.len() {
                        assert(verts@[i] == group_vertex(es, gs, i));
                    }
                }
            }
        },
    }
}

/// Builds the half-edge model of `graph`: the pairing that exchanges the two
/// halves `2i` and `2i + 1` of edge `i`, and the incidence groups, one for
/// each vertex, which between them hold every half-edge exactly once.
pub fn half_edge_model(graph: &Graph) -> (model: (Vec<usize>, Vec<Vec<usize>>))
    requires
        2 * graph.len() <= usize::MAX,
    ensures
        model.0@ == pairing(2 * graph@.len()),
        lists(model.1@) == incidence_groups(graph@),
        is_grouping(lists(model.1@), 2 * graph@.len()),
        one_list_per_vertex(graph@, lists(model.1@)),
        in_order(lists(model.1@)),
{
    let mut halves: Vec<usize> = Vec::new();
    let mut verts: Vec<Vertex> = Vec::new();
    let mut groups: Vec<Vec<usize>> = Vec::new();
    let mut i: usize = 0;
    while i < graph.len()
        invariant
            i <= graph.len(),
            2 * graph.len() <= usize::MAX,
            halves@ == pairing((2 * i) as nat),
            lists(groups@) == groups_upto(graph@, (2 * i) as nat),
            names_groups(graph@, verts@, lists(groups@)),
        decreases graph.len() - i,
    {
        let edge = graph[i];
        let h0: usize = 2 * i;
        let h1: usize = 2 * i + 1;
        halves.push(h1);
        halves.push(h0);
        add_half_edge(graph, &mut verts, &mut groups, edge.0, h0);
        add_half_edge(graph, &mut verts, &mut groups, edge.1, h1);
        i += 1;
    }
    proof {
        lemma_groups_upto(graph@, 2 * graph@.len());
        lemma_groups_in_order(graph@, 2 * graph@.len());
    }
    (halves, groups)
}

} // verus!
