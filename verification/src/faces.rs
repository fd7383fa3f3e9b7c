//! Tracing the faces of an embedding: the cycles of "cross the edge, then
//! turn at the vertex".

use crate::graph::lists;
use crate::permutation::{
    compose, cycle_count, follows, is_cycle_decomposition, is_perm, lemma_compose_is_perm,
    lemma_cycles_counted, lemma_distinct_are_few, lemma_places_differ, listed, no_repeats,
    starts_lowest, steps,
};
use vstd::prelude::*;

verus! {

/// Walks the face through `start`, marking its half-edges as seen.
fn trace_face(
    pairing: &Vec<usize>,
    rotation: &Vec<usize>,
    seen: &mut Vec<bool>,
    start: usize,
    Ghost(done): Ghost<Seq<Seq<usize>>>,
) -> (face: Vec<usize>)
    requires
        pairing.len() == rotation.len(),
        old(seen).len() == rotation.len(),
        start < rotation.len(),
        is_perm(pairing@),
        is_perm(rotation@),
        forall|j: int| 0 <= j < done.len() ==> (#[trigger] done[j]).len() > 0,
        follows(compose(rotation@, pairing@), done),
        no_repeats(done),
        forall|d: int| 0 <= d < old(seen).len() ==> (#[trigger] old(seen)@[d]) == listed(done, d),
        !old(seen)@[start as int],
    ensures
        final(seen).len() == old(seen).len(),
        face@.len() > 0,
        face@[0] == start,
        forall|t: int| 0 <= t < face@.len() ==> !listed(done, (#[trigger] face@[t]) as int),
        follows(compose(rotation@, pairing@), done.push(face@)),
        no_repeats(done.push(face@)),
        forall|d: int|
            0 <= d < final(seen).len() ==> (#[trigger] final(seen)@[d]) == listed(
                done.push(face@),
                d,
            ),
{
    let n = rotation.len();
    let ghost phi = compose(rotation@, pairing@);
    proof {
        lemma_compose_is_perm(rotation@, pairing@);
    }
    let mut face: Vec<usize> = Vec::new();
    let mut cur = start;
    let mut closed = false;
    while !closed
        invariant
            n == rotation.len(),
            pairing.len() == n,
            seen.len() == n,
            start < n,
            cur < n,
            phi == compose(rotation@, pairing@),
            is_perm(phi),
            is_perm(pairing@),
            is_perm(rotation@),
            forall|j: int| 0 <= j < done.len() ==> (#[trigger] done[j]).len() > 0,
            follows(phi, done),
            no_repeats(done),
            face@.no_duplicates(),
            face@.len() <= n,
            forall|t: int| 0 <= t < face@.len() ==> (#[trigger] face@[t]) < n && !listed(
                done,
                face@[t] as int,
            ),
            forall|t: int|
                0 <= t < face@.len() - 1 ==> phi[(#[trigger] face@[t]) as int] == face@[t + 1],
            face@.len() > 0 ==> face@[0] == start,
            forall|d: int|
                0 <= d < n ==> (#[trigger] seen@[d]) == (listed(done, d) || face@.contains(
                    d as usize,
                )),
            closed ==> face@.len() > 0 && phi[face@.last() as int] == start,
            !closed ==> !seen@[cur as int],
            !closed && face@.len() == 0 ==> cur == start,
            !closed && face@.len() > 0 ==> phi[face@.last() as int] == cur,
        decreases n - face@.len() + (if closed { 0int } else { 1int }),
    {
        let ghost f = face@;
        seen.set(cur, true);
        face.push(cur);
        let ghost g = face@;
        let next = rotation[pairing[cur]];
        proof {
            lemma_distinct_are_few(g, n as nat);
            assert forall|d: int| 0 <= d < n implies (#[trigger] seen@[d]) == (listed(done, d)
                || g.contains(d as usize)) by {
                if d == cur {
                    assert(g[g.len() - 1] == cur);
                } else {
                    if f.contains(d as usize) {
                        let a = choose|a: int| 0 <= a < f.len() && f[a] == d as usize;
                        assert(g[a] == d as usize);
                    }
                    if g.contains(d as usize) {
                        let a = choose|a: int| 0 <= a < g.len() && g[a] == d as usize;
                        assert(f[a] == d as usize);
                    }
                }
            }
            if next != start {
                if listed(done, next as int) {
                    let (j, t) = choose|j: int, t: int|
                        0 <= j < done.len() && 0 <= t < done[j].len() && #[trigger] done[j][t]
                            == next as int;
                    let u = if t == 0 { done[j].len() - 1 } else { t - 1 };
                    assert(steps(phi, done[j], u));
                    assert(phi[done[j][u] as int] == phi[cur as int]);
                    assert(listed(done, cur as int));
                }
                if g.contains(next) {
                    let t = choose|t: int| 0 <= t < g.len() && g[t] == next;
                    assert(phi[g[t - 1] as int] == phi[cur as int]);
                    assert(g[t - 1] == g[g.len() - 1]);
                }
            }
        }
        if next == start {
            closed = true;
        } else {
            cur = next;
        }
    }
    proof {
        let f = face@;
        let all = done.push(f);
        assert(no_repeats(all)) by {
            assert forall|j: int, t: int, k: int, u: int|
                0 <= j < all.len() && 0 <= t < all[j].len() && 0 <= k < all.len() && 0 <= u
                    < all[k].len() && #[trigger] all[j][t] == #[trigger] all[k][u] implies j == k
                && t == u by {
                if j < done.len() && k < done.len() {
                    if j != k || t != u {
                        lemma_places_differ(done, j, t, k, u);
                    }
                }
            }
            reveal(no_repeats);
        }
        assert forall|d: int|
            0 <= d < seen.len() implies (#[trigger] seen@[d]) == listed(all, d) by {
            if listed(done, d) {
                let (j, t) = choose|j: int, t: int|
                    0 <= j < done.len() && 0 <= t < done[j].len() && #[trigger] done[j][t] == d;
                assert(all[j][t] == d);
            }
            if f.contains(d as usize) {
                let t = choose|t: int| 0 <= t < f.len() && f[t] == d as usize;
                assert(all[done.len() as int][t] == d);
            }
            if listed(all, d) {
                let (j, t) = choose|j: int, t: int|
                    0 <= j < all.len() && 0 <= t < all[j].len() && #[trigger] all[j][t] == d;
                if j < done.len() {
                    assert(done[j][t] == d);
                } else {
                    assert(f[t] == d as usize);
                }
            }
        }
    }
    face
}

/// The faces of the embedding given by `pairing` and `rotation`: the cycles
/// of the permutation that first crosses the edge and then turns at the
/// vertex. Every half-edge stands on exactly one face, in exactly one place.
/// Each face is listed from its least half-edge on, and the faces are
/// sorted by that half-edge.
pub fn trace_faces(pairing: &Vec<usize>, rotation: &Vec<usize>) -> (faces: Vec<Vec<usize>>)
    requires
        pairing.len() == rotation.len(),
        is_perm(pairing@),
        is_perm(rotation@),
    ensures
        is_cycle_decomposition(compose(rotation@, pairing@), lists(faces@)),
        starts_lowest(lists(faces@)),
        faces.len() == cycle_count(compose(rotation@, pairing@)),
{
    let n = rotation.len();
    let ghost phi = compose(rotation@, pairing@);
    let mut seen: Vec<bool> = Vec::new();
    while seen.len() < n
        invariant
            seen.len() <= n,
            forall|d: int| 0 <= d < seen.len() ==> !(#[trigger] seen@[d]),
        decreases n - seen.len(),
    {
        seen.push(false);
    }
    let mut faces: Vec<Vec<usize>> = Vec::new();
    let mut start: usize = 0;
    proof {
        reveal(no_repeats);
    }
    while start < n
        invariant
            start <= n,
            n == rotation.len(),
            pairing.len() == n,
            seen.len() == n,
            phi == compose(rotation@, pairing@),
            is_perm(pairing@),
            is_perm(rotation@),
            forall|j: int| 0 <= j < faces.len() ==> (#[trigger] lists(faces@)[j]).len() > 0,
            follows(phi, lists(faces@)),
            no_repeats(lists(faces@)),
            forall|d: int| 0 <= d < n ==> (#[trigger] seen@[d]) == listed(lists(faces@), d),
            forall|d: int| 0 <= d < start ==> #[trigger] seen@[d],
            starts_lowest(lists(faces@)),
            forall|j: int| 0 <= j < faces.len() ==> (#[trigger] lists(faces@)[j])[0] < start,
        decreases n - start,
    {
        if !seen[start] {
            let ghost done = lists(faces@);
            let ghost before = seen@;
            let face = trace_face(pairing, rotation, &mut seen, start, Ghost(done));
            faces.push(face);
            proof {
                let all = done.push(face@);
                assert(lists(faces@) =~= all);
                assert forall|j: int, t: int|
                    0 <= j < all.len() && 0 <= t < all[j].len() implies all[j][0]
                    <= #[trigger] all[j][t] by {
                    if !(j < done.len()) {
                        let d = face@[t];
                        if d < start {
                            assert(before[d as int]);
                        }
                    }
                }
                assert forall|d: int| 0 <= d < start + 1 implies #[trigger] seen@[d] by {
                    if d < start {
                        assert(before[d]);
                        let (j, t) = choose|j: int, t: int|
                            0 <= j < done.len() && 0 <= t < done[j].len() && #[trigger] done[j][t]
                                == d;
                        assert(all[j][t] == d);
                    } else {
                        assert(all[done.len() as int][0] == start);
                    }
                }
            }
        }
        start += 1;
    }
    proof {
        lemma_compose_is_perm(rotation@, pairing@);
        assert forall|d: int| 0 <= d < phi.len() implies #[trigger] listed(lists(faces@), d) by {
            assert(seen@[d]);
        }
        lemma_cycles_counted(phi, lists(faces@));
    }
    faces
}

/// The number of faces of the embedding given by `pairing` and `rotation`.
pub fn count_faces(pairing: &Vec<usize>, rotation: &Vec<usize>) -> (count: usize)
    requires
        pairing.len() == rotation.len(),
        is_perm(pairing@),
        is_perm(rotation@),
    ensures
        count == cycle_count(compose(rotation@, pairing@)),
{
    trace_faces(pairing, rotation).len()
}

} // verus!
