//! Permutations of `0..n` as sequences, their number of cycles, and how that
//! number moves when a permutation is composed with a transposition.

use vstd::prelude::*;

verus! {

/// Some point is sent to `y` by `p`.
pub open spec fn reached(p: Seq<usize>, y: int) -> bool {
    exists|x: int| 0 <= x < p.len() && #[trigger] p[x] == y
}

/// `p` maps `0..p.len()` onto itself, one to one.
pub open spec fn is_perm(p: Seq<usize>) -> bool {
    &&& forall|i: int| 0 <= i < p.len() ==> (#[trigger] p[i]) < p.len()
    &&& forall|i: int, j: int| 0 <= i < j < p.len() ==> #[trigger] p[i] != #[trigger] p[j]
    &&& forall|y: int| 0 <= y < p.len() ==> #[trigger] reached(p, y)
}

/// The permutation of `0..n-1` that is left when the point `n-1` is cut out of
/// its cycle: whatever pointed at `n-1` now points at its successor.
pub open spec fn drop_top(p: Seq<usize>) -> Seq<usize>
    recommends
        p.len() > 0,
{
    let m = p.len() - 1;
    Seq::new(m as nat, |x: int| if p[x] == m { p[m] } else { p[x] })
}

/// The number of cycles of a permutation, fixed points included. Cutting the
/// top point out of its cycle loses a cycle exactly when that point was alone.
pub open spec fn cycle_count(p: Seq<usize>) -> nat
    decreases p.len(),
{
    if p.len() == 0 {
        0
    } else {
        let m = p.len() - 1;
        cycle_count(drop_top(p)) + if p[m] == m { 1nat } else { 0nat }
    }
}

/// `p` after exchanging what it does at `a` and at `b`: the composition of `p`
/// with the transposition of `a` and `b`, the transposition applied first.
pub open spec fn swap_then(p: Seq<usize>, a: int, b: int) -> Seq<usize> {
    Seq::new(p.len(), |x: int| if x == a { p[b] } else if x == b { p[a] } else { p[x] })
}

/// `p` never leaves `side` nor enters it.
pub open spec fn keeps_side(p: Seq<usize>, side: Set<int>) -> bool {
    forall|x: int| 0 <= x < p.len() ==> side.contains(#[trigger] p[x] as int) == side.contains(x)
}

/// Cutting the top point out of a permutation leaves a permutation.
pub proof fn lemma_drop_top_is_perm(p: Seq<usize>)
    requires
        is_perm(p),
        p.len() > 0,
    ensures
        is_perm(drop_top(p)),
{
    let m = p.len() - 1;
    let q = drop_top(p);
    assert forall|y: int| 0 <= y < q.len() implies #[trigger] reached(q, y) by {
        assert(reached(p, y));
        let x = choose|x: int| 0 <= x < p.len() && #[trigger] p[x] == y;
        if x == m {
            assert(reached(p, m));
            let z = choose|z: int| 0 <= z < p.len() && #[trigger] p[z] == m;
            assert(q[z] == y);
        } else {
            assert(q[x] == y);
        }
    }
}

/// A permutation after a transposition is a permutation.
pub proof fn lemma_swap_then_is_perm(p: Seq<usize>, a: int, b: int)
    requires
        is_perm(p),
        0 <= a < p.len(),
        0 <= b < p.len(),
    ensures
        is_perm(swap_then(p, a, b)),
{
    let q = swap_then(p, a, b);
    let tr = |x: int| if x == a { b } else if x == b { a } else { x };
    assert forall|y: int| 0 <= y < q.len() implies #[trigger] reached(q, y) by {
        assert(reached(p, y));
        let x = choose|x: int| 0 <= x < p.len() && #[trigger] p[x] == y;
        assert(q[tr(x)] == y);
    }
}

/// Composing with a transposition changes the number of cycles by exactly
/// one, and takes one away whenever the two points lie on different sides of
/// a set that the permutation keeps.
pub proof fn lemma_swap_changes_cycles(p: Seq<usize>, a: int, b: int, side: Set<int>)
    requires
        is_perm(p),
        0 <= a < p.len(),
        0 <= b < p.len(),
        a != b,
        keeps_side(p, side),
    ensures
        cycle_count(swap_then(p, a, b)) == cycle_count(p) + 1 || cycle_count(swap_then(p, a, b))
            + 1 == cycle_count(p),
        side.contains(a) != side.contains(b) ==> cycle_count(swap_then(p, a, b)) + 1
            == cycle_count(p),
    decreases p.len(), (if a == p.len() - 1 { 1int } else { 0int }),
{
    let m = p.len() - 1;
    let q = swap_then(p, a, b);
    let pc = drop_top(p);
    let qc = drop_top(q);
    lemma_drop_top_is_perm(p);
    if a == m {
        assert(swap_then(p, b, a) =~= q);
        lemma_swap_changes_cycles(p, b, a, side);
    } else if b != m {
        assert(qc =~= swap_then(pc, a, b));
        lemma_swap_changes_cycles(pc, a, b, side);
    } else if p[m] == m {
        assert(qc =~= pc);
    } else if p[a] == m {
        assert(qc =~= pc);
    } else {
        assert(reached(p, m));
        let z = choose|z: int| 0 <= z < p.len() && #[trigger] p[z] == m;
        assert(qc =~= swap_then(pc, a, z));
        lemma_swap_changes_cycles(pc, a, z, side);
    }
}

/// The slot after `t` on a cycle written out in `len` slots.
pub open spec fn next_slot(t: int, len: int) -> int {
    if t + 1 < len {
        t + 1
    } else {
        0
    }
}

/// The point `d` stands somewhere in the lists `cs`.
pub open spec fn listed(cs: Seq<Seq<usize>>, d: int) -> bool {
    exists|j: int, t: int| 0 <= j < cs.len() && 0 <= t < cs[j].len() && #[trigger] cs[j][t] == d
}

/// No point stands in two places of the lists `cs`.
#[verifier::opaque]
pub open spec fn no_repeats(cs: Seq<Seq<usize>>) -> bool {
    forall|j: int, t: int, k: int, u: int|
        0 <= j < cs.len() && 0 <= t < cs[j].len() && 0 <= k < cs.len() && 0 <= u < cs[k].len()
            && #[trigger] cs[j][t] == #[trigger] cs[k][u] ==> j == k && t == u
}

/// `p` takes the entry in slot `t` of the list `c` to the entry in the next slot.
pub open spec fn steps(p: Seq<usize>, c: Seq<usize>, t: int) -> bool {
    c[t] < p.len() && p[c[t] as int] == c[next_slot(t, c.len() as int)]
}

/// Every list in `cs` is read in the direction of `p` and closes on its first entry.
pub open spec fn follows(p: Seq<usize>, cs: Seq<Seq<usize>>) -> bool {
    forall|j: int, t: int|
        0 <= j < cs.len() && 0 <= t < cs[j].len() ==> #[trigger] steps(p, cs[j], t)
}

/// `cs` writes `p` out in cycles: every list is a cycle of `p`, and every
/// point of `0..p.len()` stands in exactly one place of exactly one list.
pub open spec fn is_cycle_decomposition(p: Seq<usize>, cs: Seq<Seq<usize>>) -> bool {
    &&& forall|j: int| 0 <= j < cs.len() ==> (#[trigger] cs[j]).len() > 0
    &&& follows(p, cs)
    &&& forall|d: int| 0 <= d < p.len() ==> #[trigger] listed(cs, d)
    &&& no_repeats(cs)
}

/// Two different places of `cs` hold different points.
pub proof fn lemma_places_differ(cs: Seq<Seq<usize>>, j: int, t: int, k: int, u: int)
    requires
        no_repeats(cs),
        0 <= j < cs.len(),
        0 <= t < cs[j].len(),
        0 <= k < cs.len(),
        0 <= u < cs[k].len(),
        j != k || t != u,
    ensures
        cs[j][t] != cs[k][u],
{
    reveal(no_repeats);
}

/// Where the top point is a cycle of its own, cutting it out leaves the
/// other cycles as they are.
proof fn lemma_cut_lone_point(p: Seq<usize>, cs: Seq<Seq<usize>>, j: int)
    requires
        is_perm(p),
        is_cycle_decomposition(p, cs),
        0 <= j < cs.len(),
        cs[j].len() == 1,
        cs[j][0] == p.len() - 1,
    ensures
        is_cycle_decomposition(drop_top(p), cs.remove(j)),
        p[p.len() - 1] == p.len() - 1,
{
    let pc = drop_top(p);
    let ds = cs.remove(j);
    assert(steps(p, cs[j], 0));
    assert forall|k: int, u: int|
        0 <= k < ds.len() && 0 <= u < ds[k].len() implies #[trigger] steps(
        pc,
        ds[k],
        u,
    ) by {
        let o = if k < j { k } else { k + 1 };
        let v = next_slot(u, cs[o].len() as int);
        assert(steps(p, cs[o], u));
        lemma_places_differ(cs, o, u, j, 0);
        lemma_places_differ(cs, o, v, j, 0);
    }
    assert forall|d: int| 0 <= d < pc.len() implies #[trigger] listed(ds, d) by {
        assert(listed(cs, d));
        let (k, u) = choose|k: int, u: int|
            0 <= k < cs.len() && 0 <= u < cs[k].len() && #[trigger] cs[k][u] == d;
        let k1 = if k < j { k } else { k - 1 };
        assert(ds[k1][u] == d);
    }
    assert(no_repeats(ds)) by {
        reveal(no_repeats);
        assert forall|k: int, u: int, k2: int, u2: int|
            0 <= k < ds.len() && 0 <= u < ds[k].len() && 0 <= k2 < ds.len() && 0 <= u2
                < ds[k2].len() && #[trigger] ds[k][u] == #[trigger] ds[k2][u2] implies k == k2
            && u == u2 by {
            let o = if k < j { k } else { k + 1 };
            let o2 = if k2 < j { k2 } else { k2 + 1 };
            assert(cs[o][u] == cs[o2][u2]);
        }
    }
    assert forall|k: int| 0 <= k < ds.len() implies (#[trigger] ds[k]).len() > 0 by {
        let o = if k < j { k } else { k + 1 };
        assert(cs[o].len() > 0);
    }
}

/// Where the top point shares its cycle, cutting it out shortens that
/// cycle by one and leaves the number of cycles.
proof fn lemma_cut_from_cycle(p: Seq<usize>, cs: Seq<Seq<usize>>, j: int, t: int)
    requires
        is_perm(p),
        is_cycle_decomposition(p, cs),
        0 <= j < cs.len(),
        0 <= t < cs[j].len(),
        cs[j].len() >= 2,
        cs[j][t] == p.len() - 1,
    ensures
        is_cycle_decomposition(drop_top(p), cs.update(j, cs[j].remove(t))),
        p[p.len() - 1] != p.len() - 1,
{
    let pc = drop_top(p);
    let c = cs[j];
    let len = c.len() as int;
    let shorter = c.remove(t);
    let ds = cs.update(j, shorter);
    assert(steps(p, cs[j], t));
    lemma_places_differ(cs, j, t, j, next_slot(t, len));
    assert forall|k: int, u: int|
        0 <= k < ds.len() && 0 <= u < ds[k].len() implies #[trigger] steps(
        pc,
        ds[k],
        u,
    ) by {
        if k != j {
            let v = next_slot(u, cs[k].len() as int);
            assert(steps(p, cs[k], u));
            lemma_places_differ(cs, k, u, j, t);
            lemma_places_differ(cs, k, v, j, t);
        } else {
            let o = if u < t { u } else { u + 1 };
            let v = next_slot(o, len);
            assert(steps(p, cs[j], o));
            lemma_places_differ(cs, j, o, j, t);
            if !(v == t) {
                lemma_places_differ(cs, j, v, j, t);
            }
        }
    }
    assert forall|d: int| 0 <= d < pc.len() implies #[trigger] listed(ds, d) by {
        assert(listed(cs, d));
        let (k, u) = choose|k: int, u: int|
            0 <= k < cs.len() && 0 <= u < cs[k].len() && #[trigger] cs[k][u] == d;
        if k != j {
            assert(ds[k][u] == d);
        } else {
            let u1 = if u < t { u } else { u - 1 };
            assert(ds[j][u1] == d);
        }
    }
    assert(no_repeats(ds)) by {
        reveal(no_repeats);
        assert forall|k: int, u: int, k2: int, u2: int|
            0 <= k < ds.len() && 0 <= u < ds[k].len() && 0 <= k2 < ds.len() && 0 <= u2
                < ds[k2].len() && #[trigger] ds[k][u] == #[trigger] ds[k2][u2] implies k == k2
            && u == u2 by {
            let o = if k == j && u >= t { u + 1 } else { u };
            let o2 = if k2 == j && u2 >= t { u2 + 1 } else { u2 };
            assert(cs[k][o] == cs[k2][o2]);
        }
    }
}

/// However a permutation is written out in cycles, the number of lists is its
/// number of cycles.
pub proof fn lemma_cycles_counted(p: Seq<usize>, cs: Seq<Seq<usize>>)
    requires
        is_perm(p),
        is_cycle_decomposition(p, cs),
    ensures
        cs.len() == cycle_count(p),
    decreases p.len(),
{
    if p.len() == 0 {
        if cs.len() > 0 {
            assert(steps(p, cs[0], 0));
        }
    } else {
        let m = p.len() - 1;
        lemma_drop_top_is_perm(p);
        assert(listed(cs, m));
        let (j, t) = choose|j: int, t: int|
            0 <= j < cs.len() && 0 <= t < cs[j].len() && #[trigger] cs[j][t] == m;
        if cs[j].len() == 1 {
            lemma_cut_lone_point(p, cs, j);
            lemma_cycles_counted(drop_top(p), cs.remove(j));
        } else {
            lemma_cut_from_cycle(p, cs, j, t);
            lemma_cycles_counted(drop_top(p), cs.update(j, cs[j].remove(t)));
        }
    }
}

/// The lists `gs` part the points `0..n`: no list is empty, and every point
/// stands in exactly one place.
pub open spec fn is_grouping(gs: Seq<Seq<usize>>, n: nat) -> bool {
    &&& forall|j: int| 0 <= j < gs.len() ==> (#[trigger] gs[j]).len() > 0
    &&& forall|j: int, t: int|
        0 <= j < gs.len() && 0 <= t < gs[j].len() ==> (#[trigger] gs[j][t]) < n
    &&& forall|d: int| 0 <= d < n ==> #[trigger] listed(gs, d)
    &&& no_repeats(gs)
}

/// The lists `cs` stand in their usual order: each starts at its least
/// entry, and the lists are sorted by that entry.
pub open spec fn starts_lowest(cs: Seq<Seq<usize>>) -> bool {
    &&& forall|j: int, t: int|
        0 <= j < cs.len() && 0 <= t < cs[j].len() ==> cs[j][0] <= #[trigger] cs[j][t]
    &&& forall|j: int, k: int|
        0 <= j < k < cs.len() ==> (#[trigger] cs[j])[0] < (#[trigger] cs[k])[0]
}

/// What can be written out in cycles is a permutation.
pub proof fn lemma_cycles_make_perm(p: Seq<usize>, cs: Seq<Seq<usize>>)
    requires
        is_cycle_decomposition(p, cs),
    ensures
        is_perm(p),
{
    assert forall|i: int| 0 <= i < p.len() implies (#[trigger] p[i]) < p.len() by {
        assert(listed(cs, i));
        let (j, t) = choose|j: int, t: int|
            0 <= j < cs.len() && 0 <= t < cs[j].len() && #[trigger] cs[j][t] == i;
        let u = next_slot(t, cs[j].len() as int);
        assert(steps(p, cs[j], t));
        assert(steps(p, cs[j], u));
    }
    assert forall|i: int, i2: int|
        0 <= i < i2 < p.len() implies #[trigger] p[i] != #[trigger] p[i2] by {
        assert(listed(cs, i));
        let (j, t) = choose|j: int, t: int|
            0 <= j < cs.len() && 0 <= t < cs[j].len() && #[trigger] cs[j][t] == i;
        assert(listed(cs, i2));
        let (j2, t2) = choose|j2: int, t2: int|
            0 <= j2 < cs.len() && 0 <= t2 < cs[j2].len() && #[trigger] cs[j2][t2] == i2;
        assert(steps(p, cs[j], t));
        assert(steps(p, cs[j2], t2));
        let u = next_slot(t, cs[j].len() as int);
        let u2 = next_slot(t2, cs[j2].len() as int);
        if j != j2 || u != u2 {
            lemma_places_differ(cs, j, u, j2, u2);
        }
    }
    assert forall|y: int| 0 <= y < p.len() implies #[trigger] reached(p, y) by {
        assert(listed(cs, y));
        let (j, t) = choose|j: int, t: int|
            0 <= j < cs.len() && 0 <= t < cs[j].len() && #[trigger] cs[j][t] == y;
        let u = if t == 0 { cs[j].len() - 1 } else { t - 1 };
        assert(steps(p, cs[j], u));
    }
}

/// A place in the lists `cs` at which `d` stands: the list and the slot.
pub open spec fn place_of(cs: Seq<Seq<usize>>, d: int) -> (int, int) {
    choose|j: int, t: int| 0 <= j < cs.len() && 0 <= t < cs[j].len() && #[trigger] cs[j][t] == d
}

/// The point after `d` on the cycle of `cs` on which `d` stands.
pub open spec fn successor(cs: Seq<Seq<usize>>, d: int) -> usize {
    let (j, t) = place_of(cs, d);
    cs[j][next_slot(t, cs[j].len() as int)]
}

/// The permutation of `0..n` whose cycles are the lists `cs`.
pub open spec fn permutation_of(cs: Seq<Seq<usize>>, n: nat) -> Seq<usize> {
    Seq::new(n, |d: int| successor(cs, d))
}

/// A permutation is known by its cycles.
pub proof fn lemma_cycles_fix_perm(p: Seq<usize>, cs: Seq<Seq<usize>>)
    requires
        is_cycle_decomposition(p, cs),
    ensures
        p == permutation_of(cs, p.len()),
{
    assert forall|d: int| 0 <= d < p.len() implies p[d] == successor(cs, d) by {
        assert(listed(cs, d));
        let (j, t) = place_of(cs, d);
        assert(steps(p, cs[j], t));
    }
}

/// `sigma` first, then `rho`.
pub open spec fn compose(rho: Seq<usize>, sigma: Seq<usize>) -> Seq<usize> {
    Seq::new(sigma.len(), |d: int| rho[sigma[d] as int])
}

/// One permutation after another is a permutation.
pub proof fn lemma_compose_is_perm(rho: Seq<usize>, sigma: Seq<usize>)
    requires
        is_perm(rho),
        is_perm(sigma),
        rho.len() == sigma.len(),
    ensures
        is_perm(compose(rho, sigma)),
{
    let phi = compose(rho, sigma);
    assert forall|y: int| 0 <= y < phi.len() implies #[trigger] reached(phi, y) by {
        assert(reached(rho, y));
        let x = choose|x: int| 0 <= x < rho.len() && #[trigger] rho[x] == y;
        assert(reached(sigma, x));
        let z = choose|z: int| 0 <= z < sigma.len() && #[trigger] sigma[z] == x;
        assert(phi[z] == y);
    }
}

/// There are no more than `n` different numbers below `n`.
pub proof fn lemma_distinct_are_few(xs: Seq<usize>, n: nat)
    requires
        xs.no_duplicates(),
        forall|i: int| 0 <= i < xs.len() ==> (#[trigger] xs[i]) < n,
    ensures
        xs.len() <= n,
    decreases n,
{
    if n == 0 {
        if xs.len() > 0 {
            assert(xs[0] < n);
        }
    } else if exists|i: int| 0 <= i < xs.len() && #[trigger] xs[i] == n - 1 {
        let i = choose|i: int| 0 <= i < xs.len() && #[trigger] xs[i] == n - 1;
        let ys = xs.remove(i);
        assert forall|a: int| 0 <= a < ys.len() implies (#[trigger] ys[a]) < n - 1 by {
            let o = if a < i { a } else { a + 1 };
            assert(ys[a] == xs[o] && xs[o] != xs[i]);
        }
        assert forall|a: int, b: int| 0 <= a < ys.len() && 0 <= b < ys.len() && a != b implies ys[a]
            != ys[b] by {
            let oa = if a < i { a } else { a + 1 };
            let ob = if b < i { b } else { b + 1 };
            assert(xs[oa] != xs[ob]);
        }
        lemma_distinct_are_few(ys, (n - 1) as nat);
    } else {
        lemma_distinct_are_few(xs, (n - 1) as nat);
    }
}

/// Lists that part `0..n` are the cycles of a permutation of `0..n`.
pub proof fn lemma_permutation_of_cycles(cs: Seq<Seq<usize>>, n: nat)
    requires
        is_grouping(cs, n),
    ensures
        is_cycle_decomposition(permutation_of(cs, n), cs),
        is_perm(permutation_of(cs, n)),
{
    let p = permutation_of(cs, n);
    assert forall|j: int, t: int|
        0 <= j < cs.len() && 0 <= t < cs[j].len() implies #[trigger] steps(
        p,
        cs[j],
        t,
    ) by {
        let d = cs[j][t] as int;
        let (k, u) = place_of(cs, d);
        if k != j || u != t {
            lemma_places_differ(cs, j, t, k, u);
        }
    }
    lemma_cycles_make_perm(p, cs);
}

/// A permutation of at least one point has at least one cycle.
pub proof fn lemma_some_cycle(p: Seq<usize>)
    requires
        is_perm(p),
        p.len() >= 1,
    ensures
        cycle_count(p) >= 1,
    decreases p.len(),
{
    if !(p.len() == 1) {
        lemma_drop_top_is_perm(p);
        lemma_some_cycle(drop_top(p));
    }
}

} // verus!
