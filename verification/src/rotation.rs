//! The rotation systems of a graph, numbered: how many there are, and which
//! one a given number stands for.

use crate::graph::{dart_vertex, lists, Edge};
use crate::half_edge::one_list_per_vertex;
use crate::permutation::{
    is_cycle_decomposition, is_grouping, is_perm, lemma_cycles_fix_perm, lemma_cycles_make_perm,
    lemma_places_differ, listed, no_repeats, permutation_of, steps,
};
use vstd::prelude::*;

verus! {

/// `n!`
pub open spec fn factorial(n: nat) -> nat
    decreases n,
{
    if n == 0 {
        1
    } else {
        n * factorial((n - 1) as nat)
    }
}

/// The number of rotation systems on the groups `gs`: a group of `k`
/// half-edges can be put in `(k - 1)!` cyclic orders, and the groups are
/// ordered independently of each other.
pub open spec fn rotation_space(gs: Seq<Seq<usize>>) -> nat
    decreases gs.len(),
{
    if gs.len() == 0 {
        1
    } else {
        rotation_space(gs.drop_last()) * factorial((gs.last().len() - 1) as nat)
    }
}

/// A factorial is at least 1.
pub proof fn lemma_factorial_positive(n: nat)
    ensures
        factorial(n) >= 1,
    decreases n,
{
    if n > 0 {
        lemma_factorial_positive((n - 1) as nat);
        assert(n * factorial((n - 1) as nat) >= 1) by (nonlinear_arith)
            requires
                n >= 1,
                factorial((n - 1) as nat) >= 1,
        ;
    }
}

/// Factorials do not fall as the number rises.
pub proof fn lemma_factorial_grows(a: nat, b: nat)
    requires
        a <= b,
    ensures
        factorial(a) <= factorial(b),
    decreases b,
{
    if a < b {
        lemma_factorial_grows(a, (b - 1) as nat);
        assert(factorial((b - 1) as nat) <= b * factorial((b - 1) as nat)) by (nonlinear_arith)
            requires
                b >= 1,
        ;
    }
}

/// There is at least one rotation system.
pub proof fn lemma_rotation_space_positive(gs: Seq<Seq<usize>>)
    ensures
        rotation_space(gs) >= 1,
    decreases gs.len(),
{
    if gs.len() > 0 {
        lemma_rotation_space_positive(gs.drop_last());
        lemma_factorial_positive((gs.last().len() - 1) as nat);
        assert(rotation_space(gs.drop_last()) * factorial((gs.last().len() - 1) as nat) >= 1)
            by (nonlinear_arith)
            requires
                rotation_space(gs.drop_last()) >= 1,
                factorial((gs.last().len() - 1) as nat) >= 1,
        ;
    }
}

/// The rotation systems on the first groups are no more than those on all.
pub proof fn lemma_rotation_space_grows(gs: Seq<Seq<usize>>, j: int)
    requires
        0 <= j <= gs.len(),
    ensures
        rotation_space(gs.take(j)) <= rotation_space(gs),
    decreases gs.len(),
{
    if j == gs.len() {
        assert(gs.take(j) =~= gs);
    } else {
        lemma_rotation_space_grows(gs.drop_last(), j);
        assert(gs.drop_last().take(j) =~= gs.take(j));
        lemma_factorial_positive((gs.last().len() - 1) as nat);
        assert(rotation_space(gs.drop_last()) <= rotation_space(gs.drop_last()) * factorial(
            (gs.last().len() - 1) as nat,
        )) by (nonlinear_arith)
            requires
                factorial((gs.last().len() - 1) as nat) >= 1,
        ;
    }
}

/// `n!`, or `None` where it does not fit.
pub fn checked_factorial(n: usize) -> (f: Option<usize>)
    ensures
        match f {
            Some(f) => f == factorial(n as nat),
            None => factorial(n as nat) > usize::MAX,
        },
{
    let mut f: usize = 1;
    let mut i: usize = 0;
    while i < n
        invariant
            i <= n,
            f == factorial(i as nat),
        decreases n - i,
    {
        i += 1;
        match f.checked_mul(i) {
            Some(g) => {
                assert(i * factorial((i - 1) as nat) == factorial((i - 1) as nat) * i)
                    by (nonlinear_arith);
                f = g;
            },
            None => {
                proof {
                    assert(i * factorial((i - 1) as nat) == factorial((i - 1) as nat) * i)
                        by (nonlinear_arith);
                    lemma_factorial_grows(i as nat, n as nat);
                }
                return None;
            },
        }
    }
    Some(f)
}

/// The number of rotation systems on `groups`, the product of `(k - 1)!`
/// over the group sizes `k`; `None` where that number does not fit.
pub fn rotation_count(groups: &Vec<Vec<usize>>) -> (count: Option<usize>)
    requires
        forall|j: int| 0 <= j < groups.len() ==> (#[trigger] lists(groups@)[j]).len() > 0,
    ensures
        match count {
            Some(c) => c == rotation_space(lists(groups@)),
            None => rotation_space(lists(groups@)) > usize::MAX,
        },
{
    let ghost gs = lists(groups@);
    let mut product: usize = 1;
    let mut j: usize = 0;
    while j < groups.len()
        invariant
            j <= groups.len(),
            gs == lists(groups@),
            forall|j: int| 0 <= j < groups.len() ==> (#[trigger] gs[j]).len() > 0,
            product == rotation_space(gs.take(j as int)),
        decreases groups.len() - j,
    {
        let ghost next = gs.take(j + 1);
        proof {
            assert(next.drop_last() =~= gs.take(j as int));
            lemma_rotation_space_grows(gs, j + 1);
            lemma_rotation_space_positive(gs.take(j as int));
        }
        let orders = match checked_factorial(groups[j].len() - 1) {
            Some(f) => f,
            None => {
                proof {
                    let f = factorial((groups@[j as int].len() - 1) as nat);
                    assert(product * f >= f) by (nonlinear_arith)
                        requires
                            product >= 1,
                    ;
                }
                return None;
            },
        };
        product = match product.checked_mul(orders) {
            Some(p) => p,
            None => {
                return None;
            },
        };
        j += 1;
    }
    assert(gs.take(j as int) =~= gs);
    Some(product)
}

/// The order in which a working index `w` draws the half-edges of `pool`:
/// each draw takes the entry at `w` modulo the number left, moves the last
/// entry into the gap, and goes on with `w` divided by that number.
pub open spec fn picks(pool: Seq<usize>, w: nat) -> Seq<usize>
    decreases pool.len(),
{
    if pool.len() == 0 {
        Seq::empty()
    } else {
        let i = (w % pool.len()) as int;
        seq![pool[i]] + picks(pool.update(i, pool.last()).drop_last(), w / pool.len())
    }
}

/// What is left of the working index `w` after drawing `len` entries.
pub open spec fn carried(len: nat, w: nat) -> nat
    decreases len,
{
    if len == 0 {
        w
    } else {
        carried((len - 1) as nat, w / len)
    }
}

/// The cyclic order that the working index `w` gives to the group `g`: it
/// starts at the first half-edge of the group and draws the others.
pub open spec fn cyclic_order(g: Seq<usize>, w: nat) -> Seq<usize> {
    seq![g[0]] + picks(g.drop_first(), w)
}

/// The working index with which group `j` is ordered, when the groups before
/// it have been ordered starting from `w`.
pub open spec fn index_at(gs: Seq<Seq<usize>>, j: nat, w: nat) -> nat
    decreases j,
{
    if j == 0 {
        w
    } else {
        carried((gs[j - 1].len() - 1) as nat, index_at(gs, (j - 1) as nat, w))
    }
}

/// The cyclic orders, group by group, of rotation system number `w`.
pub open spec fn cyclic_orders(gs: Seq<Seq<usize>>, w: nat) -> Seq<Seq<usize>> {
    Seq::new(gs.len(), |j: int| cyclic_order(gs[j], index_at(gs, j as nat, w)))
}

/// Drawing rearranges: what is drawn from a pool without repeats is the
/// pool's entries, each once.
pub proof fn lemma_picks_rearrange(pool: Seq<usize>, w: nat)
    requires
        pool.no_duplicates(),
    ensures
        picks(pool, w).len() == pool.len(),
        picks(pool, w).no_duplicates(),
        forall|x: usize| picks(pool, w).contains(x) <==> pool.contains(x),
    decreases pool.len(),
{
    if pool.len() > 0 {
        let m = pool.len();
        let i = (w % m) as int;
        vstd::arithmetic::div_mod::lemma_mod_bound(w as int, m as int);
        vstd::arithmetic::div_mod::lemma_div_pos_is_pos(w as int, m as int);
        let rest = pool.update(i, pool.last()).drop_last();
        let tail = picks(rest, w / m);
        let all = picks(pool, w);
        lemma_picks_rearrange(rest, w / m);
        assert forall|x: usize| rest.contains(x) <==> (pool.contains(x) && x != pool[i]) by {
            if rest.contains(x) {
                let u = choose|u: int| 0 <= u < rest.len() && rest[u] == x;
            }
            if pool.contains(x) && x != pool[i] {
                let u = choose|u: int| 0 <= u < pool.len() && pool[u] == x;
                if u == m - 1 {
                    assert(rest[i] == x);
                } else {
                    assert(rest[u] == x);
                }
            }
        }
        assert forall|x: usize| all.contains(x) <==> pool.contains(x) by {
            if all.contains(x) {
                let u = choose|u: int| 0 <= u < all.len() && all[u] == x;
            }
            if pool.contains(x) {
                if x == pool[i] {
                    assert(all[0] == x);
                } else {
                    let u = choose|u: int| 0 <= u < tail.len() && tail[u] == x;
                    assert(all[u + 1] == x);
                }
            }
        }
        assert forall|a: int, b: int|
            0 <= a < all.len() && 0 <= b < all.len() && a != b implies all[a]
            != all[b] by {
            if a > 0 {
                assert(rest.contains(all[a]));
            }
            if b > 0 {
                assert(rest.contains(all[b]));
            }
        }
    }
}

/// A cyclic order of a group is the group rearranged, its first half-edge
/// kept in front.
pub proof fn lemma_cyclic_order_rearranges(g: Seq<usize>, w: nat)
    requires
        g.len() > 0,
        g.no_duplicates(),
    ensures
        cyclic_order(g, w).len() == g.len(),
        cyclic_order(g, w)[0] == g[0],
        cyclic_order(g, w).no_duplicates(),
        forall|x: usize| cyclic_order(g, w).contains(x) <==> g.contains(x),
{
    let pool = g.drop_first();
    let tail = picks(pool, w);
    let all = cyclic_order(g, w);
    lemma_picks_rearrange(pool, w);
    assert forall|x: usize| pool.contains(x) <==> (g.contains(x) && x != g[0]) by {
        if pool.contains(x) {
            let u = choose|u: int| 0 <= u < pool.len() && pool[u] == x;
        }
        if g.contains(x) && x != g[0] {
            let u = choose|u: int| 0 <= u < g.len() && g[u] == x;
            assert(pool[u - 1] == x);
        }
    }
    assert forall|x: usize| all.contains(x) <==> g.contains(x) by {
        if all.contains(x) {
            let u = choose|u: int| 0 <= u < all.len() && all[u] == x;
        }
        if g.contains(x) {
            if x == g[0] {
                assert(all[0] == x);
            } else {
                let u = choose|u: int| 0 <= u < tail.len() && tail[u] == x;
                assert(all[u + 1] == x);
            }
        }
    }
    assert forall|a: int, b: int| 0 <= a < all.len() && 0 <= b < all.len() && a != b implies all[a]
        != all[b] by {
        if a > 0 {
            assert(pool.contains(all[a]));
        }
        if b > 0 {
            assert(pool.contains(all[b]));
        }
    }
}

/// Every list of a grouping is free of repeats.
pub proof fn lemma_group_has_no_repeats(gs: Seq<Seq<usize>>, j: int)
    requires
        no_repeats(gs),
        0 <= j < gs.len(),
    ensures
        gs[j].no_duplicates(),
{
    assert forall|a: int, b: int|
        0 <= a < gs[j].len() && 0 <= b < gs[j].len() && a != b implies gs[j][a]
        != gs[j][b] by {
        lemma_places_differ(gs, j, a, j, b);
    }
}

/// The cyclic orders of rotation system number `w` part the half-edges as
/// the groups do: list by list they hold the same half-edges, and start
/// with the same one.
pub proof fn lemma_cyclic_orders_part(gs: Seq<Seq<usize>>, n: nat, w: nat)
    requires
        is_grouping(gs, n),
    ensures
        is_grouping(cyclic_orders(gs, w), n),
        cyclic_orders(gs, w).len() == gs.len(),
        forall|j: int|
            0 <= j < gs.len() ==> (#[trigger] cyclic_orders(gs, w)[j]).len() == gs[j].len()
                && cyclic_orders(gs, w)[j][0] == gs[j][0],
        forall|j: int, x: usize|
            0 <= j < gs.len() ==> (#[trigger] cyclic_orders(gs, w)[j].contains(x)
                <==> gs[j].contains(x)),
{
    let os = cyclic_orders(gs, w);
    assert forall|j: int| 0 <= j < gs.len() implies (#[trigger] os[j]).len() == gs[j].len()
        && os[j][0] == gs[j][0] && os[j].no_duplicates() && (forall|x: usize|
        os[j].contains(x) <==> gs[j].contains(x)) by {
        lemma_group_has_no_repeats(gs, j);
        lemma_cyclic_order_rearranges(gs[j], index_at(gs, j as nat, w));
    }
    assert forall|j: int, t: int| 0 <= j < os.len() && 0 <= t < os[j].len() implies (
    #[trigger] os[j][t]) < n by {
        assert(gs[j].contains(os[j][t]));
        let u = choose|u: int| 0 <= u < gs[j].len() && gs[j][u] == os[j][t];
    }
    assert forall|d: int| 0 <= d < n implies #[trigger] listed(os, d) by {
        assert(listed(gs, d));
        let (j, t) = choose|j: int, t: int|
            0 <= j < gs.len() && 0 <= t < gs[j].len() && #[trigger] gs[j][t] == d;
        assert(os[j].contains(gs[j][t]));
        let u = choose|u: int| 0 <= u < os[j].len() && os[j][u] == gs[j][t];
    }
    assert(no_repeats(os)) by {
        assert forall|j: int, t: int, k: int, u: int|
            0 <= j < os.len() && 0 <= t < os[j].len() && 0 <= k < os.len() && 0 <= u < os[k].len()
                && #[trigger] os[j][t] == #[trigger] os[k][u] implies j == k && t == u by {
            let x = os[j][t];
            assert(gs[j].contains(x));
            assert(gs[k].contains(x));
            let a = choose|a: int| 0 <= a < gs[j].len() && gs[j][a] == x;
            let b = choose|b: int| 0 <= b < gs[k].len() && gs[k][b] == x;
            if j != k {
                lemma_places_differ(gs, j, a, k, b);
            }
        }
        reveal(no_repeats);
    }
}

/// Where the groups are the vertices, so are the cyclic orders.
pub proof fn lemma_cyclic_orders_keep_vertices(es: Seq<Edge>, gs: Seq<Seq<usize>>, n: nat, w: nat)
    requires
        is_grouping(gs, n),
        one_list_per_vertex(es, gs),
    ensures
        one_list_per_vertex(es, cyclic_orders(gs, w)),
{
    let os = cyclic_orders(gs, w);
    lemma_cyclic_orders_part(gs, n, w);
    assert forall|j: int, t: int| 0 <= j < os.len() && 0 <= t < os[j].len() implies dart_vertex(
        es,
        #[trigger] os[j][t] as int,
    ) == dart_vertex(es, os[j][0] as int) by {
        assert(os[j].contains(os[j][t]));
    }
}

/// Writes into `rotation` the cyclic order that the working index `w` gives
/// to `group`, and hands back what is left of the index.
fn write_cycle(group: &Vec<usize>, rotation: &mut Vec<usize>, w: usize) -> (left: usize)
    requires
        group.len() > 0,
        group@.no_duplicates(),
        forall|t: int| 0 <= t < group.len() ==> (#[trigger] group@[t]) < old(rotation).len(),
    ensures
        final(rotation).len() == old(rotation).len(),
        left == carried((group.len() - 1) as nat, w as nat),
        forall|t: int|
            0 <= t < group.len() ==> #[trigger] steps(
                final(rotation)@,
                cyclic_order(group@, w as nat),
                t,
            ),
        forall|d: int|
            0 <= d < old(rotation).len() && !group@.contains(d as usize) ==> (
            #[trigger] final(rotation)@[d]) == old(rotation)@[d],
{
    let ghost before = rotation@;
    let ghost order = cyclic_order(group@, w as nat);
    proof {
        lemma_cyclic_order_rearranges(group@, w as nat);
    }
    let mut pool: Vec<usize> = Vec::new();
    let mut i: usize = 1;
    while i < group.len()
        invariant
            1 <= i <= group.len(),
            pool@ == group@.subrange(1, i as int),
        decreases group.len() - i,
    {
        pool.push(group[i]);
        i += 1;
    }
    let start = group[0];
    let mut from = start;
    let mut index = w;
    let ghost mut placed: int = 0;
    assert forall|t: int| 0 <= t < order.len() implies (#[trigger] order[t]) < before.len() by {
        assert(group@.contains(order[t]));
    }
    while pool.len() > 0
        invariant
            rotation.len() == before.len(),
            forall|t: int| 0 <= t < order.len() ==> (#[trigger] order[t]) < before.len(),
            order == cyclic_order(group@, w as nat),
            order.len() == group.len(),
            order.no_duplicates(),
            forall|x: usize| order.contains(x) <==> group@.contains(x),
            forall|t: int| 0 <= t < group.len() ==> (#[trigger] group@[t]) < rotation.len(),
            0 <= placed < order.len(),
            placed + 1 + pool.len() == order.len(),
            from == order[placed],
            picks(pool@, index as nat) == order.skip(placed + 1),
            carried(pool.len() as nat, index as nat) == carried((group.len() - 1) as nat, w as nat),
            forall|t: int|
                0 <= t < placed ==> rotation@[(#[trigger] order[t]) as int] == order[t + 1],
            forall|d: int|
                0 <= d < before.len() && !group@.contains(d as usize) ==> (#[trigger] rotation@[d])
                    == before[d],
        decreases pool.len(),
    {
        let m = pool.len();
        let to = pool.swap_remove(index % m);
        index = index / m;
        proof {
            assert(order[placed + 1] == order.skip(placed + 1)[0]);
            assert(order.skip(placed + 1).skip(1) =~= order.skip(placed + 2));
        }
        rotation.set(from, to);
        proof {
            assert(order.contains(from));
        }
        from = to;
        proof {
            placed = placed + 1;
        }
    }
    rotation.set(from, start);
    index
}

/// The rotation system number `index` on `groups`, as the map from each of
/// the `darts` half-edges to the next one round its vertex. Group by group,
/// the cycle starts at the group's first half-edge and draws the others as
/// `picks` says, the index being handed on from group to group.
pub fn decode_rotation(groups: &Vec<Vec<usize>>, darts: usize, index: usize) -> (rotation: Vec<
    usize,
>)
    requires
        is_grouping(lists(groups@), darts as nat),
    ensures
        rotation@ == permutation_of(cyclic_orders(lists(groups@), index as nat), darts as nat),
        is_cycle_decomposition(rotation@, cyclic_orders(lists(groups@), index as nat)),
        is_perm(rotation@),
{
    let ghost gs = lists(groups@);
    let ghost os = cyclic_orders(gs, index as nat);
    proof {
        lemma_cyclic_orders_part(gs, darts as nat, index as nat);
    }
    let mut rotation: Vec<usize> = Vec::new();
    while rotation.len() < darts
        invariant
            rotation.len() <= darts,
        decreases darts - rotation.len(),
    {
        rotation.push(0);
    }
    let mut w = index;
    let mut j: usize = 0;
    while j < groups.len()
        invariant
            j <= groups.len(),
            rotation.len() == darts,
            gs == lists(groups@),
            os == cyclic_orders(gs, index as nat),
            is_grouping(gs, darts as nat),
            is_grouping(os, darts as nat),
            forall|k: int|
                0 <= k < gs.len() ==> (#[trigger] os[k]).len() == gs[k].len() && os[k][0]
                    == gs[k][0],
            forall|k: int, x: usize|
                0 <= k < gs.len() ==> (#[trigger] os[k].contains(x) <==> gs[k].contains(x)),
            w == index_at(gs, j as nat, index as nat),
            forall|k: int, t: int|
                0 <= k < j && 0 <= t < os[k].len() ==> #[trigger] steps(rotation@, os[k], t),
        decreases groups.len() - j,
    {
        let ghost before = rotation@;
        proof {
            lemma_group_has_no_repeats(gs, j as int);
        }
        w = write_cycle(&groups[j], &mut rotation, w);
        proof {
            assert forall|k: int, t: int|
                0 <= k < j + 1 && 0 <= t < os[k].len() implies #[trigger] steps(
                rotation@,
                os[k],
                t,
            ) by {
                if k < j {
                    assert(steps(before, os[k], t));
                    let x = os[k][t];
                    assert(os[k].contains(x));
                    let a = choose|a: int| 0 <= a < gs[k].len() && gs[k][a] == x;
                    if gs[j as int].contains(x) {
                        let b = choose|b: int| 0 <= b < gs[j as int].len() && gs[j as int][b] == x;
                        lemma_places_differ(gs, k, a, j as int, b);
                    }
                }
            }
        }
        j += 1;
    }
    proof {
        lemma_cycles_make_perm(rotation@, os);
        lemma_cycles_fix_perm(rotation@, os);
    }
    rotation
}

} // verus!
