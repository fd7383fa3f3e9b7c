//! The numbering of rotation systems is exact: different numbers below the
//! count stand for different rotation systems, and every rotation system
//! has a number below the count.

use crate::euler::{is_rotation_system, is_rotation_with_cycles};
use crate::graph::Edge;
use crate::half_edge::{incidence_groups, lemma_groups_upto};
use crate::permutation::{
    is_grouping, lemma_cycles_fix_perm, lemma_permutation_of_cycles, listed, no_repeats,
    permutation_of, place_of, steps,
};
use crate::rotation::{
    carried, cyclic_order, cyclic_orders, factorial, index_at, lemma_cyclic_orders_keep_vertices,
    lemma_cyclic_orders_part, lemma_group_has_no_repeats, picks, rotation_space,
};
use vstd::arithmetic::div_mod::{
    lemma_div_pos_is_pos, lemma_fundamental_div_mod, lemma_fundamental_div_mod_converse,
    lemma_mod_bound,
};
use vstd::prelude::*;

verus! {

/// Drawing `len` entries divides the working index by `len!`, rounding down.
pub proof fn lemma_carried_is_quotient(len: nat, w: nat)
    ensures
        carried(len, w) * factorial(len) <= w < (carried(len, w) + 1) * factorial(len),
    decreases len,
{
    if len == 0 {
        assert(factorial(0) == 1);
    } else {
        let d = w / len;
        let q = carried((len - 1) as nat, d);
        let f = factorial((len - 1) as nat);
        lemma_div_pos_is_pos(w as int, len as int);
        lemma_carried_is_quotient((len - 1) as nat, d);
        lemma_fundamental_div_mod(w as int, len as int);
        lemma_mod_bound(w as int, len as int);
        let r = w % len;
        assert(q * (len * f) <= w) by (nonlinear_arith)
            requires
                q * f <= d,
                w == len * d + r,
                0 <= r,
                len >= 1,
        ;
        assert(w < (q + 1) * (len * f)) by (nonlinear_arith)
            requires
                d + 1 <= (q + 1) * f,
                w == len * d + r,
                r < len,
                len >= 1,
        ;
    }
}

/// Ordering the first `j` groups divides the index by the number of ways
/// to order them, rounding down.
pub proof fn lemma_index_at_is_quotient(gs: Seq<Seq<usize>>, j: nat, w: nat)
    requires
        j <= gs.len(),
    ensures
        index_at(gs, j, w) * rotation_space(gs.take(j as int)) <= w < (index_at(gs, j, w) + 1)
            * rotation_space(gs.take(j as int)),
    decreases j,
{
    if j == 0 {
        assert(rotation_space(gs.take(0)) == 1);
    } else {
        let c = index_at(gs, (j - 1) as nat, w);
        let p = rotation_space(gs.take(j - 1));
        let m = (gs[j - 1].len() - 1) as nat;
        let q = carried(m, c);
        let f = factorial(m);
        lemma_index_at_is_quotient(gs, (j - 1) as nat, w);
        lemma_carried_is_quotient(m, c);
        assert(gs.take(j as int).drop_last() =~= gs.take(j - 1));
        let s = rotation_space(gs.take(j as int));
        assert(q * s <= w) by (nonlinear_arith)
            requires
                q * f <= c,
                c * p <= w,
                p >= 0,
                s == p * f,
        ;
        assert(w < (q + 1) * s) by (nonlinear_arith)
            requires
                c + 1 <= (q + 1) * f,
                w < (c + 1) * p,
                p >= 0,
                s == p * f,
        ;
    }
}

/// A number below the count is used up when all the groups are ordered.
pub proof fn lemma_index_is_used_up(gs: Seq<Seq<usize>>, w: nat)
    requires
        w < rotation_space(gs),
    ensures
        index_at(gs, gs.len(), w) == 0,
{
    lemma_index_at_is_quotient(gs, gs.len(), w);
    assert(gs.take(gs.len() as int) =~= gs);
    let q = index_at(gs, gs.len(), w);
    let s = rotation_space(gs);
    assert(q == 0) by (nonlinear_arith)
        requires
            q * s <= w,
            w < s,
            q >= 0,
    ;
}

/// Two working indices that draw the same order from a pool, and leave the
/// same, are the same.
pub proof fn lemma_picks_tell_the_index(pool: Seq<usize>, a: nat, b: nat)
    requires
        pool.no_duplicates(),
        picks(pool, a) == picks(pool, b),
        carried(pool.len(), a) == carried(pool.len(), b),
    ensures
        a == b,
    decreases pool.len(),
{
    if pool.len() > 0 {
        let m = pool.len();
        let i = (a % m) as int;
        let j = (b % m) as int;
        lemma_mod_bound(a as int, m as int);
        lemma_mod_bound(b as int, m as int);
        lemma_div_pos_is_pos(a as int, m as int);
        lemma_div_pos_is_pos(b as int, m as int);
        assert(picks(pool, b)[0] == pool[j]);
        let rest = pool.update(i, pool.last()).drop_last();
        assert(picks(rest, a / m) =~= picks(pool, a).skip(1));
        assert(picks(rest, b / m) =~= picks(pool, b).skip(1));
        lemma_picks_tell_the_index(rest, a / m, b / m);
        lemma_fundamental_div_mod(a as int, m as int);
        lemma_fundamental_div_mod(b as int, m as int);
    }
}

/// Two numbers that give the same cyclic orders, and leave the same after
/// the first `j` groups, are the same.
proof fn lemma_orders_tell_the_index(gs: Seq<Seq<usize>>, j: nat, a: nat, b: nat)
    requires
        j <= gs.len(),
        no_repeats(gs),
        forall|k: int| 0 <= k < gs.len() ==> (#[trigger] gs[k]).len() > 0,
        cyclic_orders(gs, a) == cyclic_orders(gs, b),
        index_at(gs, j, a) == index_at(gs, j, b),
    ensures
        a == b,
    decreases j,
{
    if j > 0 {
        let g = gs[j - 1];
        let x = index_at(gs, (j - 1) as nat, a);
        let y = index_at(gs, (j - 1) as nat, b);
        assert(cyclic_orders(gs, b)[j - 1] == cyclic_order(g, y));
        lemma_group_has_no_repeats(gs, j - 1);
        assert(picks(g.drop_first(), x) =~= cyclic_order(g, x).skip(1));
        assert(picks(g.drop_first(), y) =~= cyclic_order(g, y).skip(1));
        lemma_picks_tell_the_index(g.drop_first(), x, y);
        lemma_orders_tell_the_index(gs, (j - 1) as nat, a, b);
    }
}

/// No two numbers below the count give the same cyclic orders.
pub proof fn lemma_numbers_give_different_orders(gs: Seq<Seq<usize>>, n: nat, a: nat, b: nat)
    requires
        is_grouping(gs, n),
        a < rotation_space(gs),
        b < rotation_space(gs),
        a != b,
    ensures
        cyclic_orders(gs, a) != cyclic_orders(gs, b),
{
    lemma_index_is_used_up(gs, a);
    lemma_index_is_used_up(gs, b);
    if cyclic_orders(gs, a) == cyclic_orders(gs, b) {
        lemma_orders_tell_the_index(gs, gs.len(), a, b);
    }
}

/// Two lists that are read in the direction of `p`, close on their first
/// entry, start alike and are equally long, are the same list.
proof fn lemma_cycle_is_known_by_its_head(p: Seq<usize>, c: Seq<usize>, d: Seq<usize>, t: int)
    requires
        c.len() == d.len(),
        0 <= t < c.len(),
        c[0] == d[0],
        forall|u: int| 0 <= u < c.len() ==> #[trigger] steps(p, c, u),
        forall|u: int| 0 <= u < d.len() ==> #[trigger] steps(p, d, u),
    ensures
        c[t] == d[t],
    decreases t,
{
    if t > 0 {
        lemma_cycle_is_known_by_its_head(p, c, d, t - 1);
        assert(steps(p, c, t - 1));
        assert(steps(p, d, t - 1));
    }
}

/// Different numbers below the count stand for different permutations of
/// the half-edges.
pub proof fn lemma_numbers_give_different_rotations(gs: Seq<Seq<usize>>, n: nat, a: nat, b: nat)
    requires
        is_grouping(gs, n),
        a < rotation_space(gs),
        b < rotation_space(gs),
        a != b,
    ensures
        permutation_of(cyclic_orders(gs, a), n) != permutation_of(cyclic_orders(gs, b), n),
{
    let oa = cyclic_orders(gs, a);
    let ob = cyclic_orders(gs, b);
    let p = permutation_of(oa, n);
    lemma_cyclic_orders_part(gs, n, a);
    lemma_cyclic_orders_part(gs, n, b);
    lemma_permutation_of_cycles(oa, n);
    lemma_permutation_of_cycles(ob, n);
    lemma_numbers_give_different_orders(gs, n, a, b);
    if p == permutation_of(ob, n) {
        assert forall|j: int| 0 <= j < gs.len() implies #[trigger] oa[j] == ob[j] by {
            assert forall|t: int| 0 <= t < oa[j].len() implies oa[j][t] == ob[j][t] by {
                lemma_cycle_is_known_by_its_head(p, oa[j], ob[j], t);
            }
        }
        assert(oa =~= ob);
    }
}

/// The list `c` read from slot `s` on, and round to where it started.
pub open spec fn turned(c: Seq<usize>, s: int) -> Seq<usize> {
    c.subrange(s, c.len() as int) + c.subrange(0, s)
}

/// `a` and `b` hold the same entries, each once.
pub open spec fn rearranges(a: Seq<usize>, b: Seq<usize>) -> bool {
    &&& a.len() == b.len()
    &&& a.no_duplicates()
    &&& b.no_duplicates()
    &&& forall|x: usize| a.contains(x) <==> b.contains(x)
}

/// A cycle read from another slot on is the same cycle.
proof fn lemma_turned_cycle(p: Seq<usize>, c: Seq<usize>, s: int)
    requires
        0 <= s < c.len(),
        c.no_duplicates(),
        forall|t: int| 0 <= t < c.len() ==> #[trigger] steps(p, c, t),
    ensures
        turned(c, s).len() == c.len(),
        turned(c, s)[0] == c[s],
        turned(c, s).no_duplicates(),
        forall|x: usize| turned(c, s).contains(x) <==> c.contains(x),
        forall|t: int| 0 <= t < c.len() ==> #[trigger] steps(p, turned(c, s), t),
{
    let r = turned(c, s);
    let len = c.len() as int;
    let from = |t: int| if t < len - s { s + t } else { t - (len - s) };
    assert forall|x: usize| r.contains(x) <==> c.contains(x) by {
        if r.contains(x) {
            let t = choose|t: int| 0 <= t < r.len() && r[t] == x;
        }
        if c.contains(x) {
            let u = choose|u: int| 0 <= u < c.len() && c[u] == x;
            let t = if u >= s { u - s } else { u + (len - s) };
            assert(r[t] == c[from(t)]);
        }
    }
    assert forall|t: int| 0 <= t < c.len() implies #[trigger] steps(p, r, t) by {
        assert(steps(p, c, from(t)));
    }
}

/// A working index that draws the entries of `pool` in the order `want`
/// and leaves `high`.
pub open spec fn index_drawing(pool: Seq<usize>, want: Seq<usize>, high: nat) -> nat
    decreases pool.len(),
{
    if pool.len() == 0 {
        high
    } else {
        let at = pool.index_of(want[0]);
        let i = if 0 <= at < pool.len() { at } else { 0 };
        (i + pool.len() * index_drawing(
            pool.update(i, pool.last()).drop_last(),
            want.drop_first(),
            high,
        )) as nat
    }
}

/// Whatever order of the pool is wanted, and whatever is to be left, some
/// working index draws that order and leaves that.
pub proof fn lemma_index_drawing(pool: Seq<usize>, want: Seq<usize>, high: nat)
    requires
        rearranges(want, pool),
    ensures
        picks(pool, index_drawing(pool, want, high)) == want,
        carried(pool.len(), index_drawing(pool, want, high)) == high,
    decreases pool.len(),
{
    if !(pool.len() == 0) {
        let m = pool.len();
        assert(want.contains(want[0]));
        let i = pool.index_of(want[0]);
        let rest = pool.update(i, pool.last()).drop_last();
        let tail = want.drop_first();
        assert(rearranges(tail, rest)) by {
            assert forall|x: usize| tail.contains(x) <==> rest.contains(x) by {
                if tail.contains(x) {
                    let u = choose|u: int| 0 <= u < tail.len() && tail[u] == x;
                    assert(pool.contains(x));
                    let v = choose|v: int| 0 <= v < pool.len() && pool[v] == x;
                    if v == m - 1 {
                        assert(rest[i] == x);
                    } else {
                        assert(rest[v] == x);
                    }
                }
                if rest.contains(x) {
                    assert(want.contains(x));
                    let u = choose|u: int| 0 <= u < want.len() && want[u] == x;
                    assert(tail[u - 1] == x);
                }
            }
        }
        let above = index_drawing(rest, tail, high);
        let w = index_drawing(pool, want, high);
        lemma_index_drawing(rest, tail, high);
        assert(w == above * m + i) by (nonlinear_arith)
            requires
                w == i + m * above,
        ;
        lemma_fundamental_div_mod_converse(w as int, m as int, above as int, i);
    }
}

/// A number that gives the groups `gs`, from group `j` on, the cyclic
/// orders `wants`.
pub open spec fn number_of_orders(gs: Seq<Seq<usize>>, wants: Seq<Seq<usize>>, j: nat) -> nat
    decreases gs.len() - j,
{
    if j >= gs.len() {
        0
    } else {
        index_drawing(
            gs[j as int].drop_first(),
            wants[j as int].drop_first(),
            number_of_orders(gs, wants, j + 1),
        )
    }
}

/// The number built for the wanted orders reaches each group as the number
/// built for the orders from that group on, and gives the group its order.
proof fn lemma_number_is_handed_on(gs: Seq<Seq<usize>>, wants: Seq<Seq<usize>>, j: nat)
    requires
        j <= gs.len(),
        wants.len() == gs.len(),
        forall|k: int|
            0 <= k < gs.len() ==> (#[trigger] gs[k]).len() > 0 && rearranges(wants[k], gs[k])
                && wants[k][0] == gs[k][0],
    ensures
        index_at(gs, j, number_of_orders(gs, wants, 0)) == number_of_orders(gs, wants, j),
        j < gs.len() ==> cyclic_order(gs[j as int], number_of_orders(gs, wants, j))
            == wants[j as int],
    decreases j,
{
    if j > 0 {
        lemma_number_is_handed_on(gs, wants, (j - 1) as nat);
        lemma_rest_rearranges(wants[j - 1], gs[j - 1]);
        lemma_index_drawing(
            gs[j - 1].drop_first(),
            wants[j - 1].drop_first(),
            number_of_orders(gs, wants, j),
        );
    }
    if j < gs.len() {
        let g = gs[j as int];
        let want = wants[j as int];
        lemma_rest_rearranges(want, g);
        lemma_index_drawing(g.drop_first(), want.drop_first(), number_of_orders(gs, wants, j + 1));
    }
}

/// Lists that rearrange each other and start alike rearrange each other
/// after their first entry too.
proof fn lemma_rest_rearranges(a: Seq<usize>, b: Seq<usize>)
    requires
        a.len() > 0,
        rearranges(a, b),
        a[0] == b[0],
    ensures
        rearranges(a.drop_first(), b.drop_first()),
{
    let x = a.drop_first();
    let y = b.drop_first();
    assert forall|v: usize| x.contains(v) <==> y.contains(v) by {
        if x.contains(v) {
            assert(b.contains(v));
            let t = choose|t: int| 0 <= t < b.len() && b[t] == v;
            assert(y[t - 1] == v);
        }
        if y.contains(v) {
            assert(a.contains(v));
            let t = choose|t: int| 0 <= t < a.len() && a[t] == v;
            assert(x[t - 1] == v);
        }
    }
}

/// Whatever cyclic orders of the groups are wanted, each starting at its
/// group's first half-edge, some number below the count gives them.
pub proof fn lemma_orders_have_a_number(gs: Seq<Seq<usize>>, n: nat, wants: Seq<Seq<usize>>)
    requires
        is_grouping(gs, n),
        wants.len() == gs.len(),
        forall|k: int|
            0 <= k < gs.len() ==> rearranges(#[trigger] wants[k], gs[k]) && wants[k][0] == gs[k][0],
    ensures
        number_of_orders(gs, wants, 0) < rotation_space(gs),
        cyclic_orders(gs, number_of_orders(gs, wants, 0)) == wants,
{
    let w = number_of_orders(gs, wants, 0);
    let os = cyclic_orders(gs, w);
    assert forall|j: int| 0 <= j < gs.len() implies #[trigger] os[j] == wants[j] by {
        lemma_number_is_handed_on(gs, wants, j as nat);
    }
    lemma_number_is_handed_on(gs, wants, gs.len());
    lemma_index_at_is_quotient(gs, gs.len(), w);
    assert(gs.take(gs.len() as int) =~= gs);
    assert((0 + 1) * rotation_space(gs) == rotation_space(gs)) by (nonlinear_arith);
}

/// Lists without repeats that hold the same entries are equally long.
proof fn lemma_same_entries_same_length(a: Seq<usize>, b: Seq<usize>)
    requires
        a.no_duplicates(),
        b.no_duplicates(),
        forall|x: usize| a.contains(x) <==> b.contains(x),
    ensures
        a.len() == b.len(),
{
    assert(a.to_set() =~= b.to_set());
    a.unique_seq_to_set();
    b.unique_seq_to_set();
}

/// Rotation system number `w` of the graph `es`.
pub open spec fn rotation_at(es: Seq<Edge>, w: nat) -> Seq<usize> {
    permutation_of(cyclic_orders(incidence_groups(es), w), 2 * es.len())
}

/// The number of rotation systems of `es`: the product over its vertices of
/// `(deg - 1)!`.
pub open spec fn rotation_total(es: Seq<Edge>) -> nat {
    rotation_space(incidence_groups(es))
}

/// Every number stands for a rotation system of the graph.
pub proof fn lemma_rotation_at_is_rotation_system(es: Seq<Edge>, w: nat)
    requires
        2 * es.len() <= usize::MAX,
    ensures
        is_rotation_system(es, rotation_at(es, w)),
        is_rotation_with_cycles(es, rotation_at(es, w), cyclic_orders(incidence_groups(es), w)),
{
    let n = 2 * es.len();
    let gs = incidence_groups(es);
    lemma_groups_upto(es, n);
    lemma_cyclic_orders_part(gs, n, w);
    lemma_cyclic_orders_keep_vertices(es, gs, n, w);
    lemma_permutation_of_cycles(cyclic_orders(gs, w), n);
    assert(is_rotation_with_cycles(es, rotation_at(es, w), cyclic_orders(gs, w)));
}

/// Different numbers below the count stand for different rotation systems
/// of the graph.
pub proof fn lemma_rotation_numbers_differ(es: Seq<Edge>, a: nat, b: nat)
    requires
        2 * es.len() <= usize::MAX,
        a < rotation_total(es),
        b < rotation_total(es),
        a != b,
    ensures
        rotation_at(es, a) != rotation_at(es, b),
{
    lemma_groups_upto(es, 2 * es.len());
    lemma_numbers_give_different_rotations(incidence_groups(es), 2 * es.len(), a, b);
}

/// Every rotation system of the graph has a number below the count.
pub proof fn lemma_rotation_system_has_a_number(es: Seq<Edge>, rho: Seq<usize>) -> (w: nat)
    requires
        2 * es.len() <= usize::MAX,
        is_rotation_system(es, rho),
    ensures
        w < rotation_total(es),
        rotation_at(es, w) == rho,
{
    let n = 2 * es.len();
    let gs = incidence_groups(es);
    let cs = choose|cs: Seq<Seq<usize>>| #[trigger] is_rotation_with_cycles(es, rho, cs);
    lemma_groups_upto(es, n);
    let wants = Seq::new(
        gs.len(),
        |j: int|
            {
                let (k, s) = place_of(cs, gs[j][0] as int);
                turned(cs[k], s)
            },
    );
    assert forall|j: int| 0 <= j < gs.len() implies rearranges(#[trigger] wants[j], gs[j])
        && wants[j][0] == gs[j][0] && (forall|t: int|
        0 <= t < wants[j].len() ==> #[trigger] steps(rho, wants[j], t)) by {
        let d = gs[j][0];
        assert(listed(cs, d as int));
        let (k, s) = place_of(cs, d as int);
        lemma_group_has_no_repeats(cs, k);
        lemma_group_has_no_repeats(gs, j);
        assert forall|t: int| 0 <= t < cs[k].len() implies #[trigger] steps(rho, cs[k], t) by {}
        lemma_turned_cycle(rho, cs[k], s);
        assert forall|x: usize| cs[k].contains(x) <==> gs[j].contains(x) by {
            if cs[k].contains(x) {
                let t = choose|t: int| 0 <= t < cs[k].len() && cs[k][t] == x;
                assert(steps(rho, cs[k], t));
                assert(listed(gs, x as int));
            }
            if gs[j].contains(x) {
                assert(listed(cs, x as int));
            }
        }
        lemma_same_entries_same_length(cs[k], gs[j]);
    }
    lemma_orders_have_a_number(gs, n, wants);
    let w = number_of_orders(gs, wants, 0);
    lemma_cyclic_orders_part(gs, n, w);
    lemma_cycles_fix_perm(rho, wants);
    w
}

} // verus!
