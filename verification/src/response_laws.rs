//! A best response is worth at least what the strategy is worth.
use vstd::prelude::*;

use crate::best_response::{
    across, across_played, best_of, blended, decided, entries, entries_of, exploited, first_reach,
    gained, reach_after, response, walk, walk_actions, walk_branches, walk_deals, StrategyProfile,
};
use crate::exact::{is_exact, lemma_orders, lemma_spread, lemma_undo, lemma_units, Exact};
use crate::game::GameSpec;
use crate::layout::{at, flat};
use crate::scalar::{sum_upto, Scalar, Widen};
use crate::tree::{FlatTree, UNUSED};

verus! {

/// Numbers are ordered, and sums and products with what is not negative keep the order.
#[verifier::opaque]
pub open spec fn is_ordered<T: Scalar>() -> bool {
    &&& forall|x: T| #[trigger] x.s_at_most(x)
    &&& forall|x: T| !#[trigger] x.s_below(x)
    &&& forall|x: T, y: T, z: T|
        #[trigger] x.s_at_most(y) && #[trigger] y.s_at_most(z) ==> x.s_at_most(z)
    &&& forall|x: T, y: T| #[trigger] x.s_below(y) ==> x.s_at_most(y)
    &&& forall|x: T, y: T| !#[trigger] x.s_below(y) ==> y.s_at_most(x)
    &&& forall|x: T, y: T, z: T|
        x.s_at_most(y) ==> #[trigger] x.s_plus(z).s_at_most(#[trigger] y.s_plus(z))
    &&& forall|c: T, x: T, y: T|
        T::s_zero().s_at_most(c) && x.s_at_most(y) ==> #[trigger] c.s_times(x).s_at_most(
            #[trigger] c.s_times(y),
        )
    &&& T::s_zero().s_at_most(T::s_one())
}

/// Quotients by what is above zero add up, keep what is not negative, and give one for a
/// number by itself; counting goes up by one.
#[verifier::opaque]
pub open spec fn has_quotients<T: Scalar>() -> bool {
    &&& forall|x: T, y: T, t: T|
        T::s_zero().s_below(t) ==> #[trigger] x.s_plus(y).s_over(t) == x.s_over(t).s_plus(y.s_over(t))
    &&& forall|t: T| T::s_zero().s_below(t) ==> #[trigger] t.s_over(t) == T::s_one()
    &&& forall|t: T| T::s_zero().s_below(t) ==> #[trigger] T::s_zero().s_over(t) == T::s_zero()
    &&& forall|x: T, t: T|
        T::s_zero().s_below(t) && T::s_zero().s_at_most(x) ==> T::s_zero().s_at_most(
            #[trigger] x.s_over(t),
        )
    &&& T::s_of(0) == T::s_zero()
    &&& forall|n: int| n >= 0 ==> #[trigger] T::s_of(n + 1) == T::s_of(n).s_plus(T::s_one())
    &&& forall|n: int| n > 0 ==> T::s_zero().s_below(#[trigger] T::s_of(n))
}

/// Arithmetic as over the rational numbers.
pub open spec fn is_rational<T: Scalar>() -> bool {
    is_exact::<T>() && is_ordered::<T>() && has_quotients::<T>()
}

/// Entry by entry at most.
pub open spec fn none_above<T: Scalar>(a: Seq<T>, b: Seq<T>) -> bool {
    a.len() == b.len() && forall|h: int| 0 <= h < a.len() ==> (#[trigger] a[h]).s_at_most(b[h])
}

pub(crate) proof fn lemma_chain<T: Scalar>(x: T, y: T, z: T)
    requires
        is_rational::<T>(),
        x.s_at_most(y),
        y.s_at_most(z),
    ensures
        x.s_at_most(z),
{
    reveal(is_ordered);
}

pub(crate) proof fn lemma_self<T: Scalar>(x: T)
    requires
        is_rational::<T>(),
    ensures
        x.s_at_most(x),
{
    reveal(is_ordered);
}

/// Sums keep the order.
pub(crate) proof fn lemma_sums_keep<T: Scalar>(a: T, b: T, x: T, y: T)
    requires
        is_rational::<T>(),
        a.s_at_most(b),
        x.s_at_most(y),
    ensures
        a.s_plus(x).s_at_most(b.s_plus(y)),
{
    assert(a.s_plus(x).s_at_most(b.s_plus(x)) && x.s_plus(b).s_at_most(y.s_plus(b))) by {
        reveal(is_ordered);
    }
    lemma_orders(b, x, x);
    lemma_orders(b, y, y);
    lemma_chain(a.s_plus(x), b.s_plus(x), b.s_plus(y));
}

/// Products with what is not negative keep the order.
pub(crate) proof fn lemma_products_keep<T: Scalar>(c: T, x: T, y: T)
    requires
        is_rational::<T>(),
        T::s_zero().s_at_most(c),
        x.s_at_most(y),
    ensures
        c.s_times(x).s_at_most(c.s_times(y)),
{
    reveal(is_ordered);
}

/// A sum of terms that are at most as large is at most as large.
pub(crate) proof fn lemma_sum_keeps<T: Scalar>(f: spec_fn(int) -> T, g: spec_fn(int) -> T, n: nat)
    requires
        is_rational::<T>(),
        forall|k: int| 0 <= k < n ==> (#[trigger] f(k)).s_at_most(g(k)),
    ensures
        sum_upto(f, n).s_at_most(sum_upto(g, n)),
    decreases n,
{
    if n == 0 {
        lemma_self(T::s_zero());
    } else {
        lemma_sum_keeps(f, g, (n - 1) as nat);
        let k: int = n - 1;
        assert(f(k).s_at_most(g(k)));
        lemma_sums_keep(sum_upto(f, k as nat), sum_upto(g, k as nat), f(k), g(k));
    }
}

/// The best child is worth at least as much as each.
pub(crate) proof fn lemma_best<T: Scalar>(vs: Seq<Seq<T>>, h: int, n: nat, k: int)
    requires
        is_rational::<T>(),
        0 <= k < n,
    ensures
        vs[k][h].s_at_most(best_of(vs, h, n)),
    decreases n,
{
    let prev = best_of(vs, h, (n - 1) as nat);
    let last = vs[n - 1][h];
    if k < n - 1 {
        lemma_best(vs, h, (n - 1) as nat, k);
        if prev.s_below(last) {
            assert(prev.s_at_most(last)) by {
                reveal(is_ordered);
            }
            lemma_chain(vs[k][h], prev, last);
        }
    } else if prev.s_below(last) {
        lemma_self(last);
    } else {
        assert(last.s_at_most(prev)) by {
            reveal(is_ordered);
        }
    }
}

/// The strategy's cumulative entries are not negative.
pub open spec fn none_negative<T: Scalar>(v: Seq<T>) -> bool {
    forall|k: int| 0 <= k < v.len() ==> T::s_zero().s_at_most(#[trigger] v[k])
}

/// A quotient of a sum is the sum of the quotients.
pub(crate) proof fn lemma_quotient_of_sum<T: Scalar>(
    f: spec_fn(int) -> T,
    g: spec_fn(int) -> T,
    t: T,
    n: nat,
)
    requires
        is_rational::<T>(),
        T::s_zero().s_below(t),
        forall|k: int| 0 <= k < n ==> #[trigger] g(k) == f(k).s_over(t),
    ensures
        sum_upto(g, n) == sum_upto(f, n).s_over(t),
    decreases n,
{
    if n == 0 {
        reveal(has_quotients);
    } else {
        let m = (n - 1) as nat;
        lemma_quotient_of_sum(f, g, t, m);
        let k: int = n - 1;
        assert(g(k) == f(k).s_over(t));
        assert(sum_upto(f, m).s_plus(f(k)).s_over(t) == sum_upto(f, m).s_over(t).s_plus(
            f(k).s_over(t),
        )) by {
            reveal(has_quotients);
        }
    }
}

/// One, counted.
pub(crate) proof fn lemma_count<T: Scalar>(f: spec_fn(int) -> T, n: nat)
    requires
        is_rational::<T>(),
        forall|k: int| 0 <= k < n ==> #[trigger] f(k) == T::s_one(),
    ensures
        sum_upto(f, n) == T::s_of(n as int),
    decreases n,
{
    if n == 0 {
        reveal(has_quotients);
    } else {
        lemma_count(f, (n - 1) as nat);
        assert(f(n - 1) == T::s_one());
        assert(T::s_of((n - 1) + 1) == T::s_of(n - 1).s_plus(T::s_one())) by {
            reveal(has_quotients);
        }
    }
}

/// The probabilities of a node's actions, by action.
pub open spec fn shares<T: Scalar>(prof: &StrategyProfile<T>, i: int, na: int, h: int) -> spec_fn(
    int,
) -> T {
    |a: int| prof.sigma(i, na, a, h)
}

/// A node's action probabilities are not negative and add up to one.
pub proof fn law_shares_add_up<T: Scalar>(
    tree: &FlatTree,
    prof: &StrategyProfile<T>,
    i: int,
    h: int,
)
    requires
        is_rational::<T>(),
        prof.covers(tree),
        none_negative(prof.cum_strategy@),
        tree.is_node(i),
        tree.nodes@[i].is_player(),
        tree.arity(i) > 0,
        0 <= h < prof.nh,
    ensures
        sum_upto(shares(prof, i, tree.arity(i), h), tree.arity(i) as nat) == T::s_one(),
        forall|a: int|
            0 <= a < tree.arity(i) ==> T::s_zero().s_at_most(
                #[trigger] shares(prof, i, tree.arity(i), h)(a),
            ),
{
    let na = tree.arity(i);
    let f = shares(prof, i, na, h);
    let n = na as nat;
    let (base, w) = (prof.offset(i), prof.nh as int);
    let col = entries(prof.cum_strategy@, base, w, h);
    let total = sum_upto(col, n);
    if base != UNUSED && T::s_zero().s_below(total) {
        lemma_quotient_of_sum(col, f, total, n);
        assert(total.s_over(total) == T::s_one()) by {
            reveal(has_quotients);
        }
        assert forall|a: int| 0 <= a < na implies T::s_zero().s_at_most(#[trigger] f(a)) by {
            assert(0 <= base + at(w, a, h) < prof.cum_strategy@.len()) by (nonlinear_arith)
                requires
                    0 <= base,
                    0 <= a < na,
                    0 <= h < w,
                    base + na * w <= prof.cum_strategy@.len(),
                    at(w, a, h) == a * w + h,
            ;
            let x = prof.cum_strategy@[base + at(w, a, h)];
            assert(T::s_zero().s_at_most(x));
            assert(f(a) == x.s_over(total));
            assert(T::s_zero().s_at_most(x.s_over(total))) by {
                reveal(has_quotients);
            }
        }
    } else {
        let t = T::s_of(na);
        let ones = |k: int| T::s_one();
        assert(T::s_zero().s_below(t)) by {
            reveal(has_quotients);
        }
        lemma_count(ones, n);
        lemma_quotient_of_sum(ones, f, t, n);
        assert(t.s_over(t) == T::s_one()) by {
            reveal(has_quotients);
        }
        assert forall|a: int| 0 <= a < na implies T::s_zero().s_at_most(#[trigger] f(a)) by {
            assert(T::s_zero().s_at_most(T::s_one())) by {
                reveal(is_ordered);
            }
            assert(T::s_zero().s_at_most(T::s_one().s_over(t))) by {
                reveal(has_quotients);
            }
        }
    }
}

/// A mix of values is worth at most the best of values that are at least as large.
proof fn lemma_mix<T: Scalar>(
    tree: &FlatTree,
    prof: &StrategyProfile<T>,
    i: int,
    vs: Seq<Seq<T>>,
    ws: Seq<Seq<T>>,
    h: int,
)
    requires
        is_rational::<T>(),
        prof.covers(tree),
        none_negative(prof.cum_strategy@),
        tree.is_node(i),
        tree.nodes@[i].is_player(),
        vs.len() == tree.arity(i) == ws.len(),
        tree.arity(i) > 0,
        0 <= h < prof.nh,
        forall|a: int| 0 <= a < vs.len() ==> (#[trigger] vs[a])[h].s_at_most(ws[a][h]),
    ensures
        sum_upto(across_played(prof, i, vs, h), vs.len()).s_at_most(best_of(ws, h, ws.len())),
{
    let n = vs.len();
    let top = best_of(ws, h, n);
    let f = across_played(prof, i, vs, h);
    let p = shares(prof, i, n as int, h);
    let g = |a: int| p(a).s_times(top);
    law_shares_add_up(tree, prof, i, h);
    assert forall|a: int| 0 <= a < n implies (#[trigger] f(a)).s_at_most(g(a)) by {
        lemma_best(ws, h, n, a);
        assert(vs[a][h].s_at_most(ws[a][h]));
        lemma_chain(vs[a][h], ws[a][h], top);
        assert(T::s_zero().s_at_most(p(a)));
        lemma_products_keep(p(a), vs[a][h], top);
    }
    lemma_sum_keeps(f, g, n);
    lemma_shared_top(p, g, top, n);
    lemma_units(top);
}

pub(crate) proof fn lemma_shared_top<T: Scalar>(
    p: spec_fn(int) -> T,
    g: spec_fn(int) -> T,
    top: T,
    n: nat,
)
    requires
        is_rational::<T>(),
        forall|a: int| 0 <= a < n ==> #[trigger] g(a) == p(a).s_times(top),
    ensures
        sum_upto(g, n) == sum_upto(p, n).s_times(top),
    decreases n,
{
    if n == 0 {
        lemma_units(top);
    } else {
        let m = (n - 1) as nat;
        lemma_shared_top(p, g, top, m);
        assert(g(n - 1) == p(n - 1).s_times(top));
        lemma_spread(top, sum_upto(p, m), p(n - 1));
    }
}

/// Every game of this kind has no negative chance, and one value per hand of `target` at
/// every terminal.
pub open spec fn is_fair<T: Widen, G: GameSpec<T>>(tree: &FlatTree, target: u8, nh: int) -> bool {
    &&& forall|g: G, o: int, h: int| T::s_zero().s_at_most(#[trigger] g.s_chance(o, h))
    &&& forall|g: G, i: int, reach: Seq<Seq<T>>|
        (#[trigger] g.s_terminal(target, i, tree, reach)).len() == nh
    &&& forall|g: G| #[trigger] g.s_hands(target as int) == nh
}

/// Walks can be compared: decisions have actions, and the strategy has entries for them.
pub open spec fn can_compare<T: Widen, G: GameSpec<T>>(
    tree: &FlatTree,
    prof: &StrategyProfile<T>,
    target: u8,
) -> bool {
    &&& is_rational::<T>()
    &&& tree.wf()
    &&& prof.covers(tree)
    &&& none_negative(prof.cum_strategy@)
    &&& is_fair::<T, G>(tree, target, prof.nh as int)
    &&& forall|i: int|
        tree.is_node(i) && (#[trigger] tree.nodes@[i]).is_player() ==> tree.arity(i) > 0
    &&& forall|i: int| tree.is_node(i) ==> (#[trigger] tree.nodes@[i]).is_terminal()
        || tree.nodes@[i].is_chance() || tree.nodes@[i].is_player()
}

proof fn lemma_walk<T: Widen, G: GameSpec<T>>(
    tree: &FlatTree,
    g: G,
    prof: &StrategyProfile<T>,
    target: u8,
    i: int,
    reach: Seq<Seq<T>>,
)
    requires
        can_compare::<T, G>(tree, prof, target),
        tree.is_node(i),
    ensures
        walk(tree, g, prof, target, true, i, reach).1 == walk(
            tree,
            g,
            prof,
            target,
            false,
            i,
            reach,
        ).1,
        walk(tree, g, prof, target, true, i, reach).0.len() == prof.nh,
        none_above(
            walk(tree, g, prof, target, false, i, reach).0,
            walk(tree, g, prof, target, true, i, reach).0,
        ),
    decreases tree.max_depth + 1 - tree.level(i), 1int, 0int,
{
    let n = tree.nodes@[i];
    let nh = prof.nh as int;
    if n.is_terminal() || (n.is_chance() && tree.arity(i) == 0) {
        let v = g.s_terminal(target, i, tree, reach);
        assert(v.len() == nh);
        assert forall|h: int| 0 <= h < v.len() implies (#[trigger] v[h]).s_at_most(v[h]) by {
            lemma_self(v[h]);
        }
    } else if n.is_chance() {
        if g.s_outcomes() > 0 && tree.arity(i) == 1 {
            lemma_walk_deals(tree, g, prof, target, i, reach, g.s_outcomes() as nat);
        } else {
            lemma_walk_branches(tree, g, prof, target, i, reach, tree.arity(i) as nat);
        }
    } else {
        let na = tree.arity(i);
        lemma_walk_actions(tree, g, prof, target, i, reach, na as nat);
        let vs = walk_actions(tree, g, prof, target, false, i, reach, na as nat).0;
        let ws = walk_actions(tree, g, prof, target, true, i, reach, na as nat).0;
        assert(g.s_hands(target as int) == nh);
        let a = decided(tree, prof, target, false, i, nh, vs);
        let b = decided(tree, prof, target, true, i, nh, ws);
        assert forall|h: int| 0 <= h < nh implies (#[trigger] a[h]).s_at_most(b[h]) by {
            assert forall|k: int| 0 <= k < vs.len() implies (#[trigger] vs[k])[h].s_at_most(
                ws[k][h],
            ) by {
                assert(none_above(vs[k], ws[k]));
            }
            if n.player_id == target {
                lemma_mix(tree, prof, i, vs, ws, h);
            } else {
                let (f, e) = (across(vs, h), across(ws, h));
                assert forall|k: int| 0 <= k < vs.len() implies (#[trigger] f(k)).s_at_most(
                    e(k),
                ) by {
                    assert(vs[k][h].s_at_most(ws[k][h]));
                }
                lemma_sum_keeps(f, e, vs.len());
            }
        }
    }
}

proof fn lemma_blended<T: Widen, G: GameSpec<T>>(
    g: &G,
    tree: &FlatTree,
    target: u8,
    nh: int,
    o: int,
    v: Seq<T>,
    v2: Seq<T>,
    w: Seq<T>,
    w2: Seq<T>,
)
    requires
        is_rational::<T>(),
        is_fair::<T, G>(tree, target, nh),
        v.len() == nh,
        w.len() == nh,
        none_above(v, v2),
        none_above(w, w2),
    ensures
        none_above(blended(g, o, v, w), blended(g, o, v2, w2)),
{
    let (a, b) = (blended(g, o, v, w), blended(g, o, v2, w2));
    assert forall|h: int| 0 <= h < a.len() implies (#[trigger] a[h]).s_at_most(b[h]) by {
        let c = g.s_chance(o, h);
        assert(T::s_zero().s_at_most(c));
        assert(v[h].s_at_most(v2[h]) && w[h].s_at_most(w2[h]));
        lemma_products_keep(c, w[h], w2[h]);
        lemma_sums_keep(v[h], v2[h], c.s_times(w[h]), c.s_times(w2[h]));
    }
}

proof fn lemma_none<T: Scalar>(n: int)
    requires
        is_rational::<T>(),
    ensures
        none_above(flat(T::s_zero(), n), flat(T::s_zero(), n)),
{
    lemma_self(T::s_zero());
}

proof fn lemma_walk_deals<T: Widen, G: GameSpec<T>>(
    tree: &FlatTree,
    g: G,
    prof: &StrategyProfile<T>,
    target: u8,
    i: int,
    reach: Seq<Seq<T>>,
    n: nat,
)
    requires
        can_compare::<T, G>(tree, prof, target),
        tree.is_node(i),
    ensures
        ({
            let (v, g1) = walk_deals(tree, g, prof, target, false, i, reach, n);
            let (w, g2) = walk_deals(tree, g, prof, target, true, i, reach, n);
            g1 == g2 && w.len() == prof.nh && none_above(v, w)
        }),
    decreases tree.max_depth + 1 - tree.level(i), 0int, n,
{
    let nh = prof.nh as int;
    assert(g.s_hands(target as int) == nh);
    if n == 0 || !tree.is_edge(i, 0) {
        lemma_none::<T>(nh);
    } else {
        let m = (n - 1) as nat;
        assert(tree.edge_ok(i, 0));
        lemma_walk_deals(tree, g, prof, target, i, reach, m);
        let (v, g1) = walk_deals(tree, g, prof, target, false, i, reach, m);
        let v2 = walk_deals(tree, g, prof, target, true, i, reach, m).0;
        let c = tree.child(i, 0);
        lemma_walk(tree, g1.s_set(n - 1), prof, target, c, reach);
        let (w, g2) = walk(tree, g1.s_set(n - 1), prof, target, false, c, reach);
        let w2 = walk(tree, g1.s_set(n - 1), prof, target, true, c, reach).0;
        lemma_blended(&g2, tree, target, nh, n - 1, v, v2, w, w2);
    }
}

proof fn lemma_walk_branches<T: Widen, G: GameSpec<T>>(
    tree: &FlatTree,
    g: G,
    prof: &StrategyProfile<T>,
    target: u8,
    i: int,
    reach: Seq<Seq<T>>,
    n: nat,
)
    requires
        can_compare::<T, G>(tree, prof, target),
        tree.is_node(i),
        n <= tree.arity(i),
    ensures
        ({
            let (v, g1) = walk_branches(tree, g, prof, target, false, i, reach, n);
            let (w, g2) = walk_branches(tree, g, prof, target, true, i, reach, n);
            g1 == g2 && w.len() == prof.nh && none_above(v, w)
        }),
    decreases tree.max_depth + 1 - tree.level(i), 0int, n,
{
    let nh = prof.nh as int;
    assert(g.s_hands(target as int) == nh);
    if n == 0 || !tree.is_edge(i, n - 1) {
        lemma_none::<T>(nh);
    } else {
        let m = (n - 1) as nat;
        assert(tree.edge_ok(i, n - 1));
        lemma_walk_branches(tree, g, prof, target, i, reach, m);
        let (v, g1) = walk_branches(tree, g, prof, target, false, i, reach, m);
        let v2 = walk_branches(tree, g, prof, target, true, i, reach, m).0;
        let c = tree.child(i, n - 1);
        lemma_walk(tree, g1, prof, target, c, reach);
        let (w, g2) = walk(tree, g1, prof, target, false, c, reach);
        let w2 = walk(tree, g1, prof, target, true, c, reach).0;
        lemma_blended(&g2, tree, target, nh, n - 1, v, v2, w, w2);
    }
}

proof fn lemma_walk_actions<T: Widen, G: GameSpec<T>>(
    tree: &FlatTree,
    g: G,
    prof: &StrategyProfile<T>,
    target: u8,
    i: int,
    reach: Seq<Seq<T>>,
    n: nat,
)
    requires
        can_compare::<T, G>(tree, prof, target),
        tree.is_node(i),
        n <= tree.arity(i),
    ensures
        ({
            let (vs, g1) = walk_actions(tree, g, prof, target, false, i, reach, n);
            let (ws, g2) = walk_actions(tree, g, prof, target, true, i, reach, n);
            &&& g1 == g2
            &&& vs.len() == n && ws.len() == n
            &&& forall|k: int|
                0 <= k < n ==> none_above(#[trigger] vs[k], ws[k]) && ws[k].len() == prof.nh
        }),
    decreases tree.max_depth + 1 - tree.level(i), 0int, n,
{
    if n > 0 {
        let m = (n - 1) as nat;
        assert(tree.is_edge(i, n - 1));
        assert(tree.edge_ok(i, n - 1));
        lemma_walk_actions(tree, g, prof, target, i, reach, m);
        let g1 = walk_actions(tree, g, prof, target, false, i, reach, m).1;
        lemma_walk(
            tree,
            g1,
            prof,
            target,
            tree.child(i, n - 1),
            reach_after(tree, prof, i, n - 1, reach),
        );
    }
}

/// For every hand, a best response is worth at least what the strategy itself is worth.
pub proof fn law_best_response_is_best<T: Widen, G: GameSpec<T>>(
    tree: &FlatTree,
    g: G,
    prof: &StrategyProfile<T>,
    player: u8,
)
    requires
        can_compare::<T, G>(tree, prof, player),
    ensures
        none_above(
            response(tree, g, prof, player, false).0,
            response(tree, g, prof, player, true).0,
        ),
        response(tree, g, prof, player, true).1 == response(tree, g, prof, player, false).1,
{
    assert(tree.is_node(0));
    lemma_walk(tree, g, prof, player, 0, first_reach(&g, player, prof.nh as int));
}

/// Weighted gains of what is at least as large do not lower a total.
proof fn lemma_gained<T: Scalar>(
    total: T,
    reach: Seq<T>,
    sum: T,
    br: Seq<T>,
    sv: Seq<T>,
    n: nat,
)
    requires
        is_rational::<T>(),
        T::s_zero().s_at_most(total),
        T::s_zero().s_below(sum),
        none_above(sv, br),
        n <= br.len() <= reach.len(),
        none_negative(reach),
    ensures
        T::s_zero().s_at_most(gained(total, reach, sum, br, sv, n)),
    decreases n,
{
    if n > 0 {
        let h: int = n - 1;
        lemma_gained(total, reach, sum, br, sv, h as nat);
        let zero = T::s_zero();
        let (x, y) = (sv[h], br[h]);
        assert(x.s_at_most(y));
        let d = zero.s_minus(x);
        lemma_self(d);
        lemma_sums_keep(x, y, d, d);
        lemma_undo(x, x);
        lemma_undo(y, x);
        lemma_units(x);
        assert(zero.s_at_most(y.s_minus(x)));
        assert(zero.s_at_most(reach[h]));
        let c = reach[h].s_over(sum);
        assert(zero.s_at_most(c)) by {
            reveal(has_quotients);
        }
        lemma_products_keep(c, zero, y.s_minus(x));
        lemma_units(c);
        let prev = gained(total, reach, sum, br, sv, h as nat);
        lemma_sums_keep(zero, prev, zero, c.s_times(y.s_minus(x)));
        lemma_units(zero);
    }
}

/// No strategy has a negative exploitability, if the walks leave the game as they found it.
pub proof fn law_exploitability_is_not_negative<T: Widen, G: GameSpec<T>>(
    tree: &FlatTree,
    g: G,
    prof: &StrategyProfile<T>,
    n: nat,
)
    requires
        n <= tree.np(),
        forall|p: u8| p < n ==> #[trigger] can_compare::<T, G>(tree, prof, p),
        forall|p: u8| p < n ==> (#[trigger] response(tree, g, prof, p, true)).1 == g,
        forall|p: int|
            0 <= p < n ==> none_negative(#[trigger] g.s_weight(p)) && g.s_weight(p).len()
                >= prof.nh,
        is_rational::<T>(),
    ensures
        T::s_zero().s_at_most(exploited(tree, g, prof, n).0),
        exploited(tree, g, prof, n).1 == g,
    decreases n,
{
    if n == 0 {
        lemma_self(T::s_zero());
    } else {
        law_exploitability_is_not_negative(tree, g, prof, (n - 1) as nat);
        let p = (n - 1) as u8;
        assert(can_compare::<T, G>(tree, prof, p));
        law_best_response_is_best(tree, g, prof, p);
        let total = exploited(tree, g, prof, (n - 1) as nat).0;
        let br = response(tree, g, prof, p, true).0;
        let sv = response(tree, g, prof, p, false).0;
        lemma_walk(tree, g, prof, p, 0, first_reach(&g, p, prof.nh as int));
        let reach = g.s_weight(p as int);
        assert(none_negative(reach));
        let sum = sum_upto(entries_of(reach), reach.len());
        if T::s_zero().s_below(sum) {
            lemma_gained(total, reach, sum, br, sv, br.len());
        }
    }
}

} // verus!
