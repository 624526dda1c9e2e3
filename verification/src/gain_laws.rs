//! What the columns of a decision learn, in terms of their hands.
use vstd::prelude::*;

use crate::bank::block;
use crate::cluster_laws::one_if;
use crate::exact::{
    is_exact, lemma_orders, lemma_spread_difference, lemma_sum_add, lemma_sum_one, lemma_sum_times,
    lemma_undo, lemma_units, only, without, Exact,
};
use crate::layout::at;
use crate::learn::{gain, learned_at, pooled_gain, DcfrParams};
use crate::scalar::{lemma_sum_ext, s_regret_floor, sum_upto, Scalar};
use crate::sweep::Lens;
use crate::tree::FlatTree;

verus! {

/// What each hand of column `b` gains at action `a` over node `i`, with its weight; the
/// other hands count for nothing.
pub open spec fn weighted_gains<T: Scalar>(
    tree: &FlatTree,
    lens: &Lens,
    om: Seq<T>,
    v: Seq<T>,
    nh: int,
    i: int,
    a: int,
    b: int,
) -> spec_fn(int) -> T {
    |h: int|
        one_if::<T>(lens.column(h) == Some(b)) * (om[h] * (v[at(nh, tree.child(i, a), h)] - v[at(
            nh,
            i,
            h,
        )]))
}

proof fn lemma_pooled<T: Scalar>(
    tree: &FlatTree,
    lens: &Lens,
    om: Seq<T>,
    v: Seq<T>,
    nh: int,
    i: int,
    a: int,
    b: int,
    n: nat,
)
    requires
        is_exact::<T>(),
    ensures
        pooled_gain(lens, om, v, nh, i, tree.child(i, a), b, n) == sum_upto(
            weighted_gains(tree, lens, om, v, nh, i, a, b),
            n,
        ),
    decreases n,
{
    if n > 0 {
        lemma_pooled(tree, lens, om, v, nh, i, a, b, (n - 1) as nat);
        let h: int = n - 1;
        let f = weighted_gains(tree, lens, om, v, nh, i, a, b);
        lemma_units(om[h] * (v[at(nh, tree.child(i, a), h)] - v[at(nh, i, h)]));
        lemma_units(sum_upto(f, h as nat));
    }
}

/// Where numbers are exact, what a column learns of an action is the sum, over all of its
/// hands, of the hand's weight times what the hand gains by the action.
pub proof fn law_a_column_learns_from_all_its_hands<T: Scalar>(
    tree: &FlatTree,
    lens: &Lens,
    om: Seq<T>,
    v: Seq<T>,
    nh: int,
    i: int,
    a: int,
    b: int,
)
    requires
        is_exact::<T>(),
        0 <= nh,
    ensures
        gain(tree, lens, Some(om), v, nh, i, a, b) == sum_upto(
            weighted_gains(tree, lens, om, v, nh, i, a, b),
            nh as nat,
        ),
{
    lemma_pooled(tree, lens, om, v, nh, i, a, b, nh as nat);
}

/// The weights of the hands in `part`, none for the others.
pub open spec fn part_of<T: Scalar>(om: Seq<T>, part: spec_fn(int) -> bool) -> Seq<T> {
    Seq::new(
        om.len(),
        |h: int|
            if part(h) {
                om[h]
            } else {
                T::s_zero()
            },
    )
}

/// The weights of the hands outside `part`, none for the others.
pub open spec fn rest_of<T: Scalar>(om: Seq<T>, part: spec_fn(int) -> bool) -> Seq<T> {
    part_of(om, |h: int| !part(h))
}

/// Where numbers are exact, what a column learns is what any part of its hands gives
/// rise to, plus what the rest of them does.
pub proof fn law_columns_learn_part_by_part<T: Scalar>(
    tree: &FlatTree,
    lens: &Lens,
    om: Seq<T>,
    v: Seq<T>,
    nh: int,
    i: int,
    a: int,
    b: int,
    part: spec_fn(int) -> bool,
)
    requires
        is_exact::<T>(),
        0 <= nh,
        om.len() == nh,
    ensures
        gain(tree, lens, Some(om), v, nh, i, a, b) == gain(
            tree,
            lens,
            Some(part_of(om, part)),
            v,
            nh,
            i,
            a,
            b,
        ) + gain(tree, lens, Some(rest_of(om, part)), v, nh, i, a, b),
{
    let (x, y) = (part_of(om, part), rest_of(om, part));
    law_a_column_learns_from_all_its_hands(tree, lens, om, v, nh, i, a, b);
    law_a_column_learns_from_all_its_hands(tree, lens, x, v, nh, i, a, b);
    law_a_column_learns_from_all_its_hands(tree, lens, y, v, nh, i, a, b);
    let f = weighted_gains(tree, lens, om, v, nh, i, a, b);
    let g = weighted_gains(tree, lens, x, v, nh, i, a, b);
    let k = weighted_gains(tree, lens, y, v, nh, i, a, b);
    assert forall|h: int| 0 <= h < nh implies #[trigger] f(h) == g(h) + k(h) by {
        let d = v[at(nh, tree.child(i, a), h)] - v[at(nh, i, h)];
        let o = one_if::<T>(lens.column(h) == Some(b));
        lemma_units(d);
        lemma_units(o);
        lemma_units(f(h));
        if part(h) {
            assert(x[h] == om[h] && y[h] == T::s_zero());
        } else {
            assert(y[h] == om[h] && x[h] == T::s_zero());
        }
    }
    lemma_sum_add(g, k, f, nh as nat);
}

/// Where numbers are exact and only one hand of a column has a weight, the column learns
/// that weight times what the hand gains, wherever in the order of the hands it stands.
pub proof fn law_a_lone_hand_gives_its_gain<T: Scalar>(
    tree: &FlatTree,
    lens: &Lens,
    om: Seq<T>,
    v: Seq<T>,
    nh: int,
    i: int,
    a: int,
    b: int,
    h: int,
)
    requires
        is_exact::<T>(),
        0 <= h < nh,
        lens.column(h) == Some(b),
        forall|k: int|
            0 <= k < nh && k != h && lens.column(k) == Some(b) ==> #[trigger] om[k] == T::s_zero(),
    ensures
        gain(tree, lens, Some(om), v, nh, i, a, b) == om[h] * (v[at(nh, tree.child(i, a), h)] - v[at(
            nh,
            i,
            h,
        )]),
{
    law_a_column_learns_from_all_its_hands(tree, lens, om, v, nh, i, a, b);
    let f = weighted_gains(tree, lens, om, v, nh, i, a, b);
    assert forall|k: int| 0 <= k < nh && k != h implies #[trigger] f(k) == T::s_zero() by {
        let d = v[at(nh, tree.child(i, a), k)] - v[at(nh, i, k)];
        lemma_units(d);
        lemma_units(om[k] * d);
        lemma_units(one_if::<T>(lens.column(k) == Some(b)));
    }
    lemma_sum_one(f, h, nh as nat);
    lemma_units(om[h] * (v[at(nh, tree.child(i, a), h)] - v[at(nh, i, h)]));
}

/// A sum does not change when two of its terms change places.
pub proof fn lemma_sum_exchange<T: Scalar>(
    f: spec_fn(int) -> T,
    g: spec_fn(int) -> T,
    x: int,
    y: int,
    n: nat,
)
    requires
        is_exact::<T>(),
        0 <= x < n,
        0 <= y < n,
        g(x) == f(y),
        g(y) == f(x),
        forall|k: int| 0 <= k < n && k != x && k != y ==> #[trigger] g(k) == f(k),
    ensures
        sum_upto(f, n) == sum_upto(g, n),
{
    if x == y {
        lemma_sum_ext(f, g, n);
    } else {
        lemma_sum_apart(f, x, y, n);
        lemma_sum_apart(g, x, y, n);
        lemma_sum_ext(without(f, x, y), without(g, x, y), n);
        lemma_orders(sum_upto(without(f, x, y), n), f(x), f(y));
    }
}

/// Two terms of a sum, taken apart from the others.
pub proof fn lemma_sum_apart<T: Scalar>(f: spec_fn(int) -> T, x: int, y: int, n: nat)
    requires
        is_exact::<T>(),
        0 <= x < n,
        0 <= y < n,
        x != y,
    ensures
        sum_upto(f, n) == sum_upto(without(f, x, y), n) + f(x) + f(y),
{
    let w = without(f, x, y);
    let (p, q) = (only(f, x), only(f, y));
    let wp = |k: int| w(k) + p(k);
    let all = |k: int| wp(k) + q(k);
    lemma_sum_add(w, p, wp, n);
    lemma_sum_add(wp, q, all, n);
    lemma_sum_one(p, x, n);
    lemma_sum_one(q, y, n);
    assert forall|k: int| 0 <= k < n implies #[trigger] all(k) == f(k) by {
        lemma_units(f(k));
        lemma_units(T::s_zero());
        assert(wp(k) == w(k) + p(k));
    }
    lemma_sum_ext(all, f, n);
}

/// Where numbers are exact, what a column learns does not depend on the order of the
/// hands: two hands may change places, with their weights, their values and the columns
/// that they belong to.
pub proof fn law_the_order_of_hands_is_free<T: Scalar>(
    tree: &FlatTree,
    lens: &Lens,
    om: Seq<T>,
    v: Seq<T>,
    lens2: &Lens,
    om2: Seq<T>,
    v2: Seq<T>,
    nh: int,
    i: int,
    a: int,
    b: int,
    x: int,
    y: int,
)
    requires
        is_exact::<T>(),
        0 <= x < nh,
        0 <= y < nh,
        lens2.column(x) == lens.column(y),
        lens2.column(y) == lens.column(x),
        om2[x] == om[y],
        om2[y] == om[x],
        forall|k: int|
            0 <= k < nh && k != x && k != y ==> #[trigger] lens2.column(k) == lens.column(k)
                && om2[k] == om[k],
        forall|j: int|
            #![trigger v2[at(nh, j, x)]]
            v2[at(nh, j, x)] == v[at(nh, j, y)] && v2[at(nh, j, y)] == v[at(nh, j, x)],
        forall|j: int, k: int|
            0 <= k < nh && k != x && k != y ==> #[trigger] v2[at(nh, j, k)] == v[at(nh, j, k)],
    ensures
        gain(tree, lens2, Some(om2), v2, nh, i, a, b) == gain(
            tree,
            lens,
            Some(om),
            v,
            nh,
            i,
            a,
            b,
        ),
{
    law_a_column_learns_from_all_its_hands(tree, lens, om, v, nh, i, a, b);
    law_a_column_learns_from_all_its_hands(tree, lens2, om2, v2, nh, i, a, b);
    let f = weighted_gains(tree, lens, om, v, nh, i, a, b);
    let g = weighted_gains(tree, lens2, om2, v2, nh, i, a, b);
    let c = tree.child(i, a);
    assert(v2[at(nh, c, x)] == v[at(nh, c, y)] && v2[at(nh, i, x)] == v[at(nh, i, y)]);
    assert forall|k: int| 0 <= k < nh && k != x && k != y implies #[trigger] g(k) == f(k) by {
        assert(lens2.column(k) == lens.column(k));
        assert(v2[at(nh, c, k)] == v[at(nh, c, k)] && v2[at(nh, i, k)] == v[at(nh, i, k)]);
    }
    lemma_sum_exchange(f, g, x, y, nh as nat);
}

/// The weights of the hands of column `b`.
pub open spec fn weights_in<T: Scalar>(lens: &Lens, om: Seq<T>, b: int) -> spec_fn(int) -> T {
    |h: int| one_if::<T>(lens.column(h) == Some(b)) * om[h]
}

/// Where numbers are exact, every hand of a column gains the same and the weights of its
/// hands add up to one, the column learns just that gain.
pub proof fn law_a_shared_gain_is_learned<T: Scalar>(
    tree: &FlatTree,
    lens: &Lens,
    om: Seq<T>,
    v: Seq<T>,
    nh: int,
    i: int,
    a: int,
    b: int,
    g: T,
)
    requires
        is_exact::<T>(),
        0 <= nh,
        sum_upto(weights_in(lens, om, b), nh as nat) == T::s_one(),
        forall|h: int|
            0 <= h < nh && #[trigger] lens.column(h) == Some(b) ==> v[at(
                nh,
                tree.child(i, a),
                h,
            )] - v[at(nh, i, h)] == g,
    ensures
        gain(tree, lens, Some(om), v, nh, i, a, b) == g,
{
    law_a_column_learns_from_all_its_hands(tree, lens, om, v, nh, i, a, b);
    let f = weighted_gains(tree, lens, om, v, nh, i, a, b);
    let w = weights_in(lens, om, b);
    assert forall|h: int| 0 <= h < nh implies #[trigger] f(h) == g * w(h) by {
        let d = v[at(nh, tree.child(i, a), h)] - v[at(nh, i, h)];
        lemma_units(om[h] * d);
        lemma_units(om[h]);
        lemma_units(g);
        if lens.column(h) == Some(b) {
            lemma_orders(om[h], g, g);
        }
    }
    lemma_sum_times(g, w, f, nh as nat);
    lemma_units(g);
}

/// A regret `r` as an iteration keeps it.
pub open spec fn faded<T: Scalar>(p: &DcfrParams<T>, r: T) -> T {
    if T::s_zero().s_at_most(r) {
        p.alpha() * r
    } else {
        p.beta() * r
    }
}

/// An infoset that learned keeps its old regrets, faded, and adds to each what the action
/// gains, down to the floor; its cumulative strategy keeps the old one by `gamma` and adds
/// the strategy that was played.
pub proof fn law_learning_keeps_and_adds<T: Scalar>(
    tree: &FlatTree,
    lens: &Lens,
    omega: Option<Seq<T>>,
    v: Seq<T>,
    nh: int,
    p: &DcfrParams<T>,
    strategy: Seq<T>,
    local: int,
    g: int,
    i: int,
    regrets: Seq<T>,
    cum: Seq<T>,
    regrets2: Seq<T>,
    cum2: Seq<T>,
    a: int,
    b: int,
)
    requires
        learned_at(
            tree,
            lens,
            omega,
            v,
            nh,
            p,
            strategy,
            local,
            g,
            i,
            regrets,
            cum,
            regrets2,
            cum2,
        ),
        0 <= a < tree.arity(i),
        0 <= b < lens.width,
    ensures
        ({
            let (w, n) = (lens.width as int, tree.arity(i));
            let k = at(w, a, b);
            let x = faded(p, block(regrets, w, g, n)[k]) + gain(tree, lens, omega, v, nh, i, a, b);
            &&& !x.s_below(s_regret_floor::<T>()) ==> block(regrets2, w, g, n)[k] == x
            &&& x.s_below(s_regret_floor::<T>()) ==> block(regrets2, w, g, n)[k]
                == s_regret_floor::<T>()
            &&& block(cum2, w, g, n)[k] == p.gamma() * block(cum, w, g, n)[k] + block(
                strategy,
                w,
                local,
                n,
            )[k]
        }),
{
}

/// Two infosets that learned the same, one from a regret `r` and the other from a regret
/// `s`, neither negative, differ afterwards by `alpha` times the difference, where numbers
/// are exact and the floor is not reached.
pub proof fn law_learning_remembers<T: Scalar>(
    tree: &FlatTree,
    lens: &Lens,
    omega: Option<Seq<T>>,
    v: Seq<T>,
    nh: int,
    p: &DcfrParams<T>,
    strategy: Seq<T>,
    local: int,
    g: int,
    i: int,
    regrets: Seq<T>,
    others: Seq<T>,
    cum: Seq<T>,
    regrets2: Seq<T>,
    others2: Seq<T>,
    cum2: Seq<T>,
    a: int,
    b: int,
)
    requires
        is_exact::<T>(),
        learned_at(
            tree,
            lens,
            omega,
            v,
            nh,
            p,
            strategy,
            local,
            g,
            i,
            regrets,
            cum,
            regrets2,
            cum2,
        ),
        learned_at(
            tree,
            lens,
            omega,
            v,
            nh,
            p,
            strategy,
            local,
            g,
            i,
            others,
            cum,
            others2,
            cum2,
        ),
        0 <= a < tree.arity(i),
        0 <= b < lens.width,
        ({
            let (w, n) = (lens.width as int, tree.arity(i));
            let k = at(w, a, b);
            &&& T::s_zero().s_at_most(block(regrets, w, g, n)[k])
            &&& T::s_zero().s_at_most(block(others, w, g, n)[k])
            &&& block(regrets2, w, g, n)[k] != s_regret_floor::<T>()
            &&& block(others2, w, g, n)[k] != s_regret_floor::<T>()
        }),
    ensures
        ({
            let (w, n) = (lens.width as int, tree.arity(i));
            let k = at(w, a, b);
            block(regrets2, w, g, n)[k] - block(others2, w, g, n)[k] == p.alpha() * (block(
                regrets,
                w,
                g,
                n,
            )[k] - block(others, w, g, n)[k])
        }),
{
    let (w, n) = (lens.width as int, tree.arity(i));
    let k = at(w, a, b);
    let (r, s) = (block(regrets, w, g, n)[k], block(others, w, g, n)[k]);
    let x = gain(tree, lens, omega, v, nh, i, a, b);
    law_learning_keeps_and_adds(
        tree,
        lens,
        omega,
        v,
        nh,
        p,
        strategy,
        local,
        g,
        i,
        regrets,
        cum,
        regrets2,
        cum2,
        a,
        b,
    );
    law_learning_keeps_and_adds(
        tree,
        lens,
        omega,
        v,
        nh,
        p,
        strategy,
        local,
        g,
        i,
        others,
        cum,
        others2,
        cum2,
        a,
        b,
    );
    lemma_same_shift(p.alpha() * r, p.alpha() * s, x);
    lemma_spread_difference(p.alpha(), r, s);
}

/// Adding the same to both leaves a difference as it is.
pub proof fn lemma_same_shift<T: Scalar>(x: T, y: T, z: T)
    requires
        is_exact::<T>(),
    ensures
        (x + z) - (y + z) == x - y,
{
    lemma_undo(x, y);
    lemma_undo(x - y, y + z);
    lemma_orders(x - y, y, z);
}

/// What action `a` gains for column `b` over the first passes.
pub open spec fn gains_over_time<T: Scalar>(
    tree: &FlatTree,
    lens: &Lens,
    omega: Option<Seq<T>>,
    vs: Seq<Seq<T>>,
    nh: int,
    i: int,
    a: int,
    b: int,
) -> spec_fn(int) -> T {
    |k: int| gain(tree, lens, omega, vs[k], nh, i, a, b)
}

/// What was played with column `b` over the first passes.
pub open spec fn plays_over_time<T: Scalar>(
    strategies: Seq<Seq<T>>,
    w: int,
    local: int,
    n: int,
    a: int,
    b: int,
) -> spec_fn(int) -> T {
    |k: int| block(strategies[k], w, local, n)[at(w, a, b)]
}

/// Without discounts, where numbers are exact and the floor is not reached, the regrets
/// after any number of passes are those before them plus all gains, and the cumulative
/// strategy is that before them plus all that was played.
pub proof fn law_undiscounted_learning_adds_up<T: Scalar>(
    tree: &FlatTree,
    lens: &Lens,
    omega: Option<Seq<T>>,
    vs: Seq<Seq<T>>,
    nh: int,
    p: &DcfrParams<T>,
    strategies: Seq<Seq<T>>,
    local: int,
    g: int,
    i: int,
    regrets: Seq<Seq<T>>,
    cums: Seq<Seq<T>>,
    a: int,
    b: int,
    n: nat,
)
    requires
        is_exact::<T>(),
        p.alpha() == T::s_one(),
        p.beta() == T::s_one(),
        p.gamma() == T::s_one(),
        0 <= a < tree.arity(i),
        0 <= b < lens.width,
        forall|k: int|
            0 <= k < n ==> learned_at(
                tree,
                lens,
                omega,
                #[trigger] vs[k],
                nh,
                p,
                strategies[k],
                local,
                g,
                i,
                regrets[k],
                cums[k],
                regrets[k + 1],
                cums[k + 1],
            ) && block(regrets[k + 1], lens.width as int, g, tree.arity(i))[at(
                lens.width as int,
                a,
                b,
            )] != s_regret_floor::<T>(),
    ensures
        ({
            let (w, na) = (lens.width as int, tree.arity(i));
            let e = at(w, a, b);
            &&& block(regrets[n as int], w, g, na)[e] == block(regrets[0], w, g, na)[e] + sum_upto(
                gains_over_time(tree, lens, omega, vs, nh, i, a, b),
                n,
            )
            &&& block(cums[n as int], w, g, na)[e] == block(cums[0], w, g, na)[e] + sum_upto(
                plays_over_time(strategies, w, local, na, a, b),
                n,
            )
        }),
    decreases n,
{
    let (w, na) = (lens.width as int, tree.arity(i));
    let e = at(w, a, b);
    let (r, c) = (block(regrets[0], w, g, na)[e], block(cums[0], w, g, na)[e]);
    if n == 0 {
        lemma_units(r);
        lemma_units(c);
    } else {
        let m = (n - 1) as nat;
        let k: int = n - 1;
        law_undiscounted_learning_adds_up(
            tree,
            lens,
            omega,
            vs,
            nh,
            p,
            strategies,
            local,
            g,
            i,
            regrets,
            cums,
            a,
            b,
            m,
        );
        let v = vs[k];
        law_learning_keeps_and_adds(
            tree,
            lens,
            omega,
            v,
            nh,
            p,
            strategies[k],
            local,
            g,
            i,
            regrets[k],
            cums[k],
            regrets[k + 1],
            cums[k + 1],
            a,
            b,
        );
        let f = gains_over_time(tree, lens, omega, vs, nh, i, a, b);
        let s = plays_over_time(strategies, w, local, na, a, b);
        lemma_units(block(regrets[k], w, g, na)[e]);
        lemma_units(block(cums[k], w, g, na)[e]);
        lemma_orders(r, sum_upto(f, m), f(k));
        lemma_orders(c, sum_upto(s, m), s(k));
    }
}

} // verus!
