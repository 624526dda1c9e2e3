//! The weights of nodes that stand for a node add up to one.
use vstd::prelude::*;

use crate::exact::{is_exact, lemma_orders, lemma_spread, lemma_undo, lemma_units, Exact};
use crate::pseudo_harmonic::{
    all_targets, lemma_parent_edge, parent_edge, stand_ins, targets, unit_clamp,
};
use crate::scalar::{sum_upto, Scalar, Widen};
use crate::tree::FlatTree;

verus! {

/// The numbers that `unit` tells are weights: one is, products and complements of weights
/// are, what a share is held to is, and the only one that is not above zero is zero.
pub open spec fn are_weights<T: Widen>(unit: spec_fn(T) -> bool) -> bool {
    &&& unit(T::s_one())
    &&& forall|x: T, y: T| unit(x) && unit(y) ==> unit(#[trigger] x.s_times(y))
    &&& forall|x: T| unit(x) ==> unit(#[trigger] T::s_one().s_minus(x))
    &&& forall|y: T::Wide| unit(T::s_narrow(#[trigger] unit_clamp(y)))
    &&& forall|x: T| unit(x) && !#[trigger] T::s_zero().s_below(x) ==> x == T::s_zero()
    &&& !T::s_zero().s_below(T::s_zero())
    &&& T::s_zero().s_below(T::s_one())
}

/// Weight `x` counts: it is above zero.
pub open spec fn counts<T: Widen>(unit: spec_fn(T) -> bool, x: T) -> bool {
    unit(x) && T::s_zero().s_below(x)
}

/// The weights of a list.
pub open spec fn weights<T>(entries: Seq<(int, T)>) -> spec_fn(int) -> T {
    |k: int| entries[k].1
}

/// The weights of a list, added up.
pub open spec fn weight<T: Widen>(entries: Seq<(int, T)>) -> T {
    sum_upto(weights(entries), entries.len())
}

/// The weights of one list after the other.
proof fn lemma_weight_add<T: Widen>(a: Seq<(int, T)>, b: Seq<(int, T)>, n: nat)
    requires
        is_exact::<T>(),
        n <= b.len(),
    ensures
        sum_upto(weights(a + b), a.len() + n) == weight(a) + sum_upto(weights(b), n),
    decreases n,
{
    if n == 0 {
        lemma_same_weights(a, a + b, a.len());
        lemma_units(weight(a));
    } else {
        let m = (n - 1) as nat;
        lemma_weight_add(a, b, m);
        assert((a.len() + n - 1) as nat == a.len() + m);
        assert(weights(a + b)(a.len() + n - 1) == weights(b)(n - 1));
        lemma_orders(weight(a), sum_upto(weights(b), m), weights(b)(n - 1));
    }
}

proof fn lemma_same_weights<T: Widen>(a: Seq<(int, T)>, b: Seq<(int, T)>, n: nat)
    requires
        n <= a.len() <= b.len(),
        forall|k: int| 0 <= k < n ==> #[trigger] a[k] == b[k],
    ensures
        sum_upto(weights(a), n) == sum_upto(weights(b), n),
    decreases n,
{
    if n > 0 {
        lemma_same_weights(a, b, (n - 1) as nat);
        assert(a[n - 1] == b[n - 1]);
    }
}

/// A node's weight goes to those that stand for its child: where there are any, their
/// weights count and add up to it.
pub proof fn law_move_keeps_the_weight<T: Widen>(
    unit: spec_fn(T) -> bool,
    rich: &FlatTree,
    lean: &FlatTree,
    tol: T::Wide,
    r: int,
    l: int,
    w: T,
    a: int,
)
    requires
        is_exact::<T>(),
        are_weights(unit),
        counts(unit, w),
    ensures
        ({
            let t = targets(rich, lean, tol, r, l, w, a);
            &&& forall|k: int| 0 <= k < t.len() ==> counts(unit, (#[trigger] t[k]).1)
            &&& t.len() > 0 ==> weight(t) == w
        }),
{
    let t = targets(rich, lean, tol, r, l, w, a);
    lemma_units(w);
    reveal_with_fuel(sum_upto, 3);
    if t.len() == 2 {
        let (x, y) = (t[0].1, t[1].1);
        lemma_units(x);
        assert(weight(t) == x + y);
        let p = choose|p: T| unit(p) && x == w.s_times(p) && y == w.s_times(T::s_one().s_minus(p));
        lemma_shares(w, p);
    } else if t.len() == 1 {
        assert(weight(t) == T::s_zero() + t[0].1);
        lemma_units(t[0].1);
        if t[0].1 != w {
            lemma_one_share(unit, rich, lean, tol, r, l, w, a);
        }
    }
}

/// A weight and its complement.
proof fn lemma_shares<T: Widen>(w: T, p: T)
    requires
        is_exact::<T>(),
    ensures
        w * p + w * (T::s_one() - p) == w,
{
    let one = T::s_one();
    lemma_spread(w, p, one - p);
    lemma_undo(one, p);
    lemma_orders(p, one - p, p);
    lemma_units(w);
}

/// A bet that is split, but whose other share is nothing.
proof fn lemma_one_share<T: Widen>(
    unit: spec_fn(T) -> bool,
    rich: &FlatTree,
    lean: &FlatTree,
    tol: T::Wide,
    r: int,
    l: int,
    w: T,
    a: int,
)
    requires
        is_exact::<T>(),
        are_weights(unit),
        counts(unit, w),
        targets(rich, lean, tol, r, l, w, a).len() == 1,
    ensures
        targets(rich, lean, tol, r, l, w, a)[0].1 == w,
{
    let t = targets(rich, lean, tol, r, l, w, a);
    if t[0].1 != w {
        let p = choose|p: T|
            #![trigger w.s_times(p)]
            {
                &&& unit(p)
                &&& t[0].1 == w.s_times(p) && !T::s_zero().s_below(
                    w.s_times(T::s_one().s_minus(p)),
                ) || t[0].1 == w.s_times(T::s_one().s_minus(p)) && !T::s_zero().s_below(
                    w.s_times(p),
                )
            };
        let (x, y) = (w * p, w * (T::s_one() - p));
        assert(unit(T::s_one().s_minus(p)));
        assert(unit(w.s_times(T::s_one().s_minus(p))));
        lemma_shares(w, p);
        lemma_units(x);
        lemma_units(y);
    }
}

/// Nodes with counting weights hand all of them on, if each has a node that stands for its
/// child.
pub proof fn law_moves_keep_the_weights<T: Widen>(
    unit: spec_fn(T) -> bool,
    rich: &FlatTree,
    lean: &FlatTree,
    tol: T::Wide,
    r: int,
    entries: Seq<(int, T)>,
    a: int,
    n: nat,
)
    requires
        is_exact::<T>(),
        are_weights(unit),
        n <= entries.len(),
        forall|k: int| 0 <= k < n ==> counts(unit, (#[trigger] entries[k]).1),
        forall|k: int|
            0 <= k < n ==> targets(
                rich,
                lean,
                tol,
                r,
                (#[trigger] entries[k]).0,
                entries[k].1,
                a,
            ).len() > 0,
    ensures
        ({
            let t = all_targets(rich, lean, tol, r, entries, a, n);
            &&& forall|k: int| 0 <= k < t.len() ==> counts(unit, (#[trigger] t[k]).1)
            &&& weight(t) == sum_upto(weights(entries), n)
        }),
    decreases n,
{
    if n > 0 {
        let m = (n - 1) as nat;
        let e = entries[n - 1];
        law_moves_keep_the_weights(unit, rich, lean, tol, r, entries, a, m);
        law_move_keeps_the_weight(unit, rich, lean, tol, r, e.0, e.1, a);
        let before = all_targets(rich, lean, tol, r, entries, a, m);
        let now = targets(rich, lean, tol, r, e.0, e.1, a);
        lemma_weight_add(before, now, now.len());
    }
}

/// On the way to rich node `x`, every node that stands for a node has one that stands for
/// its child.
pub open spec fn is_followed<T: Widen>(rich: &FlatTree, lean: &FlatTree, tol: T::Wide, x: int) -> bool
    decreases rich.level(x),
    when rich.wf() && rich.is_node(x)
{
    x == 0 || {
        let (r, a) = parent_edge(rich, x);
        let up = stand_ins::<T>(rich, lean, tol, r);
        &&& rich.is_node(r) && rich.level(r) < rich.level(x) && is_followed::<T>(rich, lean, tol, r)
        &&& forall|k: int|
            0 <= k < up.len() ==> targets(
                rich,
                lean,
                tol,
                r,
                (#[trigger] up[k]).0,
                up[k].1,
                a,
            ).len() > 0
    }
}

/// The weights of the lean nodes that stand for a rich node count, and add up to one.
pub proof fn law_stand_ins_weigh_one<T: Widen>(
    unit: spec_fn(T) -> bool,
    rich: &FlatTree,
    lean: &FlatTree,
    tol: T::Wide,
    x: int,
)
    requires
        is_exact::<T>(),
        are_weights(unit),
        rich.wf(),
        rich.is_node(x),
        is_followed::<T>(rich, lean, tol, x),
    ensures
        ({
            let s = stand_ins::<T>(rich, lean, tol, x);
            &&& forall|k: int| 0 <= k < s.len() ==> counts(unit, (#[trigger] s[k]).1)
            &&& weight(s) == T::s_one()
        }),
    decreases rich.level(x),
{
    if x == 0 {
        reveal_with_fuel(sum_upto, 2);
        lemma_units(T::s_one());
    } else {
        let (r, a) = parent_edge(rich, x);
        lemma_parent_edge(rich, x);
        law_stand_ins_weigh_one(unit, rich, lean, tol, r);
        let up = stand_ins::<T>(rich, lean, tol, r);
        law_moves_keep_the_weights(unit, rich, lean, tol, r, up, a, up.len());
    }
}

} // verus!
