//! What players gain by choosing among variants, and what a variant plays.
use vstd::prelude::*;

use crate::best_response::entries_of;
use crate::exact::{
    is_exact, lemma_orders, lemma_spread_difference, lemma_sum_add, lemma_sum_one, lemma_sum_times,
    lemma_sum_zero, lemma_undo, lemma_units, Exact,
};
use crate::flop_search::{
    choice_share, choices_learned, chosen_values, mixed_value, positive_parts, spot_of, worst_for,
    ChoiceDims,
};
use crate::gain_laws::faded;
use crate::layout::row;
use crate::learn::DcfrParams;
use crate::response_laws::{
    has_quotients, is_ordered, is_rational, lemma_chain, lemma_count, lemma_quotient_of_sum,
    lemma_self,
};
use crate::scalar::{lemma_sum_ext, sum_upto, Scalar};
use crate::variants::{aim, leaned, moved, variant_weight, Lean};

verus! {

/// What row `c` of a variant's worths adds up to.
pub open spec fn worth_of<T: Scalar>(worths: Seq<Seq<T>>, w: int, c: int, k: int) -> T {
    sum_upto(entries_of(row(worths[k], w, c)), w as nat)
}

/// The row that is picked is that of one of the variants, and adds up to no more than that
/// of any other, where some variant is worth less than the highest number.
pub proof fn law_the_worst_variant_is_picked<T: Scalar>(
    worths: Seq<Seq<T>>,
    w: int,
    c: int,
    n: nat,
) -> (best: int)
    requires
        is_rational::<T>(),
        exists|k: int| 0 <= k < n && (#[trigger] worth_of(worths, w, c, k)).s_below(T::s_highest()),
        forall|x: T| #[trigger] x.s_at_most(T::s_highest()),
    ensures
        0 <= best < n,
        worst_for(worths, w, c, n).1 == row(worths[best], w, c),
        worst_for(worths, w, c, n).0 == worth_of(worths, w, c, best),
        forall|k: int|
            0 <= k < n ==> worth_of(worths, w, c, best).s_at_most(
                #[trigger] worth_of(worths, w, c, k),
            ),
    decreases n,
{
    let m = (n - 1) as nat;
    let last: int = n - 1;
    let prev = worst_for(worths, w, c, m);
    let here = worth_of(worths, w, c, last);
    if exists|k: int| 0 <= k < m && (#[trigger] worth_of(worths, w, c, k)).s_below(T::s_highest()) {
        let b = law_the_worst_variant_is_picked(worths, w, c, m);
        if here.s_below(prev.0) {
            assert(here.s_at_most(prev.0)) by {
                reveal(is_ordered);
            }
            assert forall|k: int| 0 <= k < n implies here.s_at_most(
                #[trigger] worth_of(worths, w, c, k),
            ) by {
                if k < last {
                    lemma_chain(here, prev.0, worth_of(worths, w, c, k));
                } else {
                    lemma_self(here);
                }
            }
            last
        } else {
            assert(prev.0.s_at_most(here)) by {
                reveal(is_ordered);
            }
            b
        }
    } else {
        lemma_all_high(worths, w, c, m);
        let k = choose|k: int|
            0 <= k < n && (#[trigger] worth_of(worths, w, c, k)).s_below(T::s_highest());
        assert(k == last);
        assert forall|e: int| 0 <= e < n implies here.s_at_most(
            #[trigger] worth_of(worths, w, c, e),
        ) by {
            if e < last {
                let x = worth_of(worths, w, c, e);
                assert(!x.s_below(T::s_highest()));
                assert(here.s_at_most(T::s_highest()) && T::s_highest().s_at_most(x)) by {
                    reveal(is_ordered);
                }
                lemma_chain(here, T::s_highest(), x);
            } else {
                lemma_self(here);
            }
        }
        last
    }
}

/// Without a variant under the highest number nothing is picked.
proof fn lemma_all_high<T: Scalar>(worths: Seq<Seq<T>>, w: int, c: int, n: nat)
    requires
        forall|k: int|
            0 <= k < n ==> !(#[trigger] worth_of(worths, w, c, k)).s_below(T::s_highest()),
    ensures
        worst_for(worths, w, c, n).0 == T::s_highest(),
    decreases n,
{
    if n > 0 {
        lemma_all_high(worths, w, c, (n - 1) as nat);
        assert(!worth_of(worths, w, c, n - 1).s_below(T::s_highest()));
    }
}

/// The shares of a player's choice, by variant.
pub open spec fn choice_shares<T: Scalar>(
    regret: Seq<T>,
    b: int,
    np: int,
    p: int,
    kk: int,
    nh: int,
    h: int,
) -> spec_fn(int) -> T {
    |k: int| choice_share(regret, b, np, p, kk, k, nh, h)
}

/// A player's choice among the variants adds up to one, for every hand and boundary.
pub proof fn law_choices_add_up<T: Scalar>(
    regret: Seq<T>,
    b: int,
    np: int,
    p: int,
    kk: int,
    nh: int,
    h: int,
)
    requires
        is_rational::<T>(),
        0 < kk,
    ensures
        sum_upto(choice_shares(regret, b, np, p, kk, nh, h), kk as nat) == T::s_one(),
{
    let n = kk as nat;
    let f = choice_shares(regret, b, np, p, kk, nh, h);
    let parts = positive_parts(regret, b, np, p, kk, nh, h);
    let all = sum_upto(parts, n);
    if T::s_zero().s_below(all) {
        lemma_quotient_of_sum(parts, f, all, n);
        assert(all.s_over(all) == T::s_one()) by {
            reveal(has_quotients);
        }
    } else {
        let t = T::s_of(kk);
        let ones = |k: int| T::s_one();
        lemma_count(ones, n);
        assert(T::s_zero().s_below(t) && t.s_over(t) == T::s_one()) by {
            reveal(has_quotients);
        }
        lemma_quotient_of_sum(ones, f, t, n);
    }
}

/// What variant `k` is worth more than the choice, times its weight.
pub open spec fn chosen_gains<T: Scalar>(
    d: &ChoiceDims,
    strat: Seq<T>,
    worths: Seq<Seq<T>>,
    roots: Seq<u32>,
    t: int,
    b: int,
    h: int,
) -> spec_fn(int) -> T {
    |k: int|
        strat[spot_of(d, b, t, k, h)] * (row(worths[k], d.nh as int, roots[b] as int)[h]
            - mixed_value(d, strat, worths, roots, t, b, h))
}

/// The weights of a choice, by variant.
pub open spec fn choice_weights<T: Scalar>(
    d: &ChoiceDims,
    strat: Seq<T>,
    t: int,
    b: int,
    h: int,
) -> spec_fn(int) -> T {
    |k: int| strat[spot_of(d, b, t, k, h)]
}

/// Where numbers are exact and the weights of a choice add up to one, what the variants are
/// worth more than the choice, each times its weight, adds up to nothing.
pub proof fn law_chosen_gains_cancel_out<T: Scalar>(
    d: &ChoiceDims,
    strat: Seq<T>,
    worths: Seq<Seq<T>>,
    roots: Seq<u32>,
    t: int,
    b: int,
    h: int,
)
    requires
        is_exact::<T>(),
        sum_upto(choice_weights(d, strat, t, b, h), d.kk as nat) == T::s_one(),
    ensures
        sum_upto(chosen_gains(d, strat, worths, roots, t, b, h), d.kk as nat) == T::s_zero(),
{
    let n = d.kk as nat;
    let x = mixed_value(d, strat, worths, roots, t, b, h);
    let p = choice_weights(d, strat, t, b, h);
    let f = chosen_values(d, strat, worths, t, b, roots[b] as int, h);
    let g = chosen_gains(d, strat, worths, roots, t, b, h);
    let q = |k: int| x * p(k);
    assert forall|k: int| 0 <= k < n implies #[trigger] f(k) == g(k) + q(k) by {
        let y = row(worths[k], d.nh as int, roots[b] as int)[h];
        lemma_spread_difference(p(k), y, x);
        lemma_undo(p(k) * y, p(k) * x);
        lemma_orders(p(k), x, x);
    }
    lemma_sum_add(g, q, f, n);
    lemma_sum_times(x, p, q, n);
    lemma_units(x);
    lemma_undo(sum_upto(g, n), x);
    lemma_undo(T::s_zero(), x);
}

/// A player whose choice learned keeps the old regret of each variant, faded, and adds what
/// the variant is worth more than the choice; nobody else's regrets change.
pub proof fn law_choices_accumulate<T: Scalar>(
    d: &ChoiceDims,
    strat: Seq<T>,
    worths: Seq<Seq<T>>,
    roots: Seq<u32>,
    t: int,
    p: &DcfrParams<T>,
    was: Seq<T>,
    regret: Seq<T>,
    b: int,
    q: int,
    k: int,
    h: int,
)
    requires
        choices_learned(d, strat, worths, roots, t, p, was, regret),
        0 <= b < d.n_b,
        0 <= q < d.np,
        0 <= k < d.kk,
        0 <= h < d.nh,
    ensures
        ({
            let x = spot_of(d, b, q, k, h);
            &&& q == t ==> regret[x] == faded(p, was[x]) + (row(
                worths[k],
                d.nh as int,
                roots[b] as int,
            )[h] - mixed_value(d, strat, worths, roots, t, b, h))
            &&& q != t ==> regret[x] == was[x]
        }),
{
    let x = spot_of(d, b, q, k, h);
    assert(regret[spot_of(d, b, q, k, h)] == regret[x]);
}

/// What a leaned strategy plays with hand `h`, by action.
pub open spec fn leaned_shares<T: Scalar>(
    lean: &Lean<T>,
    np: int,
    nh: int,
    owner: int,
    i: int,
    na: int,
    h: int,
    bp: spec_fn(int) -> T,
) -> spec_fn(int) -> T {
    |a: int| leaned(lean, np, nh, owner, i, na, a, h, bp(a))
}

/// What moves toward each action.
spec fn moved_by_action<T: Scalar>(
    traverser: int,
    own: int,
    variants: Seq<(usize, T)>,
    mix: Seq<T>,
    b: int,
    np: int,
    nh: int,
    owner: int,
    h: int,
    na: int,
    n: nat,
) -> spec_fn(int) -> T {
    |a: int| moved(traverser, own, variants, mix, b, np, nh, owner, h, na, Some(a), n)
}

/// All that moves moves toward some action.
proof fn lemma_all_moves<T: Scalar>(
    traverser: int,
    own: int,
    variants: Seq<(usize, T)>,
    mix: Seq<T>,
    b: int,
    np: int,
    nh: int,
    owner: int,
    h: int,
    na: int,
    n: nat,
)
    requires
        is_exact::<T>(),
        0 < na,
        n <= variants.len(),
    ensures
        sum_upto(
            moved_by_action(traverser, own, variants, mix, b, np, nh, owner, h, na, n),
            na as nat,
        ) == moved(traverser, own, variants, mix, b, np, nh, owner, h, na, None, n),
    decreases n,
{
    let f = moved_by_action(traverser, own, variants, mix, b, np, nh, owner, h, na, n);
    if n <= 1 {
        lemma_sum_zero(f, na as nat);
    } else {
        let m = (n - 1) as nat;
        lemma_all_moves(traverser, own, variants, mix, b, np, nh, owner, h, na, m);
        let g = moved_by_action(traverser, own, variants, mix, b, np, nh, owner, h, na, m);
        let (target, eps) = variants[n - 1];
        let w = variant_weight(
            traverser,
            own,
            variants.len() as int,
            mix,
            b,
            np,
            nh,
            owner,
            n - 1,
            h,
        );
        let goal = aim(target, na);
        let skip = eps.s_same(T::s_zero()) || w.s_same(T::s_zero());
        let x = if skip {
            T::s_zero()
        } else {
            w * eps
        };
        let k = |a: int|
            if a == goal {
                x
            } else {
                T::s_zero()
            };
        assert forall|a: int| 0 <= a < na implies #[trigger] f(a) == g(a) + k(a) by {
            lemma_units(g(a));
        }
        lemma_sum_add(g, k, f, na as nat);
        lemma_sum_one(k, goal, na as nat);
        lemma_units(sum_upto(g, na as nat));
    }
}

/// Where numbers are exact, leaning keeps a strategy a strategy: probabilities that add up to
/// one still do.
pub proof fn law_leaning_keeps_the_whole<T: Scalar>(
    lean: &Lean<T>,
    np: int,
    nh: int,
    owner: int,
    i: int,
    na: int,
    h: int,
    bp: spec_fn(int) -> T,
)
    requires
        is_exact::<T>(),
        0 < na,
        sum_upto(bp, na as nat) == T::s_one(),
    ensures
        sum_upto(leaned_shares(lean, np, nh, owner, i, na, h, bp), na as nat) == T::s_one(),
{
    let n = na as nat;
    let f = leaned_shares(lean, np, nh, owner, i, na, h, bp);
    let one = T::s_one();
    match lean {
        Lean::One { traverser, target, eps } => {
            if T::s_zero().s_below(*eps) && owner != *traverser {
                let goal = aim(*target, na);
                let k = |a: int|
                    if a == goal {
                        *eps
                    } else {
                        T::s_zero()
                    };
                lemma_leaned(f, bp, k, *eps, n);
                lemma_sum_one(k, goal, n);
                lemma_undo(one, *eps);
            } else {
                lemma_sum_ext(f, bp, n);
            }
        },
        Lean::Mixed { traverser, own, variants, mix, boundary } => {
            let b = boundary@[i] as int;
            let kk = variants@.len();
            let (t, o) = (*traverser as int, *own as int);
            let all = moved(t, o, variants@, mix@, b, np, nh, owner, h, na, None, kk);
            if !(owner == *traverser && *own == 0) && T::s_zero().s_below(all) {
                let k = moved_by_action(t, o, variants@, mix@, b, np, nh, owner, h, na, kk);
                lemma_all_moves(t, o, variants@, mix@, b, np, nh, owner, h, na, kk);
                lemma_leaned(f, bp, k, all, n);
                lemma_undo(one, all);
            } else {
                lemma_sum_ext(f, bp, n);
            }
        },
    }
}

/// A strategy that gives `x` away and gets `k` back.
proof fn lemma_leaned<T: Scalar>(
    f: spec_fn(int) -> T,
    bp: spec_fn(int) -> T,
    k: spec_fn(int) -> T,
    x: T,
    n: nat,
)
    requires
        is_exact::<T>(),
        sum_upto(bp, n) == T::s_one(),
        forall|a: int|
            0 <= a < n ==> #[trigger] f(a) == (T::s_one() - x) * bp(a) + k(a) || f(a) == (T::s_one()
                - x) * bp(a) + x * T::s_one() && k(a) == x || f(a) == (T::s_one() - x) * bp(a) + x
                * T::s_zero() && k(a) == T::s_zero(),
    ensures
        sum_upto(f, n) == (T::s_one() - x) + sum_upto(k, n),
{
    let rest = T::s_one() - x;
    let g = |a: int| rest * bp(a);
    lemma_units(x);
    assert forall|a: int| 0 <= a < n implies #[trigger] f(a) == g(a) + k(a) by {}
    lemma_sum_add(g, k, f, n);
    lemma_sum_times(rest, bp, g, n);
    lemma_units(rest);
}

} // verus!
