//! What strategies, reach and values have to do with each other.
use vstd::prelude::*;

use crate::bank::{mass, share};
use crate::exact::{
    is_exact, lemma_orders, lemma_spread, lemma_spread_difference, lemma_sum_add, lemma_sum_one,
    lemma_sum_times, lemma_undo, lemma_units, Exact,
};
use crate::exploit_laws::quotients_return;
use crate::layout::{at, cell};
use crate::response_laws::{
    has_quotients, is_ordered, is_rational, lemma_chain, lemma_count, lemma_quotient_of_sum,
    lemma_self,
};
use crate::scalar::{sum_upto, Scalar};
use crate::sweep::{acted_row, kid_values, played_values, value_of, Lens};
use crate::tree::FlatTree;
use crate::zones::ZoneBook;

verus! {

/// The entries of column `h` that are over `threshold`, nothing for the others.
pub open spec fn parts_over<T: Scalar>(values: Seq<T>, w: int, h: int, threshold: T) -> spec_fn(
    int,
) -> T {
    |a: int|
        if threshold.s_below(values[at(w, a, h)]) {
            values[at(w, a, h)]
        } else {
            T::s_zero()
        }
}

/// The shares of column `h`, by action.
pub open spec fn shares_in<T: Scalar>(values: Seq<T>, w: int, na: int, threshold: T, h: int) -> spec_fn(
    int,
) -> T {
    |a: int| share(values, w, na, threshold, a, h)
}

proof fn lemma_mass<T: Scalar>(values: Seq<T>, w: int, h: int, threshold: T, n: nat)
    requires
        is_exact::<T>(),
    ensures
        mass(values, w, h, threshold, n) == sum_upto(parts_over(values, w, h, threshold), n),
    decreases n,
{
    if n > 0 {
        lemma_mass(values, w, h, threshold, (n - 1) as nat);
        lemma_units(mass(values, w, h, threshold, (n - 1) as nat));
    }
}

/// Matched strategies are in proportion to what is over the threshold: each share, times all
/// that is over it, is the action's own part.
pub proof fn law_shares_follow_the_parts<T: Scalar>(
    values: Seq<T>,
    w: int,
    na: int,
    threshold: T,
    a: int,
    h: int,
)
    requires
        is_rational::<T>(),
        quotients_return::<T>(),
        0 <= a < na,
        T::s_zero().s_below(sum_upto(parts_over(values, w, h, threshold), na as nat)),
    ensures
        share(values, w, na, threshold, a, h) * sum_upto(
            parts_over(values, w, h, threshold),
            na as nat,
        ) == parts_over(values, w, h, threshold)(a),
{
    let total = sum_upto(parts_over(values, w, h, threshold), na as nat);
    let v = values[at(w, a, h)];
    lemma_mass(values, w, h, threshold, na as nat);
    assert(v.s_over(total).s_times(total) == v) by {
        reveal(quotients_return);
    }
    lemma_units(total);
}

/// Matched strategies add up to one, for every column.
pub proof fn law_matched_shares_add_up<T: Scalar>(
    values: Seq<T>,
    w: int,
    na: int,
    threshold: T,
    h: int,
)
    requires
        is_rational::<T>(),
        0 < na,
    ensures
        sum_upto(shares_in(values, w, na, threshold, h), na as nat) == T::s_one(),
{
    let n = na as nat;
    let f = shares_in(values, w, na, threshold, h);
    let parts = parts_over(values, w, h, threshold);
    let total = sum_upto(parts, n);
    lemma_mass(values, w, h, threshold, n);
    if T::s_zero().s_below(total) {
        assert(T::s_zero().s_over(total) == T::s_zero() && total.s_over(total) == T::s_one()) by {
            reveal(has_quotients);
        }
        lemma_quotient_of_sum(parts, f, total, n);
    } else {
        let t = T::s_of(na);
        let ones = |k: int| T::s_one();
        lemma_count(ones, n);
        assert(T::s_zero().s_below(t) && t.s_over(t) == T::s_one()) by {
            reveal(has_quotients);
        }
        lemma_quotient_of_sum(ones, f, t, n);
    }
}

/// No matched share is negative, if the threshold is not.
pub proof fn law_matched_shares_are_not_negative<T: Scalar>(
    values: Seq<T>,
    w: int,
    na: int,
    threshold: T,
    a: int,
    h: int,
)
    requires
        is_rational::<T>(),
        T::s_zero().s_at_most(threshold),
        0 < na,
    ensures
        T::s_zero().s_at_most(share(values, w, na, threshold, a, h)),
{
    let total = mass(values, w, h, threshold, na as nat);
    let v = values[at(w, a, h)];
    lemma_self(T::s_zero());
    if T::s_zero().s_below(total) {
        if threshold.s_below(v) {
            assert(threshold.s_at_most(v)) by {
                reveal(is_ordered);
            }
            lemma_chain(T::s_zero(), threshold, v);
            assert(T::s_zero().s_at_most(v.s_over(total))) by {
                reveal(has_quotients);
            }
        }
    } else {
        let t = T::s_of(na);
        assert(T::s_zero().s_at_most(T::s_one())) by {
            reveal(is_ordered);
        }
        assert(T::s_zero().s_below(t)) by {
            reveal(has_quotients);
        }
        assert(T::s_zero().s_at_most(T::s_one().s_over(t))) by {
            reveal(has_quotients);
        }
    }
}

/// What hand `h` reaches with, after each action.
pub open spec fn reach_by_action<T: Scalar>(
    lens: &Lens,
    strategy: Seq<T>,
    local: int,
    before: Seq<T>,
    h: int,
) -> spec_fn(int) -> T {
    |a: int| acted_row(lens, strategy, local, a, before)[h]
}

/// The probabilities of column `b` at infoset `local`, by action.
pub open spec fn odds_of<T: Scalar>(strategy: Seq<T>, w: int, local: int, b: int) -> spec_fn(
    int,
) -> T {
    |a: int| strategy[cell(w, local, a, b)]
}

/// Where numbers are exact and the probabilities of a column add up to one, a hand's reach
/// splits over the actions without loss.
pub proof fn law_reach_splits_over_actions<T: Scalar>(
    lens: &Lens,
    strategy: Seq<T>,
    local: int,
    before: Seq<T>,
    h: int,
    b: int,
    na: nat,
)
    requires
        is_exact::<T>(),
        0 <= h < before.len(),
        lens.column(h) == Some(b),
        sum_upto(odds_of(strategy, lens.width as int, local, b), na) == T::s_one(),
    ensures
        sum_upto(reach_by_action(lens, strategy, local, before, h), na) == before[h],
{
    lemma_sum_times(
        before[h],
        odds_of(strategy, lens.width as int, local, b),
        reach_by_action(lens, strategy, local, before, h),
        na,
    );
    lemma_units(before[h]);
}

/// What the actions of the traverser's node `i` gain over it with hand `h`, each times its
/// probability.
pub open spec fn sweep_gains<T: Scalar>(
    tree: &FlatTree,
    strategy: Seq<T>,
    w: int,
    local: int,
    v: Seq<T>,
    nh: int,
    i: int,
    h: int,
    b: int,
    value: T,
) -> spec_fn(int) -> T {
    |a: int| strategy[cell(w, local, a, b)] * (v[at(nh, tree.child(i, a), h)] - value)
}

/// Where numbers are exact and the probabilities of a hand's column add up to one, what the
/// traverser's actions gain over the node, each times its probability, adds up to nothing.
pub proof fn law_sweep_gains_cancel_out<T: Scalar>(
    tree: &FlatTree,
    book: &ZoneBook,
    lens: &Lens,
    strategy: Seq<T>,
    nh: int,
    traverser: u8,
    terminal: Seq<T>,
    v: Seq<T>,
    i: int,
    h: int,
    b: int,
)
    requires
        is_exact::<T>(),
        0 <= tree.arity(i),
        tree.nodes@[i].is_player(),
        !tree.nodes@[i].is_terminal(),
        tree.nodes@[i].player_id == traverser,
        lens.column(h) == Some(b),
        sum_upto(
            odds_of(strategy, lens.width as int, book.local(i), b),
            tree.arity(i) as nat,
        ) == T::s_one(),
    ensures
        sum_upto(
            sweep_gains(
                tree,
                strategy,
                lens.width as int,
                book.local(i),
                v,
                nh,
                i,
                h,
                b,
                value_of(tree, book, lens, strategy, nh, traverser, terminal, v, i, h),
            ),
            tree.arity(i) as nat,
        ) == T::s_zero(),
{
    let (w, local, n) = (lens.width as int, book.local(i), tree.arity(i) as nat);
    let x = value_of(tree, book, lens, strategy, nh, traverser, terminal, v, i, h);
    let p = odds_of(strategy, w, local, b);
    let f = played_values(tree, local, w, strategy, v, nh, i, h, b);
    let g = sweep_gains(tree, strategy, w, local, v, nh, i, h, b, x);
    let k = |a: int| x * p(a);
    assert forall|a: int| 0 <= a < n implies #[trigger] f(a) == g(a) + k(a) by {
        let y = v[at(nh, tree.child(i, a), h)];
        lemma_spread_difference(p(a), y, x);
        lemma_undo(p(a) * y, p(a) * x);
        lemma_orders(p(a), x, x);
    }
    lemma_sum_add(g, k, f, n);
    lemma_sum_times(x, p, k, n);
    lemma_units(x);
    lemma_undo(sum_upto(g, n), x);
    lemma_undo(T::s_zero(), x);
    lemma_units(x);
}

/// Where numbers are exact and only one child of a node has a value, the node is worth that
/// value, times its probability at a decision of the traverser.
pub proof fn law_a_lone_branch_gives_its_value<T: Scalar>(
    tree: &FlatTree,
    book: &ZoneBook,
    lens: &Lens,
    strategy: Seq<T>,
    nh: int,
    traverser: u8,
    terminal: Seq<T>,
    v: Seq<T>,
    i: int,
    h: int,
    a: int,
)
    requires
        is_exact::<T>(),
        0 <= a < tree.arity(i),
        !tree.nodes@[i].is_terminal(),
        forall|e: int|
            0 <= e < tree.arity(i) && e != a ==> v[at(nh, #[trigger] tree.child(i, e), h)]
                == T::s_zero(),
    ensures
        ({
            let x = value_of(tree, book, lens, strategy, nh, traverser, terminal, v, i, h);
            let y = v[at(nh, tree.child(i, a), h)];
            if tree.nodes@[i].is_player() && tree.nodes@[i].player_id == traverser {
                &&& lens.column(h) is None ==> x == T::s_zero()
                &&& lens.column(h) matches Some(b) ==> x == strategy[cell(
                    lens.width as int,
                    book.local(i),
                    a,
                    b,
                )] * y
            } else {
                x == y
            }
        }),
{
    let n = tree.arity(i) as nat;
    let f = kid_values(tree, v, nh, i, h);
    assert forall|e: int| 0 <= e < n && e != a implies #[trigger] f(e) == T::s_zero() by {
        assert(v[at(nh, tree.child(i, e), h)] == T::s_zero());
    }
    lemma_sum_one(f, a, n);
    if let Some(b) = lens.column(h) {
        let g = played_values(tree, book.local(i), lens.width as int, strategy, v, nh, i, h, b);
        assert forall|e: int| 0 <= e < n && e != a implies #[trigger] g(e) == T::s_zero() by {
            assert(v[at(nh, tree.child(i, e), h)] == T::s_zero());
            lemma_units(strategy[cell(lens.width as int, book.local(i), e, b)]);
        }
        lemma_sum_one(g, a, n);
    }
}

/// Where numbers are exact, the values of a node that is no terminal are the sum of what two
/// parts of its children's values give rise to.
pub proof fn law_values_add_up<T: Scalar>(
    tree: &FlatTree,
    book: &ZoneBook,
    lens: &Lens,
    strategy: Seq<T>,
    nh: int,
    traverser: u8,
    terminal: Seq<T>,
    u: Seq<T>,
    v: Seq<T>,
    both: Seq<T>,
    i: int,
    h: int,
)
    requires
        is_exact::<T>(),
        0 <= tree.arity(i),
        !tree.nodes@[i].is_terminal(),
        forall|a: int|
            0 <= a < tree.arity(i) ==> both[at(nh, #[trigger] tree.child(i, a), h)] == u[at(
                nh,
                tree.child(i, a),
                h,
            )] + v[at(nh, tree.child(i, a), h)],
    ensures
        value_of(tree, book, lens, strategy, nh, traverser, terminal, both, i, h) == value_of(
            tree,
            book,
            lens,
            strategy,
            nh,
            traverser,
            terminal,
            u,
            i,
            h,
        ) + value_of(tree, book, lens, strategy, nh, traverser, terminal, v, i, h),
{
    let n = tree.arity(i) as nat;
    let (f, g) = (kid_values(tree, u, nh, i, h), kid_values(tree, v, nh, i, h));
    let k = kid_values(tree, both, nh, i, h);
    assert forall|a: int| 0 <= a < n implies #[trigger] k(a) == f(a) + g(a) by {
        assert(both[at(nh, tree.child(i, a), h)] == u[at(nh, tree.child(i, a), h)] + v[at(
            nh,
            tree.child(i, a),
            h,
        )]);
    }
    lemma_sum_add(f, g, k, n);
    lemma_units(T::s_zero());
    if let Some(b) = lens.column(h) {
        let (local, w) = (book.local(i), lens.width as int);
        let p = played_values(tree, local, w, strategy, u, nh, i, h, b);
        let q = played_values(tree, local, w, strategy, v, nh, i, h, b);
        let r = played_values(tree, local, w, strategy, both, nh, i, h, b);
        assert forall|a: int| 0 <= a < n implies #[trigger] r(a) == p(a) + q(a) by {
            let c = tree.child(i, a);
            assert(both[at(nh, c, h)] == u[at(nh, c, h)] + v[at(nh, c, h)]);
            lemma_spread(strategy[cell(w, local, a, b)], u[at(nh, c, h)], v[at(nh, c, h)]);
        }
        lemma_sum_add(p, q, r, n);
    }
}

} // verus!
