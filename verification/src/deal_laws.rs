//! The weight of what can be dealt together.
use vstd::prelude::*;

use crate::cluster_laws::{meets, one_if};
use crate::cluster_mass::Crowd;
use crate::exact::{
    is_exact, lemma_nothing, lemma_orders, lemma_spread, lemma_sum_times, lemma_sum_zero,
    lemma_units, row_of, row_sums, sum2, Exact,
};
use crate::layout::at;
use crate::many_sums::lemma_sum2_turn;
use crate::runout::{deal_mass, deal_mass_upto, is_blocked, pair_mass, taking};
use crate::scalar::{lemma_sum_ext, sum_upto, Scalar, Widen};

verus! {

/// The weight of each pair of hands that can be dealt together.
pub open spec fn pair_weights<T: Widen>(conflict: Seq<u8>, w0: Seq<T>, w1: Seq<T>, n: int) -> spec_fn(
    int,
    int,
) -> T::Wide {
    |i: int, j: int|
        one_if::<T::Wide>(conflict[at(n, i, j)] == 0) * (w0[i].s_widen() * w1[j].s_widen())
}

proof fn lemma_pair_mass<T: Widen>(
    conflict: Seq<u8>,
    w0: Seq<T>,
    w1: Seq<T>,
    n: int,
    i: nat,
    j: nat,
)
    requires
        is_exact::<T::Wide>(),
        0 <= n,
    ensures
        pair_mass(conflict, w0, w1, n, i, j) == sum2(
            pair_weights(conflict, w0, w1, n),
            i,
            n as nat,
        ) + sum_upto(row_of(pair_weights(conflict, w0, w1, n), i as int), j),
    decreases i, j,
{
    let f = pair_weights(conflict, w0, w1, n);
    let zero = T::Wide::s_zero();
    if j == 0 {
        if i == 0 {
            lemma_units(zero);
        } else {
            lemma_pair_mass(conflict, w0, w1, n, (i - 1) as nat, n as nat);
            lemma_units(sum2(f, i, n as nat));
            assert(row_sums(f, n as nat)(i - 1) == sum_upto(row_of(f, i - 1), n as nat));
        }
    } else {
        lemma_pair_mass(conflict, w0, w1, n, i, (j - 1) as nat);
        let g = row_of(f, i as int);
        let x = w0[i as int].s_widen() * w1[j - 1].s_widen();
        lemma_units(x);
        lemma_orders(sum2(f, i, n as nat), sum_upto(g, (j - 1) as nat), g(j - 1));
        lemma_units(sum2(f, i, n as nat) + sum_upto(g, (j - 1) as nat));
    }
}

/// Where numbers are exact, the weight of all deals to two players is the sum, over all
/// pairs of hands without a card in common, of the product of their weights; who comes
/// first makes no difference.
pub proof fn law_pair_mass_has_every_pair<T: Widen>(
    conflict: Seq<u8>,
    w0: Seq<T>,
    w1: Seq<T>,
    n: int,
)
    requires
        is_exact::<T::Wide>(),
        0 <= n,
        forall|i: int, j: int|
            0 <= i < n && 0 <= j < n ==> (#[trigger] conflict[at(n, i, j)] == 0 <==> conflict[at(
                n,
                j,
                i,
            )] == 0),
    ensures
        pair_mass(conflict, w0, w1, n, n as nat, 0) == sum2(
            pair_weights(conflict, w0, w1, n),
            n as nat,
            n as nat,
        ),
        pair_mass(conflict, w0, w1, n, n as nat, 0) == pair_mass(
            conflict,
            w1,
            w0,
            n,
            n as nat,
            0,
        ),
{
    let m = n as nat;
    let (f, g) = (pair_weights(conflict, w0, w1, n), pair_weights(conflict, w1, w0, n));
    lemma_pair_mass(conflict, w0, w1, n, m, 0);
    lemma_pair_mass(conflict, w1, w0, n, m, 0);
    lemma_units(sum2(f, m, m));
    lemma_units(sum2(g, m, m));
    assert forall|i: int, j: int| 0 <= i < m && 0 <= j < m implies #[trigger] f(i, j) == g(j, i) by {
        assert(conflict[at(n, i, j)] == 0 <==> conflict[at(n, j, i)] == 0);
        lemma_orders(w0[i].s_widen(), w1[j].s_widen(), T::Wide::s_zero());
    }
    lemma_sum2_turn(f, g, m, m);
}

/// What listing deals adds for each hand of player `p`: the hand's weight times the weight
/// of all deals to the players after it.
spec fn deals_with<T: Widen>(
    cards: Seq<u8>,
    weights: Seq<Vec<T>>,
    nh: int,
    np: int,
    p: int,
    taken: Seq<bool>,
) -> spec_fn(int) -> T::Wide {
    |h: int|
        one_if::<T::Wide>(!is_blocked(cards, taken, h)) * (weights[p]@[h].s_widen() * deal_mass(
            cards,
            weights,
            nh,
            np,
            p + 1,
            taking(cards, taken, h),
            T::Wide::s_one(),
        ))
}

/// A factor of all deals is a factor of their weight.
proof fn lemma_deal_factor<T: Widen>(
    cards: Seq<u8>,
    weights: Seq<Vec<T>>,
    nh: int,
    np: int,
    p: int,
    taken: Seq<bool>,
    acc: T::Wide,
)
    requires
        is_exact::<T::Wide>(),
        0 <= nh,
        p <= np,
    ensures
        deal_mass(cards, weights, nh, np, p, taken, acc) == acc * deal_mass(
            cards,
            weights,
            nh,
            np,
            p,
            taken,
            T::Wide::s_one(),
        ),
    decreases np - p, nh + 1,
{
    lemma_units(acc);
    if p < np {
        lemma_deal_factor_upto(cards, weights, nh, np, p, taken, acc, nh as nat);
        lemma_deal_factor_upto(cards, weights, nh, np, p, taken, T::Wide::s_one(), nh as nat);
        lemma_units(sum_upto(deals_with(cards, weights, nh, np, p, taken), nh as nat));
    }
}

proof fn lemma_deal_factor_upto<T: Widen>(
    cards: Seq<u8>,
    weights: Seq<Vec<T>>,
    nh: int,
    np: int,
    p: int,
    taken: Seq<bool>,
    acc: T::Wide,
    n: nat,
)
    requires
        is_exact::<T::Wide>(),
        0 <= nh,
        p < np,
        n <= nh,
    ensures
        deal_mass_upto(cards, weights, nh, np, p, taken, acc, n) == acc * sum_upto(
            deals_with(cards, weights, nh, np, p, taken),
            n,
        ),
    decreases np - p, n,
{
    let f = deals_with(cards, weights, nh, np, p, taken);
    lemma_units(acc);
    if n > 0 {
        let m = (n - 1) as nat;
        let h: int = n - 1;
        lemma_deal_factor_upto(cards, weights, nh, np, p, taken, acc, m);
        let w = weights[p]@[h].s_widen();
        let rest = deal_mass(
            cards,
            weights,
            nh,
            np,
            p + 1,
            taking(cards, taken, h),
            T::Wide::s_one(),
        );
        lemma_spread(acc, sum_upto(f, m), f(h));
        lemma_units(w * rest);
        lemma_units(rest);
        lemma_units(acc * sum_upto(f, m));
        if is_blocked(cards, taken, h) {
        } else if w.s_same(T::Wide::s_zero()) {
            lemma_nothing(w);
        } else {
            lemma_deal_factor(cards, weights, nh, np, p + 1, taking(cards, taken, h), acc * w);
            lemma_orders(acc, w, rest);
        }
    }
}

/// The weight of all deals is the sum, over all hands that the next player can be dealt, of
/// the hand's weight times the weight of all deals to the others that avoid it as well; and
/// no deal is left out, whatever the number of players.
pub proof fn law_deals_are_all_listed<T: Widen>(
    cards: Seq<u8>,
    weights: Seq<Vec<T>>,
    nh: int,
    np: int,
    p: int,
    taken: Seq<bool>,
    acc: T::Wide,
)
    requires
        is_exact::<T::Wide>(),
        0 <= nh,
        p < np,
    ensures
        deal_mass(cards, weights, nh, np, p, taken, acc) == acc * sum_upto(
            |h: int|
                one_if::<T::Wide>(!is_blocked(cards, taken, h)) * (weights[p]@[h].s_widen()
                    * deal_mass(
                    cards,
                    weights,
                    nh,
                    np,
                    p + 1,
                    taking(cards, taken, h),
                    T::Wide::s_one(),
                )),
            nh as nat,
        ),
{
    lemma_deal_factor_upto(cards, weights, nh, np, p, taken, acc, nh as nat);
    lemma_sum_ext(
        deals_with(cards, weights, nh, np, p, taken),
        |h: int|
            one_if::<T::Wide>(!is_blocked(cards, taken, h)) * (weights[p]@[h].s_widen()
                * deal_mass(
                cards,
                weights,
                nh,
                np,
                p + 1,
                taking(cards, taken, h),
                T::Wide::s_one(),
            )),
        nh as nat,
    );
}

/// The weight of two hands of two players, if neither is blocked.
pub open spec fn two_hands<T: Widen>(
    cards: Seq<u8>,
    weights: Seq<Vec<T>>,
    p: int,
    taken: Seq<bool>,
) -> spec_fn(int, int) -> T::Wide {
    |g: int, k: int|
        one_if::<T::Wide>(
            !is_blocked(cards, taken, g) && !is_blocked(cards, taken, k) && !meets(cards, g, k),
        ) * (weights[p]@[g].s_widen() * weights[p + 1]@[k].s_widen())
}

/// The weight of all deals to the last two players is the sum over all pairs of hands that
/// avoid the taken cards and each other.
pub proof fn law_two_are_dealt_apart<T: Widen>(
    cards: Seq<u8>,
    weights: Seq<Vec<T>>,
    nh: int,
    p: int,
    taken: Seq<bool>,
)
    requires
        is_exact::<T::Wide>(),
        0 <= nh,
        cards.len() == 2 * nh,
        taken.len() == 52,
        forall|i: int| 0 <= i < cards.len() ==> #[trigger] cards[i] < 52,
    ensures
        deal_mass(cards, weights, nh, p + 2, p, taken, T::Wide::s_one()) == sum2(
            two_hands(cards, weights, p, taken),
            nh as nat,
            nh as nat,
        ),
{
    let n = nh as nat;
    let np = p + 2;
    let one = T::Wide::s_one();
    let f = two_hands(cards, weights, p, taken);
    lemma_deal_factor_upto(cards, weights, nh, np, p, taken, one, n);
    let g = deals_with(cards, weights, nh, np, p, taken);
    lemma_units(sum_upto(g, n));
    assert forall|h: int| 0 <= h < n implies #[trigger] g(h) == row_sums(f, n)(h) by {
        let next = taking(cards, taken, h);
        lemma_deal_factor_upto(cards, weights, nh, np, p + 1, next, one, n);
        let k = deals_with(cards, weights, nh, np, p + 1, next);
        lemma_units(sum_upto(k, n));
        let w = weights[p]@[h].s_widen();
        let free = one_if::<T::Wide>(!is_blocked(cards, taken, h));
        assert(cards[2 * h] < 52 && cards[2 * h + 1] < 52);
        assert forall|e: int| 0 <= e < n implies #[trigger] row_of(f, h)(e) == (free * w) * k(
            e,
        ) by {
            let x = weights[p + 1]@[e].s_widen();
            assert(cards[2 * e] < 52 && cards[2 * e + 1] < 52);
            assert(is_blocked(cards, next, e) == (is_blocked(cards, taken, e) || meets(
                cards,
                h,
                e,
            )));
            lemma_units(x);
            lemma_units(w);
            lemma_units(w * x);
            lemma_units(T::Wide::s_zero());
            let last = deal_mass(
                cards,
                weights,
                nh,
                np,
                p + 2,
                taking(cards, next, e),
                one,
            );
            assert(last == one);
        }
        lemma_sum_times(free * w, k, row_of(f, h), n);
        lemma_orders(free, w, sum_upto(k, n));
    }
    lemma_sum_ext(g, row_sums(f, n), n);
}

impl<T: Scalar> Crowd<T> {
    /// What each pair of opponents takes away from the mass of all.
    pub open spec fn pair_losses(&self, clash: spec_fn(int, int) -> T, h: int) -> spec_fn(
        int,
        int,
    ) -> T {
        |i: int, j: int|
            one_if::<T>(i < j) * (clash(i, j) * self.others(i, j, h, self.reach.len()))
    }

    proof fn lemma_taken_by(&self, clash: spec_fn(int, int) -> T, h: int, i: int, acc: T, m: nat)
        requires
            is_exact::<T>(),
            0 <= i,
        ensures
            self.taken_by(clash, h, i, acc, m as int) == acc + sum_upto(
                row_of(self.pair_losses(clash, h), i),
                m,
            ),
        decreases m,
    {
        let f = row_of(self.pair_losses(clash, h), i);
        if m == 0 {
            lemma_units(acc);
        } else {
            let j: int = m - 1;
            self.lemma_taken_by(clash, h, i, acc, j as nat);
            let x = clash(i, j) * self.others(i, j, h, self.reach.len());
            lemma_units(x);
            lemma_orders(acc, sum_upto(f, j as nat), f(j));
            lemma_units(acc + sum_upto(f, j as nat));
            if m <= i + 1 {
                assert(f(j) == T::s_zero());
                self.lemma_none_before(clash, h, i, j as nat);
                lemma_units(acc);
                lemma_units(T::s_zero());
            }
        }
    }

    proof fn lemma_none_before(&self, clash: spec_fn(int, int) -> T, h: int, i: int, m: nat)
        requires
            is_exact::<T>(),
            m <= i + 1,
        ensures
            sum_upto(row_of(self.pair_losses(clash, h), i), m) == T::s_zero(),
    {
        let f = row_of(self.pair_losses(clash, h), i);
        assert forall|j: int| 0 <= j < m implies #[trigger] f(j) == T::s_zero() by {
            lemma_units(clash(i, j) * self.others(i, j, h, self.reach.len()));
        }
        lemma_sum_zero(f, m);
    }

    proof fn lemma_taken(&self, clash: spec_fn(int, int) -> T, h: int, n: nat)
        requires
            is_exact::<T>(),
        ensures
            self.taken(clash, h, n) == sum2(self.pair_losses(clash, h), n, self.reach.len()),
        decreases n,
    {
        if n > 0 {
            self.lemma_taken(clash, h, (n - 1) as nat);
            self.lemma_taken_by(
                clash,
                h,
                n - 1,
                self.taken(clash, h, (n - 1) as nat),
                self.reach.len(),
            );
        }
    }

    /// All reach but that of `i` and `j`, times theirs, is all reach.
    proof fn lemma_others(&self, i: int, j: int, h: int, n: nat)
        requires
            is_exact::<T>(),
            0 <= i < j,
        ensures
            self.others(i, j, h, n) * if i < n {
                self.free(i, h)
            } else {
                T::s_one()
            } * if j < n {
                self.free(j, h)
            } else {
                T::s_one()
            } == self.others(-1, -1, h, n),
        decreases n,
    {
        let x = self.others(i, j, h, n);
        lemma_units(x);
        if n > 0 {
            let m = (n - 1) as nat;
            self.lemma_others(i, j, h, m);
            let y = self.others(i, j, h, m);
            let s = self.free(n - 1, h);
            let one = T::s_one();
            let a = if i < m {
                self.free(i, h)
            } else {
                one
            };
            let b = if j < m {
                self.free(j, h)
            } else {
                one
            };
            let all = self.others(-1, -1, h, m);
            assert(y * a * b == all);
            assert(self.others(-1, -1, h, n) == all * s);
            lemma_orders(y, s, a);
            lemma_orders(y * a, s, b);
            lemma_units(y);
            lemma_units(y * a);
            lemma_units(y * s);
            lemma_units(y * a * s);
            if n - 1 != i && n - 1 != j {
                assert(x == y * s);
                assert(x * a * b == all * s);
            } else if n - 1 == i {
                assert(a == one && b == one);
                assert(x * s * one == all * s);
            } else {
                assert(b == one);
                assert(x * a * s == all * s);
            }
        }
    }

    /// Where numbers are exact, the pair mass of any number of opponents is the product of
    /// their reach, less, for every two of them, their clash times the reach of all others;
    /// less than nothing counts as nothing.
    pub proof fn law_every_pair_is_taken_away(&self, clash: spec_fn(int, int) -> T, h: int)
        requires
            is_exact::<T>(),
        ensures
            self.mass_left(clash, h) == (self.others(-1, -1, h, self.reach.len()) - sum2(
                self.pair_losses(clash, h),
                self.reach.len(),
                self.reach.len(),
            )).s_larger(T::s_zero()),
            forall|i: int, j: int|
                0 <= i < j < self.reach.len() ==> #[trigger] self.others(
                    i,
                    j,
                    h,
                    self.reach.len(),
                ) * self.free(i, h) * self.free(j, h) == self.others(-1, -1, h, self.reach.len()),
    {
        self.lemma_taken(clash, h, self.reach.len());
        assert forall|i: int, j: int| 0 <= i < j < self.reach.len() implies #[trigger] self.others(
            i,
            j,
            h,
            self.reach.len(),
        ) * self.free(i, h) * self.free(j, h) == self.others(-1, -1, h, self.reach.len()) by {
            self.lemma_others(i, j, h, self.reach.len());
        }
    }
}

} // verus!
