//! Exploitability is the sum of what all players gain with all their hands.
use vstd::prelude::*;

use crate::best_response::{entries_of, exploited, gained, response, StrategyProfile};
use crate::exact::{is_exact, lemma_orders, lemma_sum_one, lemma_undo, lemma_units, only, Exact};
use crate::flop_response_laws::larger_covers;
use crate::flop_start_game::FlopStartGame;
use crate::flop_start_vector_cfr::FlopStartVectorCfr;
use crate::flop_values::gains;
use crate::game::GameSpec;
use crate::response_laws::{
    has_quotients, is_ordered, is_rational, lemma_chain, lemma_products_keep, lemma_self,
    lemma_sum_keeps, lemma_sums_keep, none_negative,
};
use crate::scalar::{sum_upto, Scalar, Widen};
use crate::terminal::TerminalSpot;
use crate::tree::FlatTree;

verus! {

/// A quotient by what is above zero, times its divisor, is the number that was divided, and
/// a product over one of its factors is the other.
#[verifier::opaque]
pub open spec fn quotients_return<T: Scalar>() -> bool {
    &&& forall|x: T, t: T| T::s_zero().s_below(t) ==> #[trigger] x.s_over(t).s_times(t) == x
    &&& forall|x: T, t: T| T::s_zero().s_below(t) ==> #[trigger] x.s_times(t).s_over(t) == x
}

/// Of two different numbers only one is at most the other.
#[verifier::opaque]
pub open spec fn is_antisymmetric<T: Scalar>() -> bool {
    forall|x: T, y: T| #[trigger] x.s_at_most(y) && y.s_at_most(x) ==> x == y
}

/// What each hand gains by the values `br` over the values `sv`, weighted.
pub open spec fn gains_by_hand<T: Scalar>(weight: Seq<T>, br: Seq<T>, sv: Seq<T>) -> spec_fn(
    int,
) -> T {
    |h: int| weight[h] * (br[h] - sv[h])
}

/// The same, each weight a part of `sum`.
pub open spec fn parts_by_hand<T: Scalar>(
    weight: Seq<T>,
    sum: T,
    br: Seq<T>,
    sv: Seq<T>,
) -> spec_fn(int) -> T {
    |h: int| weight[h].s_over(sum) * (br[h] - sv[h])
}

proof fn lemma_gains<T: Scalar>(total: T, weight: Seq<T>, br: Seq<T>, sv: Seq<T>, n: nat)
    requires
        is_exact::<T>(),
    ensures
        gains(total, weight, br, sv, n) == total + sum_upto(gains_by_hand(weight, br, sv), n),
    decreases n,
{
    let f = gains_by_hand(weight, br, sv);
    if n == 0 {
        lemma_units(total);
    } else {
        let m = (n - 1) as nat;
        lemma_gains(total, weight, br, sv, m);
        lemma_orders(total, sum_upto(f, m), f(n - 1));
    }
}

proof fn lemma_parts<T: Scalar>(total: T, weight: Seq<T>, sum: T, br: Seq<T>, sv: Seq<T>, n: nat)
    requires
        is_exact::<T>(),
    ensures
        gained(total, weight, sum, br, sv, n) == total + sum_upto(
            parts_by_hand(weight, sum, br, sv),
            n,
        ),
    decreases n,
{
    let f = parts_by_hand(weight, sum, br, sv);
    if n == 0 {
        lemma_units(total);
    } else {
        let m = (n - 1) as nat;
        lemma_parts(total, weight, sum, br, sv, m);
        lemma_orders(total, sum_upto(f, m), f(n - 1));
    }
}

/// A sum of terms that are not negative is not under any of them.
pub(crate) proof fn lemma_sum_covers<T: Scalar>(f: spec_fn(int) -> T, k: int, n: nat)
    requires
        is_rational::<T>(),
        0 <= k < n,
        forall|j: int| 0 <= j < n ==> T::s_zero().s_at_most(#[trigger] f(j)),
    ensures
        f(k).s_at_most(sum_upto(f, n)),
        T::s_zero().s_at_most(sum_upto(f, n)),
{
    let g = only(f, k);
    assert forall|j: int| 0 <= j < n implies (#[trigger] g(j)).s_at_most(f(j)) by {
        lemma_self(f(j));
        assert(T::s_zero().s_at_most(f(j)));
    }
    lemma_sum_keeps(g, f, n);
    lemma_sum_one(g, k, n);
    lemma_chain(T::s_zero(), f(k), sum_upto(f, n));
}

/// What is gained with a weight that is not negative, where a response is not worth less,
/// is not negative.
proof fn lemma_gain_is_not_negative<T: Scalar>(w: T, x: T, y: T)
    requires
        is_rational::<T>(),
        T::s_zero().s_at_most(w),
        x.s_at_most(y),
    ensures
        T::s_zero().s_at_most(w * (y - x)),
{
    let zero = T::s_zero();
    let d = zero - x;
    lemma_self(d);
    lemma_sums_keep(x, y, d, d);
    lemma_undo(x, x);
    lemma_undo(y, x);
    lemma_units(x);
    lemma_products_keep(w, zero, y - x);
    lemma_units(w);
}

impl<T: Widen> FlopStartVectorCfr<T> {
    /// What each hand of player `p` gains by best responding to the averages, weighted by
    /// its initial weight.
    pub open spec fn hand_gains<F: Fn(&TerminalSpot<T>) -> Vec<T>>(
        &self,
        tree: &FlatTree,
        g: FlopStartGame<T, F>,
        p: int,
    ) -> spec_fn(int) -> T {
        gains_by_hand(
            g.s_weight(p),
            self.root_value(tree, g, p as u8, true),
            self.root_value(tree, g, p as u8, false),
        )
    }

    /// What each player gains with all hands.
    pub open spec fn player_gains<F: Fn(&TerminalSpot<T>) -> Vec<T>>(
        &self,
        tree: &FlatTree,
        g: FlopStartGame<T, F>,
    ) -> spec_fn(int) -> T {
        |p: int|
            sum_upto(
                self.hand_gains(tree, g, p),
                self.root_value(tree, g, p as u8, true).len(),
            )
    }

    /// No weight and no average probability is negative, and every player has a weight and
    /// a value for every hand.
    pub open spec fn is_weighed<F: Fn(&TerminalSpot<T>) -> Vec<T>>(
        &self,
        tree: &FlatTree,
        g: FlopStartGame<T, F>,
    ) -> bool {
        &&& tree.wf()
        &&& self.averages_are_shares(tree)
        &&& forall|p: int|
            0 <= p < tree.np() ==> {
                &&& none_negative(#[trigger] g.s_weight(p))
                &&& g.s_weight(p).len() == self.nh
                &&& self.root_value(tree, g, p as u8, true).len() == self.nh
            }
    }

    proof fn lemma_exploit<F: Fn(&TerminalSpot<T>) -> Vec<T>>(
        &self,
        tree: &FlatTree,
        g: FlopStartGame<T, F>,
        n: nat,
    )
        requires
            is_exact::<T>(),
            n <= tree.np(),
        ensures
            self.exploit(tree, g, n) == sum_upto(self.player_gains(tree, g), n),
        decreases n,
    {
        if n > 0 {
            let m = (n - 1) as nat;
            self.lemma_exploit(tree, g, m);
            let p: int = n - 1;
            let u = p as u8;
            assert(u as int == p);
            lemma_gains(
                self.exploit(tree, g, m),
                g.s_weight(p),
                self.root_value(tree, g, u, true),
                self.root_value(tree, g, u, false),
                self.root_value(tree, g, u, true).len(),
            );
            assert(self.player_gains(tree, g)(p) == sum_upto(
                self.hand_gains(tree, g, p),
                self.root_value(tree, g, u, true).len(),
            ));
        }
    }

    /// Where numbers are exact, the exploitability `x` times the number of players is the
    /// sum, over all players and all hands, of the hand's weight times what its best
    /// response is worth more than the averages.
    pub proof fn law_exploitability_counts_every_player<F: Fn(&TerminalSpot<T>) -> Vec<T>>(
        &self,
        tree: &FlatTree,
        g: FlopStartGame<T, F>,
        x: T,
    )
        requires
            is_exact::<T>(),
            quotients_return::<T>(),
            T::s_zero().s_below(T::s_of(tree.np())),
            x == self.exploit(tree, g, tree.num_players as nat).s_over(T::s_of(tree.np())),
        ensures
            x * T::s_of(tree.np()) == sum_upto(self.player_gains(tree, g), tree.num_players as nat),
    {
        self.lemma_exploit(tree, g, tree.num_players as nat);
        reveal(quotients_return);
    }

    /// Where no weight and no average is negative, the exploitability `x` is not negative and not under what any one player gains,
    /// divided by the number of players.
    pub proof fn law_exploitability_covers_each_player<F: Fn(&TerminalSpot<T>) -> Vec<T>>(
        &self,
        tree: &FlatTree,
        g: FlopStartGame<T, F>,
        x: T,
        p: int,
    )
        requires
            is_rational::<T>(),
            larger_covers::<T>(),
            0 <= p < tree.np(),
            self.is_weighed(tree, g),
            x == self.exploit(tree, g, tree.num_players as nat).s_over(T::s_of(tree.np())),
        ensures
            T::s_zero().s_at_most(x),
            self.player_gains(tree, g)(p).s_over(T::s_of(tree.np())).s_at_most(x),
    {
        let n = tree.num_players as nat;
        let f = self.player_gains(tree, g);
        let t = T::s_of(tree.np());
        self.lemma_exploit(tree, g, n);
        assert forall|q: int| 0 <= q < n implies T::s_zero().s_at_most(#[trigger] f(q)) by {
            self.lemma_player_gains(tree, g, q);
        }
        lemma_sum_covers(f, p, n);
        let (a, b) = (f(p), sum_upto(f, n));
        lemma_undo(b, a);
        assert(T::s_zero().s_at_most(T::s_one())) by {
            reveal(is_ordered);
        }
        lemma_gain_is_not_negative(T::s_one(), a, b);
        lemma_units(b - a);
        lemma_orders(a, b - a, a);
        assert(T::s_zero().s_below(t) && T::s_zero().s_at_most((b - a).s_over(t))
            && T::s_zero().s_at_most(b.s_over(t)) && (b - a + a).s_over(t) == (b - a).s_over(t)
            + a.s_over(t)) by {
            reveal(has_quotients);
        }
        let (y, z) = ((b - a).s_over(t), a.s_over(t));
        lemma_self(z);
        lemma_sums_keep(T::s_zero(), y, z, z);
        lemma_units(z);
    }

    proof fn lemma_player_gains<F: Fn(&TerminalSpot<T>) -> Vec<T>>(
        &self,
        tree: &FlatTree,
        g: FlopStartGame<T, F>,
        p: int,
    )
        requires
            is_rational::<T>(),
            larger_covers::<T>(),
            0 <= p < tree.np(),
            self.is_weighed(tree, g),
        ensures
            T::s_zero().s_at_most(self.player_gains(tree, g)(p)),
            forall|h: int|
                0 <= h < self.root_value(tree, g, p as u8, true).len() ==> {
                    let x = #[trigger] self.hand_gains(tree, g, p)(h);
                    T::s_zero().s_at_most(x) && x.s_at_most(self.player_gains(tree, g)(p))
                },
    {
        let w = g.s_weight(p);
        assert(none_negative(w));
        let br = self.root_value(tree, g, p as u8, true);
        let sv = self.root_value(tree, g, p as u8, false);
        let f = self.hand_gains(tree, g, p);
        self.law_flop_best_response_is_best(tree, g, p as u8);
        assert forall|h: int| 0 <= h < br.len() implies T::s_zero().s_at_most(#[trigger] f(h)) by {
            assert(sv[h].s_at_most(br[h]));
            lemma_gain_is_not_negative(w[h], sv[h], br[h]);
        }
        assert forall|h: int| 0 <= h < br.len() implies (#[trigger] f(h)).s_at_most(
            sum_upto(f, br.len()),
        ) by {
            lemma_sum_covers(f, h, br.len());
        }
        if br.len() == 0 {
            lemma_self(T::s_zero());
        } else {
            lemma_sum_covers(f, 0, br.len());
        }
    }

    /// The exploitability is zero only if no player gains anything with any hand.
    pub proof fn law_nobody_gains_at_zero<F: Fn(&TerminalSpot<T>) -> Vec<T>>(
        &self,
        tree: &FlatTree,
        g: FlopStartGame<T, F>,
        p: int,
        h: int,
    )
        requires
            is_rational::<T>(),
            larger_covers::<T>(),
            is_antisymmetric::<T>(),
            quotients_return::<T>(),
            0 <= p < tree.np(),
            0 <= h < self.root_value(tree, g, p as u8, true).len(),
            self.is_weighed(tree, g),
            self.exploit(tree, g, tree.num_players as nat).s_over(T::s_of(tree.np()))
                == T::s_zero(),
        ensures
            g.s_weight(p)[h] * (self.root_value(tree, g, p as u8, true)[h] - self.root_value(
                tree,
                g,
                p as u8,
                false,
            )[h]) == T::s_zero(),
    {
        let n = tree.num_players as nat;
        let f = self.player_gains(tree, g);
        let t = T::s_of(tree.np());
        assert(T::s_zero().s_below(t)) by {
            reveal(has_quotients);
        }
        self.law_exploitability_counts_every_player(tree, g, T::s_zero());
        lemma_units(t);
        assert forall|q: int| 0 <= q < n implies T::s_zero().s_at_most(#[trigger] f(q)) by {
            self.lemma_player_gains(tree, g, q);
        }
        lemma_sum_covers(f, p, n);
        self.lemma_player_gains(tree, g, p);
        let x = self.hand_gains(tree, g, p)(h);
        lemma_chain(x, f(p), T::s_zero());
        reveal(is_antisymmetric);
    }
}

/// The game as the walks of the first `p` players leave it.
pub open spec fn game_before<T: Widen, G: GameSpec<T>>(
    tree: &FlatTree,
    g: G,
    prof: &StrategyProfile<T>,
    p: int,
) -> G {
    exploited(tree, g, prof, p as nat).1
}

/// What each hand of player `p` gains by best responding to the profile, with its part of
/// the player's weights.
pub open spec fn response_gains<T: Widen, G: GameSpec<T>>(
    tree: &FlatTree,
    g: G,
    prof: &StrategyProfile<T>,
    p: int,
) -> T {
    let (br, g1) = response(tree, game_before(tree, g, prof, p), prof, p as u8, true);
    let (sv, g2) = response(tree, g1, prof, p as u8, false);
    let weight = g2.s_weight(p);
    let sum = sum_upto(entries_of(weight), weight.len());
    if T::s_zero().s_below(sum) {
        sum_upto(parts_by_hand(weight, sum, br, sv), br.len())
    } else {
        T::s_zero()
    }
}

/// What each player gains.
pub open spec fn all_response_gains<T: Widen, G: GameSpec<T>>(
    tree: &FlatTree,
    g: G,
    prof: &StrategyProfile<T>,
) -> spec_fn(int) -> T {
    |p: int| response_gains(tree, g, prof, p)
}

/// Where numbers are exact, what a profile can be exploited for is the sum, over all
/// players and all hands, of the hand's part of the weights times what its best response
/// is worth more than the profile; a player without weight adds nothing.
pub proof fn law_exploitability_adds_up<T: Widen, G: GameSpec<T>>(
    tree: &FlatTree,
    g: G,
    prof: &StrategyProfile<T>,
    n: nat,
)
    requires
        is_exact::<T>(),
        n <= tree.np(),
    ensures
        exploited(tree, g, prof, n).0 == sum_upto(all_response_gains(tree, g, prof), n),
    decreases n,
{
    if n > 0 {
        let m = (n - 1) as nat;
        law_exploitability_adds_up(tree, g, prof, m);
        let p: int = n - 1;
        let u = p as u8;
        assert(u as int == p);
        let (total, g0) = exploited(tree, g, prof, m);
        let (br, g1) = response(tree, g0, prof, u, true);
        let (sv, g2) = response(tree, g1, prof, u, false);
        let weight = g2.s_weight(p);
        let sum = sum_upto(entries_of(weight), weight.len());
        assert(p as nat == m);
        assert(all_response_gains(tree, g, prof)(p) == response_gains(tree, g, prof, p));
        lemma_parts(total, weight, sum, br, sv, br.len());
        lemma_units(total);
    }
}

} // verus!
