//! A flop-start best response is worth at least what the averages are worth.
use vstd::prelude::*;

use crate::best_response::{across, entries, first_reach};
use crate::deck::holds;
use crate::exact::{lemma_orders, lemma_undo, lemma_units, Exact};
use crate::flop_start_game::{holds_at, FlopStartGame};
use crate::flop_start_vector_cfr::FlopStartVectorCfr;
use crate::flop_values::{across_mixed, acted, chances_now, largest_of};
use crate::game::GameSpec;
use crate::layout::{count_upto, lemma_count_bound};
use crate::response_laws::{
    has_quotients, is_ordered, is_rational, lemma_chain, lemma_count, lemma_products_keep,
    lemma_quotient_of_sum, lemma_self, lemma_shared_top, lemma_sum_keeps, lemma_sums_keep,
};
use crate::scalar::{sum_upto, Scalar, Widen};
use crate::terminal::TerminalSpot;
use crate::tree::{FlatTree, UNUSED};

verus! {

/// The larger of two numbers is at least each of them.
#[verifier::opaque]
pub open spec fn larger_covers<T: Scalar>() -> bool {
    forall|x: T, y: T|
        x.s_at_most(#[trigger] x.s_larger(y)) && y.s_at_most(x.s_larger(y)) && (x.s_larger(y) == x
            || x.s_larger(y) == y)
}

proof fn lemma_largest<T: Scalar>(vs: Seq<Seq<T>>, h: int, n: nat, k: int)
    requires
        is_rational::<T>(),
        larger_covers::<T>(),
        0 <= k < n,
    ensures
        vs[k][h].s_at_most(largest_of(vs, h, n)),
    decreases n,
{
    let prev = largest_of(vs, h, (n - 1) as nat);
    let last = vs[n - 1][h];
    assert(prev.s_at_most(prev.s_larger(last)) && last.s_at_most(prev.s_larger(last))) by {
        reveal(larger_covers);
    }
    if k < n - 1 {
        lemma_largest(vs, h, (n - 1) as nat, k);
        lemma_chain(vs[k][h], prev, largest_of(vs, h, n));
    }
}

/// A mix of values is worth at most the best of values that are at least as large.
proof fn lemma_mixed<T: Scalar>(
    vs: Seq<Seq<T>>,
    ws: Seq<Seq<T>>,
    sigma: spec_fn(int, int) -> T,
    h: int,
)
    requires
        is_rational::<T>(),
        larger_covers::<T>(),
        vs.len() == ws.len(),
        forall|a: int| 0 <= a < vs.len() ==> (#[trigger] vs[a])[h].s_at_most(ws[a][h]),
        forall|a: int| 0 <= a < vs.len() ==> T::s_zero().s_at_most(#[trigger] sigma(a, h)),
        sum_upto(|a: int| sigma(a, h), vs.len()) == T::s_one(),
    ensures
        sum_upto(across_mixed(vs, sigma, h), vs.len()).s_at_most(largest_of(ws, h, ws.len())),
{
    let n = vs.len();
    let top = largest_of(ws, h, n);
    let f = across_mixed(vs, sigma, h);
    let p = |a: int| sigma(a, h);
    let g = |a: int| p(a).s_times(top);
    assert forall|a: int| 0 <= a < n implies (#[trigger] f(a)).s_at_most(g(a)) by {
        lemma_largest(ws, h, n, a);
        assert(vs[a][h].s_at_most(ws[a][h]));
        lemma_chain(vs[a][h], ws[a][h], top);
        assert(T::s_zero().s_at_most(sigma(a, h)));
        lemma_products_keep(sigma(a, h), vs[a][h], top);
    }
    lemma_sum_keeps(f, g, n);
    lemma_shared_top(p, g, top, n);
    lemma_units(top);
}

/// Row `a` is nowhere above row `b` among the first `nh` hands.
pub open spec fn at_most_by_hand<T: Scalar>(a: Seq<T>, b: Seq<T>, nh: int) -> bool {
    forall|h: int| 0 <= h < nh ==> (#[trigger] a[h]).s_at_most(b[h])
}

/// Counts add up.
pub(crate) proof fn lemma_counts_add<T: Scalar>(m: int, n: int)
    requires
        is_rational::<T>(),
        0 <= m,
        0 <= n,
    ensures
        T::s_of(m + n) == T::s_of(m) + T::s_of(n),
        T::s_of(m + n) - T::s_of(n) == T::s_of(m),
    decreases n,
{
    let x = T::s_of(m);
    if n == 0 {
        assert(T::s_of(0) == T::s_zero()) by {
            reveal(has_quotients);
        }
        lemma_units(x);
    } else {
        lemma_counts_add::<T>(m, n - 1);
        assert(T::s_of((m + n - 1) + 1) == T::s_of(m + n - 1) + T::s_one() && T::s_of((n - 1) + 1)
            == T::s_of(n - 1) + T::s_one()) by {
            reveal(has_quotients);
        }
        lemma_orders(x, T::s_of(n - 1), T::s_one());
    }
    lemma_undo(x, T::s_of(n));
}

proof fn lemma_not_all(f: spec_fn(int) -> bool, k: int, n: nat)
    requires
        0 <= k < n,
        !f(k),
    ensures
        count_upto(f, n) < n,
    decreases n,
{
    lemma_count_bound(f, (n - 1) as nat);
    if k < n - 1 {
        lemma_not_all(f, k, (n - 1) as nat);
    }
}

proof fn lemma_chance<T: Widen, F: Fn(&TerminalSpot<T>) -> Vec<T>>(
    g: &FlopStartGame<T, F>,
    k: int,
    h: int,
)
    requires
        is_rational::<T>(),
        0 <= k < g.s_outcomes(),
    ensures
        T::s_zero().s_at_most(g.s_chance(k, h)),
{
    let deck = g.next_deck();
    let index = g.table.valid_hand_indices@[h] as int;
    let f = holds_at(deck, index);
    lemma_self(T::s_zero());
    if !holds(index, deck[k] as int) {
        assert(!f(k));
        lemma_not_all(f, k, deck.len());
        let m: int = count_upto(f, deck.len()) as int;
        lemma_counts_add::<T>(deck.len() - m, m);
        assert(T::s_zero().s_at_most(T::s_one())) by {
            reveal(is_ordered);
        }
        assert(T::s_zero().s_below(T::s_of(deck.len() - m))) by {
            reveal(has_quotients);
        }
        assert(T::s_zero().s_at_most(T::s_one().s_over(T::s_of(deck.len() - m)))) by {
            reveal(has_quotients);
        }
    }
}

impl<T: Widen> FlopStartVectorCfr<T> {
    /// The average probabilities at node `i` with hand `h`, by action.
    pub open spec fn average_shares(
        &self,
        i: int,
        na: int,
        tc: Option<usize>,
        rc: Option<usize>,
        h: int,
    ) -> spec_fn(int) -> T {
        |a: int| self.averages(i, na, tc, rc)(a, h)
    }

    /// The averages at a decision add up to one, for every hand and every deal.
    pub proof fn law_averages_add_up(
        &self,
        i: int,
        na: int,
        tc: Option<usize>,
        rc: Option<usize>,
        h: int,
    )
        requires
            is_rational::<T>(),
            0 < na,
        ensures
            sum_upto(self.average_shares(i, na, tc, rc, h), na as nat) == T::s_one(),
    {
        let f = self.average_shares(i, na, tc, rc, h);
        let n = na as nat;
        let z = self.zones@[i];
        let (base, w) = (self.cum_base(i, tc, rc), self.nh as int);
        let col = entries(self.bank(z).cum@, base, w, h);
        let total = sum_upto(col, n);
        if self.book(z).local_offset@[i] != UNUSED && T::s_zero().s_below(total) {
            lemma_quotient_of_sum(col, f, total, n);
            assert(total.s_over(total) == T::s_one()) by {
                reveal(has_quotients);
            }
        } else {
            let t = T::s_of(na);
            let ones = |k: int| T::s_one();
            lemma_count(ones, n);
            assert(T::s_zero().s_below(t) && t.s_over(t) == T::s_one()) by {
                reveal(has_quotients);
            }
            lemma_quotient_of_sum(ones, f, t, n);
        }
    }

    /// No average probability is negative.
    pub open spec fn averages_are_shares(&self, tree: &FlatTree) -> bool {
        forall|i: int, tc: Option<usize>, rc: Option<usize>, a: int, h: int|
            tree.is_node(i) && 0 <= a < tree.arity(i) && 0 <= h < self.nh
                ==> T::s_zero().s_at_most(#[trigger] self.average(i, tree.arity(i), tc, rc, a, h))
    }

    proof fn lemma_value<F: Fn(&TerminalSpot<T>) -> Vec<T>>(
        &self,
        tree: &FlatTree,
        g: FlopStartGame<T, F>,
        target: u8,
        i: int,
        reach: Seq<Seq<T>>,
        tc: Option<usize>,
        rc: Option<usize>,
    )
        requires
            is_rational::<T>(),
            larger_covers::<T>(),
            self.averages_are_shares(tree),
            tree.wf(),
            tree.is_node(i),
        ensures
            at_most_by_hand(
                self.value_at(tree, g, target, false, i, reach, tc, rc),
                self.value_at(tree, g, target, true, i, reach, tc, rc),
                self.nh as int,
            ),
        decreases tree.max_depth + 1 - tree.level(i), 1int, 0int,
    {
        let n = tree.nodes@[i];
        let nh = self.nh as int;
        let x = self.value_at(tree, g, target, false, i, reach, tc, rc);
        let y = self.value_at(tree, g, target, true, i, reach, tc, rc);
        if n.is_terminal() || tree.arity(i) == 0 {
            assert forall|h: int| 0 <= h < nh implies (#[trigger] x[h]).s_at_most(y[h]) by {
                lemma_self(x[h]);
            }
        } else if n.is_chance() {
            self.lemma_deals(tree, g, target, i, reach, tc, rc, g.s_outcomes() as nat);
        } else {
            let na = tree.arity(i);
            self.lemma_actions(tree, g, target, i, reach, tc, rc, na as nat);
            let vs = self.actions_at(tree, g, target, false, i, reach, tc, rc, na as nat);
            let ws = self.actions_at(tree, g, target, true, i, reach, tc, rc, na as nat);
            let sig = self.averages(i, na, tc, rc);
            assert forall|h: int| 0 <= h < nh implies (#[trigger] x[h]).s_at_most(y[h]) by {
                assert forall|a: int| 0 <= a < vs.len() implies (#[trigger] vs[a])[h].s_at_most(
                    ws[a][h],
                ) by {
                    assert(at_most_by_hand(vs[a], ws[a], nh));
                }
                if n.player_id != target {
                    assert forall|a: int| 0 <= a < vs.len() implies (#[trigger] across(vs, h)(
                        a,
                    )).s_at_most(across(ws, h)(a)) by {
                        assert(vs[a][h].s_at_most(ws[a][h]));
                    }
                    lemma_sum_keeps(across(vs, h), across(ws, h), vs.len());
                } else {
                    self.law_averages_add_up(i, na, tc, rc, h);
                    assert((|a: int| sig(a, h)) =~= self.average_shares(i, na, tc, rc, h));
                    assert forall|a: int| 0 <= a < vs.len() implies T::s_zero().s_at_most(
                        #[trigger] sig(a, h),
                    ) by {
                        assert(T::s_zero().s_at_most(self.average(i, na, tc, rc, a, h)));
                    }
                    lemma_mixed(vs, ws, sig, h);
                }
            }
        }
    }

    proof fn lemma_deals<F: Fn(&TerminalSpot<T>) -> Vec<T>>(
        &self,
        tree: &FlatTree,
        g: FlopStartGame<T, F>,
        target: u8,
        i: int,
        reach: Seq<Seq<T>>,
        tc: Option<usize>,
        rc: Option<usize>,
        n: nat,
    )
        requires
            is_rational::<T>(),
            larger_covers::<T>(),
            self.averages_are_shares(tree),
            tree.wf(),
            tree.is_node(i),
            n <= g.s_outcomes(),
        ensures
            ({
                let x = self.deals_at(tree, g, target, false, i, reach, tc, rc, n);
                let y = self.deals_at(tree, g, target, true, i, reach, tc, rc, n);
                x.len() == self.nh && y.len() == self.nh && at_most_by_hand(x, y, self.nh as int)
            }),
        decreases tree.max_depth + 1 - tree.level(i), 0int, n,
    {
        let nh = self.nh as int;
        let x = self.deals_at(tree, g, target, false, i, reach, tc, rc, n);
        let y = self.deals_at(tree, g, target, true, i, reach, tc, rc, n);
        if n == 0 || !tree.is_edge(i, 0) {
            assert forall|h: int| 0 <= h < nh implies (#[trigger] x[h]).s_at_most(y[h]) by {
                lemma_self(x[h]);
            }
        } else {
            let k = n - 1;
            self.lemma_deals(tree, g, target, i, reach, tc, rc, k as nat);
            assert(tree.edge_ok(i, 0));
            let (t, r) = Self::next_places(tree.nodes@[i].board_state, k, tc, rc);
            let next = g.s_set(k);
            self.lemma_value(tree, next, target, tree.child(i, 0), reach, t, r);
            let x0 = self.deals_at(tree, g, target, false, i, reach, tc, rc, k as nat);
            let y0 = self.deals_at(tree, g, target, true, i, reach, tc, rc, k as nat);
            let v = self.value_at(tree, next, target, false, tree.child(i, 0), reach, t, r);
            let w = self.value_at(tree, next, target, true, tree.child(i, 0), reach, t, r);
            let c = chances_now(&g, k, nh);
            assert forall|h: int| 0 <= h < nh implies (#[trigger] x[h]).s_at_most(y[h]) by {
                lemma_chance(&g, k, h);
                assert(x0[h].s_at_most(y0[h]) && v[h].s_at_most(w[h]));
                lemma_products_keep(c[h], v[h], w[h]);
                lemma_sums_keep(x0[h], y0[h], c[h].s_times(v[h]), c[h].s_times(w[h]));
            }
        }
    }

    proof fn lemma_actions<F: Fn(&TerminalSpot<T>) -> Vec<T>>(
        &self,
        tree: &FlatTree,
        g: FlopStartGame<T, F>,
        target: u8,
        i: int,
        reach: Seq<Seq<T>>,
        tc: Option<usize>,
        rc: Option<usize>,
        n: nat,
    )
        requires
            is_rational::<T>(),
            larger_covers::<T>(),
            self.averages_are_shares(tree),
            tree.wf(),
            tree.is_node(i),
            n <= tree.arity(i),
        ensures
            ({
                let vs = self.actions_at(tree, g, target, false, i, reach, tc, rc, n);
                let ws = self.actions_at(tree, g, target, true, i, reach, tc, rc, n);
                &&& vs.len() == n
                &&& ws.len() == n
                &&& forall|a: int|
                    0 <= a < n ==> at_most_by_hand(#[trigger] vs[a], ws[a], self.nh as int)
            }),
        decreases tree.max_depth + 1 - tree.level(i), 0int, n,
    {
        if n > 0 {
            let a = n - 1;
            assert(tree.is_edge(i, a));
            assert(tree.edge_ok(i, a));
            self.lemma_actions(tree, g, target, i, reach, tc, rc, a as nat);
            let p = tree.nodes@[i].player_id as int;
            let next = reach.update(
                p,
                acted(reach[p], self.averages(i, tree.arity(i), tc, rc), a),
            );
            self.lemma_value(tree, g, target, tree.child(i, a), next, tc, rc);
        }
    }

    /// With averages that are not negative, a player's best response is worth at least
    /// what the averages are worth, with every hand.
    pub proof fn law_flop_best_response_is_best<F: Fn(&TerminalSpot<T>) -> Vec<T>>(
        &self,
        tree: &FlatTree,
        g: FlopStartGame<T, F>,
        player: u8,
    )
        requires
            is_rational::<T>(),
            larger_covers::<T>(),
            self.averages_are_shares(tree),
            tree.wf(),
        ensures
            at_most_by_hand(
                self.root_value(tree, g, player, false),
                self.root_value(tree, g, player, true),
                self.nh as int,
            ),
    {
        assert(tree.is_node(0));
        self.lemma_value(
            tree,
            g,
            player,
            0,
            first_reach(&g, player, self.nh as int),
            None,
            None,
        );
    }
}

} // verus!
