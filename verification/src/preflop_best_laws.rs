//! The best that a player can get before the flop.
use vstd::prelude::*;

use crate::best_response::{across, best_of};
use crate::exact::{lemma_units, Exact};
use crate::grid::lemma_grid;
use crate::layout::at;
use crate::mccfr_steps::weighted;
use crate::preflop_class::NUM_PREFLOP_CLASSES;
use crate::preflop_walk::{can_sweep, is_leaf, Pass};
use crate::response_laws::{
    is_rational, lemma_best, lemma_chain, lemma_products_keep, lemma_self, lemma_shared_top,
    lemma_sum_keeps,
};
use crate::scalar::{sum_upto, Scalar};
use crate::tree::FlatTree;

verus! {

impl<T: Scalar, V: Fn(usize, u8, &Vec<Vec<T>>) -> Vec<T>> Pass<T, V> {
    /// The strategy's probabilities at the traverser's decisions are not negative and add up
    /// to one.
    pub open spec fn plays_shares(&self, tree: &FlatTree) -> bool {
        forall|j: int, c: int|
            #![trigger self.probabilities(tree, j, c)]
            tree.is_node(j) && self.m.has_infoset(j) && tree.nodes@[j].player_id == self.t && 0
                <= c < NUM_PREFLOP_CLASSES ==> {
                &&& sum_upto(self.probabilities(tree, j, c), tree.arity(j) as nat) == T::s_one()
                &&& forall|a: int|
                    0 <= a < tree.arity(j) ==> T::s_zero().s_at_most(
                        #[trigger] self.probabilities(tree, j, c)(a),
                    )
            }
    }

    /// The best that the traverser can get is at least what the strategy gets, at every node
    /// that the walk comes to and with every class.
    pub proof fn law_the_best_is_best(&self, tree: &FlatTree, i: int, c: int)
        requires
            is_rational::<T>(),
            self.m.is_for(tree),
            self.plays_shares(tree),
            tree.is_node(i),
            can_sweep(tree, self.leaves, i),
            0 <= c < NUM_PREFLOP_CLASSES,
        ensures
            self.value(tree, i)[c].s_at_most(self.best(tree, i)[c]),
        decreases tree.max_depth + 1 - tree.level(i), 1int, 0nat,
    {
        if is_leaf(self.leaves, i) || tree.nodes@[i].is_terminal() {
            lemma_self(self.value(tree, i)[c]);
        } else {
            let na = tree.arity(i);
            let n = na as nat;
            let w = NUM_PREFLOP_CLASSES as int;
            self.lemma_best_actions(tree, i, n, c);
            let vs = self.values(tree, i, n);
            let ws = self.bests(tree, i, n);
            self.m.lemma_has_infoset(tree, i);
            self.m.lemma_room(tree, i);
            if tree.nodes@[i].player_id == self.t {
                let top = best_of(ws, c, ws.len());
                let s = self.m.strategy_at(tree, i);
                let f = weighted(s, w, vs, c);
                let p = self.probabilities(tree, i, c);
                let g = |a: int| p(a).s_times(top);
                if na == 0 {
                    assert(sum_upto(p, 0) == T::s_one());
                    lemma_nothing_to_gain(top);
                } else {
                    assert forall|a: int| 0 <= a < n implies (#[trigger] f(a)).s_at_most(g(a)) by {
                        lemma_grid(na, w, |a: int, c: int| T::s_zero(), a, c);
                        assert(s[at(w, a, c)] == p(a));
                        lemma_best(ws, c, n, a);
                        lemma_chain(vs[a][c], ws[a][c], top);
                        assert(T::s_zero().s_at_most(p(a)));
                        lemma_products_keep(p(a), vs[a][c], top);
                    }
                    lemma_sum_keeps(f, g, n);
                    lemma_shared_top(p, g, top, n);
                    lemma_units(top);
                }
            } else {
                assert forall|a: int| 0 <= a < n implies (#[trigger] across(vs, c)(a)).s_at_most(
                    across(ws, c)(a),
                ) by {
                    assert(vs[a][c].s_at_most(ws[a][c]));
                }
                lemma_sum_keeps(across(vs, c), across(ws, c), n);
            }
        }
    }

    proof fn lemma_best_actions(&self, tree: &FlatTree, i: int, n: nat, c: int)
        requires
            is_rational::<T>(),
            self.m.is_for(tree),
            self.plays_shares(tree),
            tree.is_node(i),
            can_sweep(tree, self.leaves, i),
            !is_leaf(self.leaves, i),
            !tree.nodes@[i].is_terminal(),
            n <= tree.arity(i),
            0 <= c < NUM_PREFLOP_CLASSES,
        ensures
            self.values(tree, i, n).len() == n,
            self.bests(tree, i, n).len() == n,
            forall|a: int|
                0 <= a < n ==> (#[trigger] self.values(tree, i, n)[a])[c].s_at_most(
                    self.bests(tree, i, n)[a][c],
                ),
        decreases tree.max_depth + 1 - tree.level(i), 0int, n,
    {
        if n > 0 {
            let k: int = n - 1;
            assert(tree.is_edge(i, k));
            assert(tree.edge_ok(i, k));
            self.lemma_best_actions(tree, i, k as nat, c);
            self.law_the_best_is_best(tree, tree.child(i, k), c);
            let (vs, ws) = (self.values(tree, i, n), self.bests(tree, i, n));
            let (xs, ys) = (self.values(tree, i, k as nat), self.bests(tree, i, k as nat));
            assert forall|a: int| 0 <= a < n implies (#[trigger] vs[a])[c].s_at_most(
                ws[a][c],
            ) by {
                if a < k {
                    assert(vs[a] == xs[a] && ws[a] == ys[a]);
                }
            }
        }
    }
}

/// Where nothing is one, everything is nothing.
proof fn lemma_nothing_to_gain<T: Scalar>(x: T)
    requires
        is_rational::<T>(),
        T::s_zero() == T::s_one(),
    ensures
        T::s_zero().s_at_most(x),
{
    lemma_units(x);
    lemma_self(x);
}

} // verus!
