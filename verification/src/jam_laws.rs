//! What the leaves of a jam game pay.
use vstd::prelude::*;

use crate::even_pots::{lemma_into_quotient, lemma_one};
use crate::exact::{
    is_exact, lemma_nothing, lemma_orders, lemma_pairs, lemma_spread, lemma_spread_difference,
    lemma_undo, lemma_units, times, Exact,
};
use crate::exploit_laws::quotients_return;
use crate::flop_response_laws::lemma_counts_add;
use crate::postflop_oracle::is_live;
use crate::preflop_class::NUM_PREFLOP_CLASSES;
use crate::preflop_jam_game::{beside, chips_at, invested, versus, worth_upto, PreflopJamGame};
use crate::rake_laws::{has_order, lemma_under_cap};
use crate::response_laws::{has_quotients, is_ordered, is_rational};
use crate::scalar::{sum_upto, Scalar};
use crate::tree::FlatTree;

verus! {

/// Where numbers are exact, what is left out weighs nothing.
proof fn lemma_worth<T: Scalar>(weight: spec_fn(int) -> T, value: spec_fn(int) -> T, n: nat)
    requires
        is_exact::<T>(),
    ensures
        worth_upto(weight, value, n) == sum_upto(times(weight, value), n),
    decreases n,
{
    if n > 0 {
        lemma_worth(weight, value, (n - 1) as nat);
        let (w, v) = (weight(n - 1), value(n - 1));
        assert(w.s_same(T::s_zero()) ==> w == T::s_zero()) by {
            lemma_nothing(w);
        }
        lemma_units(v);
        lemma_units(sum_upto(times(weight, value), (n - 1) as nat));
    }
}

/// The chips of a node are what the two players have put in, half of the dead chips each.
pub proof fn law_all_chips_are_invested<T: Scalar>(tree: &FlatTree, i: int)
    requires
        is_rational::<T>(),
        quotients_return::<T>(),
        0 <= tree.starting_pot,
        0 <= tree.contribution(i, 0),
        0 <= tree.contribution(i, 1),
    ensures
        invested::<T>(tree, i, 0) + invested::<T>(tree, i, 1) == T::s_of(chips_at(tree, i)),
{
    let (a, b) = (tree.contribution(i, 0), tree.contribution(i, 1));
    let sp = tree.starting_pot as int;
    let two = T::s_of(2);
    let q = T::s_of(sp).s_over(two);
    assert(T::s_zero().s_below(two)) by {
        reveal(has_quotients);
    }
    lemma_counts_add::<T>(1, 1);
    lemma_one::<T>();
    lemma_into_quotient(q, T::s_of(sp), two);
    lemma_spread(q, T::s_one(), T::s_one());
    lemma_units(q);
    assert(q + q == T::s_of(sp));
    lemma_pairs(q, T::s_of(a), q, T::s_of(b));
    lemma_counts_add::<T>(a, b);
    lemma_counts_add::<T>(sp, a + b);
}

impl<'a, T: Scalar> PreflopJamGame<'a, T> {
    /// Who does not fold wins what the other has put in, and who folds loses what they have
    /// put in themselves, per weight of the opponent's classes.
    pub proof fn law_a_fold_pays_what_was_put_in(
        &self,
        t: int,
        tree: &FlatTree,
        i: int,
        opp: Seq<T>,
        h: int,
    )
        requires
            is_rational::<T>(),
            quotients_return::<T>(),
            t == 0 || t == 1,
            0 <= tree.starting_pot,
            0 <= tree.contribution(i, 0),
            0 <= tree.contribution(i, 1),
        ensures
            !is_live(tree, i, 1 - t) ==> self.leaf(t, tree, i, opp, h) == invested::<T>(
                tree,
                i,
                1 - t,
            ) * sum_upto(beside(opp, self.blocking@, h), NUM_PREFLOP_CLASSES as nat),
            is_live(tree, i, 1 - t) && !is_live(tree, i, t) ==> self.leaf(t, tree, i, opp, h)
                == T::s_zero() - invested::<T>(tree, i, t) * sum_upto(
                beside(opp, self.blocking@, h),
                NUM_PREFLOP_CLASSES as nat,
            ),
    {
        let (x, y) = (invested::<T>(tree, i, 0), invested::<T>(tree, i, 1));
        let m = sum_upto(beside(opp, self.blocking@, h), NUM_PREFLOP_CLASSES as nat);
        law_all_chips_are_invested::<T>(tree, i);
        lemma_undo(x, y);
        lemma_undo(y, x);
        lemma_orders(x, y, x);
        lemma_spread_difference(m, T::s_zero(), invested::<T>(tree, i, t));
        lemma_units(m);
    }

    /// What is taken of the pot is at most the cap, and is the rate times the pot where the
    /// cap leaves room for it.
    pub proof fn law_the_pot_is_raked(&self, tree: &FlatTree, i: int)
        requires
            has_order::<T>(),
            is_exact::<T>(),
        ensures
            ({
                let pot = T::s_of(chips_at(tree, i));
                let rake = pot - self.raked(tree, i);
                &&& (self.rake_rate * pot).s_at_most(self.rake_cap) ==> self.raked(tree, i) == pot
                    - self.rake_rate * pot
                &&& rake.s_at_most(self.rake_cap)
                &&& rake.s_at_most(self.rake_rate * pot)
            }),
    {
        let pot = T::s_of(chips_at(tree, i));
        let rake = self.rake_rate * pot;
        let cap = self.rake_cap;
        let taken = if cap.s_below(rake) {
            cap
        } else {
            rake
        };
        lemma_undo(pot, taken);
        lemma_orders(pot - taken, taken, taken);
        lemma_undo(taken, pot - taken);
        assert(pot - (pot - taken) == taken);
        assert(cap.s_at_most(cap) && rake.s_at_most(rake)) by {
            reveal(is_ordered);
        }
        if cap.s_below(rake) {
            assert(cap.s_at_most(rake)) by {
                reveal(is_ordered);
            }
            if rake.s_at_most(cap) {
                lemma_under_cap(rake, cap);
            }
        } else {
            assert(rake.s_at_most(cap)) by {
                reveal(is_ordered);
            }
        }
    }

    /// The value of class `h` at a leaf where both are in, against class `oc` alone.
    pub open spec fn against(&self, t: int, tree: &FlatTree, i: int, h: int, oc: int) -> T {
        versus(self.equity@, h, oc) * self.raked(tree, i) - invested::<T>(tree, i, t)
    }

    /// The value of class `h` where both players are in to the end is the sum, over all
    /// classes of the opponent, of the class's weight times what is won or lost against it.
    pub proof fn law_all_classes_count(
        &self,
        t: int,
        tree: &FlatTree,
        i: int,
        opp: Seq<T>,
        h: int,
    )
        requires
            is_exact::<T>(),
            is_live(tree, i, 1 - t),
            is_live(tree, i, t),
        ensures
            !self.has_cont(tree, i) ==> self.leaf(t, tree, i, opp, h) == sum_upto(
                times(
                    beside(opp, self.blocking@, h),
                    |oc: int| self.against(t, tree, i, h, oc),
                ),
                NUM_PREFLOP_CLASSES as nat,
            ),
            self.has_cont(tree, i) ==> self.leaf(t, tree, i, opp, h) == sum_upto(
                times(
                    beside(opp, self.blocking@, h),
                    |oc: int| versus(self.cont_values(tree, i), h, oc),
                ),
                NUM_PREFLOP_CLASSES as nat,
            ),
    {
        let weight = beside(opp, self.blocking@, h);
        let n = NUM_PREFLOP_CLASSES as nat;
        let put_in = invested::<T>(tree, i, t);
        let f = |oc: int| versus(self.equity@, h, oc).s_times(self.raked(tree, i)).s_minus(put_in);
        let g = |oc: int| self.against(t, tree, i, h, oc);
        assert(f =~= g);
        lemma_worth(weight, f, n);
        lemma_worth(weight, |oc: int| versus(self.cont_values(tree, i), h, oc), n);
    }

    /// Two classes whose equities against each other add up to one win and lose the pot
    /// between them, less the rake.
    pub proof fn law_two_classes_share_the_pot(&self, tree: &FlatTree, i: int, h: int, oc: int)
        requires
            is_rational::<T>(),
            quotients_return::<T>(),
            0 <= tree.starting_pot,
            0 <= tree.contribution(i, 0),
            0 <= tree.contribution(i, 1),
            versus(self.equity@, h, oc) + versus(self.equity@, oc, h) == T::s_one(),
        ensures
            self.against(0, tree, i, h, oc) + self.against(1, tree, i, oc, h) == self.raked(tree, i)
                - T::s_of(chips_at(tree, i)),
    {
        let (e, f) = (versus(self.equity@, h, oc), versus(self.equity@, oc, h));
        let r = self.raked(tree, i);
        let (x, y) = (invested::<T>(tree, i, 0), invested::<T>(tree, i, 1));
        law_all_chips_are_invested::<T>(tree, i);
        lemma_spread(r, e, f);
        lemma_units(r);
        let (p, q) = (e * r, f * r);
        let s = (p - x) + (q - y);
        lemma_pairs(p - x, q - y, x, y);
        lemma_undo(p, x);
        lemma_undo(q, y);
        assert(s + (x + y) == p + q);
        lemma_undo(s, x + y);
    }
}

} // verus!
