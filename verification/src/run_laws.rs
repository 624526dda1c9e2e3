//! What a run of the solvers gives back: the mean of all its iterations.
use vstd::prelude::*;

use crate::bucketed_flop_cfr::BucketedFlopCfr;
use crate::buckets::FlopBucketing;
use crate::exact::Exact;
use crate::exploit_laws::quotients_return;
use crate::flop_run::{plus_rows, Play};
use crate::flop_start_game::FlopChanceTable;
use crate::flop_start_vector_cfr::FlopStartVectorCfr;
use crate::learn::{discounts, DcfrParams};
use crate::rows::over_count;
use crate::scalar::{lemma_sum_ext, sum_upto, Scalar, Widen};
use crate::terminal::TerminalSpot;
use crate::tree::FlatTree;

verus! {

/// What each iteration gave player `p` with hand `h`.
pub open spec fn by_iteration<T>(rounds: Seq<Seq<Seq<T>>>, p: int, h: int) -> spec_fn(int) -> T {
    |k: int| rounds[k][p][h]
}

/// The rows are what all the iterations add up to.
pub open spec fn has_all_rounds<T: Scalar>(
    sums: Seq<Seq<T>>,
    rounds: Seq<Seq<Seq<T>>>,
    np: int,
    nh: int,
) -> bool {
    &&& sums.len() == np
    &&& forall|p: int| 0 <= p < np ==> (#[trigger] sums[p]).len() == nh
    &&& forall|p: int, h: int|
        0 <= p < np && 0 <= h < nh ==> #[trigger] sums[p][h] == sum_upto(
            by_iteration(rounds, p, h),
            rounds.len(),
        )
}

proof fn lemma_one_round_more<T: Scalar>(
    prev: Seq<Seq<T>>,
    rounds: Seq<Seq<Seq<T>>>,
    roots: Seq<Seq<T>>,
    np: int,
    nh: int,
)
    requires
        has_all_rounds(prev, rounds, np, nh),
    ensures
        has_all_rounds(plus_rows(prev, roots), rounds.push(roots), np, nh),
{
    let all = rounds.push(roots);
    let sums = plus_rows(prev, roots);
    let n = rounds.len();
    assert forall|p: int| 0 <= p < np implies (#[trigger] sums[p]).len() == nh by {
        assert(prev[p].len() == nh);
    }
    assert forall|p: int, h: int| 0 <= p < np && 0 <= h < nh implies #[trigger] sums[p][h]
        == sum_upto(by_iteration(all, p, h), all.len()) by {
        let f = by_iteration(rounds, p, h);
        let g = by_iteration(all, p, h);
        assert(prev[p].len() == nh);
        assert(prev[p][h] == sum_upto(f, n));
        assert forall|k: int| 0 <= k < n implies #[trigger] f(k) == g(k) by {
            assert(all[k] == rounds[k]);
        }
        lemma_sum_ext(f, g, n);
        assert(all[n as int] == roots);
        assert(sum_upto(g, all.len()) == sum_upto(g, n) + g(n as int));
    }
}

/// The mean of the iterations: times their number it is what they add up to.
pub proof fn law_a_run_gives_the_mean<T: Scalar>(
    sums: Seq<Seq<T>>,
    rounds: Seq<Seq<Seq<T>>>,
    np: int,
    nh: int,
    p: int,
    h: int,
)
    requires
        quotients_return::<T>(),
        T::s_zero().s_below(T::s_of(rounds.len() as int)),
        has_all_rounds(sums, rounds, np, nh),
        0 <= p < np,
        0 <= h < nh,
    ensures
        over_count(sums[p], rounds.len() as int)[h] * T::s_of(rounds.len() as int) == sum_upto(
            by_iteration(rounds, p, h),
            rounds.len(),
        ),
{
    assert(sums[p].len() == nh);
    assert(sums[p][h] == sum_upto(by_iteration(rounds, p, h), rounds.len()));
    reveal(quotients_return);
}

impl<T: Widen> FlopStartVectorCfr<T> {
    /// The root values that every traverser's pass of one iteration gives.
    pub open spec fn is_round<F: Fn(&TerminalSpot<T>) -> Vec<T>>(
        tree: &FlatTree,
        table: &FlopChanceTable<T>,
        showdown: &F,
        play: &Play<T>,
        roots: Seq<Seq<T>>,
    ) -> bool {
        exists|a: Self, b: Self, p: DcfrParams<T>| #[trigger]
            a.round_done(tree, table, showdown, p, play, roots, &b, tree.np() as nat)
    }

    /// The sums of a run are what all its iterations give.
    pub proof fn law_iterations_add_up<F: Fn(&TerminalSpot<T>) -> Vec<T>>(
        &self,
        tree: &FlatTree,
        table: &FlopChanceTable<T>,
        showdown: &F,
        play: &Play<T>,
        sums: Seq<Seq<T>>,
        s: &Self,
        n: nat,
    ) -> (rounds: Seq<Seq<Seq<T>>>)
        requires
            tree.wf(),
            self.iterated(tree, table, showdown, play, sums, s, n),
        ensures
            rounds.len() == n,
            forall|k: int|
                0 <= k < n ==> Self::is_round(tree, table, showdown, play, #[trigger] rounds[k]),
            has_all_rounds(sums, rounds, tree.np(), self.nh as int),
        decreases n,
    {
        if n == 0 {
            Seq::empty()
        } else {
            let m = (n - 1) as nat;
            let (sm, prev, p, roots) = choose|
                sm: Self,
                prev: Seq<Seq<T>>,
                p: DcfrParams<T>,
                roots: Seq<Seq<T>>,
            |
                {
                    &&& self.iterated(tree, table, showdown, play, prev, &sm, m)
                    &&& sm.is_due(p)
                    &&& #[trigger] sm.counted().round_done(
                        tree,
                        table,
                        showdown, p, play, roots,
                        s,
                        tree.np() as nat,
                    )
                    &&& sums == #[trigger] plus_rows(prev, roots)
                };
            let rounds = self.law_iterations_add_up(tree, table, showdown, play, prev, &sm, m);
            lemma_one_round_more(prev, rounds, roots, tree.np(), self.nh as int);
            assert(Self::is_round(tree, table, showdown, play, roots));
            let all = rounds.push(roots);
            assert forall|k: int| 0 <= k < n implies Self::is_round(
                tree,
                table,
                showdown, play, #[trigger] all[k],
            ) by {
                if k < m {
                    assert(all[k] == rounds[k]);
                }
            }
            all
        }
    }
}

impl<T: Widen> BucketedFlopCfr<T> {
    /// The root values that every traverser's pass of one iteration gives.
    pub open spec fn is_round(
        tree: &FlatTree,
        table: &FlopChanceTable<T>,
        bk: &FlopBucketing<T>,
        roots: Seq<Seq<T>>,
    ) -> bool {
        exists|a: Self, b: Self, p: DcfrParams<T>| #[trigger]
            a.round_done(tree, table, bk, p, roots, &b, tree.np() as nat)
    }

    /// The sums of a run are what all its iterations give.
    pub proof fn law_iterations_add_up(
        &self,
        tree: &FlatTree,
        table: &FlopChanceTable<T>,
        bk: &FlopBucketing<T>,
        sums: Seq<Seq<T>>,
        s: &Self,
        n: nat,
    ) -> (rounds: Seq<Seq<Seq<T>>>)
        requires
            tree.wf(),
            self.iterated(tree, table, bk, sums, s, n),
        ensures
            rounds.len() == n,
            forall|k: int|
                0 <= k < n ==> Self::is_round(tree, table, bk, #[trigger] rounds[k]),
            has_all_rounds(sums, rounds, tree.np(), self.nh as int),
        decreases n,
    {
        if n == 0 {
            Seq::empty()
        } else {
            let m = (n - 1) as nat;
            let (sm, prev, p, roots) = choose|
                sm: Self,
                prev: Seq<Seq<T>>,
                p: DcfrParams<T>,
                roots: Seq<Seq<T>>,
            |
                {
                    &&& self.iterated(tree, table, bk, prev, &sm, m)
                    &&& (p.alpha(), p.beta(), p.gamma()) == discounts::<T>(sm.iteration as int)
                    &&& #[trigger] sm.counted().round_done(
                        tree,
                        table,
                        bk, p, roots,
                        s,
                        tree.np() as nat,
                    )
                    &&& sums == #[trigger] plus_rows(prev, roots)
                };
            let rounds = self.law_iterations_add_up(tree, table, bk, prev, &sm, m);
            lemma_one_round_more(prev, rounds, roots, tree.np(), self.nh as int);
            assert(Self::is_round(tree, table, bk, roots));
            let all = rounds.push(roots);
            assert forall|k: int| 0 <= k < n implies Self::is_round(
                tree,
                table,
                bk, #[trigger] all[k],
            ) by {
                if k < m {
                    assert(all[k] == rounds[k]);
                }
            }
            all
        }
    }
}

} // verus!
