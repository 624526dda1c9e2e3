//! What a node is worth, in terms of its children.
use vstd::prelude::*;

use crate::best_response::{
    across, across_played, best_of, reach_after, walk, walk_actions, walk_deals, StrategyProfile,
};
use crate::exact::Exact;
use crate::flop_response_laws::larger_covers;
use crate::flop_start_game::FlopStartGame;
use crate::flop_start_vector_cfr::FlopStartVectorCfr;
use crate::flop_values::{across_mixed, acted, largest_of};
use crate::game::GameSpec;
use crate::layout::at;
use crate::mccfr_steps::weighted;
use crate::preflop_class::NUM_PREFLOP_CLASSES;
use crate::preflop_walk::{is_leaf, Pass};
use crate::scalar::{lemma_sum_ext, sum_upto, Scalar, Widen};
use crate::terminal::TerminalSpot;
use crate::tree::FlatTree;

verus! {

/// The lowest number gives way to every other.
pub open spec fn lowest_gives_way<T: Scalar>() -> bool {
    forall|x: T| #[trigger] T::s_lowest().s_larger(x) == x
}

proof fn lemma_largest_is_one<T: Scalar>(vs: Seq<Seq<T>>, h: int, n: nat) -> (a: int)
    requires
        larger_covers::<T>(),
        lowest_gives_way::<T>(),
        n > 0,
    ensures
        0 <= a < n,
        largest_of(vs, h, n) == vs[a][h],
    decreases n,
{
    let m = (n - 1) as nat;
    reveal(larger_covers);
    let x = vs[n - 1][h];
    assert(largest_of(vs, h, n) == largest_of(vs, h, m).s_larger(x));
    if m == 0 {
        assert(T::s_lowest().s_larger(x) == x);
        n - 1
    } else {
        let a = lemma_largest_is_one(vs, h, m);
        if largest_of(vs, h, n) == x {
            n - 1
        } else {
            a
        }
    }
}

proof fn lemma_best_is_one<T: Scalar>(vs: Seq<Seq<T>>, h: int, n: nat) -> (a: int)
    requires
        n > 0,
        forall|a: int| 0 <= a < n ==> T::s_lowest().s_below(#[trigger] vs[a][h]),
    ensures
        0 <= a < n,
        best_of(vs, h, n) == vs[a][h],
    decreases n,
{
    let m = (n - 1) as nat;
    let x = vs[n - 1][h];
    assert(T::s_lowest().s_below(x));
    if m == 0 {
        assert(best_of(vs, h, m) == T::s_lowest());
        n - 1
    } else {
        let a = lemma_best_is_one(vs, h, m);
        if best_of(vs, h, m).s_below(x) {
            n - 1
        } else {
            a
        }
    }
}

impl<T: Widen> FlopStartVectorCfr<T> {
    /// What each outcome of the deal at node `i` is worth to hand `h`, times its chance.
    pub open spec fn outcome_worths<F: Fn(&TerminalSpot<T>) -> Vec<T>>(
        &self,
        tree: &FlatTree,
        g: FlopStartGame<T, F>,
        target: u8,
        best: bool,
        i: int,
        reach: Seq<Seq<T>>,
        tc: Option<usize>,
        rc: Option<usize>,
        h: int,
    ) -> spec_fn(int) -> T {
        |k: int|
            {
                let (t, r) = Self::next_places(tree.nodes@[i].board_state, k, tc, rc);
                g.s_chance(k, h) * self.value_at(
                    tree,
                    g.s_set(k),
                    target,
                    best,
                    tree.child(i, 0),
                    reach,
                    t,
                    r,
                )[h]
            }
    }

    proof fn lemma_outcomes<F: Fn(&TerminalSpot<T>) -> Vec<T>>(
        &self,
        tree: &FlatTree,
        g: FlopStartGame<T, F>,
        target: u8,
        best: bool,
        i: int,
        reach: Seq<Seq<T>>,
        tc: Option<usize>,
        rc: Option<usize>,
        h: int,
        n: nat,
    )
        requires
            tree.wf(),
            tree.is_edge(i, 0),
            0 <= h < self.nh,
        ensures
            self.deals_at(tree, g, target, best, i, reach, tc, rc, n).len() == self.nh,
            self.deals_at(tree, g, target, best, i, reach, tc, rc, n)[h] == sum_upto(
                self.outcome_worths(tree, g, target, best, i, reach, tc, rc, h),
                n,
            ),
        decreases n,
    {
        if n > 0 {
            self.lemma_outcomes(tree, g, target, best, i, reach, tc, rc, h, (n - 1) as nat);
        }
    }

    /// A deal is worth what its outcomes are worth, each times its chance.
    pub proof fn law_a_deal_is_worth_its_outcomes<F: Fn(&TerminalSpot<T>) -> Vec<T>>(
        &self,
        tree: &FlatTree,
        g: FlopStartGame<T, F>,
        target: u8,
        best: bool,
        i: int,
        reach: Seq<Seq<T>>,
        tc: Option<usize>,
        rc: Option<usize>,
        h: int,
    )
        requires
            tree.wf(),
            tree.is_edge(i, 0),
            tree.nodes@[i].is_chance(),
            !tree.nodes@[i].is_terminal(),
            0 <= h < self.nh,
        ensures
            self.value_at(tree, g, target, best, i, reach, tc, rc)[h] == sum_upto(
                self.outcome_worths(tree, g, target, best, i, reach, tc, rc, h),
                g.s_outcomes() as nat,
            ),
    {
        self.lemma_outcomes(
            tree,
            g,
            target,
            best,
            i,
            reach,
            tc,
            rc,
            h,
            g.s_outcomes() as nat,
        );
    }

    /// What each action at node `i` is worth to hand `h`.
    pub open spec fn action_worths<F: Fn(&TerminalSpot<T>) -> Vec<T>>(
        &self,
        tree: &FlatTree,
        g: FlopStartGame<T, F>,
        target: u8,
        best: bool,
        i: int,
        reach: Seq<Seq<T>>,
        tc: Option<usize>,
        rc: Option<usize>,
        h: int,
    ) -> spec_fn(int) -> T {
        |a: int|
            {
                let p = tree.nodes@[i].player_id as int;
                let next = reach.update(
                    p,
                    acted(reach[p], self.averages(i, tree.arity(i), tc, rc), a),
                );
                self.value_at(tree, g, target, best, tree.child(i, a), next, tc, rc)[h]
            }
    }

    proof fn lemma_action_worths<F: Fn(&TerminalSpot<T>) -> Vec<T>>(
        &self,
        tree: &FlatTree,
        g: FlopStartGame<T, F>,
        target: u8,
        best: bool,
        i: int,
        reach: Seq<Seq<T>>,
        tc: Option<usize>,
        rc: Option<usize>,
        h: int,
        n: nat,
    )
        requires
            tree.wf(),
            tree.is_node(i),
            n <= tree.arity(i),
        ensures
            ({
                let vs = self.actions_at(tree, g, target, best, i, reach, tc, rc, n);
                let f = self.action_worths(tree, g, target, best, i, reach, tc, rc, h);
                &&& vs.len() == n
                &&& forall|a: int| 0 <= a < n ==> #[trigger] vs[a][h] == f(a)
            }),
        decreases n,
    {
        if n > 0 {
            assert(tree.is_edge(i, n - 1));
            self.lemma_action_worths(tree, g, target, best, i, reach, tc, rc, h, (n - 1) as nat);
        }
    }

    /// A decision is worth all its actions to the other players; to its owner it is worth
    /// the actions by how often the average takes them, or the largest of them to one who
    /// plays the best.
    pub proof fn law_a_decision_is_worth_its_actions<F: Fn(&TerminalSpot<T>) -> Vec<T>>(
        &self,
        tree: &FlatTree,
        g: FlopStartGame<T, F>,
        target: u8,
        best: bool,
        i: int,
        reach: Seq<Seq<T>>,
        tc: Option<usize>,
        rc: Option<usize>,
        h: int,
    )
        requires
            larger_covers::<T>(),
            lowest_gives_way::<T>(),
            tree.wf(),
            tree.is_edge(i, 0),
            !tree.nodes@[i].is_terminal(),
            !tree.nodes@[i].is_chance(),
            0 <= h < self.nh,
        ensures
            ({
                let n = tree.arity(i) as nat;
                let x = self.value_at(tree, g, target, best, i, reach, tc, rc)[h];
                let f = self.action_worths(tree, g, target, best, i, reach, tc, rc, h);
                let sigma = self.averages(i, tree.arity(i), tc, rc);
                if tree.nodes@[i].player_id != target {
                    x == sum_upto(f, n)
                } else if best {
                    exists|a: int| 0 <= a < n && x == #[trigger] f(a)
                } else {
                    x == sum_upto(|a: int| sigma(a, h) * f(a), n)
                }
            }),
    {
        let n = tree.arity(i) as nat;
        self.lemma_action_worths(tree, g, target, best, i, reach, tc, rc, h, n);
        let vs = self.actions_at(tree, g, target, best, i, reach, tc, rc, n);
        let f = self.action_worths(tree, g, target, best, i, reach, tc, rc, h);
        let sigma = self.averages(i, tree.arity(i), tc, rc);
        if tree.nodes@[i].player_id != target {
            lemma_sum_ext(across(vs, h), f, n);
        } else if best {
            let a = lemma_largest_is_one(vs, h, n);
            assert(f(a) == vs[a][h]);
        } else {
            let p = across_mixed(vs, sigma, h);
            let q = |a: int| sigma(a, h) * f(a);
            assert forall|a: int| 0 <= a < n implies #[trigger] p(a) == q(a) by {
                assert(vs[a][h] == f(a));
            }
            lemma_sum_ext(p, q, n);
        }
    }
}

/// The game before outcome `k` of the deal at node `i` is walked.
pub open spec fn game_before<T: Widen, G: GameSpec<T>>(
    tree: &FlatTree,
    g: G,
    prof: &StrategyProfile<T>,
    target: u8,
    best: bool,
    i: int,
    reach: Seq<Seq<T>>,
    k: int,
) -> G {
    walk_deals(tree, g, prof, target, best, i, reach, k as nat).1.s_set(k)
}

/// What each outcome of the deal at node `i` is worth to hand `h`, times its chance.
pub open spec fn dealt_worths<T: Widen, G: GameSpec<T>>(
    tree: &FlatTree,
    g: G,
    prof: &StrategyProfile<T>,
    target: u8,
    best: bool,
    i: int,
    reach: Seq<Seq<T>>,
    h: int,
) -> spec_fn(int) -> T {
    |k: int|
        {
            let (w, after) = walk(
                tree,
                game_before(tree, g, prof, target, best, i, reach, k),
                prof,
                target,
                best,
                tree.child(i, 0),
                reach,
            );
            after.s_chance(k, h) * w[h]
        }
}

proof fn lemma_dealt<T: Widen, G: GameSpec<T>>(
    tree: &FlatTree,
    g: G,
    prof: &StrategyProfile<T>,
    target: u8,
    best: bool,
    i: int,
    reach: Seq<Seq<T>>,
    h: int,
    n: nat,
)
    requires
        tree.wf(),
        tree.is_edge(i, 0),
        0 <= h < g.s_hands(target as int),
    ensures
        walk_deals(tree, g, prof, target, best, i, reach, n).0.len() == g.s_hands(target as int),
        walk_deals(tree, g, prof, target, best, i, reach, n).0[h] == sum_upto(
            dealt_worths(tree, g, prof, target, best, i, reach, h),
            n,
        ),
    decreases n,
{
    if n > 0 {
        lemma_dealt(tree, g, prof, target, best, i, reach, h, (n - 1) as nat);
    }
}

/// A node that deals cards is worth what its outcomes are worth, each times its chance.
pub proof fn law_dealing_is_worth_its_outcomes<T: Widen, G: GameSpec<T>>(
    tree: &FlatTree,
    g: G,
    prof: &StrategyProfile<T>,
    target: u8,
    best: bool,
    i: int,
    reach: Seq<Seq<T>>,
    h: int,
)
    requires
        tree.wf(),
        tree.is_node(i),
        tree.arity(i) == 1,
        tree.nodes@[i].is_chance(),
        !tree.nodes@[i].is_terminal(),
        g.s_outcomes() > 0,
        0 <= h < g.s_hands(target as int),
    ensures
        walk(tree, g, prof, target, best, i, reach).0[h] == sum_upto(
            dealt_worths(tree, g, prof, target, best, i, reach, h),
            g.s_outcomes() as nat,
        ),
{
    assert(tree.is_edge(i, 0));
    lemma_dealt(tree, g, prof, target, best, i, reach, h, g.s_outcomes() as nat);
}

/// The target's walk under action `a` of node `i`: what it is worth.
pub open spec fn action_row<T: Widen, G: GameSpec<T>>(
    tree: &FlatTree,
    g: G,
    prof: &StrategyProfile<T>,
    target: u8,
    best: bool,
    i: int,
    reach: Seq<Seq<T>>,
    a: int,
) -> Seq<T> {
    walk(
        tree,
        walk_actions(tree, g, prof, target, best, i, reach, a as nat).1,
        prof,
        target,
        best,
        tree.child(i, a),
        reach_after(tree, prof, i, a, reach),
    ).0
}

/// What each action at node `i` is worth to hand `h`.
pub open spec fn walked_worths<T: Widen, G: GameSpec<T>>(
    tree: &FlatTree,
    g: G,
    prof: &StrategyProfile<T>,
    target: u8,
    best: bool,
    i: int,
    reach: Seq<Seq<T>>,
    h: int,
) -> spec_fn(int) -> T {
    |a: int| action_row(tree, g, prof, target, best, i, reach, a)[h]
}

proof fn lemma_walked<T: Widen, G: GameSpec<T>>(
    tree: &FlatTree,
    g: G,
    prof: &StrategyProfile<T>,
    target: u8,
    best: bool,
    i: int,
    reach: Seq<Seq<T>>,
    n: nat,
)
    requires
        tree.wf(),
        tree.is_node(i),
        n <= tree.arity(i),
    ensures
        walk_actions(tree, g, prof, target, best, i, reach, n).0.len() == n,
        forall|a: int|
            0 <= a < n ==> #[trigger] walk_actions(tree, g, prof, target, best, i, reach, n).0[a]
                == action_row(tree, g, prof, target, best, i, reach, a),
    decreases n,
{
    if n > 0 {
        assert(tree.is_edge(i, n - 1));
        lemma_walked(tree, g, prof, target, best, i, reach, (n - 1) as nat);
    }
}

/// A walked decision is worth all its actions to the other players; to its owner it is worth
/// the actions by how often the profile takes them, or the largest of them to one who plays
/// the best.
pub proof fn law_deciding_is_worth_its_actions<T: Widen, G: GameSpec<T>>(
    tree: &FlatTree,
    g: G,
    prof: &StrategyProfile<T>,
    target: u8,
    best: bool,
    i: int,
    reach: Seq<Seq<T>>,
    h: int,
)
    requires
        tree.wf(),
        tree.is_edge(i, 0),
        !tree.nodes@[i].is_terminal(),
        !tree.nodes@[i].is_chance(),
        0 <= h < g.s_hands(target as int),
        forall|a: int|
            0 <= a < tree.arity(i) ==> T::s_lowest().s_below(
                #[trigger] walked_worths(tree, g, prof, target, best, i, reach, h)(a),
            ),
    ensures
        ({
            let n = tree.arity(i) as nat;
            let x = walk(tree, g, prof, target, best, i, reach).0[h];
            let f = walked_worths(tree, g, prof, target, best, i, reach, h);
            if tree.nodes@[i].player_id != target {
                x == sum_upto(f, n)
            } else if best {
                exists|a: int| 0 <= a < n && x == #[trigger] f(a)
            } else {
                x == sum_upto(|a: int| prof.sigma(i, tree.arity(i), a, h) * f(a), n)
            }
        }),
{
    let n = tree.arity(i) as nat;
    lemma_walked(tree, g, prof, target, best, i, reach, n);
    let vs = walk_actions(tree, g, prof, target, best, i, reach, n).0;
    let f = walked_worths(tree, g, prof, target, best, i, reach, h);
    assert forall|a: int| 0 <= a < n implies #[trigger] f(a) == vs[a][h] by {
        assert(vs[a] == action_row(tree, g, prof, target, best, i, reach, a));
    }
    if tree.nodes@[i].player_id != target {
        lemma_sum_ext(f, across(vs, h), n);
    } else if best {
        assert forall|a: int| 0 <= a < n implies T::s_lowest().s_below(#[trigger] vs[a][h]) by {
            assert(T::s_lowest().s_below(f(a)));
        }
        let a = lemma_best_is_one(vs, h, n);
        assert(f(a) == vs[a][h]);
    } else {
        let p = across_played(prof, i, vs, h);
        let q = |a: int| prof.sigma(i, tree.arity(i), a, h) * f(a);
        assert forall|a: int| 0 <= a < n implies #[trigger] q(a) == p(a) by {
            assert(vs[a][h] == f(a));
        }
        lemma_sum_ext(q, p, n);
    }
}

impl<T: Scalar, V: Fn(usize, u8, &Vec<Vec<T>>) -> Vec<T>> Pass<T, V> {
    /// What each action at node `i` is worth to class `c`.
    pub open spec fn child_worths(&self, tree: &FlatTree, best: bool, i: int, c: int) -> spec_fn(
        int,
    ) -> T {
        |a: int|
            if best {
                self.best(tree, tree.child(i, a))[c]
            } else {
                self.value(tree, tree.child(i, a))[c]
            }
    }

    proof fn lemma_child_worths(&self, tree: &FlatTree, i: int, c: int, n: nat)
        requires
            tree.wf(),
            tree.is_node(i),
            n <= tree.arity(i),
        ensures
            self.values(tree, i, n).len() == n,
            self.bests(tree, i, n).len() == n,
            forall|a: int|
                0 <= a < n ==> #[trigger] self.values(tree, i, n)[a][c] == self.child_worths(
                    tree,
                    false,
                    i,
                    c,
                )(a),
            forall|a: int|
                0 <= a < n ==> #[trigger] self.bests(tree, i, n)[a][c] == self.child_worths(
                    tree,
                    true,
                    i,
                    c,
                )(a),
        decreases n,
    {
        if n > 0 {
            let m = (n - 1) as nat;
            let k: int = n - 1;
            assert(tree.is_edge(i, k));
            assert(tree.edge_ok(i, k));
            self.lemma_child_worths(tree, i, c, m);
            let (vs, ws) = (self.values(tree, i, n), self.bests(tree, i, n));
            let (xs, ys) = (self.values(tree, i, m), self.bests(tree, i, m));
            assert(vs == xs.push(self.value(tree, tree.child(i, k))));
            assert(ws == ys.push(self.best(tree, tree.child(i, k))));
            let (f, g) = (
                self.child_worths(tree, false, i, c),
                self.child_worths(tree, true, i, c),
            );
            assert forall|a: int| 0 <= a < n implies #[trigger] vs[a][c] == f(a) by {
                if a < k {
                    assert(vs[a] == xs[a]);
                    assert(xs[a][c] == f(a));
                }
            }
            assert forall|a: int| 0 <= a < n implies #[trigger] ws[a][c] == g(a) by {
                if a < k {
                    assert(ws[a] == ys[a]);
                    assert(ys[a][c] == g(a));
                }
            }
        }
    }

    /// Before the flop, a decision is worth all its actions to the other players, and to its
    /// owner the actions by how often the strategy takes them.
    pub proof fn law_a_choice_is_worth_its_actions(&self, tree: &FlatTree, i: int, c: int)
        requires
            tree.wf(),
            tree.is_node(i),
            tree.arity(i) >= 0,
            !is_leaf(self.leaves, i),
            !tree.nodes@[i].is_terminal(),
            0 <= c < NUM_PREFLOP_CLASSES,
        ensures
            ({
                let n = tree.arity(i) as nat;
                let f = self.child_worths(tree, false, i, c);
                let s = self.m.strategy_at(tree, i);
                let w = NUM_PREFLOP_CLASSES as int;
                self.value(tree, i)[c] == if tree.nodes@[i].player_id == self.t {
                    sum_upto(|a: int| s[at(w, a, c)] * f(a), n)
                } else {
                    sum_upto(f, n)
                }
            }),
    {
        let n = tree.arity(i) as nat;
        self.lemma_child_worths(tree, i, c, n);
        let vs = self.values(tree, i, n);
        let f = self.child_worths(tree, false, i, c);
        let s = self.m.strategy_at(tree, i);
        let w = NUM_PREFLOP_CLASSES as int;
        if tree.nodes@[i].player_id == self.t {
            let p = weighted(s, w, vs, c);
            let q = |a: int| s[at(w, a, c)] * f(a);
            assert forall|a: int| 0 <= a < n implies #[trigger] p(a) == q(a) by {
                assert(vs[a][c] == f(a));
            }
            lemma_sum_ext(p, q, n);
        } else {
            lemma_sum_ext(across(vs, c), f, n);
        }
    }

    /// The best that the traverser can get before the flop is the largest of its own actions,
    /// and all the actions of anyone else.
    pub proof fn law_the_best_is_one_of_the_actions(&self, tree: &FlatTree, i: int, c: int)
        requires
            tree.wf(),
            tree.is_edge(i, 0),
            !is_leaf(self.leaves, i),
            !tree.nodes@[i].is_terminal(),
            0 <= c < NUM_PREFLOP_CLASSES,
            forall|a: int|
                0 <= a < tree.arity(i) ==> T::s_lowest().s_below(
                    #[trigger] self.child_worths(tree, true, i, c)(a),
                ),
        ensures
            ({
                let n = tree.arity(i) as nat;
                let f = self.child_worths(tree, true, i, c);
                let x = self.best(tree, i)[c];
                if tree.nodes@[i].player_id == self.t {
                    exists|a: int| 0 <= a < n && x == #[trigger] f(a)
                } else {
                    x == sum_upto(f, n)
                }
            }),
    {
        let n = tree.arity(i) as nat;
        self.lemma_child_worths(tree, i, c, n);
        let vs = self.bests(tree, i, n);
        let f = self.child_worths(tree, true, i, c);
        if tree.nodes@[i].player_id == self.t {
            assert forall|a: int| 0 <= a < n implies T::s_lowest().s_below(
                #[trigger] vs[a][c],
            ) by {
                assert(T::s_lowest().s_below(f(a)));
            }
            let a = lemma_best_is_one(vs, c, n);
            assert(f(a) == vs[a][c]);
        } else {
            lemma_sum_ext(across(vs, c), f, n);
        }
    }
}

} // verus!
