//! Values, best responses and exploitability of what a flop-start solver has
//! learned.
use vstd::prelude::*;

use crate::bank::room;
use crate::best_response::{
    across, first_reach, plain_share, plain_shares, row_after, starting_reach,
};
use crate::flop_start_game::FlopStartGame;
use crate::flop_start_vector_cfr::FlopStartVectorCfr;
use crate::game::GameSpec;
use crate::layout::{at, flat, lemma_at_bound, lemma_row_inside, row_copy};
use crate::rows::{plus_weighted, weighted_sum};
use crate::scalar::{filled, sum_upto, Scalar, Widen};
use crate::terminal::{views, TerminalSpot};
use crate::tree::{BOARD_RIVER, BOARD_TURN, FlatTree, MAX_NA_POSTFLOP, UNUSED};
use crate::zones::{zone_of, Zone, ZoneBook};

verus! {

/// The zone in which `n` cards have been dealt.
pub open spec fn zone_after(n: int) -> Zone {
    if n <= 0 {
        Zone::Flop
    } else if n == 1 {
        Zone::Turn
    } else {
        Zone::River
    }
}

/// From node `i` on, where `n` cards have been dealt, the tree deals the turn
/// first, then the river, and nothing else.
pub open spec fn streets_fit(tree: &FlatTree, i: int, n: int) -> bool
    decreases tree.max_depth + 1 - tree.level(i),
    when tree.wf() && tree.is_node(i)
{
    let deals = tree.nodes@[i].is_chance();
    &&& zone_of(tree, i) == zone_after(n)
    &&& deals ==> 0 <= n < 2 && tree.nodes@[i].board_state == n + 1
    &&& forall|a: int| #[trigger]
        tree.is_edge(i, a) ==> streets_fit(
            tree,
            tree.child(i, a),
            if deals {
                n + 1
            } else {
                n
            },
        )
}

/// An optional place, zero where there is none.
pub open spec fn or_zero(o: Option<usize>) -> int {
    match o {
        Some(k) => k as int,
        None => 0,
    }
}

/// Column `h` of the children's values, each times the probability of its
/// action.
pub open spec fn across_mixed<T: Scalar>(
    vs: Seq<Seq<T>>,
    sigma: spec_fn(int, int) -> T,
    h: int,
) -> spec_fn(int) -> T {
    |a: int| sigma(a, h).s_times(vs[a][h])
}

/// The largest of the first `n` children's values of hand `h`.
pub open spec fn largest_of<T: Scalar>(vs: Seq<Seq<T>>, h: int, n: nat) -> T
    decreases n,
{
    if n == 0 {
        T::s_lowest()
    } else {
        largest_of(vs, h, (n - 1) as nat).s_larger(vs[n - 1][h])
    }
}

/// The value of a player node from its children's values `vs`: the owner's best
/// child or strategy mix, or for anyone else the sum.
pub open spec fn settled_by<T: Scalar>(
    own: bool,
    best: bool,
    nh: int,
    vs: Seq<Seq<T>>,
    sigma: spec_fn(int, int) -> T,
) -> Seq<T> {
    Seq::new(
        nh as nat,
        |h: int|
            if !own {
                sum_upto(across(vs, h), vs.len())
            } else if best {
                largest_of(vs, h, vs.len())
            } else {
                sum_upto(across_mixed(vs, sigma, h), vs.len())
            },
    )
}

/// A row of reach times the probabilities of action `a`.
pub open spec fn acted<T: Scalar>(raw: Seq<T>, sigma: spec_fn(int, int) -> T, a: int) -> Seq<T> {
    Seq::new(raw.len(), |h: int| raw[h].s_times(sigma(a, h)))
}

/// The chances of outcome `k` of the next deal, by hand.
pub open spec fn chances_now<T: Widen, G: GameSpec<T>>(g: &G, k: int, nh: int) -> Seq<T> {
    Seq::new(nh as nat, |h: int| g.s_chance(k, h))
}

impl<T: Widen> FlopStartVectorCfr<T> {
    /// Where the accumulated strategy of node `i` starts.
    pub open spec fn cum_base(&self, i: int, tc: Option<usize>, rc: Option<usize>) -> int {
        let z = self.zones@[i];
        at(
            self.bank(z).infosets as int,
            self.outcome(z, or_zero(tc), or_zero(rc)),
            self.book(z).local(i),
        ) * room(self.nh as int)
    }

    /// The average probability of action `a` of `na` for hand `h` at node `i`.
    pub open spec fn average(
        &self,
        i: int,
        na: int,
        tc: Option<usize>,
        rc: Option<usize>,
        a: int,
        h: int,
    ) -> T {
        let z = self.zones@[i];
        if self.book(z).local_offset@[i] == UNUSED {
            T::s_one().s_over(T::s_of(na))
        } else {
            plain_share(self.bank(z).cum@, self.cum_base(i, tc, rc), self.nh as int, na, a, h)
        }
    }

    /// [`FlopStartVectorCfr::average`] by action and hand.
    pub open spec fn averages(&self, i: int, na: int, tc: Option<usize>, rc: Option<usize>) -> spec_fn(
        int,
        int,
    ) -> T {
        |a: int, h: int| self.average(i, na, tc, rc, a, h)
    }

    /// The average strategy at a node, one row of hands per action.
    fn get_strategy_for_outcome(
        &self,
        tree: &FlatTree,
        node_idx: usize,
        na: usize,
        tc: Option<usize>,
        rc: Option<usize>,
    ) -> (s: Vec<T>)
        requires
            self.wf(tree),
            self.river_mode.in_memory(),
            tree.is_node(node_idx as int),
            self.zones@[node_idx as int] != Zone::Preflop,
            self.holds_outcome(self.zones@[node_idx as int], or_zero(tc), or_zero(rc)),
            na <= MAX_NA_POSTFLOP,
        ensures
            s@.len() == na * self.nh,
            forall|a: int, h: int|
                0 <= a < na && 0 <= h < self.nh ==> #[trigger] s@[at(self.nh as int, a, h)]
                    == self.average(node_idx as int, na as int, tc, rc, a, h),
    {
        let ghost i = node_idx as int;
        let zone = self.zones[node_idx];
        let nh: usize = self.nh;
        proof {
            assert(na * nh <= 8 * 1326) by (nonlinear_arith)
                requires
                    na <= 8,
                    nh <= 1326,
            ;
        }
        let t: usize = match tc {
            Some(k) => k,
            None => 0,
        };
        let r: usize = match rc {
            Some(k) => k,
            None => 0,
        };
        let (book, bank, o) = match zone {
            Zone::Turn => (&self.turn_book, &self.turn, t),
            Zone::River => (&self.river_book, &self.river, self.river_place(t, r)),
            _ => (&self.flop_book, &self.flop, 0usize),
        };
        let local: usize = book.local_offset[node_idx];
        if local == UNUSED {
            let uniform = T::one().over(T::of_usize(na));
            let s = filled(uniform, na * nh);
            proof {
                assert forall|a: int, h: int| 0 <= a < na && 0 <= h < nh implies #[trigger] s@[at(
                    nh as int,
                    a,
                    h,
                )] == self.average(i, na as int, tc, rc, a, h) by {
                    lemma_at_bound(nh as int, na as int, a, h);
                }
            }
            s
        } else {
            let ghost count = bank.infosets as int;
            let ghost big = room(nh as int);
            let len: usize = bank.cum.len();
            proof {
                self.lemma_outcome(tree, zone, or_zero(tc), or_zero(rc));
                if !ZoneBook::owns(tree, self.zones@, zone, i) {
                    assert(book.local_offset@[i] == UNUSED);
                }
                book.lemma_local(tree, self.zones@, zone, i);
                lemma_at_bound(count, bank.outcomes as int, o as int, local as int);
                lemma_row_inside(big, bank.outcomes * count, at(count, o as int, local as int));
                assert(na * nh <= big) by (nonlinear_arith)
                    requires
                        na <= 8,
                        big == 8 * nh,
                ;
            }
            let base: usize = (o * bank.infosets + local) * (MAX_NA_POSTFLOP * nh);
            plain_shares(bank.cum.as_slice(), base, na, nh)
        }
    }

    /// The average strategy of one hand at a node, by action.
    pub fn avg_action_dist(
        &self,
        tree: &FlatTree,
        node_idx: usize,
        na: usize,
        tc: Option<usize>,
        rc: Option<usize>,
        hand: usize,
    ) -> (dist: Vec<T>)
        requires
            self.wf(tree),
            self.river_mode.in_memory(),
            tree.is_node(node_idx as int),
            self.zones@[node_idx as int] != Zone::Preflop,
            self.holds_outcome(self.zones@[node_idx as int], or_zero(tc), or_zero(rc)),
            na <= MAX_NA_POSTFLOP,
            hand < self.nh,
        ensures
            dist@ == Seq::new(
                na as nat,
                |a: int| self.average(node_idx as int, na as int, tc, rc, a, hand as int),
            ),
    {
        let s = self.get_strategy_for_outcome(tree, node_idx, na, tc, rc);
        let len: usize = s.len();
        let mut dist: Vec<T> = Vec::new();
        let mut a: usize = 0;
        while a < na
            invariant
                a <= na,
                hand < self.nh,
                len == s@.len(),
                s@.len() == na * self.nh,
                forall|c: int, h: int|
                    0 <= c < na && 0 <= h < self.nh ==> #[trigger] s@[at(self.nh as int, c, h)]
                        == self.average(node_idx as int, na as int, tc, rc, c, h),
                dist@.len() == a,
                forall|c: int|
                    0 <= c < a ==> #[trigger] dist@[c] == self.average(
                        node_idx as int,
                        na as int,
                        tc,
                        rc,
                        c,
                        hand as int,
                    ),
            decreases na - a,
        {
            proof {
                lemma_at_bound(self.nh as int, na as int, a as int, hand as int);
                assert(s@[at(self.nh as int, a as int, hand as int)] == self.average(
                    node_idx as int,
                    na as int,
                    tc,
                    rc,
                    a as int,
                    hand as int,
                ));
            }
            dist.push(s[a * self.nh + hand]);
            a += 1;
        }
        assert(dist@ =~= Seq::new(
            na as nat,
            |a: int| self.average(node_idx as int, na as int, tc, rc, a, hand as int),
        ));
        dist
    }

    /// The places of the deals after a deal of `street` brought outcome `k`.
    pub open spec fn next_places(
        street: u8,
        k: int,
        tc: Option<usize>,
        rc: Option<usize>,
    ) -> (Option<usize>, Option<usize>) {
        if street == BOARD_TURN {
            (Some(k as usize), rc)
        } else if street == BOARD_RIVER {
            (tc, Some(k as usize))
        } else {
            (tc, rc)
        }
    }

    /// The target's values at node `i`: everyone plays the average, the target
    /// with `best` its best actions.
    pub open spec fn value_at<F: Fn(&TerminalSpot<T>) -> Vec<T>>(
        &self,
        tree: &FlatTree,
        g: FlopStartGame<T, F>,
        target: u8,
        best: bool,
        i: int,
        reach: Seq<Seq<T>>,
        tc: Option<usize>,
        rc: Option<usize>,
    ) -> Seq<T>
        decreases tree.max_depth + 1 - tree.level(i), 1int, 0int,
        when tree.wf() && tree.is_node(i)
    {
        let n = tree.nodes@[i];
        if n.is_terminal() {
            g.s_terminal(target, i, tree, reach)
        } else if tree.arity(i) == 0 {
            flat(T::s_zero(), self.nh as int)
        } else if n.is_chance() {
            self.deals_at(tree, g, target, best, i, reach, tc, rc, g.s_outcomes() as nat)
        } else {
            settled_by(
                n.player_id == target,
                best,
                self.nh as int,
                self.actions_at(
                    tree,
                    g,
                    target,
                    best,
                    i,
                    reach,
                    tc,
                    rc,
                    tree.arity(i) as nat,
                ),
                self.averages(i, tree.arity(i), tc, rc),
            )
        }
    }

    /// What the first `n` outcomes of the deal at node `i` are worth, weighted
    /// by their chances and added up.
    pub open spec fn deals_at<F: Fn(&TerminalSpot<T>) -> Vec<T>>(
        &self,
        tree: &FlatTree,
        g: FlopStartGame<T, F>,
        target: u8,
        best: bool,
        i: int,
        reach: Seq<Seq<T>>,
        tc: Option<usize>,
        rc: Option<usize>,
        n: nat,
    ) -> Seq<T>
        decreases tree.max_depth + 1 - tree.level(i), 0int, n,
        when tree.wf() && tree.is_node(i)
    {
        if n == 0 || !tree.is_edge(i, 0) {
            flat(T::s_zero(), self.nh as int)
        } else {
            let k = n - 1;
            let (t, r) = Self::next_places(tree.nodes@[i].board_state, k, tc, rc);
            plus_weighted(
                self.deals_at(tree, g, target, best, i, reach, tc, rc, k as nat),
                chances_now(&g, k, self.nh as int),
                self.value_at(
                    tree,
                    g.s_set(k),
                    target,
                    best,
                    tree.child(i, 0),
                    reach,
                    t,
                    r,
                ),
            )
        }
    }

    /// The values of the first `n` actions at player node `i`.
    pub open spec fn actions_at<F: Fn(&TerminalSpot<T>) -> Vec<T>>(
        &self,
        tree: &FlatTree,
        g: FlopStartGame<T, F>,
        target: u8,
        best: bool,
        i: int,
        reach: Seq<Seq<T>>,
        tc: Option<usize>,
        rc: Option<usize>,
        n: nat,
    ) -> Seq<Seq<T>>
        decreases tree.max_depth + 1 - tree.level(i), 0int, n,
        when tree.wf() && tree.is_node(i) && n <= tree.arity(i)
    {
        if n == 0 || !tree.is_edge(i, n - 1) {
            Seq::empty()
        } else {
            let a = n - 1;
            let p = tree.nodes@[i].player_id as int;
            let next = reach.update(
                p,
                acted(reach[p], self.averages(i, tree.arity(i), tc, rc), a),
            );
            self.actions_at(tree, g, target, best, i, reach, tc, rc, a as nat).push(
                self.value_at(tree, g, target, best, tree.child(i, a), next, tc, rc),
            )
        }
    }

    /// The deals of the game so far are those that the places name.
    pub open spec fn in_step<F: Fn(&TerminalSpot<T>) -> Vec<T>>(
        &self,
        g: &FlopStartGame<T, F>,
        n: int,
        tc: Option<usize>,
        rc: Option<usize>,
    ) -> bool {
        &&& 0 <= n <= 2
        &&& if n == 0 {
            g.current_turn_card is None && g.current_river_card is None
        } else {
            &&& tc matches Some(t) && t < self.n_turn && g.current_turn_card == Some(
                g.table.remaining_deck@[t as int],
            )
            &&& if n == 1 {
                g.current_river_card is None
            } else {
                rc matches Some(r) && r < self.river_counts@[tc->0 as int]
                    && g.current_river_card is Some
            }
        }
    }

    /// The game is this solver's, on this tree.
    pub open spec fn plays<F: Fn(&TerminalSpot<T>) -> Vec<T>>(
        &self,
        tree: &FlatTree,
        g: &FlopStartGame<T, F>,
    ) -> bool {
        &&& self.wf(tree)
        &&& self.river_mode.in_memory()
        &&& self.is_for(&g.table)
        &&& g.s_valid()
    }

    /// Computes [`FlopStartVectorCfr::value_at`]; the game is left as it was.
    fn walk_node<F: Fn(&TerminalSpot<T>) -> Vec<T>>(
        &self,
        tree: &FlatTree,
        game: &mut FlopStartGame<T, F>,
        target_player: u8,
        best: bool,
        node_idx: usize,
        cfreach: &mut Vec<Vec<T>>,
        tc: Option<usize>,
        rc: Option<usize>,
        Ghost(n): Ghost<int>,
    ) -> (values: Vec<T>)
        requires
            self.plays(tree, &*old(game)),
            tree.is_node(node_idx as int),
            streets_fit(tree, node_idx as int, n),
            self.in_step(&*old(game), n, tc, rc),
            target_player < tree.num_players,
            old(cfreach)@.len() == tree.np(),
            forall|p: int| 0 <= p < tree.np() ==> (#[trigger] old(cfreach)@[p])@.len() == self.nh,
        ensures
            *final(game) == *old(game),
            views(final(cfreach)@) == views(old(cfreach)@),
            values@.len() == self.nh,
            values@ == self.value_at(
                tree,
                *old(game),
                target_player,
                best,
                node_idx as int,
                views(old(cfreach)@),
                tc,
                rc,
            ),
        decreases tree.max_depth + 1 - tree.level(node_idx as int),
    {
        let ghost i = node_idx as int;
        let ghost g0 = *game;
        let ghost reach = views(cfreach@);
        let nh: usize = self.nh;
        let node = tree.nodes[node_idx];
        assert(tree.node_ok(i));
        if node.is_terminal() {
            return game.evaluate_terminal(target_player, node_idx, tree, cfreach);
        }
        let na: usize = node.num_children as usize;
        if na == 0 {
            let zeros = filled(T::zero(), nh);
            assert(zeros@ =~= flat(T::s_zero(), nh as int));
            return zeros;
        }
        let children = tree.node_children(node_idx);
        if node.is_chance() {
            let mut cfv: Vec<T> = filled(T::zero(), nh);
            assert(cfv@ =~= flat(T::s_zero(), nh as int));
            let outcomes: usize = game.num_chance_outcomes();
            proof {
                assert(tree.is_edge(i, 0));
                assert(tree.edge_ok(i, 0));
                assert(streets_fit(tree, tree.child(i, 0), n + 1));
                if n == 1 {
                    assert(self.river_counts@[tc->0 as int]
                        == g0.table.river_decks@[g0.table.remaining_deck@[tc->0 as int] as int]@.len());
                }
            }
            let child: usize = children[0] as usize;
            let mut k: usize = 0;
            while k < outcomes
                invariant
                    k <= outcomes,
                    i == node_idx,
                    nh == self.nh,
                    tree.is_edge(i, 0),
                    tree.edge_ok(i, 0),
                    child == tree.child(i, 0),
                    node == tree.nodes@[i],
                    node.board_state == n + 1,
                    0 <= n < 2,
                    streets_fit(tree, tree.child(i, 0), n + 1),
                    self.plays(tree, &g0),
                    self.in_step(&g0, n, tc, rc),
                    g0.current_river_card is None,
                    n == 1 ==> self.river_counts@[tc->0 as int] == outcomes,
                    n == 0 ==> self.n_turn == outcomes,
                    outcomes == g0.s_outcomes(),
                    *game == (if k == 0 {
                        g0
                    } else {
                        g0.s_set(k - 1)
                    }),
                    target_player < tree.num_players,
                    views(cfreach@) == reach,
                    cfreach@.len() == tree.np(),
                    forall|p: int| 0 <= p < tree.np() ==> (#[trigger] cfreach@[p])@.len() == self.nh,
                    cfv@.len() == nh,
                    cfv@ == self.deals_at(
                        tree,
                        g0,
                        target_player,
                        best,
                        i,
                        reach,
                        tc,
                        rc,
                        k as nat,
                    ),
                decreases outcomes - k,
            {
                if k > 0 {
                    proof {
                        g0.lemma_set(k - 1);
                    }
                    game.clear_chance_outcome();
                }
                assert(*game == g0);
                let mut probs: Vec<T> = Vec::new();
                let mut h: usize = 0;
                while h < nh
                    invariant
                        h <= nh,
                        nh == self.nh,
                        *game == g0,
                        self.plays(tree, &g0),
                        k < outcomes,
                        outcomes == g0.s_outcomes(),
                        probs@.len() == h,
                        forall|j: int|
                            0 <= j < h ==> #[trigger] probs@[j] == g0.s_chance(k as int, j),
                    decreases nh - h,
                {
                    assert(0 <= 0 < g0.s_players() && h < g0.s_hands(0));
                    probs.push(game.chance_probability(k, h));
                    h += 1;
                }
                assert(probs@ =~= chances_now(&g0, k as int, nh as int));
                proof {
                    g0.lemma_set(k as int);
                }
                game.set_chance_outcome(k);
                let (t, r) = if node.board_state == BOARD_TURN {
                    (Some(k), rc)
                } else if node.board_state == BOARD_RIVER {
                    (tc, Some(k))
                } else {
                    (tc, rc)
                };
                let w = self.walk_node(
                    tree,
                    game,
                    target_player,
                    best,
                    child,
                    cfreach,
                    t,
                    r,
                    Ghost(n + 1),
                );
                proof {
                    assert(cfreach@.len() == reach.len());
                    assert forall|p: int| 0 <= p < tree.np() implies (#[trigger] cfreach@[p])@.len()
                        == self.nh by {
                        assert(views(cfreach@)[p] == reach[p]);
                    }
                }
                let ghost before = cfv@;
                cfv = weighted_sum(&cfv, &probs, &w);
                k += 1;
            }
            if outcomes > 0 {
                proof {
                    g0.lemma_set(outcomes - 1);
                }
                game.clear_chance_outcome();
            }
            return cfv;
        }
        let player: usize = node.player_id as usize;
        proof {
            assert(tree.nodes@[i].is_player());
            assert(self.zones@[i] == zone_of(tree, i));
        }
        let sigma = self.get_strategy_for_outcome(tree, node_idx, na, tc, rc);
        let ghost sig = self.averages(i, na as int, tc, rc);
        let mut cfv_all: Vec<Vec<T>> = Vec::new();
        assert(views(cfv_all@) =~= Seq::<Seq<T>>::empty());
        let mut a: usize = 0;
        while a < na
            invariant
                a <= na,
                i == node_idx,
                nh == self.nh,
                tree.is_node(i),
                !tree.nodes@[i].is_chance(),
                streets_fit(tree, i, n),
                na == tree.arity(i),
                player == tree.nodes@[i].player_id,
                player < tree.np(),
                children@.len() == na,
                forall|c: int| 0 <= c < na ==> (#[trigger] children@[c]) as int == tree.child(i, c),
                self.plays(tree, &g0),
                self.in_step(&g0, n, tc, rc),
                *game == g0,
                target_player < tree.num_players,
                sigma@.len() == na * nh,
                sig == self.averages(i, na as int, tc, rc),
                forall|c: int, h: int|
                    0 <= c < na && 0 <= h < nh ==> #[trigger] sigma@[at(nh as int, c, h)] == sig(
                        c,
                        h,
                    ),
                views(cfreach@) == reach,
                cfreach@.len() == tree.np(),
                forall|p: int| 0 <= p < tree.np() ==> (#[trigger] cfreach@[p])@.len() == self.nh,
                cfv_all@.len() == a,
                forall|c: int| 0 <= c < a ==> (#[trigger] cfv_all@[c])@.len() == nh,
                views(cfv_all@) == self.actions_at(
                    tree,
                    g0,
                    target_player,
                    best,
                    i,
                    reach,
                    tc,
                    rc,
                    a as nat,
                ),
            decreases na - a,
        {
            proof {
                assert(tree.is_edge(i, a as int));
                assert(tree.edge_ok(i, a as int));
                assert(streets_fit(tree, tree.child(i, a as int), n));
                assert(cfreach@[player as int]@ == reach[player as int]);
            }
            let child: usize = children[a] as usize;
            let saved = row_copy(&cfreach[player]);
            let next = row_after(&saved, &sigma, a, na);
            proof {
                assert(next@ =~= acted(reach[player as int], sig, a as int)) by {
                    assert forall|h: int| 0 <= h < nh implies next@[h] == acted(
                        reach[player as int],
                        sig,
                        a as int,
                    )[h] by {
                        assert(sigma@[at(nh as int, a as int, h)] == sig(a as int, h));
                    }
                }
            }
            cfreach[player] = next;
            let ghost mid = reach.update(
                player as int,
                acted(reach[player as int], sig, a as int),
            );
            proof {
                assert(views(cfreach@) =~= mid);
            }
            let ghost before = views(cfv_all@);
            let w = self.walk_node(
                tree,
                game,
                target_player,
                best,
                child,
                cfreach,
                tc,
                rc,
                Ghost(n),
            );
            proof {
                assert(cfreach@.len() == reach.len());
                assert forall|p: int| 0 <= p < reach.len() implies (#[trigger] cfreach@[p])@
                    == mid[p] by {
                    assert(views(cfreach@)[p] == mid[p]);
                }
            }
            let ghost ws = w@;
            cfreach[player] = saved;
            assert(views(cfreach@) =~= reach);
            cfv_all.push(w);
            assert(views(cfv_all@) =~= before.push(ws));
            a += 1;
        }
        settle(player == target_player as usize, best, nh, &cfv_all, &sigma, Ghost(sig))
    }
}

/// Computes [`settled_by`].
fn settle<T: Scalar>(
    own: bool,
    best: bool,
    nh: usize,
    vs: &Vec<Vec<T>>,
    sigma: &Vec<T>,
    Ghost(sig): Ghost<spec_fn(int, int) -> T>,
) -> (out: Vec<T>)
    requires
        forall|a: int| 0 <= a < vs@.len() ==> (#[trigger] vs@[a])@.len() == nh,
        sigma@.len() == vs@.len() * nh,
        forall|a: int, h: int|
            0 <= a < vs@.len() && 0 <= h < nh ==> #[trigger] sigma@[at(nh as int, a, h)] == sig(
                a,
                h,
            ),
    ensures
        out@ == settled_by(own, best, nh as int, views(vs@), sig),
        out@.len() == nh,
{
    let ghost vv = views(vs@);
    let total: usize = sigma.len();
    let mut out: Vec<T> = Vec::new();
    let mut h: usize = 0;
    while h < nh
        invariant
            h <= nh,
            vv == views(vs@),
            total == sigma@.len(),
            forall|a: int| 0 <= a < vs@.len() ==> (#[trigger] vs@[a])@.len() == nh,
            sigma@.len() == vs@.len() * nh,
            forall|a: int, k: int|
                0 <= a < vs@.len() && 0 <= k < nh ==> #[trigger] sigma@[at(nh as int, a, k)] == sig(
                    a,
                    k,
                ),
            out@.len() == h,
            forall|k: int|
                0 <= k < h ==> #[trigger] out@[k] == settled_by(own, best, nh as int, vv, sig)[k],
        decreases nh - h,
    {
        let mut x = if own && best {
            T::lowest()
        } else {
            T::zero()
        };
        let mut a: usize = 0;
        while a < vs.len()
            invariant
                a <= vs@.len(),
                h < nh,
                vv == views(vs@),
                total == sigma@.len(),
                forall|c: int| 0 <= c < vs@.len() ==> (#[trigger] vs@[c])@.len() == nh,
                sigma@.len() == vs@.len() * nh,
                forall|c: int, k: int|
                    0 <= c < vs@.len() && 0 <= k < nh ==> #[trigger] sigma@[at(nh as int, c, k)]
                        == sig(c, k),
                x == if !own {
                    sum_upto(across(vv, h as int), a as nat)
                } else if best {
                    largest_of(vv, h as int, a as nat)
                } else {
                    sum_upto(across_mixed(vv, sig, h as int), a as nat)
                },
            decreases vs@.len() - a,
        {
            let y = vs[a][h];
            assert(vv[a as int][h as int] == y);
            if !own {
                x = x.plus(y);
            } else if best {
                x = x.larger(y);
            } else {
                proof {
                    lemma_at_bound(nh as int, vs@.len() as int, a as int, h as int);
                    assert(sigma@[at(nh as int, a as int, h as int)] == sig(a as int, h as int));
                }
                x = x.plus(sigma[a * nh + h].times(y));
            }
            a += 1;
        }
        out.push(x);
        h += 1;
    }
    assert(out@ =~= settled_by(own, best, nh as int, vv, sig));
    out
}

/// What the first `n` hands gain by best responding, added to `total`.
pub open spec fn gains<T: Scalar>(total: T, reach: Seq<T>, br: Seq<T>, sv: Seq<T>, n: nat) -> T
    decreases n,
{
    if n == 0 {
        total
    } else {
        let h = n - 1;
        gains(total, reach, br, sv, h as nat).s_plus(reach[h].s_times(br[h].s_minus(sv[h])))
    }
}

impl<T: Widen> FlopStartVectorCfr<T> {
    /// A fresh game of this solver on a tree that deals turn and river.
    pub open spec fn starts<F: Fn(&TerminalSpot<T>) -> Vec<T>>(
        &self,
        tree: &FlatTree,
        g: &FlopStartGame<T, F>,
    ) -> bool {
        &&& self.plays(tree, g)
        &&& streets_fit(tree, 0, 0)
        &&& g.current_turn_card is None
        &&& g.current_river_card is None
    }

    /// The root values for `player` against the averages.
    pub open spec fn root_value<F: Fn(&TerminalSpot<T>) -> Vec<T>>(
        &self,
        tree: &FlatTree,
        g: FlopStartGame<T, F>,
        player: u8,
        best: bool,
    ) -> Seq<T> {
        self.value_at(
            tree,
            g,
            player,
            best,
            0,
            first_reach(&g, player, self.nh as int),
            None,
            None,
        )
    }

    fn root_walk<F: Fn(&TerminalSpot<T>) -> Vec<T>>(
        &self,
        tree: &FlatTree,
        game: &mut FlopStartGame<T, F>,
        target_player: u8,
        best: bool,
    ) -> (values: Vec<T>)
        requires
            self.starts(tree, &*old(game)),
            target_player < tree.num_players,
        ensures
            *final(game) == *old(game),
            values@ == self.root_value(tree, *old(game), target_player, best),
            values@.len() == self.nh,
    {
        let mut cfreach = starting_reach(&*game, target_player, tree.num_players, self.nh);
        proof {
            assert forall|p: int| 0 <= p < tree.np() implies (#[trigger] cfreach@[p])@.len()
                == self.nh by {
                assert(views(cfreach@)[p].len() == game.s_hands(p));
            }
        }
        self.walk_node(
            tree,
            game,
            target_player,
            best,
            0,
            &mut cfreach,
            None,
            None,
            Ghost(0),
        )
    }

    /// The values of a best response to the averages; the game is left as it
    /// was.
    pub fn best_response_value<F: Fn(&TerminalSpot<T>) -> Vec<T>>(
        &self,
        tree: &FlatTree,
        game: &mut FlopStartGame<T, F>,
        target_player: u8,
    ) -> (values: Vec<T>)
        requires
            self.starts(tree, &*old(game)),
            target_player < tree.num_players,
        ensures
            *final(game) == *old(game),
            values@ == self.root_value(tree, *old(game), target_player, true),
            values@.len() == self.nh,
    {
        self.root_walk(tree, game, target_player, true)
    }

    /// The values of the averages themselves; the game is left as it was.
    pub fn strategy_value<F: Fn(&TerminalSpot<T>) -> Vec<T>>(
        &self,
        tree: &FlatTree,
        game: &mut FlopStartGame<T, F>,
        target_player: u8,
    ) -> (values: Vec<T>)
        requires
            self.starts(tree, &*old(game)),
            target_player < tree.num_players,
        ensures
            *final(game) == *old(game),
            values@ == self.root_value(tree, *old(game), target_player, false),
            values@.len() == self.nh,
    {
        self.root_walk(tree, game, target_player, false)
    }

    pub fn best_response_value_debug<F: Fn(&TerminalSpot<T>) -> Vec<T>>(
        &self,
        tree: &FlatTree,
        game: &mut FlopStartGame<T, F>,
        p: u8,
    ) -> (values: Vec<T>)
        requires
            self.starts(tree, &*old(game)),
            p < tree.num_players,
        ensures
            *final(game) == *old(game),
            values@ == self.root_value(tree, *old(game), p, true),
    {
        self.best_response_value(tree, game, p)
    }

    pub fn strategy_value_debug<F: Fn(&TerminalSpot<T>) -> Vec<T>>(
        &self,
        tree: &FlatTree,
        game: &mut FlopStartGame<T, F>,
        p: u8,
    ) -> (values: Vec<T>)
        requires
            self.starts(tree, &*old(game)),
            p < tree.num_players,
        ensures
            *final(game) == *old(game),
            values@ == self.root_value(tree, *old(game), p, false),
    {
        self.strategy_value(tree, game, p)
    }

    /// What the first `n` players gain by best responding, weighted by their
    /// hands' initial weights.
    pub open spec fn exploit<F: Fn(&TerminalSpot<T>) -> Vec<T>>(
        &self,
        tree: &FlatTree,
        g: FlopStartGame<T, F>,
        n: nat,
    ) -> T
        decreases n,
    {
        if n == 0 {
            T::s_zero()
        } else {
            let p = (n - 1) as u8;
            let br = self.root_value(tree, g, p, true);
            gains(
                self.exploit(tree, g, (n - 1) as nat),
                g.s_weight(p as int),
                br,
                self.root_value(tree, g, p, false),
                br.len(),
            )
        }
    }

    /// The average gain of a best response, per player.
    pub fn compute_exploitability<F: Fn(&TerminalSpot<T>) -> Vec<T>>(
        &self,
        tree: &FlatTree,
        game: &mut FlopStartGame<T, F>,
    ) -> (x: T)
        requires
            self.starts(tree, &*old(game)),
        ensures
            *final(game) == *old(game),
            x == self.exploit(tree, *old(game), tree.num_players as nat).s_over(
                T::s_of(tree.np()),
            ),
    {
        let ghost g0 = *game;
        let np: u8 = tree.num_players;
        let mut total = T::zero();
        let mut p: u8 = 0;
        while p < np
            invariant
                p <= np,
                np == tree.num_players,
                self.starts(tree, &g0),
                *game == g0,
                total == self.exploit(tree, g0, p as nat),
            decreases np - p,
        {
            let ghost start = total;
            let br = self.best_response_value(tree, game, p);
            let sv = self.strategy_value(tree, game, p);
            let reach = game.initial_weight(p);
            let mut h: usize = 0;
            while h < br.len()
                invariant
                    h <= br@.len(),
                    br@.len() == sv@.len(),
                    br@.len() == reach@.len(),
                    total == gains(start, reach@, br@, sv@, h as nat),
                decreases br@.len() - h,
            {
                total = total.plus(reach[h].times(br[h].minus(sv[h])));
                h += 1;
            }
            p += 1;
        }
        total.over(T::of_usize(np as usize))
    }
}

} // verus!
