//! A river game: the board is complete, nothing is dealt any more.
use vstd::prelude::*;

use crate::card::{Card, NUM_POSSIBLE_HANDS};
use crate::chance_table::{order_lists, repeats};
use crate::deck::{
    are_free_hands, are_hand_cards, cards_of_hands, conflict_matrix, free_hands, is_conflict_matrix,
    is_free, is_strength_order,
};
use crate::game::GameSpec;
use crate::layout::{flat, row_copy};
use crate::preflop_allin_equity::Evaluator;
use crate::ranks::{all_ranks, free_ranks, rank_all};
use crate::runout::{are_weights, join_rows, joined, pair_mass, pick_weights, total_pair_mass};
use crate::scalar::{filled, Scalar, Widen};
use crate::terminal::{alike, is_evaluator, opponent, per_deal, scaled, views, Rake, TerminalSpot};
use crate::tree::FlatTree;

verus! {

/// A game on a complete board.
pub struct RiverPokerGame<T: Widen, F> {
    /// Ranks by hand number; 0 for hands that use a card of the board.
    pub hand_ranks: Vec<u16>,
    pub valid_hand_indices: Vec<u16>,
    pub num_valid: usize,
    pub conflict: Vec<u8>,
    pub initial_weights: Vec<Vec<T>>,
    pub num_players: u8,
    pub sorted_opp_strength: Vec<u16>,
    pub sorted_opp_indices: Vec<u16>,
    pub sorted_pl_strength: Vec<u16>,
    pub sorted_pl_indices: Vec<u16>,
    pub hand_cards: Vec<u8>,
    pub num_combinations: T::Wide,
    /// Values a showdown.
    pub showdown: F,
}

/// Ranks by hand number, 0 for hands that use a card of the board.
pub open spec fn board_ranks<H: Copy, A: Fn(H, u8) -> H, K: Fn(H) -> u16>(
    e: &Evaluator<H, A, K>,
    board: Seq<u8>,
) -> Seq<u16> {
    free_ranks(e, board, Seq::new(NUM_POSSIBLE_HANDS as nat, |i: int| i as u16))
}

impl<T: Widen, F: Fn(&TerminalSpot<T>) -> Vec<T>> RiverPokerGame<T, F> {
    pub open spec fn nh(&self) -> int {
        self.num_valid as int
    }

    pub open spec fn num_opp(&self) -> int {
        self.num_players - 1
    }

    /// The parts fit together.
    pub open spec fn wf(&self) -> bool {
        &&& 1 <= self.num_players
        &&& self.hand_ranks@.len() == NUM_POSSIBLE_HANDS
        &&& self.num_valid == self.valid_hand_indices@.len()
        &&& self.num_valid <= NUM_POSSIBLE_HANDS
        &&& forall|i: int|
            0 <= i < self.num_valid ==> (#[trigger] self.valid_hand_indices@[i])
                < NUM_POSSIBLE_HANDS
        &&& self.initial_weights@.len() == self.num_players
        &&& forall|p: int|
            0 <= p < self.num_players ==> (#[trigger] self.initial_weights@[p])@.len()
                == self.num_valid
        &&& self.sorted_opp_strength@.len() == self.num_opp() * self.nh()
        &&& self.sorted_opp_indices@.len() == self.num_opp() * self.nh()
        &&& self.hand_cards@.len() == 2 * self.nh()
    }

    /// This is the game on `board` under the given ranks and ranges. Its combinations are
    /// the weight of all pairs of hands of the first two players that do not collide (of
    /// the only player with itself, if there is one only).
    pub open spec fn is_of<H: Copy, A: Fn(H, u8) -> H, K: Fn(H) -> u16>(
        &self,
        board: Seq<u8>,
        e: &Evaluator<H, A, K>,
        ranges: Seq<Vec<T>>,
        num_players: u8,
    ) -> bool {
        &&& self.wf()
        &&& self.num_players == num_players
        &&& self.hand_ranks@ == board_ranks(e, board)
        &&& are_free_hands(board, self.valid_hand_indices@)
        &&& is_conflict_matrix(self.valid_hand_indices@, self.conflict@)
        &&& are_hand_cards(self.valid_hand_indices@, self.hand_cards@)
        &&& are_weights(
            ranges,
            self.valid_hand_indices@,
            num_players as int,
            self.initial_weights@,
        )
        &&& is_strength_order(
            all_ranks(e, board, self.valid_hand_indices@),
            self.sorted_pl_strength@,
            self.sorted_pl_indices@,
        )
        &&& repeats(self.sorted_opp_strength@, self.sorted_pl_strength@, self.num_opp())
        &&& repeats(self.sorted_opp_indices@, self.sorted_pl_indices@, self.num_opp())
        &&& self.num_combinations == pair_mass::<T>(
            self.conflict@,
            self.initial_weights@[0]@,
            self.initial_weights@[if num_players > 1 {
                1
            } else {
                0
            }]@,
            self.nh(),
            self.nh() as nat,
            0,
        )
    }

    /// Sets up the game on `board`, with hands ranked by `e`.
    pub fn new<H: Copy, A: Fn(H, u8) -> H, K: Fn(H) -> u16>(
        board: &[Card],
        e: &Evaluator<H, A, K>,
        ranges: &Vec<Vec<T>>,
        num_players: u8,
        showdown: F,
    ) -> (game: RiverPokerGame<T, F>)
        requires
            e.ranks_hands(),
            1 <= num_players <= ranges@.len(),
            forall|p: int|
                0 <= p < num_players ==> (#[trigger] ranges@[p])@.len() == NUM_POSSIBLE_HANDS,
        ensures
            game.is_of(board@, e, ranges@, num_players),
            game.showdown == showdown,
    {
        let hands = free_hands(board);
        let nh: usize = hands.len();
        let np: usize = num_players as usize;
        let ghost hs = hands@;
        proof {
            assert forall|i: int| 0 <= i < hs.len() implies (#[trigger] hs[i])
                < NUM_POSSIBLE_HANDS by {
                assert(is_free(board@, hs[i] as int));
            }
        }
        let own = rank_all(e, board, &hands);
        let mut hand_ranks: Vec<u16> = filled(0, NUM_POSSIBLE_HANDS);
        let mut i: usize = 0;
        while i < nh
            invariant
                i <= nh,
                nh == hs.len(),
                hs == hands@,
                own@ == all_ranks(e, board@, hs),
                hand_ranks@.len() == NUM_POSSIBLE_HANDS,
                forall|k: int| 0 <= k < hs.len() ==> (#[trigger] hs[k]) < NUM_POSSIBLE_HANDS,
                forall|x: int|
                    0 <= x < NUM_POSSIBLE_HANDS ==> #[trigger] hand_ranks@[x] == if hs.take(
                        i as int,
                    ).contains(x as u16) {
                        e.rank_on(x, board@)
                    } else {
                        0u16
                    },
            decreases nh - i,
        {
            let h: usize = hands[i] as usize;
            let ghost was = hand_ranks@;
            hand_ranks[h] = own[i];
            proof {
                let a = hs.take(i as int);
                let b = hs.take(i + 1);
                assert(b =~= a.push(hs[i as int]));
                assert forall|x: int| 0 <= x < NUM_POSSIBLE_HANDS implies #[trigger] hand_ranks@[x]
                    == (if b.contains(x as u16) {
                    e.rank_on(x, board@)
                } else {
                    0u16
                }) by {
                    if x == h {
                        assert(b[i as int] == x as u16);
                    } else {
                        if a.contains(x as u16) {
                            let k = choose|k: int| 0 <= k < a.len() && a[k] == x as u16;
                            assert(b[k] == x as u16);
                        }
                        if b.contains(x as u16) {
                            let k = choose|k: int| 0 <= k < b.len() && b[k] == x as u16;
                            assert(k < i);
                            assert(a[k] == x as u16);
                        }
                        assert(hand_ranks@[x] == was[x]);
                    }
                }
            }
            i += 1;
        }
        proof {
            assert(hs.take(nh as int) =~= hs);
            assert forall|x: int| 0 <= x < NUM_POSSIBLE_HANDS implies #[trigger] hand_ranks@[x]
                == board_ranks(e, board@)[x] by {
                if hs.contains(x as u16) {
                    let k = choose|k: int| 0 <= k < hs.len() && hs[k] == x as u16;
                    assert(is_free(board@, hs[k] as int));
                }
            }
            assert(hand_ranks@ =~= board_ranks(e, board@));
        }
        let conflict = conflict_matrix(&hands);
        let weights = pick_weights(ranges, &hands, np);
        proof {
            assert forall|p: int| 0 <= p < np implies (#[trigger] weights@[p])@.len() == nh by {}
        }
        let (opp_s, opp_i, pl_s, pl_i, _) = order_lists(&own, np - 1);
        let hand_cards = cards_of_hands(&hands);
        let second: usize = if np > 1 {
            1
        } else {
            0
        };
        let nc = total_pair_mass(&conflict, &weights[0], &weights[second], nh);
        RiverPokerGame {
            hand_ranks,
            valid_hand_indices: hands,
            num_valid: nh,
            conflict,
            initial_weights: weights,
            num_players,
            sorted_opp_strength: opp_s,
            sorted_opp_indices: opp_i,
            sorted_pl_strength: pl_s,
            sorted_pl_indices: pl_i,
            hand_cards,
            num_combinations: nc,
            showdown,
        }
    }

    pub fn num_valid_hands(&self) -> (n: usize)
        ensures
            n == self.num_valid,
    {
        self.num_valid
    }

    pub fn valid_hand_indices(&self) -> (hands: &[u16])
        ensures
            hands@ == self.valid_hand_indices@,
    {
        self.valid_hand_indices.as_slice()
    }

    /// Rank of the `h`-th possible hand.
    pub open spec fn rank(&self, h: int) -> u16 {
        self.hand_ranks@[self.valid_hand_indices@[h] as int]
    }

    /// 1 if hand `h` beats hand `ho`, -1 if it loses, 0 on a tie.
    pub open spec fn outcome(&self, h: int, ho: int) -> int {
        if self.rank(h) > self.rank(ho) {
            1
        } else if self.rank(h) < self.rank(ho) {
            -1
        } else {
            0
        }
    }

    /// One if hand `h` beats hand `ho`, minus one if it loses, zero on a tie.
    pub fn sign(&self, h: usize, ho: usize) -> (x: T)
        requires
            self.wf(),
            h < self.num_valid,
            ho < self.num_valid,
        ensures
            self.outcome(h as int, ho as int) == 1 ==> x == T::s_one(),
            self.outcome(h as int, ho as int) == 0 ==> x == T::s_zero(),
            self.outcome(h as int, ho as int) == -1 ==> x == T::s_of(-1),
    {
        let hr: u16 = self.hand_ranks[self.valid_hand_indices[h] as usize];
        let hro: u16 = self.hand_ranks[self.valid_hand_indices[ho] as usize];
        if hr > hro {
            T::one()
        } else if hr < hro {
            T::of_i32(-1)
        } else {
            T::zero()
        }
    }

    /// Ranks of the possible hands.
    pub fn hand_ranks_gpu(&self) -> (out: Vec<u16>)
        requires
            self.wf(),
        ensures
            out@ == Seq::new(self.num_valid as nat, |h: int| self.rank(h)),
    {
        let mut out: Vec<u16> = Vec::new();
        let mut h: usize = 0;
        while h < self.num_valid
            invariant
                h <= self.num_valid,
                self.wf(),
                out@.len() == h,
                forall|k: int| 0 <= k < h ==> #[trigger] out@[k] == self.rank(k),
            decreases self.num_valid - h,
        {
            out.push(self.hand_ranks[self.valid_hand_indices[h] as usize]);
            h += 1;
        }
        assert(out@ =~= Seq::new(self.num_valid as nat, |h: int| self.rank(h)));
        out
    }

    pub fn conflict_gpu(&self) -> (out: Vec<u8>)
        ensures
            out@ == self.conflict@,
    {
        row_copy(&self.conflict)
    }

    /// The strength order: for every opponent, for the player, and a list of `u16::MAX`
    /// for the hands.
    pub fn sorted_opp_arrays(&self) -> (lists: (
        Vec<u16>,
        Vec<u16>,
        Vec<u16>,
        Vec<u16>,
        Vec<u16>,
    ))
        ensures
            lists.0@ == self.sorted_opp_strength@,
            lists.1@ == self.sorted_opp_indices@,
            lists.2@ == self.sorted_pl_strength@,
            lists.3@ == self.sorted_pl_indices@,
            lists.4@ == flat(u16::MAX, self.nh()),
    {
        (
            row_copy(&self.sorted_opp_strength),
            row_copy(&self.sorted_opp_indices),
            row_copy(&self.sorted_pl_strength),
            row_copy(&self.sorted_pl_indices),
            filled(u16::MAX, self.num_valid),
        )
    }

    pub fn hand_cards_gpu(&self) -> (out: Vec<u8>)
        ensures
            out@ == self.hand_cards@,
    {
        row_copy(&self.hand_cards)
    }

    /// The initial weights of all players in one list.
    pub fn initial_weight_flat(&self) -> (out: Vec<T>)
        requires
            self.wf(),
        ensures
            out@ == joined(self.initial_weights@, self.num_players as nat),
    {
        join_rows(&self.initial_weights, self.num_players as usize)
    }

    /// This spot is node `node` seen by `traverser`, with the players' reach `rows`.
    pub open spec fn is_spot(
        &self,
        spot: &TerminalSpot<T>,
        tree: &FlatTree,
        rows: Seq<Seq<T>>,
        traverser: u8,
        node: int,
    ) -> bool {
        &&& spot.traverser == traverser
        &&& spot.fold_mask == tree.folded_masks@[node]
        &&& spot.starting_pot == tree.starting_pot
        &&& spot.rake == (Rake { rate: T::s_zero(), cap: T::s_zero() })
        &&& spot.flop_seen
        &&& spot.hand_cards@ == self.hand_cards@
        &&& spot.contributions@ == Seq::new(
            tree.np() as nat,
            |p: int| tree.contribution(node, p) as i32,
        )
        &&& views(spot.opp_reach@) == Seq::new(
            (tree.np() - 1) as nat,
            |q: int| rows[opponent(traverser as int, q)],
        )
        &&& spot.strength@ == self.sorted_opp_strength@
        &&& spot.index@ == self.sorted_opp_indices@
    }

    /// The showdown answers the spot with `out`, which comes to `values` per deal.
    pub open spec fn is_answer(&self, spot: &TerminalSpot<T>, out: Vec<T>, values: Seq<T>) -> bool {
        call_ensures(self.showdown, (spot,), out) && values == per_deal::<T>(
            out@,
            self.num_combinations,
        )
    }

    /// `values` are the traverser's values at node `node`.
    pub open spec fn is_value(
        &self,
        tree: &FlatTree,
        rows: Seq<Seq<T>>,
        traverser: u8,
        node: int,
        values: Seq<T>,
    ) -> bool {
        exists|spot: &TerminalSpot<T>, out: Vec<T>|
            self.is_spot(spot, tree, rows, traverser, node) && #[trigger] self.is_answer(
                spot,
                out,
                values,
            )
    }

    /// Values are a function of what they are asked for.
    proof fn lemma_value(
        &self,
        tree: &FlatTree,
        rows: Seq<Seq<T>>,
        traverser: u8,
        node: int,
        v: Seq<T>,
    )
        requires
            self.s_valid(),
            self.num_players == tree.num_players,
            traverser < tree.num_players,
            rows.len() == tree.np(),
            forall|p: int| 0 <= p < rows.len() ==> (#[trigger] rows[p]).len() == self.nh(),
            self.is_value(tree, rows, traverser, node, v),
        ensures
            v == self.s_terminal(traverser, node, tree, rows),
            v.len() == self.nh(),
    {
        let w = self.s_terminal(traverser, node, tree, rows);
        assert(self.is_value(tree, rows, traverser, node, w));
        let (s1, o1): (&TerminalSpot<T>, Vec<T>) = choose|spot: &TerminalSpot<T>, out: Vec<T>|
            self.is_spot(spot, tree, rows, traverser, node) && #[trigger] self.is_answer(
                spot,
                out,
                v,
            );
        let (s2, o2): (&TerminalSpot<T>, Vec<T>) = choose|spot: &TerminalSpot<T>, out: Vec<T>|
            self.is_spot(spot, tree, rows, traverser, node) && #[trigger] self.is_answer(
                spot,
                out,
                w,
            );
        assert(views(s1.opp_reach@).len() == tree.np() - 1);
        assert forall|q: int| 0 <= q < tree.np() - 1 implies (#[trigger] s1.opp_reach@[q])@.len()
            == self.nh() by {
            assert(views(s1.opp_reach@)[q] == s1.opp_reach@[q]@);
            assert(rows[opponent(traverser as int, q)].len() == self.nh());
        }
        assert(s1.fits(tree.np(), self.nh()));
        assert(alike(s1, s2));
        assert(o1@ == o2@);
    }
}

impl<T: Widen, F: Fn(&TerminalSpot<T>) -> Vec<T>> GameSpec<T> for RiverPokerGame<T, F> {
    open spec fn s_valid(&self) -> bool {
        self.wf() && is_evaluator(&self.showdown, self.num_players as int, self.nh())
    }

    open spec fn s_players(&self) -> int {
        self.num_players as int
    }

    open spec fn s_hands(&self, player: int) -> int {
        self.nh()
    }

    open spec fn s_weight(&self, player: int) -> Seq<T> {
        self.initial_weights@[player]@
    }

    open spec fn s_terminal(
        &self,
        traverser: u8,
        node: int,
        tree: &FlatTree,
        reach: Seq<Seq<T>>,
    ) -> Seq<T> {
        choose|values: Seq<T>| self.is_value(tree, reach, traverser, node, values)
    }

    open spec fn s_continuation(
        &self,
        traverser: u8,
        node: int,
        tree: &FlatTree,
        reach: Seq<Seq<T>>,
    ) -> Seq<T> {
        self.s_terminal(traverser, node, tree, reach)
    }

    open spec fn s_chance(&self, outcome: int, hand: int) -> T {
        T::s_zero()
    }

    open spec fn s_can_ask(&self, outcome: int) -> bool {
        true
    }

    open spec fn s_combinations(&self) -> T::Wide {
        self.num_combinations
    }

    open spec fn s_outcomes(&self) -> int {
        0
    }

    open spec fn s_can_deal(&self, outcome: int) -> bool {
        true
    }

    open spec fn s_can_undo(&self) -> bool {
        true
    }

    open spec fn s_set(&self, outcome: int) -> Self {
        *self
    }

    open spec fn s_clear(&self) -> Self {
        *self
    }

    open spec fn s_single_deal(&self) -> bool {
        true
    }

    proof fn lemma_set(&self, outcome: int) {
    }

    proof fn lemma_clear(&self) {
    }

    proof fn lemma_undo(&self, outcome: int) {
    }

    fn num_hands(&self, _player: u8) -> (n: usize) {
        self.num_valid
    }

    fn initial_weight(&self, player: u8) -> (w: Vec<T>) {
        row_copy(&self.initial_weights[player as usize])
    }

    fn evaluate_terminal(
        &self,
        traverser: u8,
        node_idx: usize,
        tree: &FlatTree,
        cfreach: &Vec<Vec<T>>,
    ) -> (values: Vec<T>) {
        let np: u8 = self.num_players;
        let ghost rows = views(cfreach@);
        let ghost t = traverser as int;
        let mut contributions: Vec<i32> = Vec::new();
        let mut opp_reach: Vec<Vec<T>> = Vec::new();
        let mut p: u8 = 0;
        while p < np
            invariant
                p <= np,
                np == tree.num_players,
                t == traverser,
                0 <= t < np,
                tree.wf(),
                tree.is_node(node_idx as int),
                cfreach@.len() == np,
                rows == views(cfreach@),
                contributions@ == Seq::new(
                    p as nat,
                    |q: int| tree.contribution(node_idx as int, q) as i32,
                ),
                opp_reach@.len() == if p <= t {
                    p as int
                } else {
                    p - 1
                },
                forall|q: int|
                    0 <= q < opp_reach@.len() ==> (#[trigger] opp_reach@[q])@ == rows[opponent(
                        t,
                        q,
                    )],
            decreases np - p,
        {
            contributions.push(tree.get_contribution(node_idx, p));
            assert(contributions@ =~= Seq::new(
                (p + 1) as nat,
                |q: int| tree.contribution(node_idx as int, q) as i32,
            ));
            if p != traverser {
                opp_reach.push(row_copy(&cfreach[p as usize]));
            }
            p += 1;
        }
        let spot = TerminalSpot {
            opp_reach,
            contributions,
            fold_mask: tree.get_folded_mask(node_idx),
            traverser,
            strength: row_copy(&self.sorted_opp_strength),
            index: row_copy(&self.sorted_opp_indices),
            hand_cards: row_copy(&self.hand_cards),
            starting_pot: tree.starting_pot,
            rake: Rake { rate: T::zero(), cap: T::zero() },
            flop_seen: true,
        };
        proof {
            assert forall|q: int| 0 <= q < tree.np() - 1 implies (
            #[trigger] spot.opp_reach@[q])@.len() == self.nh() by {
                assert(spot.opp_reach@[q]@ == rows[opponent(t, q)]);
                assert(cfreach@[opponent(t, q)]@.len() == self.s_hands(opponent(t, q)));
            }
            assert(spot.fits(tree.np(), self.nh()));
            assert(views(spot.opp_reach@) =~= Seq::new(
                (tree.np() - 1) as nat,
                |q: int| rows[opponent(t, q)],
            ));
            assert forall|p: int| 0 <= p < rows.len() implies (#[trigger] rows[p]).len()
                == self.nh() by {
                assert(cfreach@[p]@.len() == self.s_hands(p));
            }
        }
        let out = (self.showdown)(&spot);
        let ghost answer = out;
        let values = scaled(out, self.num_combinations);
        proof {
            assert(self.is_spot(&spot, tree, rows, traverser, node_idx as int));
            assert(self.is_answer(&spot, answer, values@));
            self.lemma_value(tree, rows, traverser, node_idx as int, values@);
        }
        values
    }

    fn evaluate_continuation(
        &self,
        traverser: u8,
        node_idx: usize,
        tree: &FlatTree,
        cfreach: &Vec<Vec<T>>,
    ) -> (values: Vec<T>) {
        self.evaluate_terminal(traverser, node_idx, tree, cfreach)
    }

    fn chance_probability(&self, _outcome: usize, _hand: usize) -> (x: T) {
        T::zero()
    }

    fn num_combinations(&self) -> (x: T::Wide) {
        self.num_combinations
    }

    fn num_chance_outcomes(&self) -> (n: usize) {
        0
    }

    fn set_chance_outcome(&mut self, _outcome: usize) {
    }

    fn clear_chance_outcome(&mut self) {
    }
}

/// A showdown of two hands is decided by their ranks on the board, and one hand's win is
/// the other's loss.
pub proof fn law_showdown_has_two_sides<
    T: Widen,
    F: Fn(&TerminalSpot<T>) -> Vec<T>,
    H: Copy,
    A: Fn(H, u8) -> H,
    K: Fn(H) -> u16,
>(
    game: &RiverPokerGame<T, F>,
    board: Seq<u8>,
    e: &Evaluator<H, A, K>,
    ranges: Seq<Vec<T>>,
    h: int,
    ho: int,
)
    requires
        game.is_of(board, e, ranges, game.num_players),
        0 <= h < game.num_valid,
        0 <= ho < game.num_valid,
    ensures
        game.rank(h) == e.rank_on(game.valid_hand_indices@[h] as int, board),
        game.outcome(ho, h) == -game.outcome(h, ho),
{
    assert(is_free(board, game.valid_hand_indices@[h] as int));
}

} // verus!
