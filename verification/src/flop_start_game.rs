//! Games that start on a known flop: two deals, turn and river, are left.
use vstd::prelude::*;

use crate::card::{Card, NUM_CARDS, NUM_POSSIBLE_HANDS};
use crate::deck::{
    are_free_hands, are_hand_cards, cards_of_hands, conflict_matrix, free_hands, hand_of, high_card,
    holds, is_conflict_matrix, is_free, is_rest_of_deck, is_strength_order, low_card, rest_of_deck,
    strength_order,
};
use crate::game::GameSpec;
use crate::layout::{
    at, count_upto, flat, lemma_at_bound, lemma_count_bound, lemma_row_inside, row, row_copy,
};
use crate::preflop_allin_equity::Evaluator;
use crate::ranks::{free_ranks, rank_free};
use crate::runout::{
    are_weights, blank_in, deal_mass, enumerate_deals, join_rows, joined, lemma_blank,
    lemma_slot_stays, pick_weights, place_runout, repeat_run, runout_in,
};
use crate::scalar::{filled, sum_upto, Scalar, Widen};
use crate::terminal::{
    is_evaluator, lemma_terminal_value, terminal_value_of, terminal_values, views, Dealt,
    TerminalSpot,
};
use crate::tree::FlatTree;

verus! {

/// The slot of a turn and river card.
pub open spec fn pair_slot(tc: int, rc: int) -> int {
    tc * 52 + rc
}

/// Slot `s` holds the ranks `goal` if it is dealt, else zeros.
pub open spec fn slot_state(
    ranks: Seq<u16>,
    strength: Seq<u16>,
    index: Seq<u16>,
    nh: int,
    num_opp: int,
    s: int,
    is_dealt: bool,
    goal: Seq<u16>,
) -> bool {
    if is_dealt {
        runout_in(ranks, strength, index, nh, num_opp, s, goal)
    } else {
        blank_in(ranks, strength, index, nh, num_opp, s)
    }
}

/// Everything that does not change while a flop is solved.
pub struct FlopChanceTable<T: Widen> {
    pub hand_ranks_base: Vec<u16>,
    pub valid_hand_indices: Vec<u16>,
    pub num_valid: usize,
    pub conflict: Vec<u8>,
    pub hand_cards: Vec<u8>,
    /// Turn candidates.
    pub remaining_deck: Vec<u8>,
    pub turn_ranks: Vec<u16>,
    pub turn_sorted_str: Vec<u16>,
    pub turn_sorted_idx: Vec<u16>,
    pub river_ranks: Vec<u16>,
    pub river_sorted_str: Vec<u16>,
    pub river_sorted_idx: Vec<u16>,
    pub initial_weights: Vec<Vec<T>>,
    pub num_players: u8,
    pub num_combinations: T::Wide,
    /// River candidates by turn card.
    pub river_decks: Vec<Vec<u8>>,
}

impl<T: Widen> FlopChanceTable<T> {
    pub open spec fn nh(&self) -> int {
        self.num_valid as int
    }

    pub open spec fn num_opp(&self) -> int {
        self.num_players - 1
    }

    /// The parts that later steps index into fit together.
    pub open spec fn wf(&self) -> bool {
        &&& 1 <= self.num_players
        &&& self.num_valid == self.valid_hand_indices@.len()
        &&& self.num_valid <= NUM_POSSIBLE_HANDS
        &&& forall|i: int|
            0 <= i < self.num_valid ==> (#[trigger] self.valid_hand_indices@[i])
                < NUM_POSSIBLE_HANDS
        &&& self.hand_ranks_base@.len() == self.num_valid
        &&& forall|i: int|
            0 <= i < self.num_valid ==> (#[trigger] self.hand_ranks_base@[i]) < u16::MAX
        &&& are_hand_cards(self.valid_hand_indices@, self.hand_cards@)
        &&& self.remaining_deck@.len() <= NUM_CARDS
        &&& forall|k: int|
            0 <= k < self.remaining_deck@.len() ==> (#[trigger] self.remaining_deck@[k]) < NUM_CARDS
        &&& self.river_decks@.len() == NUM_CARDS
        &&& forall|c: int|
            0 <= c < NUM_CARDS ==> (#[trigger] self.river_decks@[c])@.len() <= NUM_CARDS
        &&& forall|c: int, k: int|
            0 <= c < NUM_CARDS && 0 <= k < self.river_decks@[c]@.len()
                ==> #[trigger] self.river_decks@[c]@[k] < NUM_CARDS
        &&& self.turn_ranks@.len() == 52 * self.nh()
        &&& self.turn_sorted_str@.len() == 52 * (self.num_opp() * self.nh())
        &&& self.turn_sorted_idx@.len() == 52 * (self.num_opp() * self.nh())
        &&& self.river_ranks@.len() == 2704 * self.nh()
        &&& self.river_sorted_str@.len() == 2704 * (self.num_opp() * self.nh())
        &&& self.river_sorted_idx@.len() == 2704 * (self.num_opp() * self.nh())
        &&& self.initial_weights@.len() == self.num_players
        &&& forall|p: int|
            0 <= p < self.num_players ==> (#[trigger] self.initial_weights@[p])@.len()
                == self.num_valid
    }

    /// This is the table of `board` under the given ranks and ranges.
    pub open spec fn is_of<H: Copy, A: Fn(H, u8) -> H, K: Fn(H) -> u16>(
        &self,
        board: Seq<u8>,
        e: &Evaluator<H, A, K>,
        ranges: Seq<Vec<T>>,
        num_players: u8,
    ) -> bool {
        &&& self.wf()
        &&& self.num_players == num_players
        &&& are_free_hands(board, self.valid_hand_indices@)
        &&& self.hand_ranks_base@ == free_ranks(e, board, self.valid_hand_indices@)
        &&& is_conflict_matrix(self.valid_hand_indices@, self.conflict@)
        &&& is_rest_of_deck(board, self.remaining_deck@)
        &&& forall|t: int|
            0 <= t < 52 ==> if self.remaining_deck@.contains(t as u8) {
                is_rest_of_deck(board.push(t as u8), (#[trigger] self.river_decks@[t])@)
            } else {
                self.river_decks@[t]@.len() == 0
            }
        &&& forall|t: int|
            0 <= t < 52 ==> #[trigger] slot_state(
                self.turn_ranks@,
                self.turn_sorted_str@,
                self.turn_sorted_idx@,
                self.nh(),
                self.num_opp(),
                t,
                self.remaining_deck@.contains(t as u8),
                free_ranks(e, board.push(t as u8), self.valid_hand_indices@),
            )
        &&& forall|t: int, r: int|
            0 <= t < 52 && 0 <= r < 52 ==> #[trigger] slot_state(
                self.river_ranks@,
                self.river_sorted_str@,
                self.river_sorted_idx@,
                self.nh(),
                self.num_opp(),
                pair_slot(t, r),
                self.river_decks@[t]@.contains(r as u8),
                free_ranks(e, board.push(t as u8).push(r as u8), self.valid_hand_indices@),
            )
        &&& are_weights(
            ranges,
            self.valid_hand_indices@,
            num_players as int,
            self.initial_weights@,
        )
        &&& self.num_combinations == deal_mass::<T>(
            self.hand_cards@,
            self.initial_weights@,
            self.nh(),
            num_players as int,
            0,
            flat(false, 52),
            T::Wide::s_one(),
        )
    }
}

/// One more card of a deck is one more card that it holds.
pub proof fn lemma_distinct_take(deck: Seq<u8>, k: int, t: u8)
    requires
        0 <= k < deck.len(),
    ensures
        deck.take(k + 1).contains(t) == (deck.take(k).contains(t) || deck[k] == t),
{
    let short = deck.take(k);
    let long = deck.take(k + 1);
    if long.contains(t) {
        let i = choose|i: int| 0 <= i < long.len() && long[i] == t;
        if i < k {
            assert(short[i] == t);
        }
    }
    if short.contains(t) {
        let i = choose|i: int| 0 <= i < short.len() && short[i] == t;
        assert(long[i] == t);
    }
    assert(long[k] == deck[k]);
}

/// The tables of one dealt street, one slot per runout.
pub struct RankTables {
    pub ranks: Vec<u16>,
    pub strength: Vec<u16>,
    pub index: Vec<u16>,
}

impl RankTables {
    pub open spec fn wf(&self, nh: int, num_opp: int, n: int) -> bool {
        &&& self.ranks@.len() == n * nh
        &&& self.strength@.len() == n * (num_opp * nh)
        &&& self.index@.len() == n * (num_opp * nh)
    }

    pub open spec fn holds_in(&self, nh: int, num_opp: int, s: int, is_dealt: bool, goal: Seq<u16>) -> bool {
        slot_state(
            self.ranks@,
            self.strength@,
            self.index@,
            nh,
            num_opp,
            s,
            is_dealt,
            goal,
        )
    }

    /// Slot `t` is the same in both.
    pub open spec fn same_in(&self, other: &RankTables, nh: int, num_opp: int, t: int) -> bool {
        &&& row(self.ranks@, nh, t) == row(other.ranks@, nh, t)
        &&& row(self.strength@, num_opp * nh, t) == row(other.strength@, num_opp * nh, t)
        &&& row(self.index@, num_opp * nh, t) == row(other.index@, num_opp * nh, t)
    }

    /// Zeros in all `n` slots.
    pub fn blank(nh: usize, num_opp: usize, n: usize) -> (t: RankTables)
        requires
            n * nh <= usize::MAX,
            num_opp * nh <= usize::MAX,
            n * (num_opp * nh) <= usize::MAX,
        ensures
            t.wf(nh as int, num_opp as int, n as int),
            forall|s: int|
                0 <= s < n ==> #[trigger] t.holds_in(
                    nh as int,
                    num_opp as int,
                    s,
                    false,
                    Seq::empty(),
                ),
    {
        let ranks: Vec<u16> = filled(0, n * nh);
        let one: usize = num_opp * nh;
        let strength: Vec<u16> = filled(0, n * one);
        let index: Vec<u16> = filled(0, n * one);
        let t = RankTables { ranks, strength, index };
        proof {
            let nhi = nh as int;
            let no = num_opp as int;
            let ni = n as int;
            assert(t.ranks@ =~= flat(0u16, ni * nhi));
            assert(t.strength@ =~= flat(0u16, ni * (no * nhi)));
            assert(t.index@ =~= flat(0u16, ni * (no * nhi)));
            assert forall|s: int| 0 <= s < n implies #[trigger] t.holds_in(
                nhi,
                no,
                s,
                false,
                Seq::empty(),
            ) by {
                lemma_blank(nhi, no, ni, s);
            }
        }
        t
    }

    /// Fills slot `s`.
    pub fn place(&mut self, goal: &Vec<u16>, num_opp: usize, s: usize, n: usize)
        requires
            s < n,
            goal@.len() <= NUM_POSSIBLE_HANDS,
            forall|h: int| 0 <= h < goal@.len() ==> (#[trigger] goal@[h]) < u16::MAX,
            old(self).wf(goal@.len() as int, num_opp as int, n as int),
        ensures
            final(self).wf(goal@.len() as int, num_opp as int, n as int),
            final(self).holds_in(goal@.len() as int, num_opp as int, s as int, true, goal@),
            forall|t: int|
                0 <= t < n && t != s ==> #[trigger] final(self).same_in(
                    old(self),
                    goal@.len() as int,
                    num_opp as int,
                    t,
                ),
    {
        let ghost before = *self;
        place_runout(
            goal,
            num_opp,
            s,
            n,
            &mut self.ranks,
            &mut self.strength,
            &mut self.index,
        );
        proof {
            assert forall|t: int| 0 <= t < n && t != s implies #[trigger] self.same_in(
                &before,
                goal@.len() as int,
                num_opp as int,
                t,
            ) by {
                lemma_slot_stays(
                    before.ranks@,
                    before.strength@,
                    before.index@,
                    self.ranks@,
                    self.strength@,
                    self.index@,
                    goal@.len() as int,
                    num_opp as int,
                    n as int,
                    s as int,
                    t,
                );
            }
        }
    }
}

impl<T: Widen> FlopChanceTable<T> {
    /// Builds the table of a known flop.
    pub fn compute_flop_start<H: Copy, A: Fn(H, u8) -> H, K: Fn(H) -> u16>(
        known_board: &[Card],
        e: &Evaluator<H, A, K>,
        ranges: &Vec<Vec<T>>,
        num_players: u8,
    ) -> (table: FlopChanceTable<T>)
        requires
            known_board@.len() == 3,
            e.ranks_hands(),
            1 <= num_players <= ranges@.len(),
            forall|p: int|
                0 <= p < num_players ==> (#[trigger] ranges@[p])@.len() == NUM_POSSIBLE_HANDS,
        ensures
            table.is_of(known_board@, e, ranges@, num_players),
    {
        let ghost board = known_board@;
        let hands = free_hands(known_board);
        let nh: usize = hands.len();
        let np: usize = num_players as usize;
        let num_opp: usize = np - 1;
        let ghost nhi = nh as int;
        let ghost no = num_opp as int;
        let ghost hs = hands@;
        proof {
            assert forall|i: int| 0 <= i < hs.len() implies (#[trigger] hs[i])
                < NUM_POSSIBLE_HANDS by {
                assert(is_free(board, hs[i] as int));
            }
            assert(no * nhi <= 254 * 1326) by (nonlinear_arith)
                requires
                    0 <= no <= 254,
                    0 <= nhi <= 1326,
            ;
            assert(0 <= no * nhi) by (nonlinear_arith)
                requires
                    0 <= no,
                    0 <= nhi,
            ;
        }
        let base = rank_free(e, known_board, &hands);
        let conflict = conflict_matrix(&hands);
        let hand_cards = cards_of_hands(&hands);
        let deck = rest_of_deck(known_board);
        let ghost dk = deck@;
        let mut turns = RankTables::blank(nh, num_opp, 52);
        let mut rivers = RankTables::blank(nh, num_opp, 2704);
        let mut river_decks: Vec<Vec<u8>> = Vec::new();
        let mut t: usize = 0;
        while t < 52
            invariant
                t <= 52,
                river_decks@.len() == t,
                forall|i: int| 0 <= i < t ==> (#[trigger] river_decks@[i])@.len() == 0,
            decreases 52 - t,
        {
            river_decks.push(Vec::new());
            t += 1;
        }
        let mut k: usize = 0;
        proof {
            assert(dk.take(0) =~= Seq::<u8>::empty());
            assert forall|t: int| 0 <= t < 52 implies #[trigger] turns.holds_in(
                nhi,
                no,
                t,
                dk.take(0).contains(t as u8),
                free_ranks(e, board.push(t as u8), hs),
            ) by {
                assert(turns.holds_in(nhi, no, t, false, Seq::empty()));
            }
            assert forall|t: int, r: int|
                0 <= t < 52 && 0 <= r < 52 implies #[trigger] rivers.holds_in(
                nhi,
                no,
                pair_slot(t, r),
                river_decks@[t]@.contains(r as u8),
                free_ranks(e, board.push(t as u8).push(r as u8), hs),
            ) by {
                assert(rivers.holds_in(nhi, no, pair_slot(t, r), false, Seq::empty()));
            }
        }
        while k < deck.len()
            invariant
                k <= dk.len(),
                dk == deck@,
                board == known_board@,
                hs == hands@,
                nhi == nh,
                nh == hs.len(),
                nh <= NUM_POSSIBLE_HANDS,
                no == num_opp,
                e.ranks_hands(),
                is_rest_of_deck(board, dk),
                forall|i: int| 0 <= i < hs.len() ==> (#[trigger] hs[i]) < NUM_POSSIBLE_HANDS,
                turns.wf(nhi, no, 52),
                rivers.wf(nhi, no, 2704),
                river_decks@.len() == 52,
                forall|t: int|
                    0 <= t < 52 ==> (#[trigger] river_decks@[t])@.len() <= NUM_CARDS && if dk.take(
                        k as int,
                    ).contains(t as u8) {
                        is_rest_of_deck(board.push(t as u8), river_decks@[t]@)
                    } else {
                        river_decks@[t]@.len() == 0
                    },
                forall|t: int|
                    0 <= t < 52 ==> #[trigger] turns.holds_in(
                        nhi,
                        no,
                        t,
                        dk.take(k as int).contains(t as u8),
                        free_ranks(e, board.push(t as u8), hs),
                    ),
                forall|t: int, r: int|
                    0 <= t < 52 && 0 <= r < 52 ==> #[trigger] rivers.holds_in(
                        nhi,
                        no,
                        pair_slot(t, r),
                        river_decks@[t]@.contains(r as u8),
                        free_ranks(e, board.push(t as u8).push(r as u8), hs),
                    ),
            decreases dk.len() - k,
        {
            let tc: u8 = deck[k];
            let ghost ti = tc as int;
            assert(dk[k as int] == tc && tc < 52);
            let mut full: Vec<u8> = Vec::new();
            let mut b: usize = 0;
            while b < known_board.len()
                invariant
                    b <= known_board@.len(),
                    full@ == known_board@.take(b as int),
                decreases known_board@.len() - b,
            {
                full.push(known_board[b]);
                b += 1;
                assert(full@ =~= known_board@.take(b as int));
            }
            full.push(tc);
            assert(full@ =~= board.push(tc));
            let ghost turns0 = turns;
            let goal = rank_free(e, full.as_slice(), &hands);
            turns.place(&goal, num_opp, tc as usize, 52);
            let rdeck = rest_of_deck(full.as_slice());
            let ghost rd = rdeck@;
            proof {
                assert(!dk.take(k as int).contains(tc)) by {
                    if dk.take(k as int).contains(tc) {
                        let j = choose|j: int|
                            0 <= j < dk.take(k as int).len() && dk.take(k as int)[j] == tc;
                        assert(dk[j] < dk[k as int]);
                    }
                }
                assert(rd.take(0) =~= Seq::<u8>::empty());
                assert forall|r: int| 0 <= r < 52 implies #[trigger] rivers.holds_in(
                    nhi,
                    no,
                    pair_slot(ti, r),
                    rd.take(0).contains(r as u8),
                    free_ranks(e, board.push(ti as u8).push(r as u8), hs),
                ) by {
                    assert(rivers.holds_in(
                        nhi,
                        no,
                        pair_slot(ti, r),
                        river_decks@[ti]@.contains(r as u8),
                        free_ranks(e, board.push(ti as u8).push(r as u8), hs),
                    ));
                }
            }
            let mut m: usize = 0;
            while m < rdeck.len()
                invariant
                    m <= rd.len(),
                    rd == rdeck@,
                    hs == hands@,
                    nhi == nh,
                    nh == hs.len(),
                    nh <= NUM_POSSIBLE_HANDS,
                    no == num_opp,
                    e.ranks_hands(),
                    tc < 52,
                    ti == tc,
                    full@ == board.push(tc),
                    is_rest_of_deck(board.push(tc), rd),
                    forall|i: int| 0 <= i < hs.len() ==> (#[trigger] hs[i]) < NUM_POSSIBLE_HANDS,
                    rivers.wf(nhi, no, 2704),
                    river_decks@.len() == 52,
                    forall|r: int|
                        0 <= r < 52 ==> #[trigger] rivers.holds_in(
                            nhi,
                            no,
                            pair_slot(ti, r),
                            rd.take(m as int).contains(r as u8),
                            free_ranks(e, board.push(ti as u8).push(r as u8), hs),
                        ),
                    forall|t: int, r: int|
                        0 <= t < 52 && t != ti && 0 <= r < 52 ==> #[trigger] rivers.holds_in(
                            nhi,
                            no,
                            pair_slot(t, r),
                            river_decks@[t]@.contains(r as u8),
                            free_ranks(e, board.push(t as u8).push(r as u8), hs),
                        ),
                decreases rd.len() - m,
            {
                let rc: u8 = rdeck[m];
                let ghost ri = rc as int;
                assert(rd[m as int] == rc && rc < 52);
                full.push(rc);
                assert(full@ =~= board.push(tc).push(rc));
                let rgoal = rank_free(e, full.as_slice(), &hands);
                full.pop();
                assert(full@ =~= board.push(tc));
                let ghost rivers0 = rivers;
                rivers.place(&rgoal, num_opp, tc as usize * 52 + rc as usize, 2704);
                proof {
                    assert forall|r: int| 0 <= r < 52 implies #[trigger] rivers.holds_in(
                        nhi,
                        no,
                        pair_slot(ti, r),
                        rd.take(m + 1).contains(r as u8),
                        free_ranks(e, board.push(ti as u8).push(r as u8), hs),
                    ) by {
                        lemma_distinct_take(rd, m as int, r as u8);
                        assert(rivers0.holds_in(
                            nhi,
                            no,
                            pair_slot(ti, r),
                            rd.take(m as int).contains(r as u8),
                            free_ranks(e, board.push(ti as u8).push(r as u8), hs),
                        ));
                        if r != ri {
                            assert(rivers.same_in(&rivers0, nhi, no, pair_slot(ti, r)));
                        }
                    }
                    assert forall|t: int, r: int|
                        0 <= t < 52 && t != ti && 0 <= r < 52 implies #[trigger] rivers.holds_in(
                        nhi,
                        no,
                        pair_slot(t, r),
                        river_decks@[t]@.contains(r as u8),
                        free_ranks(e, board.push(t as u8).push(r as u8), hs),
                    ) by {
                        assert(rivers0.holds_in(
                            nhi,
                            no,
                            pair_slot(t, r),
                            river_decks@[t]@.contains(r as u8),
                            free_ranks(e, board.push(t as u8).push(r as u8), hs),
                        ));
                        assert(pair_slot(t, r) != pair_slot(ti, ri));
                        assert(rivers.same_in(&rivers0, nhi, no, pair_slot(t, r)));
                    }
                }
                m += 1;
            }
            let ghost decks0 = river_decks@;
            river_decks[tc as usize] = rdeck;
            proof {
                assert(rd.take(rd.len() as int) =~= rd);
                assert forall|t: int, r: int|
                    0 <= t < 52 && 0 <= r < 52 implies #[trigger] rivers.holds_in(
                    nhi,
                    no,
                    pair_slot(t, r),
                    river_decks@[t]@.contains(r as u8),
                    free_ranks(e, board.push(t as u8).push(r as u8), hs),
                ) by {
                    if t == ti {
                        assert(river_decks@[t]@ == rd);
                        assert(rivers.holds_in(
                            nhi,
                            no,
                            pair_slot(ti, r),
                            rd.take(m as int).contains(r as u8),
                            free_ranks(e, board.push(ti as u8).push(r as u8), hs),
                        ));
                    } else {
                        assert(river_decks@[t] == decks0[t]);
                    }
                }
                assert forall|t: int| 0 <= t < 52 implies (#[trigger] river_decks@[t])@.len()
                    <= NUM_CARDS && if dk.take(k + 1).contains(t as u8) {
                    is_rest_of_deck(board.push(t as u8), river_decks@[t]@)
                } else {
                    river_decks@[t]@.len() == 0
                } by {
                    lemma_distinct_take(dk, k as int, t as u8);
                    if t != ti {
                        assert(river_decks@[t] == decks0[t]);
                    }
                }
                assert forall|t: int| 0 <= t < 52 implies #[trigger] turns.holds_in(
                    nhi,
                    no,
                    t,
                    dk.take(k + 1).contains(t as u8),
                    free_ranks(e, board.push(t as u8), hs),
                ) by {
                    lemma_distinct_take(dk, k as int, t as u8);
                    assert(turns0.holds_in(
                        nhi,
                        no,
                        t,
                        dk.take(k as int).contains(t as u8),
                        free_ranks(e, board.push(t as u8), hs),
                    ));
                    if t != ti {
                        assert(turns.same_in(&turns0, nhi, no, t));
                    }
                }
            }
            k += 1;
        }
        let initial_weights = pick_weights(ranges, &hands, np);
        let taken: Vec<bool> = filled(false, NUM_CARDS);
        proof {
            assert(taken@ =~= flat(false, 52));
            assert forall|p: int| 0 <= p < np implies (#[trigger] initial_weights@[p])@.len()
                == nh by {}
        }
        let nc = enumerate_deals(
            &hand_cards,
            &initial_weights,
            nh,
            np,
            0,
            &taken,
            T::Wide::one(),
        );
        let table = FlopChanceTable {
            hand_ranks_base: base,
            valid_hand_indices: hands,
            num_valid: nh,
            conflict,
            hand_cards,
            remaining_deck: deck,
            turn_ranks: turns.ranks,
            turn_sorted_str: turns.strength,
            turn_sorted_idx: turns.index,
            river_ranks: rivers.ranks,
            river_sorted_str: rivers.strength,
            river_sorted_idx: rivers.index,
            initial_weights,
            num_players,
            num_combinations: nc,
            river_decks,
        };
        proof {
            assert(dk.take(dk.len() as int) =~= dk);
            assert forall|t: int| 0 <= t < 52 implies #[trigger] slot_state(
                table.turn_ranks@,
                table.turn_sorted_str@,
                table.turn_sorted_idx@,
                table.nh(),
                table.num_opp(),
                t,
                table.remaining_deck@.contains(t as u8),
                free_ranks(e, board.push(t as u8), table.valid_hand_indices@),
            ) by {
                assert(turns.holds_in(
                    nhi,
                    no,
                    t,
                    dk.take(k as int).contains(t as u8),
                    free_ranks(e, board.push(t as u8), hs),
                ));
            }
            assert forall|t: int, r: int|
                0 <= t < 52 && 0 <= r < 52 implies #[trigger] slot_state(
                table.river_ranks@,
                table.river_sorted_str@,
                table.river_sorted_idx@,
                table.nh(),
                table.num_opp(),
                pair_slot(t, r),
                table.river_decks@[t]@.contains(r as u8),
                free_ranks(e, board.push(t as u8).push(r as u8), table.valid_hand_indices@),
            ) by {
                assert(rivers.holds_in(
                    nhi,
                    no,
                    pair_slot(t, r),
                    river_decks@[t]@.contains(r as u8),
                    free_ranks(e, board.push(t as u8).push(r as u8), hs),
                ));
            }
            assert forall|c: int, j: int|
                0 <= c < NUM_CARDS && 0 <= j < table.river_decks@[c]@.len() implies #[trigger] table.river_decks@[c]@[j]
                < NUM_CARDS by {
                let d = table.river_decks@[c];
                if dk.take(k as int).contains(c as u8) {
                    assert(is_rest_of_deck(board.push(c as u8), d@));
                }
            }
        }
        table
    }
}

/// Tells the places of `deck` whose card hand `index` holds.
pub open spec fn holds_at(deck: Seq<u8>, index: int) -> spec_fn(int) -> bool {
    |k: int| holds(index, deck[k] as int)
}

/// The probability that place `k` of `deck` is dealt, seen by hand `index`: all
/// cards that the hand does not hold alike.
pub open spec fn deal_chance<T: Scalar>(deck: Seq<u8>, k: int, index: int) -> T {
    if holds(index, deck[k] as int) {
        T::s_zero()
    } else {
        free_chance(deck, index)
    }
}

/// The chance of a card that hand `index` does not hold.
pub open spec fn free_chance<T: Scalar>(deck: Seq<u8>, index: int) -> T {
    T::s_one().s_over(
        T::s_of(deck.len() as int).s_minus(
            T::s_of(count_upto(holds_at(deck, index), deck.len()) as int),
        ),
    )
}

/// `x`, added up `n` times.
pub open spec fn times_over<T: Scalar>(x: T, n: nat) -> T
    decreases n,
{
    if n == 0 {
        T::s_zero()
    } else {
        times_over(x, (n - 1) as nat).s_plus(x)
    }
}

/// The chances of a deck's first places.
pub open spec fn deal_chances<T: Scalar>(deck: Seq<u8>, index: int) -> spec_fn(int) -> T {
    |k: int| deal_chance::<T>(deck, k, index)
}

/// A hand's deal chances add up to the whole: a card that the hand holds has no chance,
/// every other card has the chance of one in as many as there are such cards, and the
/// chances of all places come to that chance, added up so often.
pub proof fn law_deal_chances_add_up<T: Scalar>(deck: Seq<u8>, index: int, n: nat)
    requires
        n <= deck.len(),
        forall|x: T| #[trigger] x.s_plus(T::s_zero()) == x,
    ensures
        forall|k: int|
            0 <= k < n && holds(index, (#[trigger] deck[k]) as int) ==> deal_chance::<T>(
                deck,
                k,
                index,
            ) == T::s_zero(),
        sum_upto(deal_chances::<T>(deck, index), n) == times_over(
            free_chance::<T>(deck, index),
            (n - count_upto(holds_at(deck, index), n)) as nat,
        ),
        count_upto(holds_at(deck, index), n) <= n,
    decreases n,
{
    let held = holds_at(deck, index);
    lemma_count_bound(held, n);
    if n > 0 {
        let m = (n - 1) as nat;
        law_deal_chances_add_up::<T>(deck, index, m);
        lemma_count_bound(held, m);
        assert(held(n - 1) == holds(index, deck[n - 1] as int));
        let f = deal_chances::<T>(deck, index);
        assert(sum_upto(f, n) == sum_upto(f, m).s_plus(f(n - 1)));
        if !held(n - 1) {
            let u = (n - count_upto(held, n)) as nat;
            assert((u - 1) as nat == m - count_upto(held, m));
        }
    }
}

/// Computes [`deal_chance`].
fn chance_of<T: Scalar>(deck: &Vec<u8>, k: usize, index: usize) -> (x: T)
    requires
        k < deck@.len(),
        index < NUM_POSSIBLE_HANDS,
    ensures
        x == deal_chance::<T>(deck@, k as int, index as int),
{
    let card: u8 = deck[k];
    let (c1, c2) = hand_of(index);
    if card == c1 || card == c2 {
        return T::zero();
    }
    let mut blocked: usize = 0;
    let mut j: usize = 0;
    while j < deck.len()
        invariant
            j <= deck@.len(),
            blocked == count_upto(holds_at(deck@, index as int), j as nat),
            c1 == low_card(index as int),
            c2 == high_card(index as int),
        decreases deck@.len() - j,
    {
        proof {
            lemma_count_bound(holds_at(deck@, index as int), j as nat);
        }
        if deck[j] == c1 || deck[j] == c2 {
            blocked += 1;
        }
        j += 1;
    }
    T::one().over(T::of_usize(deck.len()).minus(T::of_usize(blocked)))
}

impl<T: Widen> FlopChanceTable<T> {
    pub fn num_valid_hands(&self) -> (n: usize)
        ensures
            n == self.num_valid,
    {
        self.num_valid
    }

    /// A copy of the hands' cards.
    pub fn hand_cards_gpu(&self) -> (cards: Vec<u8>)
        ensures
            cards@ == self.hand_cards@,
    {
        let cards = self.hand_cards.clone();
        assert(cards@ =~= self.hand_cards@);
        cards
    }

    /// The initial weights of all players in one list.
    pub fn initial_weight_flat(&self) -> (flat: Vec<T>)
        requires
            self.wf(),
        ensures
            flat@ == joined(self.initial_weights@, self.num_players as nat),
    {
        join_rows(&self.initial_weights, self.num_players as usize)
    }

    /// `strength` and `index` order the hands on the flop, once per opponent.
    pub open spec fn is_base_order(&self, strength: Seq<u16>, index: Seq<u16>) -> bool {
        &&& strength.len() == self.num_opp() * self.nh()
        &&& index.len() == self.num_opp() * self.nh()
        &&& forall|oi: int|
            0 <= oi < self.num_opp() ==> is_strength_order(
                self.hand_ranks_base@,
                #[trigger] row(strength, self.nh(), oi),
                row(index, self.nh(), oi),
            )
    }

    /// The strength order on the flop: for every opponent, for the player, and a
    /// list of `u16::MAX` for the hands.
    pub fn sorted_opp_arrays_base(&self) -> (lists: (
        Vec<u16>,
        Vec<u16>,
        Vec<u16>,
        Vec<u16>,
        Vec<u16>,
    ))
        requires
            self.wf(),
        ensures
            self.is_base_order(lists.0@, lists.1@),
            is_strength_order(self.hand_ranks_base@, lists.2@, lists.3@),
            lists.4@ == flat(u16::MAX, self.nh()),
    {
        let nh: usize = self.num_valid;
        let num_opp: usize = self.num_players as usize - 1;
        let (strength, index) = strength_order(self.hand_ranks_base.as_slice());
        proof {
            assert(num_opp * nh <= 254 * 1326) by (nonlinear_arith)
                requires
                    num_opp <= 254,
                    nh <= 1326,
            ;
        }
        let mut s_str: Vec<u16> = filled(0, num_opp * nh);
        let mut s_idx: Vec<u16> = filled(0, num_opp * nh);
        repeat_run(&strength, num_opp, &mut s_str, 0);
        repeat_run(&index, num_opp, &mut s_idx, 0);
        let rest: Vec<u16> = filled(u16::MAX, nh);
        proof {
            assert(s_str@.subrange(0, num_opp * nh) =~= s_str@);
            assert(s_idx@.subrange(0, num_opp * nh) =~= s_idx@);
            assert forall|oi: int| 0 <= oi < num_opp implies is_strength_order(
                self.hand_ranks_base@,
                #[trigger] row(s_str@, nh as int, oi),
                row(s_idx@, nh as int, oi),
            ) by {}
            assert(rest@ =~= flat(u16::MAX, nh as int));
        }
        (s_str, s_idx, strength, index, rest)
    }

    /// The strength orders after turn `turn_card`, for the opponents and for the
    /// player.
    pub fn turn_sorted_arrays(&self, turn_card: u8) -> (lists: (
        &[u16],
        &[u16],
        &[u16],
        &[u16],
    ))
        requires
            self.wf(),
            turn_card < 52,
        ensures
            lists.0@ == row(self.turn_sorted_str@, self.num_opp() * self.nh(), turn_card as int),
            lists.1@ == row(self.turn_sorted_idx@, self.num_opp() * self.nh(), turn_card as int),
            lists.2@ == lists.0@,
            lists.3@ == lists.1@,
    {
        let (w, base) = self.run_at(turn_card as usize, 52, self.turn_sorted_str.len());
        let s_str = vstd::slice::slice_subrange(self.turn_sorted_str.as_slice(), base, base + w);
        let s_idx = vstd::slice::slice_subrange(self.turn_sorted_idx.as_slice(), base, base + w);
        (s_str, s_idx, s_str, s_idx)
    }

    /// The strength orders after turn `turn_card` and river `river_card`.
    pub fn river_sorted_arrays(&self, turn_card: u8, river_card: u8) -> (lists: (
        &[u16],
        &[u16],
        &[u16],
        &[u16],
    ))
        requires
            self.wf(),
            turn_card < 52,
            river_card < 52,
        ensures
            lists.0@ == row(
                self.river_sorted_str@,
                self.num_opp() * self.nh(),
                pair_slot(turn_card as int, river_card as int),
            ),
            lists.1@ == row(
                self.river_sorted_idx@,
                self.num_opp() * self.nh(),
                pair_slot(turn_card as int, river_card as int),
            ),
            lists.2@ == lists.0@,
            lists.3@ == lists.1@,
    {
        let s: usize = turn_card as usize * 52 + river_card as usize;
        let (w, base) = self.run_at(s, 2704, self.river_sorted_str.len());
        let s_str = vstd::slice::slice_subrange(self.river_sorted_str.as_slice(), base, base + w);
        let s_idx = vstd::slice::slice_subrange(self.river_sorted_idx.as_slice(), base, base + w);
        (s_str, s_idx, s_str, s_idx)
    }

    /// Length and start of row `s` of a table of `n` strength orders.
    fn run_at(&self, s: usize, n: usize, len: usize) -> (run: (usize, usize))
        requires
            self.wf(),
            s < n,
            len == n * (self.num_opp() * self.nh()),
        ensures
            run.0 == self.num_opp() * self.nh(),
            run.1 == s * (self.num_opp() * self.nh()),
            run.1 + run.0 <= len,
    {
        let num_opp: usize = self.num_players as usize - 1;
        let nh: usize = self.num_valid;
        proof {
            assert(0 <= num_opp * nh <= 254 * 1326) by (nonlinear_arith)
                requires
                    num_opp <= 254,
                    nh <= 1326,
            ;
            lemma_row_inside(num_opp * nh, n as int, s as int);
        }
        let w: usize = num_opp * nh;
        (w, s * w)
    }

    /// The cards that can come on the turn.
    pub fn turn_outcomes(&self) -> (cards: &[u8])
        ensures
            cards@ == self.remaining_deck@,
    {
        self.remaining_deck.as_slice()
    }

    /// The cards that can come on the river after `turn_card`.
    pub fn river_outcomes(&self, turn_card: u8) -> (cards: &[u8])
        requires
            self.wf(),
            turn_card < 52,
        ensures
            cards@ == self.river_decks@[turn_card as int]@,
    {
        self.river_decks[turn_card as usize].as_slice()
    }

    /// The probability of turn `k` for hand `h` of the table.
    pub open spec fn turn_chance(&self, k: int, h: int) -> T {
        deal_chance::<T>(self.remaining_deck@, k, self.valid_hand_indices@[h] as int)
    }

    /// The probability of river `k` after turn card `tc` for hand `h` of the
    /// table.
    pub open spec fn river_chance(&self, tc: int, k: int, h: int) -> T {
        deal_chance::<T>(self.river_decks@[tc]@, k, self.valid_hand_indices@[h] as int)
    }

    /// The probability that hand `hand` sees turn `outcome` dealt.
    pub fn chance_probability_turn(&self, outcome: usize, hand: usize) -> (x: T)
        requires
            self.wf(),
            outcome < self.remaining_deck@.len(),
            hand < self.num_valid,
        ensures
            x == self.turn_chance(outcome as int, hand as int),
    {
        chance_of(&self.remaining_deck, outcome, self.valid_hand_indices[hand] as usize)
    }

    /// The probability that hand `hand` sees river `outcome` dealt after
    /// `turn_card`.
    pub fn chance_probability_river(&self, turn_card: u8, outcome: usize, hand: usize) -> (x: T)
        requires
            self.wf(),
            turn_card < 52,
            outcome < self.river_decks@[turn_card as int]@.len(),
            hand < self.num_valid,
        ensures
            x == self.river_chance(turn_card as int, outcome as int, hand as int),
    {
        chance_of(
            &self.river_decks[turn_card as usize],
            outcome,
            self.valid_hand_indices[hand] as usize,
        )
    }

    /// Turn probabilities by outcome and hand.
    pub fn compute_turn_chance_prob(&self) -> (prob: Vec<T>)
        requires
            self.wf(),
        ensures
            prob@.len() == self.remaining_deck@.len() * self.nh(),
            forall|k: int, h: int|
                0 <= k < self.remaining_deck@.len() && 0 <= h < self.nh() ==> #[trigger] prob@[at(
                    self.nh(),
                    k,
                    h,
                )] == self.turn_chance(k, h),
    {
        let n: usize = self.remaining_deck.len();
        let nh: usize = self.num_valid;
        let ghost nhi = nh as int;
        let mut prob: Vec<T> = Vec::new();
        let mut k: usize = 0;
        while k < n
            invariant
                k <= n,
                n == self.remaining_deck@.len(),
                nh == self.num_valid,
                nhi == nh,
                self.wf(),
                prob@.len() == k * nhi,
                forall|i: int, h: int|
                    0 <= i < k && 0 <= h < nhi ==> #[trigger] prob@[at(nhi, i, h)]
                        == self.turn_chance(i, h),
            decreases n - k,
        {
            let mut h: usize = 0;
            while h < nh
                invariant
                    h <= nh,
                    k < n,
                    n == self.remaining_deck@.len(),
                    nh == self.num_valid,
                    nhi == nh,
                    self.wf(),
                    prob@.len() == k * nhi + h,
                    forall|i: int, g: int|
                        0 <= i < k && 0 <= g < nhi ==> #[trigger] prob@[at(nhi, i, g)]
                            == self.turn_chance(i, g),
                    forall|g: int|
                        0 <= g < h ==> #[trigger] prob@[at(nhi, k as int, g)] == self.turn_chance(
                            k as int,
                            g,
                        ),
                decreases nh - h,
            {
                let ghost before = prob@;
                prob.push(self.chance_probability_turn(k, h));
                proof {
                    assert forall|i: int, g: int| 0 <= i < k && 0 <= g < nhi implies #[trigger] prob@[at(
                        nhi,
                        i,
                        g,
                    )] == self.turn_chance(i, g) by {
                        lemma_at_bound(nhi, k as int, i, g);
                        assert(before[at(nhi, i, g)] == self.turn_chance(i, g));
                    }
                    assert forall|g: int| 0 <= g < h + 1 implies #[trigger] prob@[at(
                        nhi,
                        k as int,
                        g,
                    )] == self.turn_chance(k as int, g) by {
                        if g < h {
                            assert(before[at(nhi, k as int, g)] == self.turn_chance(k as int, g));
                        }
                    }
                }
                h += 1;
            }
            proof {
                assert(k * nhi + nhi == (k + 1) * nhi) by (nonlinear_arith);
            }
            k += 1;
        }
        prob
    }

    /// The length of the longest river deck.
    pub open spec fn most_rivers(&self, n: nat) -> nat
        decreases n,
    {
        if n == 0 {
            0
        } else {
            let prev = self.most_rivers((n - 1) as nat);
            let here = self.river_decks@[n - 1]@.len();
            if here > prev {
                here
            } else {
                prev
            }
        }
    }

    proof fn lemma_most_rivers(&self, n: nat, c: int)
        requires
            0 <= c < n,
        ensures
            self.river_decks@[c]@.len() <= self.most_rivers(n),
        decreases n,
    {
        if c < n - 1 {
            self.lemma_most_rivers((n - 1) as nat, c);
        }
    }

    /// The length of the longest river deck.
    fn longest_river_deck(&self) -> (m: usize)
        requires
            self.wf(),
        ensures
            m == self.most_rivers(52),
            m <= NUM_CARDS,
    {
        let mut m: usize = 0;
        let mut c: usize = 0;
        while c < 52
            invariant
                c <= 52,
                self.wf(),
                m == self.most_rivers(c as nat),
                m <= NUM_CARDS,
            decreases 52 - c,
        {
            let len: usize = self.river_decks[c].len();
            if len > m {
                m = len;
            }
            c += 1;
        }
        m
    }

    /// A table with one row of hands for each turn and river place, rows without
    /// a river card zero.
    pub open spec fn by_pair(&self, table: Seq<T>, f: spec_fn(int, int, int) -> T) -> bool {
        let m = self.most_rivers(52) as int;
        &&& table.len() == self.remaining_deck@.len() * m * self.nh()
        &&& forall|k: int, r: int, h: int|
            0 <= k < self.remaining_deck@.len() && 0 <= r < m && 0 <= h < self.nh()
                ==> #[trigger] table[at(self.nh(), at(m, k, r), h)] == if r
                < self.river_decks@[self.remaining_deck@[k] as int]@.len() {
                f(k, r, h)
            } else {
                T::s_zero()
            }
    }

    /// River probability by turn place, river place and hand.
    pub open spec fn chance_by_place(&self) -> spec_fn(int, int, int) -> T {
        |k: int, r: int, h: int| self.river_chance(self.remaining_deck@[k] as int, r, h)
    }

    /// One where hand, turn and river card go together, else zero.
    pub open spec fn fits_by_place(&self) -> spec_fn(int, int, int) -> T {
        |k: int, r: int, h: int|
            {
                let tc = self.remaining_deck@[k] as int;
                let hand = self.valid_hand_indices@[h] as int;
                if holds(hand, tc) || holds(hand, self.river_decks@[tc]@[r] as int) {
                    T::s_zero()
                } else {
                    T::s_one()
                }
            }
    }

    /// River probabilities by turn place, river place and hand; zero for places
    /// past the end of a river deck.
    pub fn compute_river_chance_prob(&self) -> (prob: Vec<T>)
        requires
            self.wf(),
        ensures
            self.by_pair(prob@, self.chance_by_place()),
    {
        self.fill_by_pair(true)
    }

    /// Which hands can be held with each turn and river place.
    pub fn compute_river_board_mask(&self) -> (mask: Vec<T>)
        requires
            self.wf(),
        ensures
            self.by_pair(mask@, self.fits_by_place()),
    {
        self.fill_by_pair(false)
    }

    /// The entry of a table by turn place, river place and hand.
    fn pair_entry(&self, chances: bool, k: usize, r: usize, h: usize) -> (x: T)
        requires
            self.wf(),
            k < self.remaining_deck@.len(),
            r < self.river_decks@[self.remaining_deck@[k as int] as int]@.len(),
            h < self.num_valid,
        ensures
            chances ==> x == self.chance_by_place()(k as int, r as int, h as int),
            !chances ==> x == self.fits_by_place()(k as int, r as int, h as int),
    {
        let tc: u8 = self.remaining_deck[k];
        assert(self.remaining_deck@[k as int] == tc && tc < 52);
        if chances {
            self.chance_probability_river(tc, r, h)
        } else {
            let rc: u8 = self.river_decks[tc as usize][r];
            let (c1, c2) = hand_of(self.valid_hand_indices[h] as usize);
            if c1 == tc || c2 == tc || c1 == rc || c2 == rc {
                T::zero()
            } else {
                T::one()
            }
        }
    }

    fn fill_by_pair(&self, chances: bool) -> (table: Vec<T>)
        requires
            self.wf(),
        ensures
            chances ==> self.by_pair(table@, self.chance_by_place()),
            !chances ==> self.by_pair(table@, self.fits_by_place()),
    {
        let n: usize = self.remaining_deck.len();
        let nh: usize = self.num_valid;
        let m: usize = self.longest_river_deck();
        let ghost f = if chances {
            self.chance_by_place()
        } else {
            self.fits_by_place()
        };
        let ghost nhi = nh as int;
        let ghost mi = m as int;
        assert(0 * mi * nhi == 0) by (nonlinear_arith);
        let mut table: Vec<T> = Vec::new();
        let mut k: usize = 0;
        while k < n
            invariant
                k <= n,
                n == self.remaining_deck@.len(),
                nh == self.num_valid,
                nhi == nh,
                mi == m,
                m == self.most_rivers(52),
                self.wf(),
                f == if chances {
                    self.chance_by_place()
                } else {
                    self.fits_by_place()
                },
                table@.len() == k * mi * nhi,
                forall|i: int, r: int, h: int|
                    0 <= i < k && 0 <= r < mi && 0 <= h < nhi ==> #[trigger] table@[at(
                        nhi,
                        at(mi, i, r),
                        h,
                    )] == if r < self.river_decks@[self.remaining_deck@[i] as int]@.len() {
                        f(i, r, h)
                    } else {
                        T::s_zero()
                    },
            decreases n - k,
        {
            let tc: u8 = self.remaining_deck[k];
            assert(self.remaining_deck@[k as int] == tc && tc < 52);
            let len: usize = self.river_decks[tc as usize].len();
            proof {
                self.lemma_most_rivers(52, tc as int);
            }
            let mut r: usize = 0;
            while r < m
                invariant
                    r <= m,
                    k < n,
                    n == self.remaining_deck@.len(),
                    nh == self.num_valid,
                    nhi == nh,
                    mi == m,
                    self.wf(),
                    tc < 52,
                    tc == self.remaining_deck@[k as int],
                    len == self.river_decks@[tc as int]@.len(),
                    f == if chances {
                        self.chance_by_place()
                    } else {
                        self.fits_by_place()
                    },
                    table@.len() == at(mi, k as int, r as int) * nhi,
                    forall|i: int, q: int, h: int|
                        (0 <= i < k && 0 <= q < mi || i == k && 0 <= q < r) && 0 <= h < nhi
                            ==> #[trigger] table@[at(nhi, at(mi, i, q), h)] == if q
                            < self.river_decks@[self.remaining_deck@[i] as int]@.len() {
                            f(i, q, h)
                        } else {
                            T::s_zero()
                        },
                decreases m - r,
            {
                let mut h: usize = 0;
                while h < nh
                    invariant
                        h <= nh,
                        r < m,
                        k < n,
                        n == self.remaining_deck@.len(),
                        nh == self.num_valid,
                        nhi == nh,
                        mi == m,
                        self.wf(),
                        tc < 52,
                        tc == self.remaining_deck@[k as int],
                        len == self.river_decks@[tc as int]@.len(),
                        f == if chances {
                            self.chance_by_place()
                        } else {
                            self.fits_by_place()
                        },
                        table@.len() == at(mi, k as int, r as int) * nhi + h,
                        forall|i: int, q: int, g: int|
                            (0 <= i < k && 0 <= q < mi || i == k && 0 <= q < r) && 0 <= g < nhi
                                || i == k && q == r && 0 <= g < h ==> #[trigger] table@[at(
                                nhi,
                                at(mi, i, q),
                                g,
                            )] == if q < self.river_decks@[self.remaining_deck@[i] as int]@.len() {
                                f(i, q, g)
                            } else {
                                T::s_zero()
                            },
                    decreases nh - h,
                {
                    let ghost before = table@;
                    let x: T = if r < len {
                        self.pair_entry(chances, k, r, h)
                    } else {
                        T::zero()
                    };
                    table.push(x);
                    proof {
                        assert forall|i: int, q: int, g: int|
                            (0 <= i < k && 0 <= q < mi || i == k && 0 <= q < r) && 0 <= g < nhi
                                || i == k && q == r && 0 <= g < h + 1 implies #[trigger] table@[at(
                            nhi,
                            at(mi, i, q),
                            g,
                        )] == if q < self.river_decks@[self.remaining_deck@[i] as int]@.len() {
                            f(i, q, g)
                        } else {
                            T::s_zero()
                        } by {
                            let here = at(mi, k as int, r as int);
                            if !(i == k && q == r) {
                                if i < k {
                                    lemma_at_bound(mi, k as int, i, q);
                                }
                                assert(at(mi, i, q) < here);
                                lemma_at_bound(nhi, here, at(mi, i, q), g);
                                assert(before[at(nhi, at(mi, i, q), g)] == table@[at(
                                    nhi,
                                    at(mi, i, q),
                                    g,
                                )]);
                            } else if g < h {
                                assert(before[at(nhi, at(mi, i, q), g)] == table@[at(
                                    nhi,
                                    at(mi, i, q),
                                    g,
                                )]);
                            }
                        }
                    }
                    h += 1;
                }
                proof {
                    let here = at(mi, k as int, r as int);
                    assert(here * nhi + nhi == (here + 1) * nhi) by (nonlinear_arith);
                }
                r += 1;
            }
            proof {
                assert(at(mi, k as int, mi) == (k + 1) * mi) by (nonlinear_arith);
            }
            k += 1;
        }
        table
    }

    /// Copies of the turn strength orders.
    pub fn compute_turn_pl_sorted(&self) -> (lists: (Vec<u16>, Vec<u16>))
        ensures
            lists.0@ == self.turn_sorted_str@,
            lists.1@ == self.turn_sorted_idx@,
    {
        let a = self.turn_sorted_str.clone();
        let b = self.turn_sorted_idx.clone();
        assert(a@ =~= self.turn_sorted_str@);
        assert(b@ =~= self.turn_sorted_idx@);
        (a, b)
    }

    /// Copies of the river strength orders.
    pub fn compute_river_pl_sorted(&self) -> (lists: (Vec<u16>, Vec<u16>))
        ensures
            lists.0@ == self.river_sorted_str@,
            lists.1@ == self.river_sorted_idx@,
    {
        let a = self.river_sorted_str.clone();
        let b = self.river_sorted_idx.clone();
        assert(a@ =~= self.river_sorted_str@);
        assert(b@ =~= self.river_sorted_idx@);
        (a, b)
    }
}

/// A game that starts on a known flop: the turn is dealt first, the river after
/// it. `showdown` values the terminals.
pub struct FlopStartGame<T: Widen, F> {
    pub table: FlopChanceTable<T>,
    pub current_turn_card: Option<u8>,
    pub current_river_card: Option<u8>,
    pub showdown: F,
}

impl<T: Widen, F: Fn(&TerminalSpot<T>) -> Vec<T>> FlopStartGame<T, F> {
    /// The cards dealt so far.
    pub open spec fn dealt(&self) -> Dealt {
        Dealt { turn: self.current_turn_card, river: self.current_river_card }
    }

    pub fn new(table: FlopChanceTable<T>, showdown: F) -> (game: FlopStartGame<T, F>)
        ensures
            game.table == table,
            game.showdown == showdown,
            game.current_turn_card is None,
            game.current_river_card is None,
    {
        FlopStartGame { table, current_turn_card: None, current_river_card: None, showdown }
    }

    pub fn table(&self) -> (t: &FlopChanceTable<T>)
        ensures
            *t == self.table,
    {
        &self.table
    }

    pub fn set_turn_card(&mut self, card: u8)
        ensures
            *final(self) == (FlopStartGame { current_turn_card: Some(card), ..*old(self) }),
    {
        self.current_turn_card = Some(card);
    }

    pub fn set_river_card(&mut self, card: u8)
        ensures
            *final(self) == (FlopStartGame { current_river_card: Some(card), ..*old(self) }),
    {
        self.current_river_card = Some(card);
    }

    /// Takes both deals back.
    pub fn clear_chance(&mut self)
        ensures
            *final(self) == (FlopStartGame {
                current_turn_card: None,
                current_river_card: None,
                ..*old(self)
            }),
    {
        self.current_turn_card = None;
        self.current_river_card = None;
    }

    /// The deck that the next deal comes from.
    pub open spec fn next_deck(&self) -> Seq<u8> {
        match self.current_turn_card {
            Some(t) => self.table.river_decks@[t as int]@,
            None => self.table.remaining_deck@,
        }
    }
}

impl<T: Widen, F: Fn(&TerminalSpot<T>) -> Vec<T>> GameSpec<T> for FlopStartGame<T, F> {
    open spec fn s_valid(&self) -> bool {
        &&& self.table.wf()
        &&& self.dealt().wf()
        &&& is_evaluator(&self.showdown, self.table.num_players as int, self.table.nh())
    }

    open spec fn s_players(&self) -> int {
        self.table.num_players as int
    }

    open spec fn s_hands(&self, player: int) -> int {
        self.table.nh()
    }

    open spec fn s_weight(&self, player: int) -> Seq<T> {
        self.table.initial_weights@[player]@
    }

    open spec fn s_terminal(
        &self,
        traverser: u8,
        node: int,
        tree: &FlatTree,
        reach: Seq<Seq<T>>,
    ) -> Seq<T> {
        terminal_value_of(
            &self.showdown,
            tree,
            &self.table,
            &self.dealt(),
            reach,
            traverser,
            node,
        )
    }

    open spec fn s_continuation(
        &self,
        traverser: u8,
        node: int,
        tree: &FlatTree,
        reach: Seq<Seq<T>>,
    ) -> Seq<T> {
        self.s_terminal(traverser, node, tree, reach)
    }

    open spec fn s_chance(&self, outcome: int, hand: int) -> T {
        deal_chance::<T>(
            self.next_deck(),
            outcome,
            self.table.valid_hand_indices@[hand] as int,
        )
    }

    open spec fn s_can_ask(&self, outcome: int) -> bool {
        0 <= outcome < self.next_deck().len()
    }

    open spec fn s_combinations(&self) -> T::Wide {
        self.table.num_combinations
    }

    open spec fn s_outcomes(&self) -> int {
        self.next_deck().len() as int
    }

    open spec fn s_can_deal(&self, outcome: int) -> bool {
        0 <= outcome < self.next_deck().len()
    }

    open spec fn s_can_undo(&self) -> bool {
        self.current_river_card is None
    }

    open spec fn s_set(&self, outcome: int) -> Self {
        let card = self.next_deck()[outcome];
        if self.current_turn_card is Some {
            FlopStartGame { current_river_card: Some(card), ..*self }
        } else {
            FlopStartGame { current_turn_card: Some(card), ..*self }
        }
    }

    open spec fn s_clear(&self) -> Self {
        if self.current_river_card is Some {
            FlopStartGame { current_river_card: None, ..*self }
        } else {
            FlopStartGame { current_turn_card: None, ..*self }
        }
    }

    open spec fn s_single_deal(&self) -> bool {
        false
    }

    proof fn lemma_set(&self, outcome: int) {
        match self.current_turn_card {
            Some(t) => {
                assert(self.table.river_decks@[t as int]@[outcome] < NUM_CARDS);
            },
            None => {
                assert(self.table.remaining_deck@[outcome] < NUM_CARDS);
            },
        }
    }

    proof fn lemma_clear(&self) {
    }

    proof fn lemma_undo(&self, outcome: int) {
    }

    fn num_hands(&self, _player: u8) -> (n: usize) {
        self.table.num_valid
    }

    fn initial_weight(&self, player: u8) -> (w: Vec<T>) {
        row_copy(&self.table.initial_weights[player as usize])
    }

    fn evaluate_terminal(
        &self,
        traverser: u8,
        node_idx: usize,
        tree: &FlatTree,
        cfreach: &Vec<Vec<T>>,
    ) -> (values: Vec<T>) {
        let dealt = Dealt { turn: self.current_turn_card, river: self.current_river_card };
        let values = terminal_values(
            &self.showdown,
            tree,
            &self.table,
            &dealt,
            cfreach,
            traverser,
            node_idx,
        );
        proof {
            assert forall|p: int| 0 <= p < tree.np() implies (#[trigger] views(cfreach@)[p]).len()
                == self.table.nh() by {
                assert(cfreach@[p]@.len() == self.s_hands(p));
            }
            lemma_terminal_value(
                &self.showdown,
                tree,
                &self.table,
                &dealt,
                views(cfreach@),
                traverser,
                node_idx as int,
                values@,
            );
        }
        values
    }

    fn evaluate_continuation(
        &self,
        traverser: u8,
        node_idx: usize,
        tree: &FlatTree,
        cfreach: &Vec<Vec<T>>,
    ) -> (values: Vec<T>) {
        self.evaluate_terminal(traverser, node_idx, tree, cfreach)
    }

    fn chance_probability(&self, outcome: usize, hand: usize) -> (x: T) {
        match self.current_turn_card {
            Some(tc) => self.table.chance_probability_river(tc, outcome, hand),
            None => self.table.chance_probability_turn(outcome, hand),
        }
    }

    fn num_combinations(&self) -> (x: T::Wide) {
        self.table.num_combinations
    }

    fn num_chance_outcomes(&self) -> (n: usize) {
        match self.current_turn_card {
            Some(tc) => self.table.river_decks[tc as usize].len(),
            None => self.table.remaining_deck.len(),
        }
    }

    fn set_chance_outcome(&mut self, outcome: usize) {
        match self.current_turn_card {
            Some(tc) => {
                let card: u8 = self.table.river_decks[tc as usize][outcome];
                self.current_river_card = Some(card);
            },
            None => {
                let card: u8 = self.table.remaining_deck[outcome];
                self.current_turn_card = Some(card);
            },
        }
    }

    fn clear_chance_outcome(&mut self) {
        if self.current_river_card.is_some() {
            self.current_river_card = None;
        } else {
            self.current_turn_card = None;
        }
    }
}

/// Taking a deal back undoes it: from a state with no river, a deal followed by
/// a clear is where it started.
pub proof fn law_clear_undoes_set<T: Widen, F: Fn(&TerminalSpot<T>) -> Vec<T>>(
    game: &FlopStartGame<T, F>,
    outcome: int,
)
    requires
        game.s_valid(),
        game.current_river_card is None,
        0 <= outcome < game.s_outcomes(),
    ensures
        game.s_set(outcome).s_clear() == *game,
{
}

/// The turn is dealt before the river: two deals from a fresh game leave a turn
/// card and a river card that is still in the deck, and two clears take both
/// back.
pub proof fn law_deals_turn_then_river<
    T: Widen,
    F: Fn(&TerminalSpot<T>) -> Vec<T>,
    H: Copy,
    A: Fn(H, u8) -> H,
    K: Fn(H) -> u16,
>(
    game: &FlopStartGame<T, F>,
    board: Seq<u8>,
    e: &Evaluator<H, A, K>,
    ranges: Seq<Vec<T>>,
    k: int,
    r: int,
)
    requires
        game.s_valid(),
        game.table.is_of(board, e, ranges, game.table.num_players),
        game.current_turn_card is None,
        game.current_river_card is None,
        0 <= k < game.s_outcomes(),
        0 <= r < game.s_set(k).s_outcomes(),
    ensures
        ({
            let two = game.s_set(k).s_set(r);
            &&& two.current_turn_card == Some(game.table.remaining_deck@[k])
            &&& two.current_river_card is Some
            &&& two.current_river_card != two.current_turn_card
            &&& !board.contains(two.current_river_card->0)
            &&& two.s_clear().s_clear() == *game
        }),
{
    let tc = game.table.remaining_deck@[k];
    let deck = game.table.river_decks@[tc as int]@;
    assert(game.table.remaining_deck@.contains(tc));
    assert(is_rest_of_deck(board.push(tc), deck));
    let rc = deck[r];
    assert(!board.push(tc).contains(rc));
    assert(board.push(tc)[board.len() as int] == tc);
    if board.contains(rc) {
        let j = choose|j: int| 0 <= j < board.len() && board[j] == rc;
        assert(board.push(tc)[j] == rc);
    }
}

} // verus!
