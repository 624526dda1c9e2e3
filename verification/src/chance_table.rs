//! Everything that does not change while a turn is solved.
use vstd::prelude::*;

use crate::card::{Card, NUM_POSSIBLE_HANDS};
use crate::deck::{
    are_free_hands, are_hand_cards, cards_of_hands, conflict_matrix, free_hands, is_conflict_matrix,
    is_free, is_rest_of_deck, is_strength_order, rest_of_deck, strength_order,
};
use crate::flop_start_game::{lemma_distinct_take, slot_state, RankTables};
use crate::layout::{at, flat, row, row_copy};
use crate::preflop_allin_equity::Evaluator;
use crate::ranks::{all_ranks, rank_all};
use crate::runout::{
    are_weights, join_rows, joined, pair_mass, pick_weights, repeat_run, total_pair_mass,
};
use crate::scalar::{filled, Scalar, Widen};
use crate::terminal::copied;

verus! {

/// The hands, ranks, deals and weights of a known turn.
pub struct ChanceTable<T: Widen> {
    pub hand_ranks_base: Vec<u16>,
    pub valid_hand_indices: Vec<u16>,
    pub num_valid: usize,
    pub conflict: Vec<u8>,
    pub hand_cards: Vec<u8>,
    /// River candidates.
    pub remaining_deck: Vec<u8>,
    pub chance_ranks_table: Vec<u16>,
    pub chance_sorted_strength: Vec<u16>,
    pub chance_sorted_indices: Vec<u16>,
    pub initial_weights: Vec<Vec<T>>,
    pub num_players: u8,
    pub num_combinations: T::Wide,
}

impl<T: Widen> ChanceTable<T> {
    pub open spec fn nh(&self) -> int {
        self.num_valid as int
    }

    pub open spec fn num_opp(&self) -> int {
        self.num_players - 1
    }

    /// The parts fit together.
    pub open spec fn wf(&self) -> bool {
        &&& 1 <= self.num_players
        &&& self.num_valid == self.valid_hand_indices@.len()
        &&& self.num_valid <= NUM_POSSIBLE_HANDS
        &&& forall|i: int|
            0 <= i < self.num_valid ==> (#[trigger] self.valid_hand_indices@[i])
                < NUM_POSSIBLE_HANDS
        &&& self.hand_ranks_base@.len() == self.num_valid
        &&& forall|i: int|
            0 <= i < self.num_valid ==> (#[trigger] self.hand_ranks_base@[i]) < u16::MAX
        &&& self.initial_weights@.len() == self.num_players
        &&& forall|p: int|
            0 <= p < self.num_players ==> (#[trigger] self.initial_weights@[p])@.len()
                == self.num_valid
    }

    /// This is the table of `board` under the given ranks and ranges: the hands that the
    /// board leaves possible, which of them collide, what they weigh, and for every river
    /// card their ranks and strength order. Two players' combinations are the weight of all
    /// pairs of hands that do not collide; any other number counts as one.
    pub open spec fn is_of<H: Copy, A: Fn(H, u8) -> H, K: Fn(H) -> u16>(
        &self,
        board: Seq<u8>,
        e: &Evaluator<H, A, K>,
        ranges: Seq<Vec<T>>,
        num_players: u8,
    ) -> bool {
        &&& self.wf()
        &&& self.num_players == num_players
        &&& are_free_hands(board, self.valid_hand_indices@)
        &&& self.hand_ranks_base@ == all_ranks(e, board, self.valid_hand_indices@)
        &&& is_conflict_matrix(self.valid_hand_indices@, self.conflict@)
        &&& are_hand_cards(self.valid_hand_indices@, self.hand_cards@)
        &&& is_rest_of_deck(board, self.remaining_deck@)
        &&& forall|r: int|
            0 <= r < 52 ==> #[trigger] slot_state(
                self.chance_ranks_table@,
                self.chance_sorted_strength@,
                self.chance_sorted_indices@,
                self.nh(),
                self.num_opp(),
                r,
                self.remaining_deck@.contains(r as u8),
                all_ranks(e, board.push(r as u8), self.valid_hand_indices@),
            )
        &&& are_weights(
            ranges,
            self.valid_hand_indices@,
            num_players as int,
            self.initial_weights@,
        )
        &&& self.num_combinations == if num_players == 2 {
            pair_mass::<T>(
                self.conflict@,
                self.initial_weights@[0]@,
                self.initial_weights@[1]@,
                self.nh(),
                self.nh() as nat,
                0,
            )
        } else {
            T::Wide::s_one()
        }
    }

    /// Builds the table of a known turn.
    #[verifier::rlimit(30)]
    pub fn compute_turn_start<H: Copy, A: Fn(H, u8) -> H, K: Fn(H) -> u16>(
        known_board: &[Card],
        e: &Evaluator<H, A, K>,
        ranges: &Vec<Vec<T>>,
        num_players: u8,
    ) -> (table: ChanceTable<T>)
        requires
            known_board@.len() == 4,
            e.ranks_hands(),
            1 <= num_players <= ranges@.len(),
            forall|p: int|
                0 <= p < num_players ==> (#[trigger] ranges@[p])@.len() == NUM_POSSIBLE_HANDS,
        ensures
            table.is_of(known_board@, e, ranges@, num_players),
    {
        let ghost board = known_board@;
        let hands = free_hands(known_board);
        let nh: usize = hands.len();
        let np: usize = num_players as usize;
        let num_opp: usize = np - 1;
        let ghost nhi = nh as int;
        let ghost no = num_opp as int;
        let ghost hs = hands@;
        proof {
            assert forall|i: int| 0 <= i < hs.len() implies (#[trigger] hs[i])
                < NUM_POSSIBLE_HANDS by {
                assert(is_free(board, hs[i] as int));
            }
            assert(0 <= no * nhi <= 254 * 1326) by (nonlinear_arith)
                requires
                    0 <= no <= 254,
                    0 <= nhi <= 1326,
            ;
        }
        let base = rank_all(e, known_board, &hands);
        let conflict = conflict_matrix(&hands);
        let hand_cards = cards_of_hands(&hands);
        let deck = rest_of_deck(known_board);
        let ghost dk = deck@;
        let mut rivers = RankTables::blank(nh, num_opp, 52);
        proof {
            assert(dk.take(0) =~= Seq::<u8>::empty());
            assert forall|r: int| 0 <= r < 52 implies #[trigger] rivers.holds_in(
                nhi,
                no,
                r,
                dk.take(0).contains(r as u8),
                all_ranks(e, board.push(r as u8), hs),
            ) by {
                assert(rivers.holds_in(nhi, no, r, false, Seq::empty()));
            }
        }
        let mut full: Vec<u8> = copied(known_board);
        let mut k: usize = 0;
        while k < deck.len()
            invariant
                k <= dk.len(),
                dk == deck@,
                hs == hands@,
                nhi == nh,
                nh == hs.len(),
                nh <= NUM_POSSIBLE_HANDS,
                no == num_opp,
                e.ranks_hands(),
                board == known_board@,
                full@ == board,
                is_rest_of_deck(board, dk),
                forall|i: int| 0 <= i < hs.len() ==> (#[trigger] hs[i]) < NUM_POSSIBLE_HANDS,
                rivers.wf(nhi, no, 52),
                forall|r: int|
                    0 <= r < 52 ==> #[trigger] rivers.holds_in(
                        nhi,
                        no,
                        r,
                        dk.take(k as int).contains(r as u8),
                        all_ranks(e, board.push(r as u8), hs),
                    ),
            decreases dk.len() - k,
        {
            let rc: u8 = deck[k];
            assert(dk[k as int] == rc && rc < 52);
            full.push(rc);
            assert(full@ =~= board.push(rc));
            let goal = rank_all(e, full.as_slice(), &hands);
            full.pop();
            assert(full@ =~= board);
            let ghost before = rivers;
            rivers.place(&goal, num_opp, rc as usize, 52);
            proof {
                assert forall|r: int| 0 <= r < 52 implies #[trigger] rivers.holds_in(
                    nhi,
                    no,
                    r,
                    dk.take(k + 1).contains(r as u8),
                    all_ranks(e, board.push(r as u8), hs),
                ) by {
                    lemma_distinct_take(dk, k as int, r as u8);
                    assert(before.holds_in(
                        nhi,
                        no,
                        r,
                        dk.take(k as int).contains(r as u8),
                        all_ranks(e, board.push(r as u8), hs),
                    ));
                    if r != rc {
                        assert(rivers.same_in(&before, nhi, no, r));
                    }
                }
            }
            k += 1;
        }
        assert(dk.take(k as int) =~= dk);
        let weights = pick_weights(ranges, &hands, np);
        proof {
            assert forall|p: int| 0 <= p < np implies (#[trigger] weights@[p])@.len() == nh by {}
        }
        let nc = if num_players == 2 {
            total_pair_mass(&conflict, &weights[0], &weights[1], nh)
        } else {
            T::Wide::one()
        };
        let table = ChanceTable {
            hand_ranks_base: base,
            valid_hand_indices: hands,
            num_valid: nh,
            conflict,
            hand_cards,
            remaining_deck: deck,
            chance_ranks_table: rivers.ranks,
            chance_sorted_strength: rivers.strength,
            chance_sorted_indices: rivers.index,
            initial_weights: weights,
            num_players,
            num_combinations: nc,
        };
        proof {
            assert forall|r: int| 0 <= r < 52 implies #[trigger] slot_state(
                table.chance_ranks_table@,
                table.chance_sorted_strength@,
                table.chance_sorted_indices@,
                table.nh(),
                table.num_opp(),
                r,
                table.remaining_deck@.contains(r as u8),
                all_ranks(e, board.push(r as u8), table.valid_hand_indices@),
            ) by {
                assert(rivers.holds_in(nhi, no, r, dk.contains(r as u8), all_ranks(e, board.push(r as u8), hs)));
            }
        }
        table
    }

    pub fn num_valid_hands(&self) -> (n: usize)
        ensures
            n == self.num_valid,
    {
        self.num_valid
    }

    pub fn hand_ranks_gpu(&self) -> (out: Vec<u16>)
        ensures
            out@ == self.hand_ranks_base@,
    {
        row_copy(&self.hand_ranks_base)
    }

    pub fn conflict_gpu(&self) -> (out: Vec<u8>)
        ensures
            out@ == self.conflict@,
    {
        row_copy(&self.conflict)
    }

    pub fn hand_cards_gpu(&self) -> (out: Vec<u8>)
        ensures
            out@ == self.hand_cards@,
    {
        row_copy(&self.hand_cards)
    }

    pub fn remaining_deck_gpu(&self) -> (out: Vec<u8>)
        ensures
            out@ == self.remaining_deck@,
    {
        row_copy(&self.remaining_deck)
    }

    pub fn chance_ranks_gpu(&self) -> (out: Vec<u16>)
        ensures
            out@ == self.chance_ranks_table@,
    {
        row_copy(&self.chance_ranks_table)
    }

    pub fn chance_sorted_arrays_gpu(&self) -> (out: (Vec<u16>, Vec<u16>))
        ensures
            out.0@ == self.chance_sorted_strength@,
            out.1@ == self.chance_sorted_indices@,
    {
        (row_copy(&self.chance_sorted_strength), row_copy(&self.chance_sorted_indices))
    }

    /// The initial weights of all players in one list.
    pub fn initial_weight_flat(&self) -> (out: Vec<T>)
        requires
            self.wf(),
        ensures
            out@ == joined(self.initial_weights@, self.num_players as nat),
    {
        join_rows(&self.initial_weights, self.num_players as usize)
    }

    /// The strength order on the turn: for every opponent, for the player, and a list of
    /// `u16::MAX` for the hands.
    pub fn sorted_opp_arrays(&self) -> (lists: (
        Vec<u16>,
        Vec<u16>,
        Vec<u16>,
        Vec<u16>,
        Vec<u16>,
    ))
        requires
            self.wf(),
        ensures
            repeats(lists.0@, lists.2@, self.num_opp()),
            repeats(lists.1@, lists.3@, self.num_opp()),
            is_strength_order(self.hand_ranks_base@, lists.2@, lists.3@),
            lists.4@ == flat(u16::MAX, self.nh()),
    {
        order_lists(&self.hand_ranks_base, self.num_players as usize - 1)
    }
}

/// `out` is `n` copies of `one`, one after the other.
pub open spec fn repeats(out: Seq<u16>, one: Seq<u16>, n: int) -> bool {
    &&& out.len() == n * one.len()
    &&& forall|k: int| 0 <= k < n ==> #[trigger] row(out, one.len() as int, k) == one
}

/// A list, `n` times over.
fn repeated(one: &Vec<u16>, n: usize) -> (out: Vec<u16>)
    requires
        n <= 255,
        one@.len() <= NUM_POSSIBLE_HANDS,
    ensures
        repeats(out@, one@, n as int),
{
    let w: usize = one.len();
    assert(0 <= n * w <= 255 * 1326) by (nonlinear_arith)
        requires
            0 <= n <= 255,
            0 <= w <= 1326,
    ;
    let mut out: Vec<u16> = filled(0, n * w);
    repeat_run(one, n, &mut out, 0);
    proof {
        assert(out@.subrange(0, n * w) =~= out@);
    }
    out
}

/// The strength order of the ranks, once per opponent and once for the player, and a
/// list of `u16::MAX`.
pub fn order_lists(ranks: &Vec<u16>, num_opp: usize) -> (lists: (
    Vec<u16>,
    Vec<u16>,
    Vec<u16>,
    Vec<u16>,
    Vec<u16>,
))
    requires
        num_opp <= 255,
        ranks@.len() <= NUM_POSSIBLE_HANDS,
        forall|i: int| 0 <= i < ranks@.len() ==> (#[trigger] ranks@[i]) < u16::MAX,
    ensures
        repeats(lists.0@, lists.2@, num_opp as int),
        repeats(lists.1@, lists.3@, num_opp as int),
        is_strength_order(ranks@, lists.2@, lists.3@),
        lists.4@ == flat(u16::MAX, ranks@.len() as int),
{
    let (strength, index) = strength_order(ranks.as_slice());
    let all_strength = repeated(&strength, num_opp);
    let all_index = repeated(&index, num_opp);
    let none: Vec<u16> = filled(u16::MAX, ranks.len());
    (all_strength, all_index, strength, index, none)
}

/// Two hands collide both ways or not at all, and every hand with itself.
pub proof fn law_conflict_is_symmetric(hands: Seq<u16>, conflict: Seq<u8>, i: int, j: int)
    requires
        is_conflict_matrix(hands, conflict),
        0 <= i < hands.len(),
        0 <= j < hands.len(),
    ensures
        conflict[at(hands.len() as int, i, j)] == conflict[at(hands.len() as int, j, i)],
        conflict[at(hands.len() as int, i, i)] == 1,
{
}

} // verus!
