//! Ranks of the hands on a board.
use vstd::prelude::*;

use crate::card::{Card, NUM_POSSIBLE_HANDS};
use crate::deck::{hand_of, high_card, holds, is_free, low_card, on_board};
use crate::preflop_allin_equity::Evaluator;

verus! {

impl<H: Copy, A: Fn(H, u8) -> H, K: Fn(H) -> u16> Evaluator<H, A, K> {
    /// Hands can be ranked, with room for one more rank above all of theirs.
    pub open spec fn ranks_hands(&self) -> bool {
        self.wf() && forall|h: H| #[trigger] self.rank_of(h) < u16::MAX
    }

    /// The rank of hand number `hand` with the cards of a board.
    pub open spec fn rank_on(&self, hand: int, board: Seq<u8>) -> u16 {
        self.rank_of(
            self.with_all(
                self.pair(low_card(hand) as u8, high_card(hand) as u8),
                board,
                board.len(),
            ),
        )
    }

    /// Ranks a hand on a board.
    pub fn rank_hand(&self, hand: usize, board: &[Card]) -> (r: u16)
        requires
            self.wf(),
            hand < NUM_POSSIBLE_HANDS,
        ensures
            r == self.rank_on(hand as int, board@),
    {
        let (c1, c2) = hand_of(hand);
        let first = self.add_card(self.empty, c1);
        let mut h = self.add_card(first, c2);
        let ghost own = h;
        let mut k: usize = 0;
        while k < board.len()
            invariant
                k <= board@.len(),
                self.wf(),
                h == self.with_all(own, board@, k as nat),
            decreases board@.len() - k,
        {
            h = self.add_card(h, board[k]);
            k += 1;
            assert((k - 1) as nat == k - 1);
        }
        self.evaluate(h)
    }
}

/// Ranks of the listed hands on a board.
pub open spec fn all_ranks<H: Copy, A: Fn(H, u8) -> H, K: Fn(H) -> u16>(
    e: &Evaluator<H, A, K>,
    board: Seq<u8>,
    hands: Seq<u16>,
) -> Seq<u16> {
    Seq::new(hands.len(), |i: int| e.rank_on(hands[i] as int, board))
}

/// Ranks of the listed hands on a board; 0 for a hand that uses one of its cards.
pub open spec fn free_ranks<H: Copy, A: Fn(H, u8) -> H, K: Fn(H) -> u16>(
    e: &Evaluator<H, A, K>,
    board: Seq<u8>,
    hands: Seq<u16>,
) -> Seq<u16> {
    Seq::new(
        hands.len(),
        |i: int|
            if is_free(board, hands[i] as int) {
                e.rank_on(hands[i] as int, board)
            } else {
                0u16
            },
    )
}

/// Ranks the listed hands on a board.
pub fn rank_all<H: Copy, A: Fn(H, u8) -> H, K: Fn(H) -> u16>(
    e: &Evaluator<H, A, K>,
    board: &[Card],
    hands: &Vec<u16>,
) -> (out: Vec<u16>)
    requires
        e.ranks_hands(),
        forall|i: int| 0 <= i < hands@.len() ==> (#[trigger] hands@[i]) < NUM_POSSIBLE_HANDS,
    ensures
        out@ == all_ranks(e, board@, hands@),
        forall|i: int| 0 <= i < out@.len() ==> (#[trigger] out@[i]) < u16::MAX,
{
    let mut out: Vec<u16> = Vec::new();
    let mut i: usize = 0;
    while i < hands.len()
        invariant
            i <= hands@.len(),
            e.ranks_hands(),
            forall|k: int| 0 <= k < hands@.len() ==> (#[trigger] hands@[k]) < NUM_POSSIBLE_HANDS,
            out@.len() == i,
            forall|k: int|
                0 <= k < i ==> #[trigger] out@[k] == all_ranks(e, board@, hands@)[k] && out@[k]
                    < u16::MAX,
        decreases hands@.len() - i,
    {
        assert(hands@[i as int] < NUM_POSSIBLE_HANDS);
        out.push(e.rank_hand(hands[i] as usize, board));
        i += 1;
    }
    assert(out@ =~= all_ranks(e, board@, hands@));
    out
}

/// Ranks those of the listed hands that use no card of the board.
pub fn rank_free<H: Copy, A: Fn(H, u8) -> H, K: Fn(H) -> u16>(
    e: &Evaluator<H, A, K>,
    board: &[Card],
    hands: &Vec<u16>,
) -> (out: Vec<u16>)
    requires
        e.ranks_hands(),
        forall|i: int| 0 <= i < hands@.len() ==> (#[trigger] hands@[i]) < NUM_POSSIBLE_HANDS,
    ensures
        out@ == free_ranks(e, board@, hands@),
        forall|i: int| 0 <= i < out@.len() ==> (#[trigger] out@[i]) < u16::MAX,
{
    let mut out: Vec<u16> = Vec::new();
    let mut i: usize = 0;
    while i < hands.len()
        invariant
            i <= hands@.len(),
            e.ranks_hands(),
            forall|k: int| 0 <= k < hands@.len() ==> (#[trigger] hands@[k]) < NUM_POSSIBLE_HANDS,
            out@.len() == i,
            forall|k: int|
                0 <= k < i ==> #[trigger] out@[k] == free_ranks(e, board@, hands@)[k] && out@[k]
                    < u16::MAX,
        decreases hands@.len() - i,
    {
        assert(hands@[i as int] < NUM_POSSIBLE_HANDS);
        let hand: usize = hands[i] as usize;
        let (c1, c2) = hand_of(hand);
        let taken = on_board(board, c1) || on_board(board, c2);
        proof {
            let x = hand as int;
            if board@.contains(c1) {
                let k = choose|k: int| 0 <= k < board@.len() && board@[k] == c1;
                assert(holds(x, board@[k] as int));
            }
            if board@.contains(c2) {
                let k = choose|k: int| 0 <= k < board@.len() && board@[k] == c2;
                assert(holds(x, board@[k] as int));
            }
            assert(taken == !is_free(board@, x));
        }
        out.push(if taken {
            0
        } else {
            e.rank_hand(hand, board)
        });
        i += 1;
    }
    assert(out@ =~= free_ranks(e, board@, hands@));
    out
}

} // verus!
