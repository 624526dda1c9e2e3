//! Cards and two-card hands as numbers.
//!
//! A card is `rank * 4 + suit`; the hands of two cards are numbered by their
//! lower card first.
use vstd::prelude::*;

verus! {

pub type Card = u8;

pub const NUM_CARDS: usize = 52;

/// Number of two-card hands.
pub const NUM_POSSIBLE_HANDS: usize = 1326;

/// Hands whose lower card is under `c`.
pub open spec fn hands_before(c: int) -> int {
    c * (103 - c) / 2
}

/// The number of the hand of cards `lo < hi`.
pub open spec fn pair_number(lo: int, hi: int) -> int {
    hands_before(lo) + (hi - lo - 1)
}

proof fn lemma_hands_step(c: int)
    requires
        0 <= c < 52,
    ensures
        hands_before(c + 1) == hands_before(c) + (51 - c),
        0 <= hands_before(c) <= 1326,
{
    assert((c + 1) * (103 - (c + 1)) == c * (103 - c) + 2 * (51 - c)) by (nonlinear_arith);
    assert(0 <= c * (103 - c) <= 2652) by (nonlinear_arith)
        requires
            0 <= c < 52,
    ;
}

proof fn lemma_hands_mono(c: int, d: int)
    requires
        0 <= c <= d <= 52,
    ensures
        hands_before(c) <= hands_before(d),
    decreases d - c,
{
    if c < d {
        lemma_hands_step(c);
        lemma_hands_mono(c + 1, d);
    }
}

/// Hand numbers run from zero to [`NUM_POSSIBLE_HANDS`].
pub proof fn lemma_pair_bound(lo: int, hi: int)
    requires
        0 <= lo < hi < 52,
    ensures
        0 <= pair_number(lo, hi) < NUM_POSSIBLE_HANDS,
{
    lemma_hands_step(lo);
    lemma_hands_mono(lo + 1, 52);
}

/// Hands are numbered by their lower card, then by their higher one.
pub proof fn lemma_pair_order(lo: int, hi: int, lo2: int, hi2: int)
    requires
        0 <= lo < hi < 52,
        0 <= lo2 < hi2 < 52,
        lo < lo2 || (lo == lo2 && hi < hi2),
    ensures
        pair_number(lo, hi) < pair_number(lo2, hi2),
{
    if lo < lo2 {
        lemma_hands_step(lo);
        lemma_hands_mono(lo + 1, lo2);
    }
}

/// Every number from that of the first hand with lower card `lo` on is that of a hand.
pub proof fn lemma_find_pair(index: int, lo: int) -> (pair: (int, int))
    requires
        0 <= lo < 52,
        hands_before(lo) <= index < NUM_POSSIBLE_HANDS,
    ensures
        0 <= pair.0 < pair.1 < 52,
        pair_number(pair.0, pair.1) == index,
    decreases 52 - lo,
{
    lemma_hands_step(lo);
    if index < hands_before(lo + 1) {
        (lo, lo + 1 + (index - hands_before(lo)))
    } else {
        if lo == 51 {
            assert(52int * (103 - 52int) == 2652) by (nonlinear_arith);
        }
        lemma_find_pair(index, lo + 1)
    }
}

/// The hand of two different cards, in either order.
pub fn card_pair_to_index(c1: Card, c2: Card) -> (index: usize)
    requires
        c1 < 52,
        c2 < 52,
        c1 != c2,
    ensures
        c1 < c2 ==> index == pair_number(c1 as int, c2 as int),
        c2 < c1 ==> index == pair_number(c2 as int, c1 as int),
        index < NUM_POSSIBLE_HANDS,
{
    let lo: usize = if c1 < c2 {
        c1 as usize
    } else {
        c2 as usize
    };
    let hi: usize = if c1 < c2 {
        c2 as usize
    } else {
        c1 as usize
    };
    proof {
        let l = lo as int;
        assert(l * (103 - l) == l * (101 - l) + 2 * l) by (nonlinear_arith);
        assert(0 <= l * (101 - l) <= 2601) by (nonlinear_arith)
            requires
                0 <= l < 52,
        ;
        lemma_hands_step(l);
        lemma_hands_mono(l + 1, 52);
    }
    lo * (101 - lo) / 2 + hi - 1
}

/// The two cards of a hand, the lower one first.
pub fn index_to_card_pair(index: usize) -> (pair: (Card, Card))
    requires
        index < NUM_POSSIBLE_HANDS,
    ensures
        pair.0 < pair.1 < 52,
        pair_number(pair.0 as int, pair.1 as int) == index,
{
    let mut lo: usize = 0;
    let mut rest: usize = index;
    while rest >= 51 - lo
        invariant
            lo < 51,
            index < NUM_POSSIBLE_HANDS,
            index == hands_before(lo as int) + rest,
        decreases 51 - lo,
    {
        proof {
            lemma_hands_step(lo as int);
            if lo == 50 {
                assert(51int * (103 - 51int) == 2652) by (nonlinear_arith);
            }
        }
        rest = rest - (51 - lo);
        lo += 1;
    }
    (lo as u8, (lo + 1 + rest) as u8)
}

/// Different hands have different numbers.
pub proof fn law_pair_number_tells_hands_apart(lo: int, hi: int, lo2: int, hi2: int)
    requires
        0 <= lo < hi < 52,
        0 <= lo2 < hi2 < 52,
        pair_number(lo, hi) == pair_number(lo2, hi2),
    ensures
        lo == lo2,
        hi == hi2,
{
    lemma_hands_step(lo);
    lemma_hands_step(lo2);
    if lo < lo2 {
        lemma_hands_mono(lo + 1, lo2);
    } else if lo2 < lo {
        lemma_hands_mono(lo2 + 1, lo);
    }
}

} // verus!
