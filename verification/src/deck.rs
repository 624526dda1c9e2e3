//! Hands and runouts that a board leaves possible.
use vstd::prelude::*;

use crate::card::{
    index_to_card_pair, law_pair_number_tells_hands_apart, lemma_find_pair, pair_number, Card,
    NUM_CARDS, NUM_POSSIBLE_HANDS,
};
use crate::layout::{at, lemma_at_bound, lemma_at_inj};
use crate::scalar::filled;

verus! {

/// `lo < hi` are the cards of hand `index`.
pub open spec fn is_pair(index: int, lo: int, hi: int) -> bool {
    0 <= lo < hi < 52 && pair_number(lo, hi) == index
}

/// The lower card of a hand.
pub open spec fn low_card(index: int) -> int {
    (choose|p: (int, int)| #[trigger] is_pair(index, p.0, p.1)).0
}

/// The higher card of a hand.
pub open spec fn high_card(index: int) -> int {
    (choose|p: (int, int)| #[trigger] is_pair(index, p.0, p.1)).1
}

pub proof fn lemma_cards(index: int, lo: int, hi: int)
    requires
        is_pair(index, lo, hi),
    ensures
        low_card(index) == lo,
        high_card(index) == hi,
{
    let q = (lo, hi);
    assert(is_pair(index, q.0, q.1));
    let p = choose|p: (int, int)| #[trigger] is_pair(index, p.0, p.1);
    assert(is_pair(index, p.0, p.1));
    law_pair_number_tells_hands_apart(lo, hi, p.0, p.1);
}

/// The cards of hand `index` are two of the deck.
pub proof fn lemma_has_cards(index: int)
    requires
        0 <= index < NUM_POSSIBLE_HANDS,
    ensures
        is_pair(index, low_card(index), high_card(index)),
{
    assert(0int * (103 - 0int) == 0) by (nonlinear_arith);
    let p = lemma_find_pair(index, 0);
    assert(is_pair(index, p.0, p.1));
    lemma_cards(index, p.0, p.1);
}

/// The two cards of hand `index`.
pub fn hand_of(index: usize) -> (pair: (Card, Card))
    requires
        index < NUM_POSSIBLE_HANDS,
    ensures
        pair.0 == low_card(index as int),
        pair.1 == high_card(index as int),
        is_pair(index as int, pair.0 as int, pair.1 as int),
{
    let pair = index_to_card_pair(index);
    proof {
        lemma_cards(index as int, pair.0 as int, pair.1 as int);
    }
    pair
}

/// Card `c` is one of hand `index`.
pub open spec fn holds(index: int, c: int) -> bool {
    low_card(index) == c || high_card(index) == c
}

/// Hands `i` and `j` have a card in common.
pub open spec fn collide(i: int, j: int) -> bool {
    holds(i, low_card(j)) || holds(i, high_card(j))
}

/// None of the cards of hand `index` lies on the board.
pub open spec fn is_free(board: Seq<u8>, index: int) -> bool {
    0 <= index < NUM_POSSIBLE_HANDS && forall|k: int|
        0 <= k < board.len() ==> !holds(index, (#[trigger] board[k]) as int)
}

/// The hands that `board` leaves possible, in order.
pub open spec fn are_free_hands(board: Seq<u8>, hands: Seq<u16>) -> bool {
    &&& forall|i: int, j: int| 0 <= i < j < hands.len() ==> #[trigger] hands[i] < #[trigger] hands[j]
    &&& forall|i: int| 0 <= i < hands.len() ==> is_free(board, (#[trigger] hands[i]) as int)
    &&& forall|index: int| #[trigger] is_free(board, index) ==> hands.contains(index as u16)
}

/// The cards that `board` leaves in the deck, in order.
pub open spec fn is_rest_of_deck(board: Seq<u8>, deck: Seq<u8>) -> bool {
    &&& forall|i: int, j: int| 0 <= i < j < deck.len() ==> #[trigger] deck[i] < #[trigger] deck[j]
    &&& forall|i: int|
        0 <= i < deck.len() ==> (#[trigger] deck[i]) < NUM_CARDS && !board.contains(deck[i])
    &&& forall|c: u8| c < NUM_CARDS && !board.contains(c) ==> #[trigger] deck.contains(c)
}

/// Whether `c` lies on the board.
pub fn on_board(board: &[Card], c: Card) -> (r: bool)
    ensures
        r == board@.contains(c),
{
    let mut k: usize = 0;
    while k < board.len()
        invariant
            k <= board@.len(),
            forall|j: int| 0 <= j < k ==> #[trigger] board@[j] != c,
        decreases board@.len() - k,
    {
        if board[k] == c {
            return true;
        }
        k += 1;
    }
    false
}

/// Lists the hands that the board leaves possible.
pub fn free_hands(board: &[Card]) -> (hands: Vec<u16>)
    ensures
        are_free_hands(board@, hands@),
        hands@.len() <= NUM_POSSIBLE_HANDS,
{
    let mut hands: Vec<u16> = Vec::new();
    let mut index: usize = 0;
    while index < NUM_POSSIBLE_HANDS
        invariant
            index <= NUM_POSSIBLE_HANDS,
            hands@.len() <= index,
            forall|i: int, j: int|
                0 <= i < j < hands@.len() ==> #[trigger] hands@[i] < #[trigger] hands@[j],
            forall|i: int|
                0 <= i < hands@.len() ==> is_free(board@, (#[trigger] hands@[i]) as int)
                    && hands@[i] < index,
            forall|k: int| #[trigger]
                is_free(board@, k) && k < index ==> hands@.contains(k as u16),
        decreases NUM_POSSIBLE_HANDS - index,
    {
        let (c1, c2) = hand_of(index);
        let ghost before = hands@;
        let blocked = on_board(board, c1) || on_board(board, c2);
        proof {
            if board@.contains(c1) {
                let k = choose|k: int| 0 <= k < board@.len() && board@[k] == c1;
                assert(holds(index as int, board@[k] as int));
            }
            if board@.contains(c2) {
                let k = choose|k: int| 0 <= k < board@.len() && board@[k] == c2;
                assert(holds(index as int, board@[k] as int));
            }
            assert(blocked == !is_free(board@, index as int));
        }
        if !blocked {
            hands.push(index as u16);
            proof {
                assert forall|k: int| #[trigger]
                    is_free(board@, k) && k < index + 1 implies hands@.contains(k as u16) by {
                    if k < index {
                        assert(before.contains(k as u16));
                        let i = choose|i: int| 0 <= i < before.len() && before[i] == k as u16;
                        assert(hands@[i] == k as u16);
                    } else {
                        assert(hands@[before.len() as int] == k as u16);
                    }
                }
            }
        }
        index += 1;
    }
    hands
}

/// Lists the cards that the board leaves in the deck.
pub fn rest_of_deck(board: &[Card]) -> (deck: Vec<u8>)
    ensures
        is_rest_of_deck(board@, deck@),
        deck@.len() <= NUM_CARDS,
{
    let mut deck: Vec<u8> = Vec::new();
    let mut c: u8 = 0;
    while c < 52
        invariant
            c <= 52,
            deck@.len() <= c,
            forall|i: int, j: int|
                0 <= i < j < deck@.len() ==> #[trigger] deck@[i] < #[trigger] deck@[j],
            forall|i: int|
                0 <= i < deck@.len() ==> (#[trigger] deck@[i]) < c && !board@.contains(deck@[i]),
            forall|d: u8| d < c && !board@.contains(d) ==> #[trigger] deck@.contains(d),
        decreases 52 - c,
    {
        let ghost before = deck@;
        if !on_board(board, c) {
            deck.push(c);
            proof {
                assert forall|d: u8| d < c + 1 && !board@.contains(d) implies #[trigger] deck@.contains(
                d) by {
                    if d < c {
                        assert(before.contains(d));
                        let i = choose|i: int| 0 <= i < before.len() && before[i] == d;
                        assert(deck@[i] == d);
                    } else {
                        assert(deck@[before.len() as int] == d);
                    }
                }
            }
        }
        c += 1;
    }
    deck
}

/// Every hand's two cards, one hand after the other.
pub open spec fn are_hand_cards(hands: Seq<u16>, cards: Seq<u8>) -> bool {
    &&& cards.len() == 2 * hands.len()
    &&& forall|i: int|
        0 <= i < hands.len() ==> cards[2 * i] == low_card((#[trigger] hands[i]) as int) && cards[2
            * i + 1] == high_card(hands[i] as int)
}

/// Lists the cards of the hands.
pub fn cards_of_hands(hands: &Vec<u16>) -> (cards: Vec<u8>)
    requires
        forall|i: int| 0 <= i < hands@.len() ==> (#[trigger] hands@[i]) < NUM_POSSIBLE_HANDS,
    ensures
        are_hand_cards(hands@, cards@),
        forall|k: int| 0 <= k < cards@.len() ==> #[trigger] cards@[k] < NUM_CARDS,
{
    let mut cards: Vec<u8> = Vec::new();
    let mut i: usize = 0;
    while i < hands.len()
        invariant
            i <= hands@.len(),
            forall|k: int| 0 <= k < hands@.len() ==> (#[trigger] hands@[k]) < NUM_POSSIBLE_HANDS,
            cards@.len() == 2 * i,
            forall|k: int|
                0 <= k < i ==> cards@[2 * k] == low_card((#[trigger] hands@[k]) as int) && cards@[2
                    * k + 1] == high_card(hands@[k] as int),
            forall|k: int| 0 <= k < cards@.len() ==> #[trigger] cards@[k] < NUM_CARDS,
        decreases hands@.len() - i,
    {
        let (c1, c2) = hand_of(hands[i] as usize);
        cards.push(c1);
        cards.push(c2);
        i += 1;
    }
    cards
}

/// Which hands cannot be dealt together, as rows of 0 and 1.
pub open spec fn is_conflict_matrix(hands: Seq<u16>, conflict: Seq<u8>) -> bool {
    let n = hands.len() as int;
    &&& conflict.len() == n * n
    &&& forall|i: int, j: int|
        0 <= i < n && 0 <= j < n ==> #[trigger] conflict[at(n, i, j)] == if i == j || collide(
            hands[i] as int,
            hands[j] as int,
        ) {
            1u8
        } else {
            0u8
        }
}

/// Computes which hands cannot be dealt together.
pub fn conflict_matrix(hands: &Vec<u16>) -> (conflict: Vec<u8>)
    requires
        hands@.len() <= NUM_POSSIBLE_HANDS,
        forall|i: int| 0 <= i < hands@.len() ==> (#[trigger] hands@[i]) < NUM_POSSIBLE_HANDS,
    ensures
        is_conflict_matrix(hands@, conflict@),
{
    let n: usize = hands.len();
    let ghost ni = n as int;
    assert(ni * ni <= 1326 * 1326) by (nonlinear_arith)
        requires
            0 <= ni <= 1326,
    ;
    let mut conflict: Vec<u8> = filled(0, n * n);
    proof {
        assert forall|k: int, l: int| 0 <= k < ni && 0 <= l < ni implies #[trigger] conflict@[at(
            ni,
            k,
            l,
        )] == 0 by {
            lemma_at_bound(ni, ni, k, l);
        }
    }
    let mut i: usize = 0;
    while i < n
        invariant
            i <= n,
            n == hands@.len(),
            ni == n,
            ni * ni <= 1326 * 1326,
            forall|k: int| 0 <= k < hands@.len() ==> (#[trigger] hands@[k]) < NUM_POSSIBLE_HANDS,
            conflict@.len() == ni * ni,
            forall|k: int, l: int|
                0 <= k < ni && 0 <= l < ni ==> #[trigger] conflict@[at(ni, k, l)] == if k < i && (k
                    == l || collide(hands@[k] as int, hands@[l] as int)) {
                    1u8
                } else {
                    0u8
                },
        decreases n - i,
    {
        let (a1, a2) = hand_of(hands[i] as usize);
        let mut j: usize = 0;
        while j < n
            invariant
                j <= n,
                i < n,
                n == hands@.len(),
                ni == n,
                ni * ni <= 1326 * 1326,
                forall|k: int|
                    0 <= k < hands@.len() ==> (#[trigger] hands@[k]) < NUM_POSSIBLE_HANDS,
                a1 == low_card(hands@[i as int] as int),
                a2 == high_card(hands@[i as int] as int),
                conflict@.len() == ni * ni,
                forall|k: int, l: int|
                    0 <= k < ni && 0 <= l < ni ==> #[trigger] conflict@[at(ni, k, l)] == if (k < i
                        || (k == i && l < j)) && (k == l || collide(
                        hands@[k] as int,
                        hands@[l] as int,
                    )) {
                        1u8
                    } else {
                        0u8
                    },
            decreases n - j,
        {
            let (b1, b2) = hand_of(hands[j] as usize);
            proof {
                lemma_at_bound(ni, ni, i as int, j as int);
            }
            if i == j || a1 == b1 || a1 == b2 || a2 == b1 || a2 == b2 {
                let ghost before = conflict@;
                conflict[i * n + j] = 1;
                proof {
                    assert forall|k: int, l: int|
                        0 <= k < ni && 0 <= l < ni && !(k == i && l == j) implies #[trigger] conflict@[at(
                    ni, k, l)] == before[at(ni, k, l)] by {
                        lemma_at_bound(ni, ni, k, l);
                        if at(ni, k, l) == at(ni, i as int, j as int) {
                            lemma_at_inj(ni, k, l, i as int, j as int);
                        }
                    }
                }
            }
            j += 1;
        }
        i += 1;
    }
    conflict
}

/// `a` comes no later than `b`: by strength, ties by hand.
pub open spec fn no_later(a: (u16, u16), b: (u16, u16)) -> bool {
    a.0 < b.0 || (a.0 == b.0 && a.1 <= b.1)
}

pub open spec fn in_order(s: Seq<(u16, u16)>) -> bool {
    forall|i: int, j: int| 0 <= i < j < s.len() ==> no_later(#[trigger] s[i], #[trigger] s[j])
}

/// Merges two ordered lists.
fn merge(left: &Vec<(u16, u16)>, right: &Vec<(u16, u16)>) -> (out: Vec<(u16, u16)>)
    requires
        in_order(left@),
        in_order(right@),
    ensures
        in_order(out@),
        out@.to_multiset() == left@.to_multiset().add(right@.to_multiset()),
{
    broadcast use vstd::seq_lib::group_to_multiset_ensures;

    let mut out: Vec<(u16, u16)> = Vec::new();
    let mut i: usize = 0;
    let mut j: usize = 0;
    proof {
        assert(left@.take(0) =~= Seq::empty());
        assert(right@.take(0) =~= Seq::empty());
        assert(out@.to_multiset() =~= left@.take(0).to_multiset().add(
            right@.take(0).to_multiset(),
        ));
    }
    while i < left.len() || j < right.len()
        invariant
            i <= left@.len(),
            j <= right@.len(),
            in_order(left@),
            in_order(right@),
            in_order(out@),
            out@.to_multiset() == left@.take(i as int).to_multiset().add(
                right@.take(j as int).to_multiset(),
            ),
            forall|k: int, l: int|
                0 <= k < out@.len() && i <= l < left@.len() ==> no_later(
                    #[trigger] out@[k],
                    #[trigger] left@[l],
                ),
            forall|k: int, l: int|
                0 <= k < out@.len() && j <= l < right@.len() ==> no_later(
                    #[trigger] out@[k],
                    #[trigger] right@[l],
                ),
        decreases left@.len() - i + right@.len() - j,
    {
        let from_left: bool = if i == left.len() {
            false
        } else if j == right.len() {
            true
        } else {
            let a = left[i];
            let b = right[j];
            a.0 < b.0 || (a.0 == b.0 && a.1 <= b.1)
        };
        let ghost before = out@;
        if from_left {
            let x = left[i];
            out.push(x);
            proof {
                vstd::seq_lib::to_multiset_build(before, x);
                vstd::seq_lib::to_multiset_build(left@.take(i as int), x);
                assert(left@.take(i + 1) =~= left@.take(i as int).push(x));
                assert(out@.to_multiset() =~= left@.take(i + 1).to_multiset().add(
                    right@.take(j as int).to_multiset(),
                ));
            }
            i += 1;
        } else {
            let x = right[j];
            out.push(x);
            proof {
                vstd::seq_lib::to_multiset_build(before, x);
                vstd::seq_lib::to_multiset_build(right@.take(j as int), x);
                assert(right@.take(j + 1) =~= right@.take(j as int).push(x));
                assert(out@.to_multiset() =~= left@.take(i as int).to_multiset().add(
                    right@.take(j + 1).to_multiset(),
                ));
            }
            j += 1;
        }
    }
    proof {
        assert(left@.take(i as int) =~= left@);
        assert(right@.take(j as int) =~= right@);
    }
    out
}

/// Orders a list by strength, ties by hand.
fn ordered(items: &Vec<(u16, u16)>, from: usize, to: usize) -> (out: Vec<(u16, u16)>)
    requires
        from <= to <= items@.len(),
    ensures
        in_order(out@),
        out@.to_multiset() == items@.subrange(from as int, to as int).to_multiset(),
    decreases to - from,
{
    if to - from <= 1 {
        let mut out: Vec<(u16, u16)> = Vec::new();
        if from < to {
            out.push(items[from]);
        }
        assert(out@ =~= items@.subrange(from as int, to as int));
        return out;
    }
    let mid: usize = from + (to - from) / 2;
    let left = ordered(items, from, mid);
    let right = ordered(items, mid, to);
    let out = merge(&left, &right);
    proof {
        let l = items@.subrange(from as int, mid as int);
        let r = items@.subrange(mid as int, to as int);
        assert(l + r =~= items@.subrange(from as int, to as int));
        vstd::seq_lib::lemma_multiset_commutative(l, r);
    }
    out
}

/// `strength` and `index` list the hands from weak to strong (rank plus one),
/// equal hands by number.
pub open spec fn is_strength_order(ranks: Seq<u16>, strength: Seq<u16>, index: Seq<u16>) -> bool {
    &&& strength.len() == ranks.len()
    &&& index.len() == ranks.len()
    &&& forall|k: int|
        0 <= k < index.len() ==> (#[trigger] index[k]) < ranks.len() && strength[k] == ranks[index[k]
            as int] + 1
    &&& forall|k: int, l: int|
        0 <= k < l < index.len() ==> strength[k] < strength[l] || (strength[k] == strength[l]
            && #[trigger] index[k] < #[trigger] index[l])
    &&& forall|h: int| 0 <= h < ranks.len() ==> #[trigger] index.contains(h as u16)
}

/// Lists the hands from weak to strong.
pub fn strength_order(ranks: &[u16]) -> (order: (Vec<u16>, Vec<u16>))
    requires
        ranks@.len() <= u16::MAX,
        forall|h: int| 0 <= h < ranks@.len() ==> (#[trigger] ranks@[h]) < u16::MAX,
    ensures
        is_strength_order(ranks@, order.0@, order.1@),
{
    let n: usize = ranks.len();
    let mut items: Vec<(u16, u16)> = Vec::new();
    let mut h: usize = 0;
    while h < n
        invariant
            h <= n,
            n == ranks@.len(),
            n <= u16::MAX,
            forall|g: int| 0 <= g < ranks@.len() ==> (#[trigger] ranks@[g]) < u16::MAX,
            items@.len() == h,
            forall|g: int|
                0 <= g < h ==> (#[trigger] items@[g]).0 == ranks@[g] + 1 && items@[g].1 == g,
        decreases n - h,
    {
        items.push((ranks[h] + 1, h as u16));
        h += 1;
    }
    let sorted = ordered(&items, 0, n);
    proof {
        broadcast use vstd::seq_lib::group_to_multiset_ensures;

        assert(items@.subrange(0, n as int) =~= items@);
        assert(items@.no_duplicates());
        items@.lemma_multiset_has_no_duplicates();
        sorted@.lemma_multiset_has_no_duplicates_conv();
        assert(sorted@.len() == sorted@.to_multiset().len());
        assert(items@.len() == items@.to_multiset().len());
        assert forall|k: int| 0 <= k < sorted@.len() implies (#[trigger] sorted@[k]).1 < n
            && sorted@[k].0 == ranks@[sorted@[k].1 as int] + 1 by {
            assert(sorted@.contains(sorted@[k]));
            assert(sorted@.to_multiset().count(sorted@[k]) > 0);
            assert(items@.contains(sorted@[k]));
            let g = choose|g: int| 0 <= g < items@.len() && items@[g] == sorted@[k];
        }
        assert forall|g: int| 0 <= g < n implies sorted@.contains(#[trigger] items@[g]) by {
            assert(items@.contains(items@[g]));
            assert(items@.to_multiset().count(items@[g]) > 0);
        }
    }
    let mut strength: Vec<u16> = Vec::new();
    let mut index: Vec<u16> = Vec::new();
    let mut k: usize = 0;
    while k < sorted.len()
        invariant
            k <= sorted@.len(),
            strength@.len() == k,
            index@.len() == k,
            forall|l: int|
                0 <= l < k ==> #[trigger] strength@[l] == sorted@[l].0 && index@[l] == sorted@[l].1,
            forall|l: int| 0 <= l < k ==> #[trigger] index@[l] == sorted@[l].1,
        decreases sorted@.len() - k,
    {
        let (s, i) = sorted[k];
        strength.push(s);
        index.push(i);
        k += 1;
    }
    proof {
        assert forall|a: int, b: int|
            0 <= a < b < index@.len() implies strength@[a] < strength@[b] || (strength@[a]
            == strength@[b] && #[trigger] index@[a] < #[trigger] index@[b]) by {
            assert(no_later(sorted@[a], sorted@[b]));
            assert(sorted@[a] != sorted@[b]);
            assert(strength@[a] == sorted@[a].0 && strength@[b] == sorted@[b].0);
        }
        assert forall|h: int| 0 <= h < ranks@.len() implies #[trigger] index@.contains(h as u16) by {
            assert(sorted@.contains(items@[h]));
            let l = choose|l: int| 0 <= l < sorted@.len() && sorted@[l] == items@[h];
            assert(index@[l] == h as u16);
        }
        assert forall|l: int| 0 <= l < index@.len() implies (#[trigger] index@[l]) < ranks@.len()
            && strength@[l] == ranks@[index@[l] as int] + 1 by {
            assert(strength@[l] == sorted@[l].0);
        }
    }
    (strength, index)
}

/// There is one strength order of given ranks.
pub proof fn law_strength_order_is_unique(
    ranks: Seq<u16>,
    strength: Seq<u16>,
    index: Seq<u16>,
    strength2: Seq<u16>,
    index2: Seq<u16>,
)
    requires
        is_strength_order(ranks, strength, index),
        is_strength_order(ranks, strength2, index2),
    ensures
        strength == strength2,
        index == index2,
{
    assert forall|k: int| 0 <= k < ranks.len() implies index[k] == index2[k] by {
        lemma_order_agrees(ranks, strength, index, strength2, index2, k);
    }
    assert(index =~= index2);
    assert forall|k: int| 0 <= k < ranks.len() implies strength[k] == strength2[k] by {
        assert(index[k] == index2[k]);
    }
    assert(strength =~= strength2);
}

proof fn lemma_order_agrees(
    ranks: Seq<u16>,
    strength: Seq<u16>,
    index: Seq<u16>,
    strength2: Seq<u16>,
    index2: Seq<u16>,
    k: int,
)
    requires
        is_strength_order(ranks, strength, index),
        is_strength_order(ranks, strength2, index2),
        0 <= k < ranks.len(),
    ensures
        forall|j: int| 0 <= j <= k ==> #[trigger] index[j] == index2[j],
    decreases k,
{
    if k > 0 {
        lemma_order_agrees(ranks, strength, index, strength2, index2, k - 1);
    }
    let a = index[k];
    let b = index2[k];
    assert(index2.contains(a as int as u16));
    assert(index.contains(b as int as u16));
    let m = choose|m: int| 0 <= m < index2.len() && index2[m] == a;
    let m2 = choose|m2: int| 0 <= m2 < index.len() && index[m2] == b;
    assert(m >= k) by {
        if m < k {
            assert(index[m] == index2[m]);
        }
    }
    assert(m2 >= k) by {
        if m2 < k {
            assert(index[m2] == index2[m2]);
        }
    }
    if a != b {
        assert(index2[k] == b && index2[m] == a && k < m);
        assert(index[k] == a && index[m2] == b && k < m2);
    }
}

} // verus!
