use solver_core::card::{card_pair_to_index, index_to_card_pair, NUM_POSSIBLE_HANDS};
use solver_core::chance_table::ChanceTable;
use solver_core::deck::{
    cards_of_hands, conflict_matrix, free_hands, hand_of, on_board, rest_of_deck, strength_order,
};
use solver_core::flop_start_game::FlopChanceTable;
use solver_core::poker_game::RiverPokerGame;
use solver_core::preflop_allin_equity::Evaluator;
use solver_core::preflop_class::{class_combos, PreflopClass, NUM_PREFLOP_CLASSES};
use solver_core::scalar::{Scalar, Widen};
use solver_core::terminal::TerminalSpot;

#[derive(Clone, Copy, Debug, PartialEq)]
struct F64(f64);

#[derive(Clone, Copy, Debug, PartialEq)]
struct F32(f32);

impl Scalar for F64 {
    fn zero() -> F64 {
        F64(0.0)
    }
    fn one() -> F64 {
        F64(1.0)
    }
    fn of_usize(n: usize) -> F64 {
        F64(n as f64)
    }
    fn of_i32(n: i32) -> F64 {
        F64(n as f64)
    }
    fn of_i64(n: i64) -> F64 {
        F64(n as f64)
    }
    fn plus(self, rhs: F64) -> F64 {
        F64(self.0 + rhs.0)
    }
    fn minus(self, rhs: F64) -> F64 {
        F64(self.0 - rhs.0)
    }
    fn times(self, rhs: F64) -> F64 {
        F64(self.0 * rhs.0)
    }
    fn over(self, rhs: F64) -> F64 {
        F64(self.0 / rhs.0)
    }
    fn below(self, rhs: F64) -> bool {
        self.0 < rhs.0
    }
    fn at_most(self, rhs: F64) -> bool {
        self.0 <= rhs.0
    }
    fn same(self, rhs: F64) -> bool {
        self.0 == rhs.0
    }
    fn larger(self, rhs: F64) -> F64 {
        F64(self.0.max(rhs.0))
    }
    fn root(self) -> F64 {
        F64(self.0.sqrt())
    }
    fn power(self, rhs: F64) -> F64 {
        F64(self.0.powf(rhs.0))
    }
    fn exp(self) -> F64 {
        F64(self.0.exp())
    }
    fn lowest() -> F64 {
        F64(f64::NEG_INFINITY)
    }
    fn highest() -> F64 {
        F64(f64::INFINITY)
    }
    fn ten_to(n: u32) -> F64 {
        F64(format!("1e{n}").parse().unwrap())
    }
    fn of_bits(bits: u64) -> F64 {
        F64(f64::from_bits(bits))
    }
}

impl Scalar for F32 {
    fn zero() -> F32 {
        F32(0.0)
    }
    fn one() -> F32 {
        F32(1.0)
    }
    fn of_usize(n: usize) -> F32 {
        F32(n as f32)
    }
    fn of_i32(n: i32) -> F32 {
        F32(n as f32)
    }
    fn of_i64(n: i64) -> F32 {
        F32(n as f32)
    }
    fn plus(self, rhs: F32) -> F32 {
        F32(self.0 + rhs.0)
    }
    fn minus(self, rhs: F32) -> F32 {
        F32(self.0 - rhs.0)
    }
    fn times(self, rhs: F32) -> F32 {
        F32(self.0 * rhs.0)
    }
    fn over(self, rhs: F32) -> F32 {
        F32(self.0 / rhs.0)
    }
    fn below(self, rhs: F32) -> bool {
        self.0 < rhs.0
    }
    fn at_most(self, rhs: F32) -> bool {
        self.0 <= rhs.0
    }
    fn same(self, rhs: F32) -> bool {
        self.0 == rhs.0
    }
    fn larger(self, rhs: F32) -> F32 {
        F32(self.0.max(rhs.0))
    }
    fn root(self) -> F32 {
        F32(self.0.sqrt())
    }
    fn power(self, rhs: F32) -> F32 {
        F32(self.0.powf(rhs.0))
    }
    fn exp(self) -> F32 {
        F32(self.0.exp())
    }
    fn lowest() -> F32 {
        F32(f32::NEG_INFINITY)
    }
    fn highest() -> F32 {
        F32(f32::INFINITY)
    }
    fn ten_to(n: u32) -> F32 {
        F32(format!("1e{n}").parse().unwrap())
    }
    fn of_bits(bits: u64) -> F32 {
        F32(f64::from_bits(bits) as f32)
    }
}

impl Widen for F32 {
    type Wide = F64;
    fn widen(self) -> F64 {
        F64(self.0 as f64)
    }
    fn narrow(w: F64) -> F32 {
        F32(w.0 as f32)
    }
}

/// Cards of a hand: how many of each rank, four bits each, and the ranks of each suit.
#[derive(Clone, Copy)]
struct Pile {
    counts: u64,
    suits: [u16; 4],
}

const NO_CARDS: Pile = Pile { counts: 0, suits: [0; 4] };

fn add_card(h: Pile, c: u8) -> Pile {
    let mut g = h;
    g.counts += 1u64 << (4 * (c / 4));
    g.suits[(c % 4) as usize] |= 1 << (c / 4);
    g
}

fn top_bit(m: u32) -> u32 {
    31 - m.leading_zeros()
}

/// The best five of a set of ranks, as a set.
fn best_five(m: u32) -> u32 {
    let mut m = m;
    while m.count_ones() > 5 {
        m &= m - 1;
    }
    m
}

/// The top rank of the best straight plus one, or zero; an ace counts low too.
fn straight(m: u32) -> u32 {
    let w = (m << 1) | (m >> 12);
    let run = w & (w >> 1) & (w >> 2) & (w >> 3) & (w >> 4);
    if run == 0 {
        0
    } else {
        top_bit(run) + 4
    }
}

/// The ranks that a hand holds exactly `n` times.
fn ranks_held(counts: u64, n: u64) -> u32 {
    let mut m = 0u32;
    let mut r = 0;
    let mut left = counts;
    while left != 0 {
        if left & 15 == n {
            m |= 1 << r;
        }
        left >>= 4;
        r += 1;
    }
    m
}

const PAIR: u32 = 8192;
const TWO_PAIR: u32 = PAIR + 28561;
const TRIPS: u32 = TWO_PAIR + 2197;
const STRAIGHT: u32 = TRIPS + 2197;
const FLUSH: u32 = STRAIGHT + 16;
const FULL_HOUSE: u32 = FLUSH + 8192;
const QUADS: u32 = FULL_HOUSE + 169;
const STRAIGHT_FLUSH: u32 = QUADS + 169;

/// Ranks up to seven cards; a higher rank wins.
fn rank_cards(h: Pile) -> u16 {
    let mut all = 0u32;
    let mut flush = 0u32;
    for s in 0..4 {
        let m = h.suits[s] as u32;
        all |= m;
        if m.count_ones() >= 5 {
            flush = m;
        }
    }
    if flush != 0 && straight(flush) != 0 {
        return (STRAIGHT_FLUSH + straight(flush)) as u16;
    }
    if all.count_ones() == h.suits.iter().map(|m| m.count_ones()).sum::<u32>() {
        if flush != 0 {
            return (FLUSH + best_five(flush)) as u16;
        }
        if straight(all) != 0 {
            return (STRAIGHT + straight(all)) as u16;
        }
        return best_five(all) as u16;
    }
    let quads = ranks_held(h.counts, 4);
    if quads != 0 {
        let q = top_bit(quads);
        return (QUADS + q * 13 + top_bit(all & !(1 << q))) as u16;
    }
    let trips = ranks_held(h.counts, 3);
    let pairs = ranks_held(h.counts, 2);
    if trips != 0 {
        let t = top_bit(trips);
        let under = (trips | pairs) & !(1 << t);
        if under != 0 {
            return (FULL_HOUSE + t * 13 + top_bit(under)) as u16;
        }
    }
    if flush != 0 {
        return (FLUSH + best_five(flush)) as u16;
    }
    if straight(all) != 0 {
        return (STRAIGHT + straight(all)) as u16;
    }
    if trips != 0 {
        let t = top_bit(trips);
        let rest = all & !(1 << t);
        let a = top_bit(rest);
        let b = top_bit(rest & !(1 << a));
        return (TRIPS + t * 169 + a * 13 + b) as u16;
    }
    let p = top_bit(pairs);
    let more = pairs & !(1 << p);
    if more != 0 {
        let q = top_bit(more);
        return (TWO_PAIR + p * 169 + q * 13 + top_bit(all & !(1 << p) & !(1 << q))) as u16;
    }
    let rest = all & !(1 << p);
    let a = top_bit(rest);
    let b = top_bit(rest & !(1 << a));
    let c = top_bit(rest & !(1 << a) & !(1 << b));
    (PAIR + p * 2197 + a * 169 + b * 13 + c) as u16
}

fn card(name: &str) -> u8 {
    let b = name.as_bytes();
    let rank = "23456789TJQKA".bytes().position(|r| r == b[0]).unwrap() as u8;
    let suit = "cdhs".bytes().position(|s| s == b[1]).unwrap() as u8;
    4 * rank + suit
}

fn cards(names: &[&str]) -> Vec<u8> {
    names.iter().map(|n| card(n)).collect()
}

fn uniform_ranges(num_players: usize) -> Vec<Vec<F32>> {
    let total = (NUM_POSSIBLE_HANDS * (NUM_POSSIBLE_HANDS - 1)) as f32;
    vec![vec![F32(1.0 / total); NUM_POSSIBLE_HANDS]; num_players]
}

type Ranker<H> = Evaluator<H, fn(H, u8) -> H, fn(H) -> u16>;

fn ranker() -> Ranker<Pile> {
    Evaluator { empty: NO_CARDS, add: add_card, rank: rank_cards }
}

/// The rank of hand number `i` on a board.
fn rank_on(i: usize, board: &[u8]) -> u16 {
    let (a, b) = index_to_card_pair(i);
    rank_cards(board.iter().fold(add_card(add_card(NO_CARDS, a), b), |h, &c| add_card(h, c)))
}

fn no_showdown(spot: &TerminalSpot<F32>) -> Vec<F32> {
    vec![F32(0.0); spot.strength.len()]
}

#[test]
fn hands_are_numbered_by_low_card_then_high_card() {
    assert_eq!(card_pair_to_index(0, 1), 0);
    assert_eq!(card_pair_to_index(1, 0), 0);
    assert_eq!(card_pair_to_index(0, 51), 50);
    assert_eq!(card_pair_to_index(1, 2), 51);
    assert_eq!(card_pair_to_index(50, 51), 1325);
    for i in 0..NUM_POSSIBLE_HANDS {
        let (a, b) = index_to_card_pair(i);
        assert!(a < b);
        assert_eq!(card_pair_to_index(a, b), i);
        assert_eq!(hand_of(i), (a, b));
    }
}

#[test]
fn classes_have_six_four_or_twelve_hands() {
    let mut all = 0;
    for cls in 0..NUM_PREFLOP_CLASSES {
        let combos = class_combos(cls);
        let want = if cls / 13 == cls % 13 {
            6
        } else if cls / 13 > cls % 13 {
            4
        } else {
            12
        };
        assert_eq!(combos.len(), want, "class {}", cls);
        for c in &combos {
            assert_eq!(PreflopClass::from_combo(c[0], c[1]).index(), cls);
            assert_eq!(PreflopClass::from_combo(c[1], c[0]).index(), cls);
        }
        all += combos.len();
    }
    assert_eq!(all, NUM_POSSIBLE_HANDS);
    assert_eq!(PreflopClass::from_combo(card("Ah"), card("Kh")).index(), 12 * 13 + 11);
    assert_eq!(PreflopClass::from_combo(card("Ah"), card("Ks")).index(), 11 * 13 + 12);
    assert_eq!(PreflopClass::from_combo(card("Ah"), card("As")).index(), 12 * 13 + 12);
}

#[test]
fn a_board_takes_its_cards_out_of_deck_and_hands() {
    let board = cards(&["2c", "3d", "4h"]);
    let deck = rest_of_deck(&board);
    assert_eq!(deck.len(), 49);
    assert!(!deck.contains(&card("3d")));
    assert!(deck.contains(&card("3c")));
    let hands = free_hands(&board);
    assert_eq!(hands.len(), 49 * 48 / 2);
    assert!(on_board(&board, card("4h")));
    assert!(!on_board(&board, card("4s")));
    let few = vec![0u16, 1, 51];
    let conflict = conflict_matrix(&few);
    assert_eq!(conflict, vec![1, 1, 1, 1, 1, 1, 1, 1, 1]);
    let apart = vec![0u16, 1325];
    assert_eq!(conflict_matrix(&apart), vec![1, 0, 0, 1]);
    assert_eq!(cards_of_hands(&apart), vec![0, 1, 50, 51]);
}

#[test]
fn strength_order_breaks_ties_by_hand() {
    let (strength, index) = strength_order(&[5, 2, 5, 0]);
    assert_eq!(index, vec![3, 1, 0, 2]);
    assert_eq!(strength, vec![1, 3, 6, 6]);
}

#[test]
fn test_river_game_basic() {
    let board = cards(&["2c", "3d", "4h", "5s", "6c"]);
    let game = RiverPokerGame::new(&board, &ranker(), &uniform_ranges(2), 2, no_showdown);
    assert!(game.num_valid > 0);
    assert!(game.num_valid < NUM_POSSIBLE_HANDS);
    let mut best_rank = 0u16;
    let mut worst_rank = u16::MAX;
    for i in 0..game.num_valid {
        let r = game.hand_ranks[game.valid_hand_indices[i] as usize];
        if r > best_rank {
            best_rank = r;
        }
        if r < worst_rank {
            worst_rank = r;
        }
    }
    assert!(best_rank > worst_rank, "should have hand rank variation");
    for i in 0..NUM_POSSIBLE_HANDS {
        let free = game.valid_hand_indices.contains(&(i as u16));
        assert_eq!(game.hand_ranks[i], if free { rank_on(i, &board) } else { 0 });
    }
    assert_eq!(game.num_valid_hands(), 47 * 46 / 2);
    assert_eq!(game.hand_cards_gpu().len(), 2 * game.num_valid);
}

#[test]
fn test_sign_table() {
    let board = cards(&["2h", "3h", "4h", "5c", "6d"]);
    let game = RiverPokerGame::new(&board, &ranker(), &uniform_ranges(2), 2, no_showdown);
    let flush_h = game.valid_hand_indices.iter().position(|&hi| {
        let (c1, c2) = index_to_card_pair(hi as usize);
        c1 % 4 == 2 && c2 % 4 == 2
    });
    let high_pair_h = game.valid_hand_indices.iter().position(|&hi| {
        let (c1, c2) = index_to_card_pair(hi as usize);
        c1 / 4 == c2 / 4 && c1 / 4 >= 10
    });
    assert!(flush_h.is_some() && high_pair_h.is_some());
    if let (Some(fh), Some(ph)) = (flush_h, high_pair_h) {
        assert!(
            game.hand_ranks[game.valid_hand_indices[fh] as usize]
                > game.hand_ranks[game.valid_hand_indices[ph] as usize],
            "flush ({}) should beat pair ({}) on this board",
            game.hand_ranks[game.valid_hand_indices[fh] as usize],
            game.hand_ranks[game.valid_hand_indices[ph] as usize]
        );
        assert_eq!(game.sign(fh, ph), F32(1.0));
        assert_eq!(game.sign(ph, fh), F32(-1.0));
        assert_eq!(game.sign(ph, ph), F32(0.0));
    }
}

#[test]
fn combinations_of_a_river_game_are_those_that_do_not_collide() {
    let board = cards(&["2h", "3h", "4h", "5c", "6d"]);
    let ones = vec![vec![F32(1.0); NUM_POSSIBLE_HANDS]; 2];
    let game = RiverPokerGame::new(&board, &ranker(), &ones, 2, no_showdown);
    let n = (47 * 46 / 2) * (45 * 44 / 2);
    assert_eq!(game.num_combinations, F64(n as f64));
    let weights = game.initial_weight_flat();
    assert_eq!(weights.len(), 2 * game.num_valid);
    assert_eq!(weights[0], F32(1.0));
}

#[test]
fn turn_table_holds_a_rank_per_river() {
    let board = cards(&["2h", "7h", "Jc", "Ks"]);
    let table = ChanceTable::compute_turn_start(&board, &ranker(), &uniform_ranges(2), 2);
    let nh = table.num_valid;
    let mut full = board.clone();
    full.push(17);
    for h in (0..nh).step_by(37) {
        let hand = table.valid_hand_indices[h] as usize;
        assert_eq!(table.hand_ranks_base[h], rank_on(hand, &board));
        assert_eq!(table.chance_ranks_table[17 * nh + h], rank_on(hand, &full));
    }
    assert_eq!(table.num_valid_hands(), 48 * 47 / 2);
    assert_eq!(table.remaining_deck_gpu().len(), 48);
    assert_eq!(table.hand_cards_gpu().len(), 2 * 48 * 47 / 2);
    let (strength, index) = table.chance_sorted_arrays_gpu();
    assert_eq!(strength.len(), index.len());
    assert_eq!(table.initial_weight_flat().len(), 2 * 48 * 47 / 2);
}


#[test]
fn flop_table_ranks_every_runout() {
    let board = cards(&["2h", "7h", "Jc"]);
    // A cheap rank that tells cards and their order apart.
    let e: Ranker<u32> = Evaluator {
        empty: 1,
        add: |h, c| h * 53 % 40009 + c as u32,
        rank: |h| (h % 60000) as u16,
    };
    let rank = |hand: u16, extra: &[u8]| {
        let (a, b) = index_to_card_pair(hand as usize);
        let all = [a, b].into_iter().chain(board.iter().copied()).chain(extra.iter().copied());
        (all.fold(1u32, |h, c| h * 53 % 40009 + c as u32) % 60000) as u16
    };
    let table = FlopChanceTable::compute_flop_start(&board, &e, &uniform_ranges(2), 2);
    let nh = 49 * 48 / 2;
    assert_eq!((table.num_valid, table.remaining_deck.len()), (nh, 49));
    let (t, r) = (table.remaining_deck[5], table.remaining_deck[30]);
    assert_eq!(table.river_outcomes(t).len(), 48);
    for h in (0..nh).step_by(11) {
        let hand = table.valid_hand_indices[h];
        let held = |c: u8| table.hand_cards[2 * h] == c || table.hand_cards[2 * h + 1] == c;
        assert_eq!(table.hand_ranks_base[h], rank(hand, &[]));
        let want = if held(t) { 0 } else { rank(hand, &[t]) };
        assert_eq!(table.turn_ranks[t as usize * nh + h], want);
        let want = if held(t) || held(r) { 0 } else { rank(hand, &[t, r]) };
        assert_eq!(table.river_ranks[(t as usize * 52 + r as usize) * nh + h], want);
    }
    let own = table.river_ranks[(t as usize * 52 + r as usize) * nh..][..nh].to_vec();
    let from = (t as usize * 52 + r as usize) * nh;
    for k in 0..nh {
        let h = table.river_sorted_idx[from + k] as usize;
        assert_eq!(table.river_sorted_str[from + k], own[h] + 1);
        assert!(k == 0 || table.river_sorted_str[from + k - 1] <= own[h] + 1);
    }
}
