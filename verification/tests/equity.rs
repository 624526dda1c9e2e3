use rayon::prelude::{IntoParallelRefIterator, ParallelIterator};
use solver_core::preflop_allin_equity::{
    class_combo_counts, class_hu_equity_mc, class_hu_equity_table, class_hu_equity_table_par,
    hu_equity_exact, table_bits, table_bytes, Evaluator,
};
use solver_core::preflop_class::{class_combos, PreflopClass, NUM_PREFLOP_CLASSES};
use solver_core::scalar::{Scalar, Widen};

#[derive(Clone, Copy, Debug, PartialEq)]
struct F64(f64);

#[derive(Clone, Copy, Debug, PartialEq)]
struct F32(f32);

impl Scalar for F64 {
    fn zero() -> F64 {
        F64(0.0)
    }
    fn one() -> F64 {
        F64(1.0)
    }
    fn of_usize(n: usize) -> F64 {
        F64(n as f64)
    }
    fn of_i32(n: i32) -> F64 {
        F64(n as f64)
    }
    fn of_i64(n: i64) -> F64 {
        F64(n as f64)
    }
    fn plus(self, rhs: F64) -> F64 {
        F64(self.0 + rhs.0)
    }
    fn minus(self, rhs: F64) -> F64 {
        F64(self.0 - rhs.0)
    }
    fn times(self, rhs: F64) -> F64 {
        F64(self.0 * rhs.0)
    }
    fn over(self, rhs: F64) -> F64 {
        F64(self.0 / rhs.0)
    }
    fn below(self, rhs: F64) -> bool {
        self.0 < rhs.0
    }
    fn at_most(self, rhs: F64) -> bool {
        self.0 <= rhs.0
    }
    fn same(self, rhs: F64) -> bool {
        self.0 == rhs.0
    }
    fn larger(self, rhs: F64) -> F64 {
        F64(self.0.max(rhs.0))
    }
    fn root(self) -> F64 {
        F64(self.0.sqrt())
    }
    fn power(self, rhs: F64) -> F64 {
        F64(self.0.powf(rhs.0))
    }
    fn exp(self) -> F64 {
        F64(self.0.exp())
    }
    fn lowest() -> F64 {
        F64(f64::NEG_INFINITY)
    }
    fn highest() -> F64 {
        F64(f64::INFINITY)
    }
    fn ten_to(n: u32) -> F64 {
        F64(format!("1e{n}").parse().unwrap())
    }
    fn of_bits(bits: u64) -> F64 {
        F64(f64::from_bits(bits))
    }
}

impl Scalar for F32 {
    fn zero() -> F32 {
        F32(0.0)
    }
    fn one() -> F32 {
        F32(1.0)
    }
    fn of_usize(n: usize) -> F32 {
        F32(n as f32)
    }
    fn of_i32(n: i32) -> F32 {
        F32(n as f32)
    }
    fn of_i64(n: i64) -> F32 {
        F32(n as f32)
    }
    fn plus(self, rhs: F32) -> F32 {
        F32(self.0 + rhs.0)
    }
    fn minus(self, rhs: F32) -> F32 {
        F32(self.0 - rhs.0)
    }
    fn times(self, rhs: F32) -> F32 {
        F32(self.0 * rhs.0)
    }
    fn over(self, rhs: F32) -> F32 {
        F32(self.0 / rhs.0)
    }
    fn below(self, rhs: F32) -> bool {
        self.0 < rhs.0
    }
    fn at_most(self, rhs: F32) -> bool {
        self.0 <= rhs.0
    }
    fn same(self, rhs: F32) -> bool {
        self.0 == rhs.0
    }
    fn larger(self, rhs: F32) -> F32 {
        F32(self.0.max(rhs.0))
    }
    fn root(self) -> F32 {
        F32(self.0.sqrt())
    }
    fn power(self, rhs: F32) -> F32 {
        F32(self.0.powf(rhs.0))
    }
    fn exp(self) -> F32 {
        F32(self.0.exp())
    }
    fn lowest() -> F32 {
        F32(f32::NEG_INFINITY)
    }
    fn highest() -> F32 {
        F32(f32::INFINITY)
    }
    fn ten_to(n: u32) -> F32 {
        F32(format!("1e{n}").parse().unwrap())
    }
    fn of_bits(bits: u64) -> F32 {
        F32(f64::from_bits(bits) as f32)
    }
}

impl Widen for F32 {
    type Wide = F64;
    fn widen(self) -> F64 {
        F64(self.0 as f64)
    }
    fn narrow(w: F64) -> F32 {
        F32(w.0 as f32)
    }
}

/// Cards of a hand: how many of each rank, four bits each, and the ranks of each suit.
#[derive(Clone, Copy)]
struct Pile {
    counts: u64,
    suits: [u16; 4],
}

const NO_CARDS: Pile = Pile { counts: 0, suits: [0; 4] };

fn add_card(h: Pile, c: u8) -> Pile {
    let mut g = h;
    g.counts += 1u64 << (4 * (c / 4));
    g.suits[(c % 4) as usize] |= 1 << (c / 4);
    g
}

fn top_bit(m: u32) -> u32 {
    31 - m.leading_zeros()
}

/// The best five of a set of ranks, as a set.
fn best_five(m: u32) -> u32 {
    let mut m = m;
    while m.count_ones() > 5 {
        m &= m - 1;
    }
    m
}

/// The top rank of the best straight plus one, or zero; an ace counts low too.
fn straight(m: u32) -> u32 {
    let w = (m << 1) | (m >> 12);
    let run = w & (w >> 1) & (w >> 2) & (w >> 3) & (w >> 4);
    if run == 0 {
        0
    } else {
        top_bit(run) + 4
    }
}

/// The ranks that a hand holds exactly `n` times.
fn ranks_held(counts: u64, n: u64) -> u32 {
    let mut m = 0u32;
    let mut r = 0;
    let mut left = counts;
    while left != 0 {
        if left & 15 == n {
            m |= 1 << r;
        }
        left >>= 4;
        r += 1;
    }
    m
}

const PAIR: u32 = 8192;
const TWO_PAIR: u32 = PAIR + 28561;
const TRIPS: u32 = TWO_PAIR + 2197;
const STRAIGHT: u32 = TRIPS + 2197;
const FLUSH: u32 = STRAIGHT + 16;
const FULL_HOUSE: u32 = FLUSH + 8192;
const QUADS: u32 = FULL_HOUSE + 169;
const STRAIGHT_FLUSH: u32 = QUADS + 169;

/// Ranks up to seven cards; a higher rank wins.
fn rank_cards(h: Pile) -> u16 {
    let mut all = 0u32;
    let mut flush = 0u32;
    for s in 0..4 {
        let m = h.suits[s] as u32;
        all |= m;
        if m.count_ones() >= 5 {
            flush = m;
        }
    }
    if flush != 0 && straight(flush) != 0 {
        return (STRAIGHT_FLUSH + straight(flush)) as u16;
    }
    if all.count_ones() == h.suits.iter().map(|m| m.count_ones()).sum::<u32>() {
        if flush != 0 {
            return (FLUSH + best_five(flush)) as u16;
        }
        if straight(all) != 0 {
            return (STRAIGHT + straight(all)) as u16;
        }
        return best_five(all) as u16;
    }
    let quads = ranks_held(h.counts, 4);
    if quads != 0 {
        let q = top_bit(quads);
        return (QUADS + q * 13 + top_bit(all & !(1 << q))) as u16;
    }
    let trips = ranks_held(h.counts, 3);
    let pairs = ranks_held(h.counts, 2);
    if trips != 0 {
        let t = top_bit(trips);
        let under = (trips | pairs) & !(1 << t);
        if under != 0 {
            return (FULL_HOUSE + t * 13 + top_bit(under)) as u16;
        }
    }
    if flush != 0 {
        return (FLUSH + best_five(flush)) as u16;
    }
    if straight(all) != 0 {
        return (STRAIGHT + straight(all)) as u16;
    }
    if trips != 0 {
        let t = top_bit(trips);
        let rest = all & !(1 << t);
        let a = top_bit(rest);
        let b = top_bit(rest & !(1 << a));
        return (TRIPS + t * 169 + a * 13 + b) as u16;
    }
    let p = top_bit(pairs);
    let more = pairs & !(1 << p);
    if more != 0 {
        let q = top_bit(more);
        return (TWO_PAIR + p * 169 + q * 13 + top_bit(all & !(1 << p) & !(1 << q))) as u16;
    }
    let rest = all & !(1 << p);
    let a = top_bit(rest);
    let b = top_bit(rest & !(1 << a));
    let c = top_bit(rest & !(1 << a) & !(1 << b));
    (PAIR + p * 2197 + a * 169 + b * 13 + c) as u16
}

fn c(rank: u8, suit: u8) -> u8 {
    rank * 4 + suit
}

fn class(r1: u8, s1: u8, r2: u8, s2: u8) -> usize {
    PreflopClass::from_combo(c(r1, s1), c(r2, s2)).index()
}

type Ranker = Evaluator<Pile, fn(Pile, u8) -> Pile, fn(Pile) -> u16>;

fn ranker() -> Ranker {
    Evaluator { empty: NO_CARDS, add: add_card, rank: rank_cards }
}

fn exact(hero: [u8; 2], opp: [u8; 2]) -> f32 {
    let x: F32 = hu_equity_exact(&ranker(), hero, opp);
    x.0
}

/// The suits renamed by first use: pairs of hands with one pattern have one equity.
fn pattern(h: [u8; 2], o: [u8; 2]) -> [u8; 4] {
    let mut names = [9u8; 4];
    let mut next = 0;
    let mut out = [0u8; 4];
    for (k, &x) in [h[0], h[1], o[0], o[1]].iter().enumerate() {
        let s = (x % 4) as usize;
        if names[s] == 9 {
            names[s] = next;
            next += 1;
        }
        out[k] = x / 4 * 4 + names[s];
    }
    out
}

/// Exact average equity of class `hc` against class `oc` over all pairs of hands that
/// can be dealt together.
fn class_avg_exact(hc: usize, oc: usize) -> f32 {
    let mut kinds: Vec<([u8; 4], u64)> = Vec::new();
    let mut n = 0u64;
    for &h in &class_combos(hc) {
        for &o in &class_combos(oc) {
            if h[0] == o[0] || h[0] == o[1] || h[1] == o[0] || h[1] == o[1] {
                continue;
            }
            n += 1;
            let p = pattern(h, o);
            match kinds.iter_mut().find(|k| k.0 == p) {
                Some(k) => k.1 += 1,
                None => kinds.push((p, 1)),
            }
        }
    }
    let sums: Vec<f64> = kinds
        .par_iter()
        .map(|(p, times)| exact([p[0], p[1]], [p[2], p[3]]) as f64 * *times as f64)
        .collect();
    (sums.iter().sum::<f64>() / n as f64) as f32
}

#[test]
fn known_hu_equities() {
    let aa = class(12, 0, 12, 1);
    let kk = class(11, 0, 11, 1);
    let qq = class(10, 0, 10, 1);
    let aks = class(12, 0, 11, 0);
    let ako = class(12, 0, 11, 1);
    let p22 = class(0, 0, 0, 1);

    let e_aakk = class_avg_exact(aa, kk);
    assert!((e_aakk - 0.819).abs() < 0.004, "AA vs KK class avg = {e_aakk}");
    let e_aksqq = class_avg_exact(aks, qq);
    assert!((e_aksqq - 0.462).abs() < 0.006, "AKs vs QQ class avg = {e_aksqq}");
    let e_22ako = class_avg_exact(p22, ako);
    assert!((e_22ako - 0.525).abs() < 0.006, "22 vs AKo class avg = {e_22ako}");

    let e_sh = exact([c(12, 0), c(12, 1)], [c(11, 0), c(11, 1)]);
    let e_di = exact([c(12, 0), c(12, 1)], [c(11, 2), c(11, 3)]);
    assert!(e_sh > e_di, "shared {e_sh} should beat distinct {e_di}");
    assert!(e_di < e_aakk && e_aakk < e_sh, "{e_di} < {e_aakk} < {e_sh}");

    let s = exact([c(12, 0), c(12, 1)], [c(11, 0), c(11, 1)])
        + exact([c(11, 0), c(11, 1)], [c(12, 0), c(12, 1)]);
    assert!((s - 1.0).abs() < 1e-4, "symmetry {s}");
}

#[test]
fn mc_matches_exact_class() {
    let aa = class(12, 0, 12, 1);
    let kk = class(11, 0, 11, 1);
    let aks = class(12, 0, 11, 0);
    let qq = class(10, 0, 10, 1);
    for &(h, o) in &[(aa, kk), (aks, qq)] {
        let exact = class_avg_exact(h, o);
        let mc: F32 = class_hu_equity_mc(&ranker(), h, o, 4000, 0xC0FFEE);
        let mc = mc.0;
        assert!((mc - exact).abs() < 0.01, "MC {mc} vs exact {exact} ({h},{o})");
    }
}

#[test]
fn samples_depend_on_the_seed_alone() {
    let aa = class(12, 0, 12, 1);
    let kk = class(11, 0, 11, 1);
    let one: F32 = class_hu_equity_mc(&ranker(), aa, kk, 200, 7);
    let again: F32 = class_hu_equity_mc(&ranker(), aa, kk, 200, 7);
    let other: F32 = class_hu_equity_mc(&ranker(), aa, kk, 200, 8);
    assert_eq!(one, again);
    assert_ne!(one, other);
}

#[test]
fn threads_compute_the_same_table() {
    let table: Vec<F32> = class_hu_equity_table(&ranker(), 1, 99);
    let on_threads: Vec<F32> = class_hu_equity_table_par(&ranker(), 1, 99);
    assert_eq!(table.len(), NUM_PREFLOP_CLASSES * NUM_PREFLOP_CLASSES);
    assert_eq!(table, on_threads);
    assert!(table.iter().any(|x| *x != table[0]));
}

#[test]
fn combination_counts_are_class_sizes() {
    let counts: Vec<F32> = class_combo_counts();
    assert_eq!(counts.len(), NUM_PREFLOP_CLASSES);
    assert_eq!(counts[class(12, 0, 12, 1)], F32(6.0));
    assert_eq!(counts[class(12, 0, 11, 0)], F32(4.0));
    assert_eq!(counts[class(12, 0, 11, 1)], F32(12.0));
    let all: f32 = counts.iter().map(|x| x.0).sum();
    assert_eq!(all, 1326.0);
}

#[test]
fn an_equity_table_survives_its_file() {
    let n = NUM_PREFLOP_CLASSES * NUM_PREFLOP_CLASSES;
    let bits: Vec<u32> = (0..n).map(|i| (i as f32 / n as f32).to_bits()).collect();
    let bytes = table_bytes(&bits);
    assert_eq!(bytes.len(), 4 * n);
    assert_eq!(bytes[4..8], (1.0f32 / n as f32).to_le_bytes());
    assert_eq!(table_bits(&bytes), Some(bits));
    assert_eq!(table_bits(&bytes[1..]), None);
    assert_eq!(table_bits(&[]), None);
}

