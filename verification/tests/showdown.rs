use solver_core::bucketed_showdown::{
    bucketed_showdown_cfv, bucketed_showdown_cfv_design1_collapsed, bucketed_showdown_cfv_factored,
    BucketedRunoutTables, WtlMatrices,
};
use solver_core::cluster_mass::{
    mass_cluster_k23_fast, mass_cluster_pairs, mass_cluster_pairs_fast,
};
use solver_core::scalar::{Scalar, Widen};

#[derive(Clone, Copy, Debug, PartialEq)]
struct F64(f64);

#[derive(Clone, Copy, Debug, PartialEq)]
struct F32(f32);

impl Scalar for F64 {
    fn zero() -> F64 {
        F64(0.0)
    }
    fn one() -> F64 {
        F64(1.0)
    }
    fn of_usize(n: usize) -> F64 {
        F64(n as f64)
    }
    fn of_i32(n: i32) -> F64 {
        F64(n as f64)
    }
    fn of_i64(n: i64) -> F64 {
        F64(n as f64)
    }
    fn plus(self, rhs: F64) -> F64 {
        F64(self.0 + rhs.0)
    }
    fn minus(self, rhs: F64) -> F64 {
        F64(self.0 - rhs.0)
    }
    fn times(self, rhs: F64) -> F64 {
        F64(self.0 * rhs.0)
    }
    fn over(self, rhs: F64) -> F64 {
        F64(self.0 / rhs.0)
    }
    fn below(self, rhs: F64) -> bool {
        self.0 < rhs.0
    }
    fn at_most(self, rhs: F64) -> bool {
        self.0 <= rhs.0
    }
    fn same(self, rhs: F64) -> bool {
        self.0 == rhs.0
    }
    fn larger(self, rhs: F64) -> F64 {
        F64(self.0.max(rhs.0))
    }
    fn root(self) -> F64 {
        F64(self.0.sqrt())
    }
    fn power(self, rhs: F64) -> F64 {
        F64(self.0.powf(rhs.0))
    }
    fn exp(self) -> F64 {
        F64(self.0.exp())
    }
    fn lowest() -> F64 {
        F64(f64::NEG_INFINITY)
    }
    fn highest() -> F64 {
        F64(f64::INFINITY)
    }
    fn ten_to(n: u32) -> F64 {
        F64(format!("1e{n}").parse().unwrap())
    }
    fn of_bits(bits: u64) -> F64 {
        F64(f64::from_bits(bits))
    }
}

impl Scalar for F32 {
    fn zero() -> F32 {
        F32(0.0)
    }
    fn one() -> F32 {
        F32(1.0)
    }
    fn of_usize(n: usize) -> F32 {
        F32(n as f32)
    }
    fn of_i32(n: i32) -> F32 {
        F32(n as f32)
    }
    fn of_i64(n: i64) -> F32 {
        F32(n as f32)
    }
    fn plus(self, rhs: F32) -> F32 {
        F32(self.0 + rhs.0)
    }
    fn minus(self, rhs: F32) -> F32 {
        F32(self.0 - rhs.0)
    }
    fn times(self, rhs: F32) -> F32 {
        F32(self.0 * rhs.0)
    }
    fn over(self, rhs: F32) -> F32 {
        F32(self.0 / rhs.0)
    }
    fn below(self, rhs: F32) -> bool {
        self.0 < rhs.0
    }
    fn at_most(self, rhs: F32) -> bool {
        self.0 <= rhs.0
    }
    fn same(self, rhs: F32) -> bool {
        self.0 == rhs.0
    }
    fn larger(self, rhs: F32) -> F32 {
        F32(self.0.max(rhs.0))
    }
    fn root(self) -> F32 {
        F32(self.0.sqrt())
    }
    fn power(self, rhs: F32) -> F32 {
        F32(self.0.powf(rhs.0))
    }
    fn exp(self) -> F32 {
        F32(self.0.exp())
    }
    fn lowest() -> F32 {
        F32(f32::NEG_INFINITY)
    }
    fn highest() -> F32 {
        F32(f32::INFINITY)
    }
    fn ten_to(n: u32) -> F32 {
        F32(format!("1e{n}").parse().unwrap())
    }
    fn of_bits(bits: u64) -> F32 {
        F32(f64::from_bits(bits) as f32)
    }
}

impl Widen for F32 {
    type Wide = F64;
    fn widen(self) -> F64 {
        F64(self.0 as f64)
    }
    fn narrow(w: F64) -> F32 {
        F32(w.0 as f32)
    }
}


fn near(a: f32, b: f32) -> bool {
    (a - b).abs() <= 1e-4 * (1.0 + a.abs().max(b.abs()))
}

/// All hands of the cards `0..n`.
fn hands_of(n: u8) -> Vec<(u8, u8)> {
    let mut hands = Vec::new();
    for a in 0..n {
        for b in a + 1..n {
            hands.push((a, b));
        }
    }
    hands
}

fn cards_of(hands: &[(u8, u8)]) -> Vec<u8> {
    hands.iter().flat_map(|&(a, b)| [a, b]).collect()
}

fn apart(x: (u8, u8), y: (u8, u8)) -> bool {
    x.0 != y.0 && x.0 != y.1 && x.1 != y.0 && x.1 != y.1
}

/// Reach that differs from hand to hand and from seat to seat.
fn reach_of(nh: usize, seat: usize) -> Vec<F32> {
    (0..nh).map(|g| F32(((g * (seat + 2) + 3 * seat) % 7) as f32 / 4.0)).collect()
}

/// Weight of all ways to deal the seats hands that share no card, with one another or
/// with `held`.
fn dealt(hands: &[(u8, u8)], seats: &[Vec<F32>], held: &mut Vec<(u8, u8)>) -> f64 {
    let Some((first, rest)) = seats.split_first() else {
        return 1.0;
    };
    let mut sum = 0.0;
    for (g, &hand) in hands.iter().enumerate() {
        if first[g].0 != 0.0 && held.iter().all(|&x| apart(x, hand)) {
            held.push(hand);
            sum += first[g].0 as f64 * dealt(hands, rest, held);
            held.pop();
        }
    }
    sum
}

fn exact_masses(hands: &[(u8, u8)], seats: &[Vec<F32>]) -> Vec<f32> {
    hands.iter().map(|&h| dealt(hands, seats, &mut vec![h]) as f32).collect()
}

/// The mass of a single opponent: all hands that share no card.
fn lone(reach: &[&[F32]], cards: &[u8], nh: usize) -> Vec<F32> {
    let hand = |g: usize| (cards[2 * g], cards[2 * g + 1]);
    (0..nh)
        .map(|h| {
            F32((0..nh).filter(|&g| apart(hand(h), hand(g))).map(|g| reach[0][g].0).sum::<f32>())
        })
        .collect()
}

#[test]
fn two_opponents_never_share_a_card() {
    let hands = hands_of(8);
    let cards = cards_of(&hands);
    let nh = hands.len();
    let seats = vec![reach_of(nh, 0), reach_of(nh, 1)];
    let reach: Vec<&[F32]> = seats.iter().map(|r| &r[..]).collect();
    let exact = exact_masses(&hands, &seats);
    let plain = mass_cluster_pairs(&reach, &cards, nh, &lone);
    let fast = mass_cluster_pairs_fast(&reach, &cards, nh, &lone);
    for h in 0..nh {
        assert!(near(plain[h].0, exact[h]), "{h}: {} {}", plain[h].0, exact[h]);
        assert!(near(fast[h].0, exact[h]), "{h}: {} {}", fast[h].0, exact[h]);
    }
}

#[test]
fn a_single_opponent_is_asked_for() {
    let hands = hands_of(6);
    let cards = cards_of(&hands);
    let nh = hands.len();
    let seat = reach_of(nh, 0);
    let reach: Vec<&[F32]> = vec![&seat[..]];
    let want = lone(&reach, &cards, nh);
    assert_eq!(mass_cluster_pairs(&reach, &cards, nh, &lone), want);
    assert_eq!(mass_cluster_pairs_fast(&reach, &cards, nh, &lone), want);
}

#[test]
fn pair_masses_agree_for_many_opponents() {
    let hands = hands_of(9);
    let cards = cards_of(&hands);
    let nh = hands.len();
    for k in 2..6 {
        let seats: Vec<Vec<F32>> = (0..k).map(|s| reach_of(nh, s)).collect();
        let reach: Vec<&[F32]> = seats.iter().map(|r| &r[..]).collect();
        let plain = mass_cluster_pairs(&reach, &cards, nh, &lone);
        let fast = mass_cluster_pairs_fast(&reach, &cards, nh, &lone);
        for h in 0..nh {
            let scale = 1.0 + plain[h].0.abs();
            assert!((plain[h].0 - fast[h].0).abs() < 1e-3 * scale, "{k} {h}");
        }
    }
}

/// Three opponents that can clash with one another, and a fourth that cannot clash with
/// anybody: against a hand that none of them can block, clusters of two and of three are
/// all there are.
#[test]
fn four_opponents_clash_in_threes() {
    let hands = hands_of(16);
    let cards = cards_of(&hands);
    let nh = hands.len();
    let mut seats: Vec<Vec<F32>> = (0..4).map(|s| reach_of(nh, s)).collect();
    for (g, &(a, b)) in hands.iter().enumerate() {
        for s in 0..3 {
            if b >= 8 {
                seats[s][g] = F32(0.0);
            }
        }
        if a < 8 || b >= 12 {
            seats[3][g] = F32(0.0);
        }
    }
    let reach: Vec<&[F32]> = seats.iter().map(|r| &r[..]).collect();
    let exact = exact_masses(&hands, &seats);
    let got = mass_cluster_k23_fast(&reach, &cards, nh);
    assert_eq!(got.len(), nh);
    for h in (0..nh).filter(|&h| hands[h].0 >= 12) {
        assert!(exact[h] > 0.0);
        let off = (got[h].0 - exact[h]).abs();
        assert!(off < 1e-3 * (1.0 + exact[h].abs()), "{h}: {} {}", got[h].0, exact[h]);
    }
}

/// One bucket: three of nine pairs win, one ties, two lose, three share a card.
fn one_bucket() -> BucketedRunoutTables<F32> {
    let wtl = WtlMatrices { nb: 1, w: vec![F64(3.0)], t: vec![F64(1.0)], l: vec![F64(2.0)] };
    BucketedRunoutTables::from_wtl(&wtl, &[F64(3.0)])
}

/// Two buckets, the second one better; no pair shares a card.
fn two_buckets() -> BucketedRunoutTables<F32> {
    let wtl = WtlMatrices {
        nb: 2,
        w: vec![F64(1.0), F64(0.5), F64(3.0), F64(1.5)],
        t: vec![F64(2.0), F64(0.5), F64(0.5), F64(1.0)],
        l: vec![F64(1.0), F64(3.0), F64(0.5), F64(1.5)],
    };
    BucketedRunoutTables::from_wtl(&wtl, &[F64(2.0), F64(2.0)])
}

#[test]
fn fractions_of_the_pair_mass() {
    let t = one_bucket();
    assert!(near(t.f_w[0].0, 3.0 / 9.0) && near(t.f_t[0].0, 1.0 / 9.0));
    assert!(near(t.f_l[0].0, 2.0 / 9.0) && near(t.f_n[0].0, 6.0 / 9.0));
    let wtl = WtlMatrices { nb: 1, w: vec![F64(0.0)], t: vec![F64(0.0)], l: vec![F64(0.0)] };
    let empty = BucketedRunoutTables::<F32>::from_wtl(&wtl, &[F64(0.0)]);
    assert_eq!((empty.f_w[0], empty.f_n[0]), (F32(0.0), F32(0.0)));
}

#[test]
fn a_showdown_of_two_buckets_pays_the_pot() {
    let tables = one_bucket();
    // The third player has folded; the weight of their hands that clash with neither
    // of the others is one.
    let reach = [F32(2.0)];
    let third = [F32(2.25)];
    let seats: [&[F32]; 2] = [&reach, &third];
    let none = F32(0.0);
    let put = [10, 10, 0];
    let cfv = bucketed_showdown_cfv(&seats, &tables, &put, 0b100, 0, 3, 0, none, none, true);
    assert!(near(cfv[0].0, 2.0 * (3.0 - 2.0) / 9.0 * 10.0), "{}", cfv[0].0);
    // The opponent has folded: every pair wins.
    let cfv = bucketed_showdown_cfv(&seats, &tables, &put, 0b110, 0, 3, 0, none, none, true);
    assert!(near(cfv[0].0, 2.0 * 6.0 / 9.0 * 10.0), "{}", cfv[0].0);
    // The traverser has folded: every pair loses.
    let cfv = bucketed_showdown_cfv(&seats, &tables, &put, 0b101, 0, 3, 0, none, none, true);
    assert!(near(cfv[0].0, -2.0 * 6.0 / 9.0 * 10.0), "{}", cfv[0].0);
}

#[test]
fn even_showdowns_agree() {
    let tables = two_buckets();
    for np in 3..6u8 {
        let rows: Vec<Vec<F32>> =
            (1..np).map(|p| vec![F32(0.25 * p as f32), F32(1.0 / p as f32)]).collect();
        let seats: Vec<&[F32]> = rows.iter().map(|r| &r[..]).collect();
        let put = vec![20; np as usize];
        let (rate, cap) = (F32(0.05), F32(3.0));
        let plain = bucketed_showdown_cfv(&seats, &tables, &put, 0, 0, np, 6, rate, cap, true);
        let mean = bucketed_showdown_cfv_design1_collapsed(
            &seats, &tables, &put, 0, 0, np, 6, rate, cap, true,
        );
        assert_eq!(plain, mean);
        assert!(plain[1].0 > plain[0].0);
    }
}

#[test]
fn side_pots_go_to_who_can_win_them() {
    let tables = two_buckets();
    let rows = vec![vec![F32(0.5), F32(0.5)], vec![F32(0.0), F32(1.0)]];
    let seats: Vec<&[F32]> = rows.iter().map(|r| &r[..]).collect();
    let none = F32(0.0);
    // All in for 5, 20 and 20: the short stack can only win the main pot.
    let short =
        bucketed_showdown_cfv(&seats, &tables, &[5, 20, 20], 0, 0, 3, 0, none, none, true);
    let even =
        bucketed_showdown_cfv(&seats, &tables, &[20, 20, 20], 0, 0, 3, 0, none, none, true);
    for b in 0..2 {
        assert!(near(even[b].0, 4.0 * short[b].0), "{} {}", even[b].0, short[b].0);
    }
    // Rake is only taken once the flop is seen.
    let (rate, cap) = (F32(0.1), F32(2.0));
    let before = bucketed_showdown_cfv(&seats, &tables, &[20; 3], 0, 0, 3, 0, rate, cap, false);
    let after = bucketed_showdown_cfv(&seats, &tables, &[20; 3], 0, 0, 3, 0, rate, cap, true);
    assert_eq!(before, even);
    assert!(after[0].0 < before[0].0 && after[1].0 < before[1].0);
}

#[test]
fn four_players_by_factors() {
    let tables = two_buckets();
    let rows: Vec<Vec<F32>> =
        (1..4).map(|p| vec![F32(0.25 * p as f32), F32(1.0 / p as f32)]).collect();
    let seats: Vec<&[F32]> = rows.iter().map(|r| &r[..]).collect();
    let none = F32(0.0);
    let plain = bucketed_showdown_cfv(&seats, &tables, &[20; 4], 0, 0, 4, 0, none, none, true);
    let by_factors =
        bucketed_showdown_cfv_factored(&seats, &tables, &[20; 4], 0, 0, 4, 0, none, none, true);
    for b in 0..2 {
        assert!(near(plain[b].0, by_factors[b].0), "{} {}", plain[b].0, by_factors[b].0);
    }
}

/// With one bucket, scaling by the mean compatibility is no approximation.
#[test]
fn one_bucket_factors_exactly() {
    let tables = one_bucket();
    let (rate, cap) = (F32(0.05), F32(3.0));
    let cases: [(&[i32], u16); 5] = [
        (&[20, 20, 20, 20], 0),
        (&[5, 20, 12, 20], 0),
        (&[12, 20, 5, 20], 0b0100),
        (&[20, 20, 20, 20, 20], 0),
        (&[20, 7, 20, 13, 20], 0b00010),
    ];
    for (put, folded) in cases {
        let np = put.len() as u8;
        let rows: Vec<Vec<F32>> = (1..np).map(|p| vec![F32(1.0 + 0.25 * p as f32)]).collect();
        let seats: Vec<&[F32]> = rows.iter().map(|r| &r[..]).collect();
        let plain = bucketed_showdown_cfv(&seats, &tables, put, folded, 0, np, 6, rate, cap, true);
        let by_factors = bucketed_showdown_cfv_factored(
            &seats, &tables, put, folded, 0, np, 6, rate, cap, true,
        );
        assert!(plain[0].0 != 0.0);
        assert!(near(plain[0].0, by_factors[0].0), "{put:?} {} {}", plain[0].0, by_factors[0].0);
    }
}

/// Buckets that win, tie or lose for sure: averaging over relations computes the very same.
#[test]
fn sure_buckets_collapse_to_the_same() {
    let wtl = WtlMatrices {
        nb: 2,
        w: vec![F64(0.0), F64(0.0), F64(1.0), F64(0.0)],
        t: vec![F64(1.0), F64(0.0), F64(0.0), F64(0.0)],
        l: vec![F64(0.0), F64(1.0), F64(0.0), F64(0.0)],
    };
    let tables = BucketedRunoutTables::<F32>::from_wtl(&wtl, &[F64(1.0), F64(1.0)]);
    assert_eq!(tables.f_n, vec![F32(1.0), F32(1.0), F32(1.0), F32(0.0)]);
    let (rate, cap) = (F32(0.05), F32(3.0));
    let cases: [(&[i32], u16); 4] = [
        (&[5, 20, 20], 0),
        (&[20, 10, 20], 0b010),
        (&[5, 20, 12, 20], 0),
        (&[12, 20, 5, 20], 0b0100),
    ];
    for (put, folded) in cases {
        let np = put.len() as u8;
        let rows: Vec<Vec<F32>> =
            (1..np).map(|p| vec![F32(0.3 * p as f32), F32(0.7 / p as f32)]).collect();
        let seats: Vec<&[F32]> = rows.iter().map(|r| &r[..]).collect();
        let plain = bucketed_showdown_cfv(&seats, &tables, put, folded, 0, np, 6, rate, cap, true);
        let mean = bucketed_showdown_cfv_design1_collapsed(
            &seats, &tables, put, folded, 0, np, 6, rate, cap, true,
        );
        assert_eq!(plain, mean, "{put:?}");
        assert!(plain[0] != plain[1]);
    }
}

/// Folds and side pots: averaging over relations changes nothing but the rounding.
#[test]
fn averages_over_relations_are_exact() {
    let tables = two_buckets();
    let (rate, cap) = (F32(0.05), F32(3.0));
    let cases: [(&[i32], u16); 5] = [
        (&[5, 20, 20], 0),
        (&[20, 20, 7], 0),
        (&[20, 10, 20], 0b010),
        (&[5, 20, 12, 20], 0),
        (&[12, 20, 5, 20], 0b0100),
    ];
    for (put, folded) in cases {
        let np = put.len() as u8;
        let rows: Vec<Vec<F32>> =
            (1..np).map(|p| vec![F32(0.25 * p as f32), F32(1.0 / p as f32)]).collect();
        let seats: Vec<&[F32]> = rows.iter().map(|r| &r[..]).collect();
        let plain = bucketed_showdown_cfv(&seats, &tables, put, folded, 0, np, 6, rate, cap, true);
        let mean = bucketed_showdown_cfv_design1_collapsed(
            &seats, &tables, put, folded, 0, np, 6, rate, cap, true,
        );
        for b in 0..2 {
            assert!(near(plain[b].0, mean[b].0), "{put:?} {} {}", plain[b].0, mean[b].0);
        }
        assert!(plain[0] != plain[1]);
    }
}
