use rayon::prelude::{IntoParallelIterator, ParallelIterator};
use solver_core::card::card_pair_to_index;
use solver_core::flop_sources::{
    bucketed_live_subset_source, in_layout_order, live_position, live_seats,
    make_per_flop_solver_converged, make_per_flop_solver_iter0, runout, uniform_values, value_flop,
    UnabstractedPostflopOracle,
};
use solver_core::learn::DcfrParams;
use solver_core::postflop_oracle::{
    pack_bucket, BucketKeyedOracle, ClosureOracle, PostflopValueOracle, SeamCell, COMBOS_PER_FLOP,
};
use solver_core::terminal::Rake;
use solver_core::preflop_allin_equity::{class_hu_equity_mc, Evaluator};
use solver_core::preflop_cfr::PreflopVectorCfr;
use solver_core::preflop_class::{class_combos, PreflopClass, NUM_PREFLOP_CLASSES};
use solver_core::preflop_folds::{
    make_bootstrap_terminal_value_fn_multiway_pairwise, make_production_terminal_value_fn_hu,
    make_production_terminal_value_fn_multiway, multiway_value, others,
};
use solver_core::preflop_jam_game::{
    build_jam_tree, jam_bets, solve_hu_preflop_jam, solve_preflop_search, BetSize, PreflopJamCfg,
    PreflopJamGame, PreflopJamResult, SeamValue, TreeConfig,
};
use solver_core::preflop_run::PreflopChanceTable;
use solver_core::scalar::{Scalar, Widen};
use solver_core::tree::{
    FlatNode, FlatTree, ACTION_LABEL_ALLIN, ACTION_LABEL_CALL, ACTION_LABEL_FOLD,
    ACTION_LABEL_RAISE, BOARD_FLOP, BOARD_PREFLOP, NODE_TYPE_CHANCE, NODE_TYPE_PLAYER,
    NODE_TYPE_TERMINAL,
};
use std::cell::Cell;

#[derive(Clone, Copy, Debug, PartialEq)]
struct F64(f64);

#[derive(Clone, Copy, Debug, PartialEq)]
struct F32(f32);

impl Scalar for F64 {
    fn zero() -> F64 {
        F64(0.0)
    }
    fn one() -> F64 {
        F64(1.0)
    }
    fn of_usize(n: usize) -> F64 {
        F64(n as f64)
    }
    fn of_i32(n: i32) -> F64 {
        F64(n as f64)
    }
    fn of_i64(n: i64) -> F64 {
        F64(n as f64)
    }
    fn plus(self, rhs: F64) -> F64 {
        F64(self.0 + rhs.0)
    }
    fn minus(self, rhs: F64) -> F64 {
        F64(self.0 - rhs.0)
    }
    fn times(self, rhs: F64) -> F64 {
        F64(self.0 * rhs.0)
    }
    fn over(self, rhs: F64) -> F64 {
        F64(self.0 / rhs.0)
    }
    fn below(self, rhs: F64) -> bool {
        self.0 < rhs.0
    }
    fn at_most(self, rhs: F64) -> bool {
        self.0 <= rhs.0
    }
    fn same(self, rhs: F64) -> bool {
        self.0 == rhs.0
    }
    fn larger(self, rhs: F64) -> F64 {
        F64(self.0.max(rhs.0))
    }
    fn root(self) -> F64 {
        F64(self.0.sqrt())
    }
    fn power(self, rhs: F64) -> F64 {
        F64(self.0.powf(rhs.0))
    }
    fn exp(self) -> F64 {
        F64(self.0.exp())
    }
    fn lowest() -> F64 {
        F64(f64::NEG_INFINITY)
    }
    fn highest() -> F64 {
        F64(f64::INFINITY)
    }
    fn ten_to(n: u32) -> F64 {
        F64(format!("1e{n}").parse().unwrap())
    }
    fn of_bits(bits: u64) -> F64 {
        F64(f64::from_bits(bits))
    }
}

impl Scalar for F32 {
    fn zero() -> F32 {
        F32(0.0)
    }
    fn one() -> F32 {
        F32(1.0)
    }
    fn of_usize(n: usize) -> F32 {
        F32(n as f32)
    }
    fn of_i32(n: i32) -> F32 {
        F32(n as f32)
    }
    fn of_i64(n: i64) -> F32 {
        F32(n as f32)
    }
    fn plus(self, rhs: F32) -> F32 {
        F32(self.0 + rhs.0)
    }
    fn minus(self, rhs: F32) -> F32 {
        F32(self.0 - rhs.0)
    }
    fn times(self, rhs: F32) -> F32 {
        F32(self.0 * rhs.0)
    }
    fn over(self, rhs: F32) -> F32 {
        F32(self.0 / rhs.0)
    }
    fn below(self, rhs: F32) -> bool {
        self.0 < rhs.0
    }
    fn at_most(self, rhs: F32) -> bool {
        self.0 <= rhs.0
    }
    fn same(self, rhs: F32) -> bool {
        self.0 == rhs.0
    }
    fn larger(self, rhs: F32) -> F32 {
        F32(self.0.max(rhs.0))
    }
    fn root(self) -> F32 {
        F32(self.0.sqrt())
    }
    fn power(self, rhs: F32) -> F32 {
        F32(self.0.powf(rhs.0))
    }
    fn exp(self) -> F32 {
        F32(self.0.exp())
    }
    fn lowest() -> F32 {
        F32(f32::NEG_INFINITY)
    }
    fn highest() -> F32 {
        F32(f32::INFINITY)
    }
    fn ten_to(n: u32) -> F32 {
        F32(format!("1e{n}").parse().unwrap())
    }
    fn of_bits(bits: u64) -> F32 {
        F32(f64::from_bits(bits) as f32)
    }
}

impl Widen for F32 {
    type Wide = F64;
    fn widen(self) -> F64 {
        F64(self.0 as f64)
    }
    fn narrow(w: F64) -> F32 {
        F32(w.0 as f32)
    }
}

/// Cards of a hand: how many of each rank, four bits each, and the ranks of each suit.
#[derive(Clone, Copy)]
struct Pile {
    counts: u64,
    suits: [u16; 4],
}

const NO_CARDS: Pile = Pile { counts: 0, suits: [0; 4] };

fn add_card(h: Pile, c: u8) -> Pile {
    let mut g = h;
    g.counts += 1u64 << (4 * (c / 4));
    g.suits[(c % 4) as usize] |= 1 << (c / 4);
    g
}

fn top_bit(m: u32) -> u32 {
    31 - m.leading_zeros()
}

/// The best five of a set of ranks, as a set.
fn best_five(m: u32) -> u32 {
    let mut m = m;
    while m.count_ones() > 5 {
        m &= m - 1;
    }
    m
}

/// The top rank of the best straight plus one, or zero; an ace counts low too.
fn straight(m: u32) -> u32 {
    let w = (m << 1) | (m >> 12);
    let run = w & (w >> 1) & (w >> 2) & (w >> 3) & (w >> 4);
    if run == 0 {
        0
    } else {
        top_bit(run) + 4
    }
}

/// The ranks that a hand holds exactly `n` times.
fn ranks_held(counts: u64, n: u64) -> u32 {
    let mut m = 0u32;
    let mut r = 0;
    let mut left = counts;
    while left != 0 {
        if left & 15 == n {
            m |= 1 << r;
        }
        left >>= 4;
        r += 1;
    }
    m
}

const PAIR: u32 = 8192;
const TWO_PAIR: u32 = PAIR + 28561;
const TRIPS: u32 = TWO_PAIR + 2197;
const STRAIGHT: u32 = TRIPS + 2197;
const FLUSH: u32 = STRAIGHT + 16;
const FULL_HOUSE: u32 = FLUSH + 8192;
const QUADS: u32 = FULL_HOUSE + 169;
const STRAIGHT_FLUSH: u32 = QUADS + 169;

/// Ranks up to seven cards; a higher rank wins.
fn rank_cards(h: Pile) -> u16 {
    let mut all = 0u32;
    let mut flush = 0u32;
    for s in 0..4 {
        let m = h.suits[s] as u32;
        all |= m;
        if m.count_ones() >= 5 {
            flush = m;
        }
    }
    if flush != 0 && straight(flush) != 0 {
        return (STRAIGHT_FLUSH + straight(flush)) as u16;
    }
    if all.count_ones() == h.suits.iter().map(|m| m.count_ones()).sum::<u32>() {
        if flush != 0 {
            return (FLUSH + best_five(flush)) as u16;
        }
        if straight(all) != 0 {
            return (STRAIGHT + straight(all)) as u16;
        }
        return best_five(all) as u16;
    }
    let quads = ranks_held(h.counts, 4);
    if quads != 0 {
        let q = top_bit(quads);
        return (QUADS + q * 13 + top_bit(all & !(1 << q))) as u16;
    }
    let trips = ranks_held(h.counts, 3);
    let pairs = ranks_held(h.counts, 2);
    if trips != 0 {
        let t = top_bit(trips);
        let under = (trips | pairs) & !(1 << t);
        if under != 0 {
            return (FULL_HOUSE + t * 13 + top_bit(under)) as u16;
        }
    }
    if flush != 0 {
        return (FLUSH + best_five(flush)) as u16;
    }
    if straight(all) != 0 {
        return (STRAIGHT + straight(all)) as u16;
    }
    if trips != 0 {
        let t = top_bit(trips);
        let rest = all & !(1 << t);
        let a = top_bit(rest);
        let b = top_bit(rest & !(1 << a));
        return (TRIPS + t * 169 + a * 13 + b) as u16;
    }
    let p = top_bit(pairs);
    let more = pairs & !(1 << p);
    if more != 0 {
        let q = top_bit(more);
        return (TWO_PAIR + p * 169 + q * 13 + top_bit(all & !(1 << p) & !(1 << q))) as u16;
    }
    let rest = all & !(1 << p);
    let a = top_bit(rest);
    let b = top_bit(rest & !(1 << a));
    let c = top_bit(rest & !(1 << a) & !(1 << b));
    (PAIR + p * 2197 + a * 169 + b * 13 + c) as u16
}

const NC: usize = NUM_PREFLOP_CLASSES;

/// A tree of two players before the flop, grown node by node; what goes on past a call is
/// cut off at the flop.
struct Roots {
    nodes: Vec<FlatNode>,
    kids: Vec<Vec<u32>>,
    contributions: Vec<i32>,
    folded: Vec<u16>,
    raises: Vec<BetSize<F64>>,
    dead: i32,
    stack: i32,
    most_bets: u8,
}

impl Roots {
    fn node(&mut self, parent: Option<u32>, kind: u8, street: u8, actor: u8, label: u8, put: [i32; 2], folded: u16) -> u32 {
        let id = self.nodes.len() as u32;
        let level = parent.map(|p| self.nodes[p as usize].level + 1).unwrap_or(0);
        self.nodes.push(FlatNode {
            node_type: kind,
            player_id: actor,
            action_label: label,
            board_state: street,
            num_children: 0,
            amount: 0,
            level,
            first_child: 0,
        });
        self.kids.push(Vec::new());
        self.contributions.extend_from_slice(&put);
        self.folded.push(folded);
        if let Some(p) = parent {
            self.kids[p as usize].push(id);
        }
        id
    }

    fn decision(&mut self, parent: Option<u32>, put: [i32; 2], actor: u8, bets: u8, label: u8) {
        let me = self.node(parent, NODE_TYPE_PLAYER, BOARD_PREFLOP, actor, label, put, 0);
        let a = actor as usize;
        let o = 1 - a;
        self.node(Some(me), NODE_TYPE_TERMINAL, BOARD_PREFLOP, actor, ACTION_LABEL_FOLD, put, 1 << a);
        let mut called = put;
        called[a] = put[o];
        self.node(Some(me), NODE_TYPE_CHANCE, BOARD_FLOP, actor, ACTION_LABEL_CALL, called, 0);
        if bets >= self.most_bets || put[o] >= self.stack {
            return;
        }
        let pot = self.dead + 2 * put[o];
        for raise in self.raises.clone() {
            let (to, label) = match raise {
                BetSize::PotRelative(f) => (put[o] + (f.0 * pot as f64) as i32, ACTION_LABEL_RAISE),
                BetSize::AllIn => (self.stack, ACTION_LABEL_ALLIN),
            };
            if label == ACTION_LABEL_RAISE && to >= self.stack {
                continue;
            }
            let mut raised = put;
            raised[a] = to;
            self.decision(Some(me), raised, o as u8, bets + 1, label);
        }
    }
}

fn build(cfg: &TreeConfig<F64>) -> Result<FlatTree, String> {
    if cfg.starting_stacks.iter().any(|s| *s < 0) {
        return Err("a player has put in more than the stack".to_string());
    }
    let put = [cfg.initial_contributions[0], cfg.initial_contributions[1]];
    let mut g = Roots {
        nodes: Vec::new(),
        kids: Vec::new(),
        contributions: Vec::new(),
        folded: Vec::new(),
        raises: cfg.bet_sizes.raise.clone(),
        dead: cfg.starting_pot,
        stack: cfg.starting_stacks[0] + put[0],
        most_bets: cfg.max_bets_per_street.preflop,
    };
    g.decision(None, put, cfg.button_player.unwrap(), 1, 0);
    let mut tree = finish(g.nodes, g.kids, g.contributions, g.folded);
    tree.starting_pot = cfg.starting_pot;
    Ok(tree)
}

fn finish(
    mut nodes: Vec<FlatNode>,
    kids: Vec<Vec<u32>>,
    contributions: Vec<i32>,
    folded_masks: Vec<u16>,
) -> FlatTree {
    let mut child_ids = Vec::new();
    let max_depth = nodes.iter().map(|n| n.level).max().unwrap();
    let mut levels = vec![Vec::new(); max_depth as usize + 1];
    let mut decision_node_ids = Vec::new();
    let mut infoset_offsets = vec![u32::MAX; nodes.len()];
    for i in 0..nodes.len() {
        nodes[i].first_child = child_ids.len() as u32;
        nodes[i].num_children = kids[i].len() as u8;
        child_ids.extend_from_slice(&kids[i]);
        levels[nodes[i].level as usize].push(i as u32);
        if nodes[i].is_player() {
            infoset_offsets[i] = decision_node_ids.len() as u32;
            decision_node_ids.push(i as u32);
        }
    }
    let num_infosets = decision_node_ids.len() as u32;
    let tree = FlatTree {
        nodes,
        child_ids,
        levels,
        num_players: 2,
        contributions,
        folded_masks,
        decision_node_ids,
        infoset_offsets,
        num_infosets,
        max_depth,
        starting_pot: 0,
        rake_rate: 0,
        rake_cap: 0,
    };
    assert!(tree.is_tree());
    tree
}

fn cls(r1: u8, s1: u8, r2: u8, s2: u8) -> usize {
    PreflopClass::from_combo(r1 * 4 + s1, r2 * 4 + s2).index()
}

fn one_hot(c: usize) -> Vec<F32> {
    let mut v = vec![F32(0.0); NC];
    v[c] = F32(1.0);
    v
}

/// Share of the pairs of hands of two classes that can be dealt together.
fn blocking() -> Vec<F32> {
    let all: Vec<Vec<[u8; 2]>> = (0..NC).map(class_combos).collect();
    let mut out = Vec::with_capacity(NC * NC);
    for h in &all {
        for o in &all {
            let mut free = 0;
            for a in h {
                for b in o {
                    if a[0] != b[0] && a[0] != b[1] && a[1] != b[0] && a[1] != b[1] {
                        free += 1;
                    }
                }
            }
            out.push(F32(free as f32 / (h.len() * o.len()) as f32));
        }
    }
    out
}

/// Equities of one class against all classes, and of all against it. The hands of the
/// other classes have no reach, so nothing else of the table is looked at.
fn equities_of(c: usize, samples: usize, seed: u64) -> Vec<F32> {
    let e: Evaluator<Pile, fn(Pile, u8) -> Pile, fn(Pile) -> u16> =
        Evaluator { empty: NO_CARDS, add: add_card, rank: rank_cards };
    let rows: Vec<(F32, F32)> = (0..NC)
        .into_par_iter()
        .map(|o| {
            (
                class_hu_equity_mc(&e, c, o, samples, seed),
                class_hu_equity_mc(&e, o, c, samples, seed),
            )
        })
        .collect();
    let mut table = vec![F32(0.0); NC * NC];
    for o in 0..NC {
        table[o * NC + c] = rows[o].1;
    }
    for o in 0..NC {
        table[c * NC + o] = rows[o].0;
    }
    table
}

fn fold_prob(res: &PreflopJamResult<F32>, c: usize) -> f32 {
    for (a, &(label, _)) in res.actions.iter().enumerate() {
        if label == 0 {
            return res.strategy[a][c].0;
        }
    }
    0.0
}

const STACK: i32 = 400;

fn no_rake() -> Rake<F64> {
    Rake { rate: F64(0.0), cap: F64(0.0) }
}

#[test]
fn jam_behavior() {
    let stack = STACK;
    let blk = blocking();

    let aa = cls(12, 0, 12, 1);
    let o72 = cls(5, 0, 0, 1);
    let kk = cls(11, 0, 11, 1);
    let qq = cls(10, 0, 10, 1);
    let aks = cls(12, 0, 11, 0);

    let c_opp = (0.60 * stack as f32) as i32;
    let c_hero = (0.25 * stack as f32) as i32;
    let dead = stack / 20;

    let cfg =
        PreflopJamCfg { iters: 400, lambda: F32(8.0), opp_lambda: F32(8.0), plk: 1, nraises: 6 };

    let opp_uniform = vec![F32(1.0); NC];
    let eq = equities_of(aa, 80, 0xABCDEF);
    let res_aa = solve_hu_preflop_jam(
        c_hero, c_opp, dead, stack, &one_hot(aa), &opp_uniform, &eq, &blk, &cfg, no_rake(), &build,
    )
    .expect("AA solve");
    assert!(res_aa.actions.iter().any(|&(l, _)| l == 5), "no all-in action");
    let f_aa = fold_prob(&res_aa, aa);
    assert!(f_aa < 0.05, "AA should not fold, P(fold)={f_aa}");

    let mut opp_prem = vec![F32(0.0); NC];
    for &c in &[aa, kk, qq, aks] {
        opp_prem[c] = F32(1.0);
    }
    let eq = equities_of(o72, 80, 0xABCDEF);
    let res_72 = solve_hu_preflop_jam(
        c_hero, c_opp, dead, stack, &one_hot(o72), &opp_prem, &eq, &blk, &cfg, no_rake(), &build,
    )
    .expect("72o solve");
    let f_72 = fold_prob(&res_72, o72);
    assert!(f_72 > 0.4, "72o vs premiums should fold, P(fold)={f_72}");
}

#[test]
fn continuation_drives_strategy() {
    let stack = STACK;
    let blk = blocking();
    let opp_uniform = vec![F32(1.0); NC];

    let c_hero = stack / 100;
    let c_opp = stack / 25;
    let dead = stack / 200;
    let mid = cls(7, 0, 5, 1);
    let eq = equities_of(mid, 60, 0x5151);

    let cont_with = |val: f32| {
        let mut m = Vec::new();
        for commit in 0..=stack {
            m.push(SeamValue { commit, pot: dead + 2 * commit, values: vec![F32(val); NC * NC] });
        }
        m
    };
    let cfg =
        PreflopJamCfg { iters: 300, lambda: F32(6.0), opp_lambda: F32(6.0), plk: 1, nraises: 6 };

    let good = cont_with(0.5 * stack as f32);
    let bad = cont_with(-0.5 * stack as f32);
    let res_good = solve_preflop_search(
        c_hero, c_opp, dead, stack, &one_hot(mid), &opp_uniform, &eq, &blk, Some(&good), &cfg,
        no_rake(), &build,
    )
    .expect("good cont solve");
    let res_bad = solve_preflop_search(
        c_hero, c_opp, dead, stack, &one_hot(mid), &opp_uniform, &eq, &blk, Some(&bad), &cfg,
        no_rake(), &build,
    )
    .expect("bad cont solve");
    let f_good = fold_prob(&res_good, mid);
    let f_bad = fold_prob(&res_bad, mid);
    assert!(
        f_good + 0.2 < f_bad,
        "continuation must drive folds: P(fold|+EV)={f_good} should be << P(fold|-EV)={f_bad}"
    );
}

#[test]
fn menus_end_with_all_in() {
    let bets = jam_bets::<F64>(3);
    let sizes: Vec<Option<f64>> = bets
        .raise
        .iter()
        .map(|b| match b {
            BetSize::PotRelative(f) => Some(f.0),
            BetSize::AllIn => None,
        })
        .collect();
    assert_eq!(sizes, vec![Some(1.0), Some(0.5), Some(0.75), None]);
    assert_eq!(jam_bets::<F64>(13).raise.len(), 14);
    assert_eq!(jam_bets::<F64>(99).raise.len(), 14);
    assert!(matches!(jam_bets::<F64>(13).raise[12], BetSize::PotRelative(F64(x)) if x == 11.0));
    assert_eq!(jam_bets::<F64>(0).raise.len(), 1);
    assert_eq!(bets.bet.len(), 1);
}

#[test]
fn jam_trees_start_where_the_players_stand() {
    let tree = build_jam_tree(100, 240, 20, 400, 6, no_rake(), &build).unwrap();
    assert_eq!(tree.num_players, 2);
    assert_eq!(tree.starting_pot, 20);
    assert_eq!(tree.get_contribution(0, 0), 100);
    assert_eq!(tree.get_contribution(0, 1), 240);
    assert_eq!(tree.nodes[0].player_id, 0);
    assert!(build_jam_tree(100, 500, 20, 400, 6, no_rake(), &build).is_err());
}

#[test]
fn searches_need_a_bet_to_face() {
    let blk = vec![F32(1.0); NC * NC];
    let eq = vec![F32(0.5); NC * NC];
    let row = vec![F32(1.0); NC];
    let cfg: PreflopJamCfg<F32> = PreflopJamCfg::default();
    assert_eq!((cfg.iters, cfg.plk, cfg.nraises), (256, 1, 6));
    assert_eq!((cfg.lambda, cfg.opp_lambda), (F32(0.0), F32(0.0)));
    let r = solve_hu_preflop_jam(10, 10, 0, 400, &row, &row, &eq, &blk, &cfg, no_rake(), &build);
    assert!(r.is_none());
    let r = solve_hu_preflop_jam(10, 500, 0, 400, &row, &row, &eq, &blk, &cfg, no_rake(), &build);
    assert!(r.is_none());
    let other = |c: &TreeConfig<F64>| {
        let mut t = build(c)?;
        for n in t.nodes.iter_mut() {
            n.player_id = 1 - n.player_id;
        }
        Ok(t)
    };
    let r = solve_hu_preflop_jam(10, 30, 0, 400, &row, &row, &eq, &blk, &cfg, no_rake(), &other);
    assert!(r.is_none());
}

#[test]
fn choosing_among_continuations_needs_fixed_nodes() {
    let blk = blocking();
    let aa = cls(12, 0, 12, 1);
    let eq = equities_of(aa, 4, 3);
    let row = vec![F32(1.0); NC];
    let one = PreflopJamCfg { iters: 20, lambda: F32(0.5), opp_lambda: F32(0.5), plk: 1, nraises: 2 };
    let three = PreflopJamCfg { plk: 3, ..one };
    let a = solve_hu_preflop_jam(
        100, 200, 10, 400, &one_hot(aa), &row, &eq, &blk, &one, no_rake(), &build,
    )
    .unwrap();
    let b = solve_hu_preflop_jam(
        100, 200, 10, 400, &one_hot(aa), &row, &eq, &blk, &three, no_rake(), &build,
    )
    .unwrap();
    assert_eq!(a.root, b.root);
    assert_eq!(a.actions, b.actions);
    assert_eq!(a.strategy, b.strategy);
    for c in 0..NC {
        let total: f32 = a.strategy.iter().map(|r| r[c].0).sum();
        assert!((total - 1.0).abs() < 1e-4);
    }
}

#[test]
fn without_precision_the_game_is_played_by_regrets() {
    let blk = blocking();
    let aa = cls(12, 0, 12, 1);
    let eq = equities_of(aa, 20, 7);
    let row = vec![F32(1.0); NC];
    let plain = PreflopJamCfg { iters: 64, nraises: 2, ..PreflopJamCfg::default() };
    let solve = |cfg: &PreflopJamCfg<F32>| {
        solve_hu_preflop_jam(
            100, 240, 20, 400, &one_hot(aa), &row, &eq, &blk, cfg, no_rake(), &build,
        )
        .unwrap()
    };
    let res = solve(&plain);
    // Regrets send aces in; an even answer would fold one time in as many as there are moves.
    assert!(fold_prob(&res, aa) < 0.05, "{}", fold_prob(&res, aa));
    let quantal = solve(&PreflopJamCfg { lambda: F32(1e-10), opp_lambda: F32(1e-10), ..plain });
    let even = 1.0 / res.actions.len() as f32;
    assert!((fold_prob(&quantal, aa) - even).abs() < 1e-2, "{}", fold_prob(&quantal, aa));
}

#[test]
fn leaves_pay_folds_flops_and_showdowns() {
    let tree = build_jam_tree(100, 240, 20, 400, 1, Rake { rate: F64(0.1), cap: F64(30.0) }, &build)
        .unwrap();
    let eq = vec![F32(0.75); NC * NC];
    let blk = vec![F32(1.0); NC * NC];
    let mut opp = vec![F32(0.0); NC];
    opp[3] = F32(2.0);
    let reach = vec![vec![F32(1.0); NC], opp];
    let kids = tree.node_children(0);
    let (fold, call) = (kids[0] as usize, kids[1] as usize);
    let mut game = PreflopJamGame {
        reach: reach.clone(),
        equity: &eq,
        blocking: &blk,
        cont: None,
        stack: 400,
        rake_rate: F32(0.1),
        rake_cap: F32(30.0),
    };
    let lost = game.value_leaf(0, fold, &tree, &reach);
    assert_eq!(lost[7], F32(-(10.0 + 100.0) * 2.0));
    let won = game.value_leaf(1, fold, &tree, &reach);
    assert_eq!(won[0], F32((360.0 - 250.0) * 169.0));
    let called = game.value_leaf(0, call, &tree, &reach);
    assert!((called[9].0 - 2.0 * (0.75 * (500.0 - 30.0) - 250.0)).abs() < 1e-2);
    let flop = vec![SeamValue { commit: 240, pot: 500, values: vec![F32(11.0); NC * NC] }];
    game.cont = Some(&flop);
    assert_eq!(game.value_leaf(0, call, &tree, &reach)[9], F32(22.0));
    game.stack = 240;
    assert_eq!(game.value_leaf(0, call, &tree, &reach), called);
    game.stack = 400;
    let elsewhere = vec![SeamValue { commit: 241, pot: 500, values: vec![F32(11.0); NC * NC] }];
    game.cont = Some(&elsewhere);
    assert_eq!(game.value_leaf(0, call, &tree, &reach), called);
}

/// A small tree: two raises at most.
fn small_tree() -> FlatTree {
    build_jam_tree(1, 2, 0, 100, 1, no_rake(), &build).unwrap()
}

type Row = fn([u8; 3], &Vec<F32>) -> Vec<F32>;
type Table = PreflopChanceTable<
    Row,
    Row,
    fn(&Vec<Vec<F32>>) -> Vec<F32>,
    fn(&Vec<usize>, &Vec<Vec<F32>>) -> Vec<F32>,
>;

fn copy_row(_: [u8; 3], row: &Vec<F32>) -> Vec<F32> {
    row.clone()
}

/// Classes over the pairs of a flop, and back: every pair of a class has its entry.
fn to_pairs(_: [u8; 3], row: &Vec<F32>) -> Vec<F32> {
    (0..COMBOS_PER_FLOP).map(|i| row[i % NC]).collect()
}

fn from_pairs(_: [u8; 3], row: &Vec<F32>) -> Vec<F32> {
    row[..NC].to_vec()
}

fn mean(rows: &Vec<Vec<F32>>) -> Vec<F32> {
    (0..NC).map(|c| F32(rows.iter().map(|r| r[c].0).sum::<f32>() / rows.len() as f32)).collect()
}

fn mean_of_some(_: &Vec<usize>, rows: &Vec<Vec<F32>>) -> Vec<F32> {
    mean(rows)
}

fn table(expand: Row, reduce: Row) -> Table {
    PreflopChanceTable {
        canonical_flops: vec![[0, 4, 8], [1, 5, 9], [2, 6, 10]],
        expand,
        reduce,
        aggregate: mean,
        aggregate_subset: mean_of_some,
    }
}

fn fold_values(i: usize, t: u8, rows: &Vec<Vec<F32>>) -> Vec<F32> {
    let tree = small_tree();
    let folded = tree.folded_masks[i] >> t & 1 == 1;
    let x = if folded { -(tree.get_contribution(i, t) as f32) } else { tree.get_contribution(i, 1 - t) as f32 };
    let mass: f32 = rows[1 - t as usize].iter().map(|r| r.0).sum();
    vec![F32(x * mass / NC as f32); NC]
}

#[test]
fn strategies_start_uniform_and_follow_regrets() {
    let tree = small_tree();
    let mut m: PreflopVectorCfr<F32> = PreflopVectorCfr::new(&tree);
    assert_eq!(m.infoset_count(), tree.decision_node_ids.len());
    assert_eq!(m.iteration(), 0);
    let na = tree.nodes[0].num_children as usize;
    assert_eq!(m.strategy[0], F32(1.0 / na as f32));
    m.compute_preflop_strategy(&tree);
    assert_eq!(m.strategy[(na - 1) * NC + 5], F32(1.0 / na as f32));
    m.regrets[NC + 5] = F32(3.0);
    m.regrets[2 * NC + 5] = F32(1.0);
    m.regrets[5] = F32(-7.0);
    m.regrets[6] = F32(1e-6);
    m.compute_preflop_strategy(&tree);
    assert_eq!(m.strategy[5], F32(0.0));
    assert_eq!(m.strategy[NC + 5], F32(0.75));
    assert_eq!(m.strategy[2 * NC + 5], F32(0.25));
    assert_eq!(m.strategy[6], F32(1.0 / na as f32));
}

#[test]
fn reach_multiplies_the_players_own_choices() {
    let tree = small_tree();
    let mut m: PreflopVectorCfr<F32> = PreflopVectorCfr::new(&tree);
    m.regrets[NC + 5] = F32(3.0);
    m.regrets[2 * NC + 5] = F32(1.0);
    m.compute_preflop_strategy(&tree);
    let reach = m.compute_preflop_reach(&tree, None);
    assert_eq!(reach.len(), 2);
    let raised = tree.node_children(0)[2] as usize;
    assert_eq!(reach[0][raised * NC + 5], F32(0.25));
    assert_eq!(reach[1][raised * NC + 5], F32(1.0));
    let na = tree.nodes[raised].num_children as usize;
    let folded = tree.node_children(raised)[0] as usize;
    assert_eq!(reach[0][folded * NC + 5], F32(0.25));
    assert_eq!(reach[1][folded * NC + 5], F32(1.0 / na as f32));
    let half = vec![vec![F32(0.5); NC]; 2];
    let reach = m.compute_preflop_reach(&tree, Some(&half));
    assert_eq!(reach[0][raised * NC + 5], F32(0.125));
}

#[test]
fn chance_nodes_are_listed_in_order() {
    let tree = small_tree();
    let m: PreflopVectorCfr<F32> = PreflopVectorCfr::new(&tree);
    let list = m.preflop_chance_node_indices(&tree);
    let want: Vec<usize> = (0..tree.nodes.len()).filter(|&i| tree.nodes[i].is_chance()).collect();
    assert_eq!(list, want);
    assert!(list.len() >= 3);
}

#[test]
fn the_first_iteration_learns_plain_regrets() {
    let tree = small_tree();
    let mut m: PreflopVectorCfr<F32> = PreflopVectorCfr::new(&tree);
    let mut oracle =
        ClosureOracle::new(|_: [u8; 3], r: &Vec<Vec<F32>>, _: u8| vec![F32(0.5); r[0].len()]);
    m.run_one_iteration(&tree, &table(copy_row, copy_row), &mut oracle, &fold_values);
    assert_eq!(m.iteration(), 1);
    let na = tree.nodes[0].num_children as usize;
    let sum: f32 = (0..na).map(|a| m.regrets[a * NC + 9].0).sum();
    assert!(sum.abs() < 1e-4, "{sum}");
    let fold = m.regrets[9].0;
    let call = m.regrets[NC + 9].0;
    assert!((call - fold - 1.5).abs() < 1e-4, "{fold} {call}");
    assert_eq!(m.cum_strategy[9], F32(1.0 / na as f32));
    let before = m.regrets.clone();
    m.run_one_iteration(&tree, &table(copy_row, copy_row), &mut oracle, &fold_values);
    assert_ne!(m.regrets, before);
    assert_eq!(m.iteration(), 2);
}

#[test]
fn subsets_and_full_sets_agree_on_flat_flops() {
    let tree = small_tree();
    let mut oracle =
        ClosureOracle::new(|_: [u8; 3], r: &Vec<Vec<F32>>, _: u8| vec![F32(0.5); r[0].len()]);
    let t = table(copy_row, copy_row);
    let mut all: PreflopVectorCfr<F32> = PreflopVectorCfr::new(&tree);
    let mut some: PreflopVectorCfr<F32> = PreflopVectorCfr::new(&tree);
    for _ in 0..3 {
        all.run_one_iteration(&tree, &t, &mut oracle, &fold_values);
        some.run_one_iteration_subset(&tree, &t, &vec![2, 0], &mut oracle, &fold_values);
    }
    assert_eq!(all.regrets, some.regrets);
    assert_eq!(all.cum_strategy, some.cum_strategy);
}

#[test]
fn chance_values_weigh_the_flops() {
    let tree = small_tree();
    let m: PreflopVectorCfr<F32> = PreflopVectorCfr::new(&tree);
    let reach = m.compute_preflop_reach(&tree, None);
    let mut oracle = ClosureOracle::new(|f: [u8; 3], r: &Vec<Vec<F32>>, t: u8| {
        vec![F32(10.0 * f[0] as f32 + t as f32); r[0].len()]
    });
    let t = table(copy_row, copy_row);
    let i = m.preflop_chance_node_indices(&tree)[0];
    let v = m.compute_chance_node_cfv_with_expansion(i, 1, &reach, &t, &mut oracle);
    assert_eq!(v, vec![F32(11.0); NC]);
    let ix = vec![2usize];
    let v = m.compute_chance_node_cfv_with_expansion_subset(i, 0, &reach, &t, &ix, &mut oracle);
    assert_eq!(v, vec![F32(20.0); NC]);
    let cell = SeamCell::at_chance_node(&tree, i, 2);
    assert_eq!(cell, SeamCell { live: 2, commit: 2, pot: 4 });
    let v = m.compute_chance_node_cfv_with_expansion_for_cell(
        i, 0, &reach, &t, &mut oracle, cell, 0,
    );
    assert_eq!(v, vec![F32(10.0); NC]);
    let v = m.compute_chance_node_cfv_with_expansion_subset_for_cell(
        i, 0, &reach, &t, &ix, &mut oracle, cell, 0,
    );
    assert_eq!(v, vec![F32(20.0); NC]);
    let v = m.chance_cfv_for_traverser(&tree, i, 1, &reach, &t, &mut oracle, &fold_values);
    assert_eq!(v, vec![F32(11.0); NC]);
}

#[test]
fn a_folded_traverser_is_not_asked_about() {
    let mut tree = small_tree();
    let m: PreflopVectorCfr<F32> = PreflopVectorCfr::new(&tree);
    let reach = m.compute_preflop_reach(&tree, None);
    let i = m.preflop_chance_node_indices(&tree)[0];
    tree.folded_masks[i] = 1;
    let asked = Cell::new(0);
    let mut oracle = ClosureOracle::new(|_: [u8; 3], r: &Vec<Vec<F32>>, _: u8| {
        asked.set(asked.get() + 1);
        vec![F32(0.5); r[0].len()]
    });
    let flat = |_: usize, _: u8, _: &Vec<Vec<F32>>| vec![F32(-3.0); NC];
    let t = table(copy_row, copy_row);
    let v = m.chance_cfv_for_traverser(&tree, i, 0, &reach, &t, &mut oracle, &flat);
    assert_eq!(v, vec![F32(-3.0); NC]);
    assert_eq!(asked.get(), 0);
    m.chance_cfv_for_traverser(&tree, i, 1, &reach, &t, &mut oracle, &flat);
    assert_eq!(asked.get(), 3);
}

#[test]
fn shared_values_are_those_of_each_node() {
    let tree = small_tree();
    let t = table(to_pairs, from_pairs);
    let value = |cell: SeamCell, _: u16, f: [u8; 3], _: &Vec<Vec<F32>>, t: u8| {
        let (live, bin) = cell.bucket_key(100);
        vec![F32(live as f32 + bin as f32 / 7.0 + f[1] as f32 - t as f32); COMBOS_PER_FLOP]
    };
    let mut each: PreflopVectorCfr<F32> = PreflopVectorCfr::new(&tree);
    let mut shared: PreflopVectorCfr<F32> = PreflopVectorCfr::new(&tree);
    let mut o1 = BucketKeyedOracle::new(100, 2, 0, value);
    let mut o2 = BucketKeyedOracle::new(100, 2, 0, value);
    let key = |i: usize| PreflopVectorCfr::<F32>::seam_bucket_chance_key(&tree, 2, 100, i);
    for _ in 0..3 {
        each.run_one_iteration(&tree, &t, &mut o1, &fold_values);
        shared.run_one_iteration_shared_chance(&tree, &t, &mut o2, &fold_values, &key);
    }
    assert_eq!(each.regrets, shared.regrets);
    assert_eq!(each.cum_strategy, shared.cum_strategy);
    assert_eq!(o1.cache_len(), o2.cache_len());
}

#[test]
fn a_shared_key_is_asked_for_once() {
    let tree = small_tree();
    let t = table(copy_row, copy_row);
    let asked = Cell::new(0);
    let answer = |f: [u8; 3], r: &Vec<Vec<F32>>, t: u8| {
        asked.set(asked.get() + 1);
        vec![F32(f[0] as f32 - t as f32); r[0].len()]
    };
    let mut each: PreflopVectorCfr<F32> = PreflopVectorCfr::new(&tree);
    let nodes = each.preflop_chance_node_indices(&tree);
    each.run_one_iteration(&tree, &t, &mut ClosureOracle::new(answer), &fold_values);
    assert_eq!(asked.get(), 2 * 3 * nodes.len());
    for (keys, distinct) in [(1, 1), (2, 2)] {
        asked.set(0);
        let mut shared: PreflopVectorCfr<F32> = PreflopVectorCfr::new(&tree);
        let key = |i: usize| nodes.iter().position(|&n| n == i).unwrap() as u64 % keys;
        let mut oracle = ClosureOracle::new(answer);
        shared.run_one_iteration_shared_chance(&tree, &t, &mut oracle, &fold_values, &key);
        assert_eq!(asked.get(), 2 * 3 * distinct);
        assert_eq!(shared.regrets, each.regrets);
        assert_eq!(shared.cum_strategy, each.cum_strategy);
        assert_eq!(shared.strategy, each.strategy);
        assert_eq!(shared.iteration(), 1);
    }
}

#[test]
fn a_bucket_is_asked_once_until_the_refresh() {
    let asked = Cell::new(0);
    let mut o = BucketKeyedOracle::new(
        100,
        2,
        2,
        |_: SeamCell, _: u16, f: [u8; 3], r: &Vec<Vec<F32>>, _: u8| {
            asked.set(asked.get() + 1);
            vec![F32(f[0] as f32 + r[0][0].0); COMBOS_PER_FLOP]
        },
    );
    let ranges = vec![vec![F32(1.0); COMBOS_PER_FLOP]; 2];
    let other = vec![vec![F32(9.0); COMBOS_PER_FLOP]; 2];
    let cell = SeamCell { live: 2, commit: 50, pot: 100 };
    let like = SeamCell { live: 2, commit: 52, pot: 96 };
    assert_eq!(cell.bucket_key(100), like.bucket_key(100));
    o.begin_preflop_iter(0);
    let a = o.flop_root_cfv_for_cell([0, 4, 8], &ranges, 0, cell, 0);
    let b = o.flop_root_cfv_for_cell([0, 4, 8], &other, 0, like, 0);
    assert_eq!(a, b);
    assert_eq!((asked.get(), o.cache_len()), (1, 1));
    o.flop_root_cfv_for_cell([1, 4, 8], &ranges, 0, cell, 0);
    o.flop_root_cfv_for_cell([0, 4, 8], &ranges, 1, cell, 0);
    assert_eq!((asked.get(), o.cache_len()), (3, 3));
    o.end_preflop_iter(0);
    o.begin_preflop_iter(1);
    assert_eq!(o.cache_len(), 3);
    o.begin_preflop_iter(2);
    assert_eq!(o.cache_len(), 0);
    let c = o.flop_root_cfv_for_cell([0, 4, 8], &other, 0, cell, 0);
    assert_ne!(a, c);
}

#[test]
fn every_refresh_iteration_forgets_the_answers() {
    let mut o = BucketKeyedOracle::new(
        100,
        2,
        3,
        |_: SeamCell, _: u16, _: [u8; 3], _: &Vec<Vec<F32>>, _: u8| {
            vec![F32(1.0); COMBOS_PER_FLOP]
        },
    );
    let ranges = vec![vec![F32(1.0); COMBOS_PER_FLOP]; 2];
    let cell = SeamCell { live: 2, commit: 50, pot: 100 };
    for (iter, kept) in [(0, 0), (1, 1), (2, 1), (3, 0), (4, 1), (6, 0), (0, 0)] {
        o.flop_root_cfv_for_cell([0, 4, 8], &ranges, 0, cell, 0);
        assert_eq!(o.cache_len(), 1);
        o.begin_preflop_iter(iter);
        assert_eq!(o.cache_len(), kept, "iteration {iter}");
    }
}

#[test]
fn stack_to_pot_ratios_fall_into_quarter_doublings() {
    let key = |commit: i32, pot: i32| SeamCell { live: 3, commit, pot }.bucket_key(1000);
    assert_eq!(key(900, 100), (3, 0));
    assert_eq!(key(800, 100), (3, 4));
    assert_eq!(key(950, 100), (3, -4));
    assert_eq!(key(881, 100), (3, 1));
    assert_eq!(key(882, 100), (3, 0));
    assert_eq!(key(1000, 100), (3, i64::MIN));
    assert_eq!(key(1200, 100), (3, i64::MIN));
    assert_eq!(key(900, 0), (3, i64::MAX));
    assert_eq!(key(900, -5), (3, 0));
    assert_eq!(pack_bucket((3, 0)), 3 << 32);
    assert_eq!(pack_bucket((3, -1)), (3 << 32) + 0xFFFF_FFFF);
    assert_eq!(pack_bucket((2, i64::MIN)), (2 << 32) + 0x8000_0000);
    assert_eq!(pack_bucket((2, i64::MAX)), (2 << 32) + 0x7FFF_FFFF);
}

#[test]
fn best_answers_are_worth_no_less() {
    let tree = small_tree();
    let mut m: PreflopVectorCfr<F32> = PreflopVectorCfr::new(&tree);
    let mut oracle = ClosureOracle::new(|f: [u8; 3], r: &Vec<Vec<F32>>, t: u8| {
        r[1 - t as usize].iter().enumerate().map(|(c, x)| F32(x.0 * ((c % 5) as f32 - f[0] as f32))).collect()
    });
    let t = table(copy_row, copy_row);
    m.run_one_iteration(&tree, &t, &mut oracle, &fold_values);
    m.compute_preflop_strategy(&tree);
    let reach = m.compute_preflop_reach(&tree, None);
    let seams = m.preflop_chance_node_indices(&tree);
    for p in 0..2u8 {
        let mut cfv = vec![vec![F32(0.0); NC]; tree.nodes.len()];
        for &i in &seams {
            cfv[i] = m.compute_chance_node_cfv_with_expansion(i, p, &reach, &t, &mut oracle);
        }
        let best = m.compute_traverser_br_value(&tree, p, &seams, &reach, &cfv, &fold_values);
        let mut again = PreflopVectorCfr::new(&tree);
        again.strategy = m.strategy.clone();
        again.bottom_up_preflop_for_traverser(
            &tree, p, &seams, &reach, &fold_values, &mut cfv, &DcfrParams::vanilla(),
        );
        for c in 0..NC {
            assert!(best[c].0 >= cfv[0][c].0 - 1e-4);
        }
    }
}

#[test]
fn flops_are_solved_over_all_pairs_and_brought_back() {
    let tree = small_tree();
    let layout = |_: [u8; 3]| vec![(20u8, 12u8), (30, 31), (12, 16)];
    let solve = |_: [u8; 3], _: &FlatTree, full: &Vec<Vec<F32>>, t: u8, iters: Option<u32>| {
        let lay = vec![(12u8, 16u8), (20, 12), (30, 31)];
        let extra = iters.map(|n| n as f32).unwrap_or(-1.0);
        let v = lay
            .iter()
            .map(|&(a, b)| F32(full[t as usize][card_pair_to_index(a, b)].0 * 10.0 + extra))
            .collect();
        (v, lay)
    };
    let reaches = vec![vec![F32(1.0), F32(2.0), F32(3.0)], vec![F32(4.0), F32(5.0), F32(6.0)]];
    let played = make_per_flop_solver_converged(&tree, 7, layout, solve);
    assert_eq!(
        value_flop(&played, [0, 4, 8], 0, &reaches),
        vec![F32(17.0), F32(27.0), F32(37.0)]
    );
    let still = make_per_flop_solver_iter0(&tree, layout, solve);
    assert_eq!(
        value_flop(&still, [0, 4, 8], 1, &reaches),
        vec![F32(39.0), F32(49.0), F32(59.0)]
    );
    let mut oracle = UnabstractedPostflopOracle::new(&tree, 7, layout, solve);
    assert_eq!(
        oracle.flop_root_cfv([0, 4, 8], &reaches, 0),
        vec![F32(17.0), F32(27.0), F32(37.0)]
    );
    let cell = SeamCell { live: 2, commit: 5, pot: 10 };
    assert_eq!(
        oracle.flop_root_cfv_for_cell([0, 4, 8], &reaches, 0, cell, 0),
        vec![F32(17.0), F32(27.0), F32(37.0)]
    );
    let rows: Vec<Vec<F32>> = uniform_values(&played, [0, 4, 8], 2);
    assert_eq!(rows, vec![vec![F32(17.0); 3]; 2]);
}

#[test]
fn live_players_keep_their_order() {
    assert_eq!(live_seats(0b01010, 5), vec![0, 2, 4]);
    assert_eq!(live_position(0b01010, 4), 2);
    assert_eq!(live_position(0, 3), 3);
    let asked = Cell::new(0);
    let built = Cell::new(0);
    let mut source = bucketed_live_subset_source(
        50,
        2,
        1,
        30,
        |cell: SeamCell| {
            built.set(cell.commit);
            small_tree()
        },
        |_: &FlatTree, f: [u8; 3], live: u8, turns: &Vec<u8>, rivers: &Vec<Vec<u8>>| {
            asked.set(asked.get() + 1);
            assert_eq!(turns.len(), 2);
            assert_eq!(rivers[turns[0] as usize].len(), 1);
            let rows = (0..live)
                .map(|p| vec![F32(p as f32 * 100.0), F32(p as f32 * 100.0 + f[0] as f32)])
                .collect();
            (rows, vec![1, 0, 1])
        },
        |_: [u8; 3]| vec![(20, 21), (22, 23)],
        |_: [u8; 3], _: &FlatTree, full: &Vec<Vec<F32>>, t: u8, iters: Option<u32>| {
            assert_eq!((full.len(), full[0][5], iters), (2, F32(1.0), Some(30)));
            let base = t as f32 * 10.0;
            (vec![F32(base + 1.0), F32(base + 2.0)], vec![(23, 22), (20, 21)])
        },
    );
    let cell = SeamCell { live: 3, commit: 10, pot: 40 };
    assert_eq!(
        source.value(cell, 0b01010, [7, 11, 15], 5, 2),
        vec![F32(107.0), F32(100.0), F32(107.0)]
    );
    assert_eq!(
        source.value(cell, 0b01010, [7, 11, 15], 5, 4),
        vec![F32(207.0), F32(200.0), F32(207.0)]
    );
    assert_eq!((asked.get(), built.get()), (1, 10));
    let deeper = SeamCell { live: 3, commit: 80, pot: 40 };
    source.value(deeper, 0b01010, [7, 11, 15], 5, 0);
    assert_eq!((asked.get(), built.get()), (2, 50));
    // Two players are played exactly.
    let pair = SeamCell { live: 2, commit: 10, pot: 40 };
    assert_eq!(source.value(pair, 0b10110, [7, 11, 15], 5, 0), vec![F32(2.0), F32(1.0)]);
    assert_eq!(source.value(pair, 0b10110, [7, 11, 15], 5, 3), vec![F32(12.0), F32(11.0)]);
    assert_eq!(asked.get(), 2);
}

#[test]
fn runouts_are_spread_over_the_deck() {
    let (turns, rivers) = runout([0, 1, 2], 4, 2);
    assert_eq!(turns, vec![9, 21, 33, 45]);
    assert_eq!(rivers[9], vec![14, 34]);
    assert_eq!(rivers[21], vec![13, 34]);
    assert!(rivers[10].is_empty());
    let (turns, rivers) = runout([0, 1, 2], 3, 3);
    assert_eq!(turns, vec![15]);
    assert_eq!(rivers[15], vec![13]);
    let (turns, rivers) = runout([0, 1, 2], 2, 4);
    assert_eq!(turns, vec![15, 39]);
    assert_eq!(rivers[15], vec![11, 24, 36, 48]);
}

#[test]
fn rows_follow_a_permutation() {
    let rows = vec![vec![F32(1.0), F32(2.0), F32(3.0)], vec![F32(4.0), F32(5.0), F32(6.0)]];
    assert_eq!(
        in_layout_order(&rows, &vec![2, 0]),
        vec![vec![F32(3.0), F32(1.0)], vec![F32(6.0), F32(4.0)]]
    );
}

#[test]
fn folds_are_weighed_over_the_others() {
    let tree = small_tree();
    let rows = vec![vec![F32(1.0)], vec![F32(2.0)], vec![F32(4.0)]];
    assert_eq!(others(&rows, 1), vec![vec![F32(1.0)], vec![F32(4.0)]]);
    let delta = |_: &FlatTree, i: usize, t: u8| F32(i as f32 + t as f32 / 10.0);
    let two = vec![vec![F32(3.0)], vec![F32(5.0)]];
    let blk = vec![F32(0.5)];
    let hu = make_production_terminal_value_fn_hu(&tree, &blk, delta, |o: &Vec<F32>, b: &Vec<F32>, d: F32| {
        vec![F32(o[0].0 * b[0].0 * d.0)]
    });
    assert_eq!(hu.value(4, 0, &two), vec![F32(5.0 * 0.5 * 4.0)]);
    assert_eq!(hu.value(4, 1, &two), vec![F32(3.0 * 0.5 * 4.1)]);
    let many = make_production_terminal_value_fn_multiway(&tree, delta, |o: &Vec<Vec<F32>>, d: F32| {
        vec![F32(o.len() as f32), d, o[0][0]]
    });
    assert_eq!(multiway_value(&many, 2, 0, &two), vec![F32(1.0), F32(2.0), F32(5.0)]);
    let pairwise = make_bootstrap_terminal_value_fn_multiway_pairwise(
        &tree,
        vec![F32(0.25)],
        delta,
        |o: &Vec<Vec<F32>>, d: F32, b: &Vec<F32>| vec![o[0][0], d, b[0]],
    );
    assert_eq!(pairwise.value(2, 1, &two), vec![F32(3.0), F32(2.1), F32(0.25)]);
}

