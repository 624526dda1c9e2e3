use solver_core::bank::{normalize_cum_into_strategy, regret_matching_into};
use solver_core::best_response::{exploitability, StrategyProfile};
use solver_core::card::{card_pair_to_index, NUM_POSSIBLE_HANDS};
use solver_core::deck::{cards_of_hands, conflict_matrix, strength_order};
use solver_core::flop_start_game::{FlopChanceTable, FlopStartGame, RankTables};
use solver_core::game::GameSpec;
use solver_core::learn::DcfrParams;
use solver_core::mccfr::CpuMccfr;
use solver_core::poker_game::RiverPokerGame;
use solver_core::scalar::{Scalar, Widen};
use solver_core::terminal::TerminalSpot;
use solver_core::tree::{
    FlatNode, FlatTree, ACTION_LABEL_ALLIN, ACTION_LABEL_BET, ACTION_LABEL_CALL,
    ACTION_LABEL_CHECK, ACTION_LABEL_FOLD, NODE_TYPE_CHANCE, NODE_TYPE_PLAYER, NODE_TYPE_TERMINAL,
};

#[derive(Clone, Copy, Debug, PartialEq)]
struct F64(f64);

#[derive(Clone, Copy, Debug, PartialEq)]
struct F32(f32);

impl Scalar for F64 {
    fn zero() -> F64 {
        F64(0.0)
    }
    fn one() -> F64 {
        F64(1.0)
    }
    fn of_usize(n: usize) -> F64 {
        F64(n as f64)
    }
    fn of_i32(n: i32) -> F64 {
        F64(n as f64)
    }
    fn of_i64(n: i64) -> F64 {
        F64(n as f64)
    }
    fn plus(self, rhs: F64) -> F64 {
        F64(self.0 + rhs.0)
    }
    fn minus(self, rhs: F64) -> F64 {
        F64(self.0 - rhs.0)
    }
    fn times(self, rhs: F64) -> F64 {
        F64(self.0 * rhs.0)
    }
    fn over(self, rhs: F64) -> F64 {
        F64(self.0 / rhs.0)
    }
    fn below(self, rhs: F64) -> bool {
        self.0 < rhs.0
    }
    fn at_most(self, rhs: F64) -> bool {
        self.0 <= rhs.0
    }
    fn same(self, rhs: F64) -> bool {
        self.0 == rhs.0
    }
    fn larger(self, rhs: F64) -> F64 {
        F64(self.0.max(rhs.0))
    }
    fn root(self) -> F64 {
        F64(self.0.sqrt())
    }
    fn power(self, rhs: F64) -> F64 {
        F64(self.0.powf(rhs.0))
    }
    fn exp(self) -> F64 {
        F64(self.0.exp())
    }
    fn lowest() -> F64 {
        F64(f64::NEG_INFINITY)
    }
    fn highest() -> F64 {
        F64(f64::INFINITY)
    }
    fn ten_to(n: u32) -> F64 {
        F64(format!("1e{n}").parse().unwrap())
    }
    fn of_bits(bits: u64) -> F64 {
        F64(f64::from_bits(bits))
    }
}

impl Scalar for F32 {
    fn zero() -> F32 {
        F32(0.0)
    }
    fn one() -> F32 {
        F32(1.0)
    }
    fn of_usize(n: usize) -> F32 {
        F32(n as f32)
    }
    fn of_i32(n: i32) -> F32 {
        F32(n as f32)
    }
    fn of_i64(n: i64) -> F32 {
        F32(n as f32)
    }
    fn plus(self, rhs: F32) -> F32 {
        F32(self.0 + rhs.0)
    }
    fn minus(self, rhs: F32) -> F32 {
        F32(self.0 - rhs.0)
    }
    fn times(self, rhs: F32) -> F32 {
        F32(self.0 * rhs.0)
    }
    fn over(self, rhs: F32) -> F32 {
        F32(self.0 / rhs.0)
    }
    fn below(self, rhs: F32) -> bool {
        self.0 < rhs.0
    }
    fn at_most(self, rhs: F32) -> bool {
        self.0 <= rhs.0
    }
    fn same(self, rhs: F32) -> bool {
        self.0 == rhs.0
    }
    fn larger(self, rhs: F32) -> F32 {
        F32(self.0.max(rhs.0))
    }
    fn root(self) -> F32 {
        F32(self.0.sqrt())
    }
    fn power(self, rhs: F32) -> F32 {
        F32(self.0.powf(rhs.0))
    }
    fn exp(self) -> F32 {
        F32(self.0.exp())
    }
    fn lowest() -> F32 {
        F32(f32::NEG_INFINITY)
    }
    fn highest() -> F32 {
        F32(f32::INFINITY)
    }
    fn ten_to(n: u32) -> F32 {
        F32(format!("1e{n}").parse().unwrap())
    }
    fn of_bits(bits: u64) -> F32 {
        F32(f64::from_bits(bits) as f32)
    }
}

impl Widen for F32 {
    type Wide = F64;
    fn widen(self) -> F64 {
        F64(self.0 as f64)
    }
    fn narrow(w: F64) -> F32 {
        F32(w.0 as f32)
    }
}

/// A heads-up betting tree from the flop on, grown node by node.
struct Grower {
    nodes: Vec<FlatNode>,
    kids: Vec<Vec<u32>>,
    contributions: Vec<i32>,
    folded: Vec<u16>,
    bets: Vec<f64>,
    pot: i32,
    stack: i32,
}

#[derive(Clone, Copy)]
struct Spot {
    put: [i32; 2],
    street: u8,
    actor: u8,
    acted: u8,
}

impl Grower {
    fn node(&mut self, parent: Option<u32>, node_type: u8, spot: Spot, label: u8, folded: u16) -> u32 {
        let id = self.nodes.len() as u32;
        let level = parent.map(|p| self.nodes[p as usize].level + 1).unwrap_or(0);
        self.nodes.push(FlatNode {
            node_type,
            player_id: spot.actor,
            action_label: label,
            board_state: spot.street,
            num_children: 0,
            amount: 0,
            level,
            first_child: 0,
        });
        self.kids.push(Vec::new());
        self.contributions.extend_from_slice(&spot.put);
        self.folded.push(folded);
        if let Some(p) = parent {
            self.kids[p as usize].push(id);
        }
        id
    }

    fn decision(&mut self, parent: Option<u32>, spot: Spot, label: u8) {
        let me = self.node(parent, NODE_TYPE_PLAYER, spot, label, 0);
        let a = spot.actor as usize;
        let o = 1 - a;
        if spot.put[o] > spot.put[a] {
            self.node(Some(me), NODE_TYPE_TERMINAL, spot, ACTION_LABEL_FOLD, 1 << a);
            let mut called = spot;
            called.put[a] = spot.put[o];
            self.street_end(me, called, ACTION_LABEL_CALL);
            return;
        }
        let mut passed = spot;
        passed.actor = o as u8;
        passed.acted = spot.acted + 1;
        if passed.acted == 2 {
            self.street_end(me, passed, ACTION_LABEL_CHECK);
        } else {
            self.decision(Some(me), passed, ACTION_LABEL_CHECK);
        }
        let pot = self.pot + spot.put[0] + spot.put[1];
        for f in self.bets.clone() {
            let mut bet = spot;
            let size = (pot as f64 * f) as i32;
            let room = self.stack - spot.put[a];
            let label = if size >= room { ACTION_LABEL_ALLIN } else { ACTION_LABEL_BET };
            bet.put[a] += size.min(room);
            bet.actor = o as u8;
            bet.acted = spot.acted + 1;
            self.decision(Some(me), bet, label);
        }
    }

    fn street_end(&mut self, parent: u32, spot: Spot, label: u8) {
        let all_in = spot.put[0] == self.stack;
        if spot.street == 2 || all_in {
            self.node(Some(parent), NODE_TYPE_TERMINAL, spot, label, 0);
            return;
        }
        let mut next = spot;
        next.street += 1;
        next.actor = 0;
        next.acted = 0;
        let deal = self.node(Some(parent), NODE_TYPE_CHANCE, next, label, 0);
        self.decision(Some(deal), next, label);
    }
}

fn grow(bets: Vec<f64>, stack: i32) -> FlatTree {
    let mut g = Grower {
        nodes: Vec::new(),
        kids: Vec::new(),
        contributions: Vec::new(),
        folded: Vec::new(),
        bets,
        pot: 30,
        stack,
    };
    g.decision(None, Spot { put: [5, 5], street: 0, actor: 0, acted: 0 }, 0);
    finish(g.nodes, g.kids, g.contributions, g.folded)
}

fn finish(
    mut nodes: Vec<FlatNode>,
    kids: Vec<Vec<u32>>,
    contributions: Vec<i32>,
    folded_masks: Vec<u16>,
) -> FlatTree {
    let mut child_ids = Vec::new();
    let max_depth = nodes.iter().map(|n| n.level).max().unwrap();
    let mut levels = vec![Vec::new(); max_depth as usize + 1];
    let mut decision_node_ids = Vec::new();
    let mut infoset_offsets = vec![u32::MAX; nodes.len()];
    for i in 0..nodes.len() {
        nodes[i].first_child = child_ids.len() as u32;
        nodes[i].num_children = kids[i].len() as u8;
        child_ids.extend_from_slice(&kids[i]);
        levels[nodes[i].level as usize].push(i as u32);
        if nodes[i].is_player() {
            infoset_offsets[i] = decision_node_ids.len() as u32;
            decision_node_ids.push(i as u32);
        }
    }
    let num_infosets = decision_node_ids.len() as u32;
    let tree = FlatTree {
        nodes,
        child_ids,
        levels,
        num_players: 2,
        contributions,
        folded_masks,
        decision_node_ids,
        infoset_offsets,
        num_infosets,
        max_depth,
        starting_pot: 30,
        rake_rate: 0,
        rake_cap: 0,
    };
    assert!(tree.is_tree());
    tree
}

const HANDS: [(u8, u8); 6] = [(0, 1), (0, 5), (4, 5), (8, 9), (12, 13), (16, 17)];
const TURNS: [u8; 2] = [20, 24];

fn toy_rivers(t: u8) -> Vec<u8> {
    if t == 20 {
        vec![28, 32]
    } else {
        vec![28, 36, 40]
    }
}

/// Strength of hand `h` once `t` and `r` are dealt; the runout reorders the hands.
fn toy_rank(h: usize, t: u8, r: u8) -> u16 {
    10 + ((h * 5 + t as usize * (h + 1) + r as usize * (h + 2)) % 7) as u16
}

/// A flop with six hands, two turns and a few rivers.
fn toy_table() -> FlopChanceTable<F32> {
    let nh = HANDS.len();
    let hands: Vec<u16> =
        HANDS.iter().map(|&(a, b)| card_pair_to_index(a, b) as u16).collect();
    let mut turn = RankTables::blank(nh, 1, 52);
    let mut river = RankTables::blank(nh, 1, 2704);
    let mut river_decks = vec![Vec::new(); 52];
    for t in TURNS {
        let goal: Vec<u16> = (0..nh).map(|h| toy_rank(h, t, 0)).collect();
        turn.place(&goal, 1, t as usize, 52);
        for r in toy_rivers(t) {
            let goal: Vec<u16> = (0..nh).map(|h| toy_rank(h, t, r)).collect();
            river.place(&goal, 1, t as usize * 52 + r as usize, 2704);
        }
        river_decks[t as usize] = toy_rivers(t);
    }
    let conflict = conflict_matrix(&hands);
    let pairs = conflict.iter().filter(|&&c| c == 0).count();
    FlopChanceTable {
        hand_ranks_base: (0..nh).map(|h| toy_rank(h, 0, 0)).collect(),
        hand_cards: cards_of_hands(&hands),
        valid_hand_indices: hands,
        num_valid: nh,
        conflict,
        remaining_deck: TURNS.to_vec(),
        turn_ranks: turn.ranks,
        turn_sorted_str: turn.strength,
        turn_sorted_idx: turn.index,
        river_ranks: river.ranks,
        river_sorted_str: river.strength,
        river_sorted_idx: river.index,
        initial_weights: vec![vec![F32(1.0); nh]; 2],
        num_players: 2,
        num_combinations: F64(pairs as f64),
        river_decks,
    }
}

fn share_a_card(h: usize, o: usize) -> bool {
    let (a, b) = HANDS[h];
    let (c, d) = HANDS[o];
    a == c || a == d || b == c || b == d
}

/// Values a terminal of two players: the pot, less what the traverser has put in, half
/// of the dead chips included.
fn payoff(spot: &TerminalSpot<F32>) -> Vec<F32> {
    let nh = spot.opp_reach[0].len();
    let t = spot.traverser as usize;
    let pot = (spot.starting_pot + spot.contributions[0] + spot.contributions[1]) as f32;
    let put_in = spot.starting_pot as f32 / 2.0 + spot.contributions[t] as f32;
    let mut rank = vec![0u16; nh];
    for k in 0..nh {
        rank[spot.index[k] as usize] = spot.strength[k];
    }
    (0..nh)
        .map(|h| {
            let mut v = 0.0f32;
            for o in 0..nh {
                if share_a_card(h, o) {
                    continue;
                }
                let won = if spot.fold_mask >> t & 1 == 1 {
                    0.0
                } else if spot.fold_mask != 0 {
                    pot
                } else if rank[h] > rank[o] {
                    pot
                } else if rank[h] == rank[o] {
                    pot / 2.0
                } else {
                    0.0
                };
                v += spot.opp_reach[0][o].0 * (won - put_in);
            }
            F32(v)
        })
        .collect()
}

/// A tree of one street.
fn river_tree(bets: Vec<f64>, stack: i32) -> FlatTree {
    let mut g = Grower {
        nodes: Vec::new(),
        kids: Vec::new(),
        contributions: Vec::new(),
        folded: Vec::new(),
        bets,
        pot: 30,
        stack,
    };
    g.decision(None, Spot { put: [5, 5], street: 2, actor: 0, acted: 0 }, 0);
    finish(g.nodes, g.kids, g.contributions, g.folded)
}

type River = RiverPokerGame<F32, fn(&TerminalSpot<F32>) -> Vec<F32>>;

/// Six hands on a full board.
fn river_game() -> River {
    let nh = HANDS.len();
    let hands: Vec<u16> =
        HANDS.iter().map(|&(a, b)| card_pair_to_index(a, b) as u16).collect();
    let goal: Vec<u16> = (0..nh).map(|h| toy_rank(h, 20, 28)).collect();
    let mut hand_ranks = vec![0u16; NUM_POSSIBLE_HANDS];
    for h in 0..nh {
        hand_ranks[hands[h] as usize] = goal[h];
    }
    let (strength, index) = strength_order(&goal);
    let conflict = conflict_matrix(&hands);
    let pairs = conflict.iter().filter(|&&c| c == 0).count();
    RiverPokerGame {
        hand_ranks,
        hand_cards: cards_of_hands(&hands),
        valid_hand_indices: hands,
        num_valid: nh,
        conflict,
        initial_weights: vec![vec![F32(1.0); nh]; 2],
        num_players: 2,
        sorted_opp_strength: strength.clone(),
        sorted_opp_indices: index.clone(),
        sorted_pl_strength: strength,
        sorted_pl_indices: index,
        num_combinations: F64(pairs as f64),
        showdown: payoff,
    }
}

fn exploit(tree: &FlatTree, m: &CpuMccfr<F32>) -> f32 {
    let profile = StrategyProfile::from_usize_offsets(m.cum_strategy_slice(), m.node_offsets(), 6);
    exploitability(tree, &mut river_game(), &profile).0
}

#[test]
fn regret_matching_converges_on_the_river() {
    let tree = river_tree(vec![0.5, 1.0], 80);
    let mut game = river_game();
    let mut m: CpuMccfr<F32> = CpuMccfr::new(&tree, vec![6, 6]);
    let e0 = exploit(&tree, &m);
    m.run(&tree, &mut game, 20);
    let e1 = exploit(&tree, &m);
    m.run(&tree, &mut game, 500);
    let e2 = exploit(&tree, &m);
    assert!(e0 > e1 && e1 > e2 && e2 > -1e-3, "{e0} {e1} {e2}");
    assert!(e2 < e0 / 20.0, "{e0} {e2}");
    assert_eq!(m.iteration_count(), 520);
}

#[test]
fn discounts_count_on_the_snapshot_only() {
    let tree = river_tree(vec![0.5, 1.0], 80);
    let mut plain: CpuMccfr<F32> = CpuMccfr::new(&tree, vec![6, 6]);
    let mut kept: CpuMccfr<F32> = CpuMccfr::new(&tree, vec![6, 6]);
    kept.set_dcfr(F32(1.5), F32(0.5), F32(2.0));
    plain.run(&tree, &mut river_game(), 5);
    kept.run(&tree, &mut river_game(), 5);
    assert!(plain.regrets_slice() == kept.regrets_slice());
    plain.enable_parallel();
    kept.enable_parallel();
    plain.run(&tree, &mut river_game(), 300);
    kept.run(&tree, &mut river_game(), 300);
    assert!(plain.regrets_slice() != kept.regrets_slice());
    let e0 = exploit(&tree, &CpuMccfr::new(&tree, vec![6, 6]));
    let e = exploit(&tree, &kept);
    assert!(e < e0 / 10.0, "{e0} {e}");
}

#[test]
fn a_snapshot_walk_converges_too() {
    let tree = river_tree(vec![0.5, 1.0], 80);
    let mut m: CpuMccfr<F32> = CpuMccfr::new(&tree, vec![6, 6]);
    m.enable_parallel();
    let e0 = exploit(&tree, &m);
    m.run(&tree, &mut river_game(), 300);
    let e1 = exploit(&tree, &m);
    assert!(e1 < e0 / 10.0, "{e0} {e1}");
    let mut again: CpuMccfr<F32> = CpuMccfr::new(&tree, vec![6, 6]);
    again.enable_parallel();
    again.run(&tree, &mut river_game(), 300);
    assert_eq!(m.regrets_slice(), again.regrets_slice());
}

#[test]
fn deals_are_walked_one_by_one_or_on_threads() {
    let tree = grow(vec![0.5], 60);
    let mut game = FlopStartGame::new(toy_table(), payoff);
    let mut one: CpuMccfr<F32> = CpuMccfr::new(&tree, vec![6, 6]);
    let v1 = one.run(&tree, &mut game, 150);
    let mut many: CpuMccfr<F32> = CpuMccfr::new(&tree, vec![6, 6]);
    many.enable_parallel();
    let v2 = many.run(&tree, &mut game, 150);
    assert_eq!(v1.len(), 6);
    let (a, b): (f32, f32) = (v1.iter().map(|x| x.0).sum(), v2.iter().map(|x| x.0).sum());
    assert!((a - b).abs() < 3.0, "{a} {b}");
    assert!(many.cum_strategy_slice().iter().any(|x| x.0 > 0.0));
}

#[test]
fn a_fixed_node_stays_as_it_was_set() {
    let tree = river_tree(vec![0.5], 80);
    let mut m: CpuMccfr<F32> = CpuMccfr::new(&tree, vec![6, 6]);
    let na = tree.nodes[0].num_children as usize;
    let mut always_first = vec![F32(0.0); na * 6];
    for h in 0..6 {
        always_first[h] = F32(1.0);
    }
    m.freeze_node(0, &always_first);
    m.run(&tree, &mut river_game(), 40);
    let rows = m.get_current_strategy(0, na, 6);
    assert_eq!(rows[0], vec![F32(1.0); 6]);
    assert_eq!(rows[1], vec![F32(0.0); 6]);
    assert!(m.get_regrets(0, na, 6).iter().flatten().all(|r| *r == F32(0.0)));
    assert_eq!(m.get_cum_strategy(0, na, 6)[0], vec![F32(1.0); 6]);
}

#[test]
fn a_limit_at_the_root_hands_out_the_continuation() {
    let tree = river_tree(vec![0.5], 80);
    let mut game = river_game();
    let mut m: CpuMccfr<F32> = CpuMccfr::new(&tree, vec![6, 6]);
    m.set_depth_limit(&[0]);
    let v = m.run(&tree, &mut game, 3);
    let reach = vec![vec![F32(1.0); 6]; 2];
    let want = game.evaluate_continuation(0, 0, &tree, &reach);
    for h in 0..6 {
        assert!((v[h].0 - want[h].0).abs() < 1e-5, "{:?} {:?}", v, want);
    }
    assert!(m.regrets_slice().iter().all(|r| *r == F32(0.0)));
}

#[test]
fn sharper_answers_play_the_best_action_more() {
    let tree = river_tree(vec![0.5], 80);
    let mut dull: CpuMccfr<F32> = CpuMccfr::new(&tree, vec![6, 6]);
    dull.set_lambda(vec![F32(0.01), F32(0.01)]);
    dull.run(&tree, &mut river_game(), 50);
    let mut sharp: CpuMccfr<F32> = CpuMccfr::new(&tree, vec![6, 6]);
    sharp.set_lambda(vec![F32(5.0), F32(5.0)]);
    sharp.run(&tree, &mut river_game(), 50);
    let na = tree.nodes[0].num_children as usize;
    let spread = |m: &CpuMccfr<F32>| {
        let rows = m.get_average_strategy(0, na, 6);
        let mut most = 0.0f32;
        for h in 0..6 {
            for a in 0..na {
                most = most.max((rows[a][h].0 - 1.0 / na as f32).abs());
            }
        }
        most
    };
    assert!(spread(&dull) < 0.1, "{}", spread(&dull));
    assert!(spread(&sharp) > spread(&dull));
}

#[test]
fn seeded_strategies_are_averaged() {
    let tree = river_tree(vec![0.5], 80);
    let mut m: CpuMccfr<F32> = CpuMccfr::new(&tree, vec![6, 6]);
    let na = tree.nodes[0].num_children as usize;
    assert_eq!(m.get_average_strategy(0, na, 6), vec![vec![F32(1.0 / na as f32); 6]; na]);
    let mut first = vec![F32(0.0); na * 6];
    for h in 0..6 {
        first[h] = F32(1.0);
    }
    m.seed_cum(0, &first, F32(3.0));
    let mut last = vec![F32(0.0); na * 6];
    for h in 0..6 {
        last[(na - 1) * 6 + h] = F32(1.0);
    }
    m.seed_cum(0, &last, F32(1.0));
    let rows = m.get_average_strategy(0, na, 6);
    assert_eq!(rows[0], vec![F32(0.75); 6]);
    assert_eq!(rows[na - 1], vec![F32(0.25); 6]);
}

#[test]
fn players_choose_among_continuations_at_the_first_fixed_node() {
    let tree = grow(vec![0.5], 60);
    let mut m: CpuMccfr<F32> = CpuMccfr::new(&tree, vec![6, 6]);
    let mut fixed = Vec::new();
    for (i, n) in tree.nodes.iter().enumerate() {
        if n.is_player() && n.board_state > 0 {
            let na = n.num_children as usize;
            m.freeze_node(i, &vec![F32(1.0 / na as f32); na * 6]);
            fixed.push(i);
        }
    }
    m.setup_pluribus_continuations(&tree, 3, F32(5.0));
    assert_eq!(m.num_variants, 3);
    assert_eq!(m.frozen_variants.len(), 3);
    assert!(m.boundary.iter().any(|b| *b));
    for (i, b) in m.boundary.iter().enumerate() {
        assert!(!b || fixed.contains(&i));
    }
    assert_ne!(m.frozen_variants[1], m.frozen_variants[0]);
    let mut game = FlopStartGame::new(toy_table(), payoff);
    m.run(&tree, &mut game, 10);
    assert!(m.sel_cum.iter().any(|x| x.0 > 0.0));
    let na = tree.nodes[0].num_children as usize;
    assert!(m.get_regrets(0, na, 6).iter().flatten().any(|r| *r != F32(0.0)));
}

#[test]
fn discount_factors_of_an_iteration() {
    let p: DcfrParams<F32> = DcfrParams::new(0);
    assert_eq!((p.alpha_t(), p.beta_t(), p.gamma_t()), (F32(0.0), F32(0.5), F32(0.0)));
    let p: DcfrParams<F32> = DcfrParams::new(5);
    assert_eq!(p.alpha_t(), F32((8.0f64 / 9.0) as f32));
    assert_eq!(p.beta_t(), F32(0.5));
    assert_eq!(p.gamma_t(), F32(0.125));
    let p: DcfrParams<F32> = DcfrParams::new(4);
    assert_eq!(p.gamma_t(), F32(0.0));
    let p: DcfrParams<F32> = DcfrParams::vanilla();
    assert_eq!((p.alpha_t(), p.beta_t(), p.gamma_t()), (F32(1.0), F32(1.0), F32(1.0)));
    let p = DcfrParams::of_factors(F32(0.1), F32(0.2), F32(0.3));
    assert_eq!((p.alpha_t(), p.beta_t(), p.gamma_t()), (F32(0.1), F32(0.2), F32(0.3)));
}

#[test]
fn matching_leaves_tiny_regrets_out() {
    let regrets = [F32(3.0), F32(1e-6), F32(-1.0), F32(1.0), F32(-2.0), F32(-1.0)];
    let mut strategy = vec![F32(9.0); 8];
    regret_matching_into(&regrets, 2, 3, &mut strategy, 1);
    assert_eq!(strategy[0], F32(9.0));
    assert_eq!(strategy[7], F32(9.0));
    assert_eq!((strategy[1], strategy[4]), (F32(0.75), F32(0.25)));
    assert_eq!((strategy[2], strategy[5]), (F32(0.5), F32(0.5)));
    assert_eq!((strategy[3], strategy[6]), (F32(0.5), F32(0.5)));
    let cum = [F32(1.0), F32(0.0), F32(3.0), F32(0.0)];
    let mut strategy = vec![F32(0.0); 4];
    normalize_cum_into_strategy(&cum, 2, 2, &mut strategy, 0);
    assert_eq!(strategy, vec![F32(0.25), F32(0.5), F32(0.75), F32(0.5)]);
}

