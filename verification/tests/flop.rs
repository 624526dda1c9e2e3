use solver_core::best_response::StrategyProfile;
use solver_core::bucket_lift::lift_cum_to_exact;
use solver_core::bucketed_flop_cfr::BucketedFlopCfr;
use solver_core::bucketed_showdown::WtlMatrices;
use solver_core::buckets::{FlopBucketing, WtlSpot};
use solver_core::card::card_pair_to_index;
use solver_core::cross_tree::build_action_map;
use solver_core::deck::{cards_of_hands, conflict_matrix};
use solver_core::flop_start_game::{FlopChanceTable, FlopStartGame, RankTables};
use solver_core::flop_run::Play;
use solver_core::flop_start_vector_cfr::{FlopStartVectorCfr, Setting};
use solver_core::game::GameSpec;
use solver_core::lift::{
    lift_into_rich_solver, lift_into_rich_solver_pseudo_harmonic, lift_into_rich_solver_with_lean,
};
use solver_core::pseudo_harmonic::{
    action_pot_fraction, build_pseudo_harmonic_map, pot_at_node, pseudo_harmonic_weight,
    try_build_pseudo_harmonic_map,
};
use solver_core::river_files::next_pair;
use solver_core::scalar::{Scalar, Widen};
use solver_core::terminal::TerminalSpot;
use solver_core::tree::{
    FlatNode, FlatTree, ACTION_LABEL_ALLIN, ACTION_LABEL_BET, ACTION_LABEL_CALL,
    ACTION_LABEL_CHECK, ACTION_LABEL_FOLD, MAX_NA_POSTFLOP, NODE_TYPE_CHANCE, NODE_TYPE_PLAYER,
    NODE_TYPE_TERMINAL,
};
use solver_core::zones::Zone;

#[derive(Clone, Copy, Debug, PartialEq)]
struct F64(f64);

#[derive(Clone, Copy, Debug, PartialEq)]
struct F32(f32);

impl Scalar for F64 {
    fn zero() -> F64 {
        F64(0.0)
    }
    fn one() -> F64 {
        F64(1.0)
    }
    fn of_usize(n: usize) -> F64 {
        F64(n as f64)
    }
    fn of_i32(n: i32) -> F64 {
        F64(n as f64)
    }
    fn of_i64(n: i64) -> F64 {
        F64(n as f64)
    }
    fn plus(self, rhs: F64) -> F64 {
        F64(self.0 + rhs.0)
    }
    fn minus(self, rhs: F64) -> F64 {
        F64(self.0 - rhs.0)
    }
    fn times(self, rhs: F64) -> F64 {
        F64(self.0 * rhs.0)
    }
    fn over(self, rhs: F64) -> F64 {
        F64(self.0 / rhs.0)
    }
    fn below(self, rhs: F64) -> bool {
        self.0 < rhs.0
    }
    fn at_most(self, rhs: F64) -> bool {
        self.0 <= rhs.0
    }
    fn same(self, rhs: F64) -> bool {
        self.0 == rhs.0
    }
    fn larger(self, rhs: F64) -> F64 {
        F64(self.0.max(rhs.0))
    }
    fn root(self) -> F64 {
        F64(self.0.sqrt())
    }
    fn power(self, rhs: F64) -> F64 {
        F64(self.0.powf(rhs.0))
    }
    fn exp(self) -> F64 {
        F64(self.0.exp())
    }
    fn lowest() -> F64 {
        F64(f64::NEG_INFINITY)
    }
    fn highest() -> F64 {
        F64(f64::INFINITY)
    }
    fn ten_to(n: u32) -> F64 {
        F64(format!("1e{n}").parse().unwrap())
    }
    fn of_bits(bits: u64) -> F64 {
        F64(f64::from_bits(bits))
    }
}

impl Scalar for F32 {
    fn zero() -> F32 {
        F32(0.0)
    }
    fn one() -> F32 {
        F32(1.0)
    }
    fn of_usize(n: usize) -> F32 {
        F32(n as f32)
    }
    fn of_i32(n: i32) -> F32 {
        F32(n as f32)
    }
    fn of_i64(n: i64) -> F32 {
        F32(n as f32)
    }
    fn plus(self, rhs: F32) -> F32 {
        F32(self.0 + rhs.0)
    }
    fn minus(self, rhs: F32) -> F32 {
        F32(self.0 - rhs.0)
    }
    fn times(self, rhs: F32) -> F32 {
        F32(self.0 * rhs.0)
    }
    fn over(self, rhs: F32) -> F32 {
        F32(self.0 / rhs.0)
    }
    fn below(self, rhs: F32) -> bool {
        self.0 < rhs.0
    }
    fn at_most(self, rhs: F32) -> bool {
        self.0 <= rhs.0
    }
    fn same(self, rhs: F32) -> bool {
        self.0 == rhs.0
    }
    fn larger(self, rhs: F32) -> F32 {
        F32(self.0.max(rhs.0))
    }
    fn root(self) -> F32 {
        F32(self.0.sqrt())
    }
    fn power(self, rhs: F32) -> F32 {
        F32(self.0.powf(rhs.0))
    }
    fn exp(self) -> F32 {
        F32(self.0.exp())
    }
    fn lowest() -> F32 {
        F32(f32::NEG_INFINITY)
    }
    fn highest() -> F32 {
        F32(f32::INFINITY)
    }
    fn ten_to(n: u32) -> F32 {
        F32(format!("1e{n}").parse().unwrap())
    }
    fn of_bits(bits: u64) -> F32 {
        F32(f64::from_bits(bits) as f32)
    }
}

impl Widen for F32 {
    type Wide = F64;
    fn widen(self) -> F64 {
        F64(self.0 as f64)
    }
    fn narrow(w: F64) -> F32 {
        F32(w.0 as f32)
    }
}

/// A heads-up betting tree from the flop on, grown node by node.
struct Grower {
    nodes: Vec<FlatNode>,
    kids: Vec<Vec<u32>>,
    contributions: Vec<i32>,
    folded: Vec<u16>,
    bets: Vec<f64>,
    pot: i32,
    stack: i32,
}

#[derive(Clone, Copy)]
struct Spot {
    put: [i32; 2],
    street: u8,
    actor: u8,
    acted: u8,
}

impl Grower {
    fn node(&mut self, parent: Option<u32>, node_type: u8, spot: Spot, label: u8, folded: u16) -> u32 {
        let id = self.nodes.len() as u32;
        let level = parent.map(|p| self.nodes[p as usize].level + 1).unwrap_or(0);
        self.nodes.push(FlatNode {
            node_type,
            player_id: spot.actor,
            action_label: label,
            board_state: spot.street,
            num_children: 0,
            amount: 0,
            level,
            first_child: 0,
        });
        self.kids.push(Vec::new());
        self.contributions.extend_from_slice(&spot.put);
        self.folded.push(folded);
        if let Some(p) = parent {
            self.kids[p as usize].push(id);
        }
        id
    }

    fn decision(&mut self, parent: Option<u32>, spot: Spot, label: u8) {
        let me = self.node(parent, NODE_TYPE_PLAYER, spot, label, 0);
        let a = spot.actor as usize;
        let o = 1 - a;
        if spot.put[o] > spot.put[a] {
            self.node(Some(me), NODE_TYPE_TERMINAL, spot, ACTION_LABEL_FOLD, 1 << a);
            let mut called = spot;
            called.put[a] = spot.put[o];
            self.street_end(me, called, ACTION_LABEL_CALL);
            return;
        }
        let mut passed = spot;
        passed.actor = o as u8;
        passed.acted = spot.acted + 1;
        if passed.acted == 2 {
            self.street_end(me, passed, ACTION_LABEL_CHECK);
        } else {
            self.decision(Some(me), passed, ACTION_LABEL_CHECK);
        }
        let pot = self.pot + spot.put[0] + spot.put[1];
        for f in self.bets.clone() {
            let mut bet = spot;
            let size = (pot as f64 * f) as i32;
            let room = self.stack - spot.put[a];
            let label = if size >= room { ACTION_LABEL_ALLIN } else { ACTION_LABEL_BET };
            bet.put[a] += size.min(room);
            bet.actor = o as u8;
            bet.acted = spot.acted + 1;
            self.decision(Some(me), bet, label);
        }
    }

    fn street_end(&mut self, parent: u32, spot: Spot, label: u8) {
        let all_in = spot.put[0] == self.stack;
        if spot.street == 2 || all_in {
            self.node(Some(parent), NODE_TYPE_TERMINAL, spot, label, 0);
            return;
        }
        let mut next = spot;
        next.street += 1;
        next.actor = 0;
        next.acted = 0;
        let deal = self.node(Some(parent), NODE_TYPE_CHANCE, next, label, 0);
        self.decision(Some(deal), next, label);
    }
}

fn grow(bets: Vec<f64>, stack: i32) -> FlatTree {
    let mut g = Grower {
        nodes: Vec::new(),
        kids: Vec::new(),
        contributions: Vec::new(),
        folded: Vec::new(),
        bets,
        pot: 30,
        stack,
    };
    g.decision(None, Spot { put: [5, 5], street: 0, actor: 0, acted: 0 }, 0);
    finish(g.nodes, g.kids, g.contributions, g.folded)
}

fn finish(
    mut nodes: Vec<FlatNode>,
    kids: Vec<Vec<u32>>,
    contributions: Vec<i32>,
    folded_masks: Vec<u16>,
) -> FlatTree {
    let mut child_ids = Vec::new();
    let max_depth = nodes.iter().map(|n| n.level).max().unwrap();
    let mut levels = vec![Vec::new(); max_depth as usize + 1];
    let mut decision_node_ids = Vec::new();
    let mut infoset_offsets = vec![u32::MAX; nodes.len()];
    for i in 0..nodes.len() {
        nodes[i].first_child = child_ids.len() as u32;
        nodes[i].num_children = kids[i].len() as u8;
        child_ids.extend_from_slice(&kids[i]);
        levels[nodes[i].level as usize].push(i as u32);
        if nodes[i].is_player() {
            infoset_offsets[i] = decision_node_ids.len() as u32;
            decision_node_ids.push(i as u32);
        }
    }
    let num_infosets = decision_node_ids.len() as u32;
    let tree = FlatTree {
        nodes,
        child_ids,
        levels,
        num_players: 2,
        contributions,
        folded_masks,
        decision_node_ids,
        infoset_offsets,
        num_infosets,
        max_depth,
        starting_pot: 30,
        rake_rate: 0,
        rake_cap: 0,
    };
    assert!(tree.is_tree());
    tree
}

const HANDS: [(u8, u8); 6] = [(0, 1), (0, 5), (4, 5), (8, 9), (12, 13), (16, 17)];
const TURNS: [u8; 2] = [20, 24];

fn toy_rivers(t: u8) -> Vec<u8> {
    if t == 20 {
        vec![28, 32]
    } else {
        vec![28, 36, 40]
    }
}

/// Strength of hand `h` once `t` and `r` are dealt; the runout reorders the hands.
fn toy_rank(h: usize, t: u8, r: u8) -> u16 {
    10 + ((h * 5 + t as usize * (h + 1) + r as usize * (h + 2)) % 7) as u16
}

/// A flop with six hands, two turns and a few rivers.
fn toy_table() -> FlopChanceTable<F32> {
    table_for(2)
}

/// The same for any number of players.
fn table_for(np: u8) -> FlopChanceTable<F32> {
    let others = np as usize - 1;
    let nh = HANDS.len();
    let hands: Vec<u16> =
        HANDS.iter().map(|&(a, b)| card_pair_to_index(a, b) as u16).collect();
    let mut turn = RankTables::blank(nh, others, 52);
    let mut river = RankTables::blank(nh, others, 2704);
    let mut river_decks = vec![Vec::new(); 52];
    for t in TURNS {
        let goal: Vec<u16> = (0..nh).map(|h| toy_rank(h, t, 0)).collect();
        turn.place(&goal, others, t as usize, 52);
        for r in toy_rivers(t) {
            let goal: Vec<u16> = (0..nh).map(|h| toy_rank(h, t, r)).collect();
            river.place(&goal, others, t as usize * 52 + r as usize, 2704);
        }
        river_decks[t as usize] = toy_rivers(t);
    }
    let conflict = conflict_matrix(&hands);
    let pairs = conflict.iter().filter(|&&c| c == 0).count();
    FlopChanceTable {
        hand_ranks_base: (0..nh).map(|h| toy_rank(h, 0, 0)).collect(),
        hand_cards: cards_of_hands(&hands),
        valid_hand_indices: hands,
        num_valid: nh,
        conflict,
        remaining_deck: TURNS.to_vec(),
        turn_ranks: turn.ranks,
        turn_sorted_str: turn.strength,
        turn_sorted_idx: turn.index,
        river_ranks: river.ranks,
        river_sorted_str: river.strength,
        river_sorted_idx: river.index,
        initial_weights: vec![vec![F32(1.0); nh]; np as usize],
        num_players: np,
        num_combinations: F64(pairs as f64),
        river_decks,
    }
}

fn share_a_card(h: usize, o: usize) -> bool {
    let (a, b) = HANDS[h];
    let (c, d) = HANDS[o];
    a == c || a == d || b == c || b == d
}

/// Values a terminal of two players: the pot, less what the traverser has put in, half
/// of the dead chips included.
fn payoff(spot: &TerminalSpot<F32>) -> Vec<F32> {
    let nh = spot.opp_reach[0].len();
    let t = spot.traverser as usize;
    let pot = (spot.starting_pot + spot.contributions[0] + spot.contributions[1]) as f32;
    let put_in = spot.starting_pot as f32 / 2.0 + spot.contributions[t] as f32;
    let mut rank = vec![0u16; nh];
    for k in 0..nh {
        rank[spot.index[k] as usize] = spot.strength[k];
    }
    (0..nh)
        .map(|h| {
            let mut v = 0.0f32;
            for o in 0..nh {
                if share_a_card(h, o) {
                    continue;
                }
                let won = if spot.fold_mask >> t & 1 == 1 {
                    0.0
                } else if spot.fold_mask != 0 {
                    pot
                } else if rank[h] > rank[o] {
                    pot
                } else if rank[h] == rank[o] {
                    pot / 2.0
                } else {
                    0.0
                };
                v += spot.opp_reach[0][o].0 * (won - put_in);
            }
            F32(v)
        })
        .collect()
}

/// The same tree with a third player who has folded before the flop.
fn with_a_folded_player(mut tree: FlatTree) -> FlatTree {
    tree.contributions = tree.contributions.chunks(2).flat_map(|c| [c[0], c[1], 0]).collect();
    for mask in tree.folded_masks.iter_mut() {
        *mask |= 0b100;
    }
    tree.num_players = 3;
    assert!(tree.is_tree());
    tree
}

/// Values a terminal of two players and one who has folded: each deal counts that gives no
/// card twice.
fn payoff_of_three(spot: &TerminalSpot<F32>) -> Vec<F32> {
    let nh = spot.opp_reach[0].len();
    let t = spot.traverser as usize;
    let pot = (spot.starting_pot + spot.contributions.iter().sum::<i32>()) as f32;
    let put_in = spot.starting_pot as f32 / 3.0 + spot.contributions[t] as f32;
    let mut rank = vec![0u16; nh];
    for k in 0..nh {
        rank[spot.index[k] as usize] = spot.strength[k];
    }
    (0..nh)
        .map(|h| {
            let mut v = 0.0f32;
            for o in 0..nh {
                if share_a_card(h, o) {
                    continue;
                }
                let won = if spot.fold_mask >> t & 1 == 1 {
                    0.0
                } else if spot.fold_mask != 0b100 || rank[h] > rank[o] {
                    pot
                } else if rank[h] == rank[o] {
                    pot / 2.0
                } else {
                    0.0
                };
                let other: f32 = (0..nh)
                    .filter(|&x| !share_a_card(h, x) && !share_a_card(o, x))
                    .map(|x| spot.opp_reach[1][x].0)
                    .sum();
                v += spot.opp_reach[0][o].0 * other * (won - put_in);
            }
            F32(v)
        })
        .collect()
}

fn solved(tree: &FlatTree, table: &FlopChanceTable<F32>, n: u32) -> FlopStartVectorCfr<F32> {
    let mut solver = FlopStartVectorCfr::new(tree, table);
    solver.run(tree, table, &payoff, n);
    solver
}

fn weighed(values: &[F32]) -> f32 {
    values.iter().map(|v| v.0).sum()
}

#[test]
fn zones_follow_the_streets() {
    let tree = grow(vec![0.5], 60);
    let table = toy_table();
    let solver = FlopStartVectorCfr::new(&tree, &table);
    let of = |street: u8| {
        tree.nodes.iter().filter(|n| n.is_player() && n.board_state == street).count()
    };
    assert_eq!(solver.flop_infosets(), of(0));
    assert_eq!(solver.turn_infosets(), of(1));
    assert_eq!(solver.river_infosets(), of(2));
    assert_eq!(solver.preflop_infoset_count(), 0);
    assert_eq!(solver.n_turn_outcomes(), 2);
    assert_eq!(solver.max_n_river(), 3);
    assert_eq!(solver.num_hands(), 6);
    assert_eq!(solver.iteration_count(), 0);
    assert_eq!(solver.flop_stride(), of(0) * MAX_NA_POSTFLOP * 6);
    assert!(solver.regrets_flop().iter().all(|r| *r == F32(0.0)));
    for (i, n) in tree.nodes.iter().enumerate() {
        assert_eq!(solver.flop_local_offset_at(i).is_some(), n.is_player() && n.board_state == 0);
        assert_eq!(solver.river_local_offset_at(i).is_some(), n.is_player() && n.board_state == 2);
    }
    assert_eq!(solver.zones()[0], Zone::Flop);
    let (f, t, r) = solver.zone_nodes_per_level();
    let listed = |lists: &Vec<Vec<u32>>| lists.iter().map(|l| l.len()).sum::<usize>();
    assert_eq!(listed(&f) + listed(&t) + listed(&r), tree.nodes.len());
}

#[test]
fn play_becomes_harder_to_exploit() {
    let tree = grow(vec![0.5], 60);
    let table = toy_table();
    let fresh = FlopStartVectorCfr::new(&tree, &table);
    let some = solved(&tree, &table, 20);
    let many = solved(&tree, &table, 300);
    let mut game = FlopStartGame::new(toy_table(), payoff);
    let e0 = fresh.compute_exploitability(&tree, &mut game).0;
    let e1 = some.compute_exploitability(&tree, &mut game).0;
    let e2 = many.compute_exploitability(&tree, &mut game).0;
    assert!(e0 > e1 && e1 > e2 && e2 > -1e-3, "{e0} {e1} {e2}");
    assert!(e2 < e0 / 20.0, "{e0} {e2}");
    assert_eq!(many.iteration_count(), 300);
}

#[test]
fn what_one_player_wins_the_other_loses() {
    let tree = grow(vec![0.5], 60);
    let table = toy_table();
    let solver = solved(&tree, &table, 30);
    let mut game = FlopStartGame::new(toy_table(), payoff);
    let v0 = weighed(&solver.strategy_value(&tree, &mut game, 0));
    let v1 = weighed(&solver.strategy_value(&tree, &mut game, 1));
    assert!((v0 + v1).abs() < 1e-3, "{v0} {v1}");
    let b0 = weighed(&solver.best_response_value(&tree, &mut game, 0));
    let b1 = weighed(&solver.best_response_value(&tree, &mut game, 1));
    assert!(b0 >= v0 - 1e-4 && b1 >= v1 - 1e-4);
    assert_eq!(
        solver.best_response_value(&tree, &mut game, 0),
        solver.best_response_value_debug(&tree, &mut game, 0)
    );
    assert_eq!(
        solver.strategy_value(&tree, &mut game, 1),
        solver.strategy_value_debug(&tree, &mut game, 1)
    );
}

#[test]
fn all_root_values_start_with_the_first_players() {
    let tree = grow(vec![0.5], 60);
    let table = toy_table();
    let mut a = FlopStartVectorCfr::new(&tree, &table);
    let mut b = FlopStartVectorCfr::new(&tree, &table);
    let root = a.run(&tree, &table, &payoff, 7);
    let roots = b.run_all_root_cfv(&tree, &table, &payoff, 7);
    assert_eq!(roots.len(), 2);
    assert_eq!(root, roots[0]);
    assert_eq!(a.regrets_river(), b.regrets_river());
    assert_eq!(a.cum_strategy_flop(), b.cum_strategy_flop());
}

#[test]
fn iterations_can_be_split() {
    let tree = grow(vec![0.5], 60);
    let table = toy_table();
    let once = solved(&tree, &table, 9);
    let mut twice = solved(&tree, &table, 4);
    twice.run(&tree, &table, &payoff, 5);
    assert_eq!(once.regrets_flop(), twice.regrets_flop());
    assert_eq!(once.regrets_turn(), twice.regrets_turn());
    assert_eq!(once.cum_strategy_river(), twice.cum_strategy_river());
}

#[test]
fn averages_of_an_unplayed_node_are_uniform() {
    let tree = grow(vec![0.5], 60);
    let table = toy_table();
    let solver = FlopStartVectorCfr::new(&tree, &table);
    let na = tree.nodes[0].num_children as usize;
    let dist = solver.avg_action_dist(&tree, 0, na, None, None, 2);
    assert_eq!(dist, vec![F32(1.0 / na as f32); na]);
}

#[test]
fn a_frozen_solver_plays_its_average() {
    let tree = grow(vec![0.5], 60);
    let table = toy_table();
    let mut solver = solved(&tree, &table, 25);
    solver.freeze_average_strategy(&tree);
    let na = tree.nodes[0].num_children as usize;
    for h in 0..6 {
        let dist = solver.avg_action_dist(&tree, 0, na, None, None, h);
        let total: f32 = dist.iter().map(|x| x.0).sum();
        assert!((total - 1.0).abs() < 1e-5);
        for a in 0..na {
            let played = solver.strategy_flop()[a * 6 + h];
            assert!((played.0 - dist[a].0).abs() < 1e-6);
        }
    }
}

#[test]
fn river_buffers_can_be_kept_in_files() {
    let tree = grow(vec![0.5], 60);
    let table = toy_table();
    let whole = solved(&tree, &table, 3);
    let (mut paged, regrets, cum) =
        solved(&tree, &table, 3).into_disk_backed("regrets.bin".to_string(), "cum.bin".to_string());
    assert_eq!(regrets, whole.regrets_river());
    assert_eq!(cum, whole.cum_strategy_river());
    assert_eq!(regrets.len(), whole.river_persistent_len());
    assert!(!paged.river_mode().in_memory());
    assert!(whole.river_mode().in_memory());
    let stride = paged.river_stride();
    let off = paged.river_pair_byte_offset(1, 2) as usize;
    assert_eq!(off, (3 + 2) * stride * 4);
    let at = off / 4;
    paged.load_river_pair(1, 2, regrets[at..at + stride].to_vec(), cum[at..at + stride].to_vec());
    let (r, c) = paged.save_river_pair(1, 2).unwrap();
    assert_eq!(r[..], regrets[at..at + stride]);
    assert_eq!(c[..], cum[at..at + stride]);
    assert!(whole.save_river_pair(0, 0).is_none());
}

#[test]
fn searching_the_flop_leaves_later_streets_alone() {
    let tree = grow(vec![0.5], 60);
    let table = toy_table();
    let mut plain = solved(&tree, &table, 20);
    let turn = plain.regrets_turn().to_vec();
    let river = plain.regrets_river().to_vec();
    let flop = plain.regrets_flop().to_vec();
    plain.run_flop_search(&tree, &table, &payoff, 5);
    assert_eq!(plain.regrets_turn(), turn);
    assert_eq!(plain.regrets_river(), river);
    assert_ne!(plain.regrets_flop(), flop);

    let mut robust = solved(&tree, &table, 20);
    robust.run_flop_search_robust(&tree, &table, &payoff, 5, F32(0.3));
    assert_eq!(robust.regrets_turn(), turn);
    assert_eq!(robust.regrets_river(), river);
    assert_ne!(robust.regrets_flop(), flop);

    let mut choosing = solved(&tree, &table, 20);
    let variants = vec![(0usize, F32(0.0)), (1, F32(0.3)), (2, F32(0.3))];
    choosing.run_flop_search_two_sided(&tree, &table, &payoff, 5, &variants);
    assert_eq!(choosing.regrets_turn(), turn);
    assert_eq!(choosing.regrets_river(), river);
    assert_ne!(choosing.regrets_flop(), flop);
}

#[test]
fn a_choice_of_one_variant_is_the_plain_search() {
    let tree = grow(vec![0.5], 60);
    let table = toy_table();
    let mut plain = solved(&tree, &table, 20);
    plain.run_flop_search(&tree, &table, &payoff, 5);
    let mut choosing = solved(&tree, &table, 20);
    choosing.run_flop_search_two_sided(&tree, &table, &payoff, 5, &vec![(0usize, F32(0.0))]);
    assert_eq!(choosing.regrets_flop(), plain.regrets_flop());
    assert_eq!(choosing.cum_strategy_flop(), plain.cum_strategy_flop());
    assert_eq!(choosing.iteration_count(), plain.iteration_count());
}

#[test]
fn lifting_between_equal_trees_copies() {
    let tree = grow(vec![0.5], 60);
    let table = toy_table();
    let lean = solved(&tree, &table, 10);
    let map = build_action_map(&tree, &tree);

    let mut rich = FlopStartVectorCfr::new(&tree, &table);
    lift_into_rich_solver(&tree, &map, &lean, &mut rich);
    assert_eq!(rich.cum_strategy_flop(), lean.cum_strategy_flop());
    assert_eq!(rich.cum_strategy_turn(), lean.cum_strategy_turn());
    assert_eq!(rich.cum_strategy_river(), lean.cum_strategy_river());

    let mut rich = FlopStartVectorCfr::new(&tree, &table);
    lift_into_rich_solver_with_lean(&tree, &tree, &map, &lean, &mut rich);
    assert_eq!(rich.cum_strategy_flop(), lean.cum_strategy_flop());
    assert_eq!(rich.cum_strategy_turn(), lean.cum_strategy_turn());
    assert_eq!(rich.cum_strategy_river(), lean.cum_strategy_river());

    let ph = build_pseudo_harmonic_map::<F32>(&tree, &tree);
    assert_eq!(ph.total_entries(), tree.nodes.len());
    assert_eq!(ph.max_entries_per_node(), 1);
    let mut rich = FlopStartVectorCfr::new(&tree, &table);
    lift_into_rich_solver_pseudo_harmonic(&tree, &tree, &ph, &lean, &mut rich);
    assert_eq!(rich.cum_strategy_flop(), lean.cum_strategy_flop());
    assert_eq!(rich.cum_strategy_river(), lean.cum_strategy_river());
}

#[test]
fn a_size_between_two_is_read_as_both() {
    let half = pseudo_harmonic_weight(F64(0.5), F64(0.5), F64(1.0));
    assert_eq!(half, F64(1.0));
    let full = pseudo_harmonic_weight(F64(0.5), F64(1.0), F64(1.0));
    assert_eq!(full, F64(0.0));
    let mid = pseudo_harmonic_weight(F64(0.5), F64(0.75), F64(1.0));
    assert!((mid.0 - 0.25 * 1.5 / (0.5 * 1.75)).abs() < 1e-12);

    let rich = grow(vec![0.5, 0.75, 1.0], 200);
    let lean = grow(vec![0.5, 1.0], 200);
    let map = try_build_pseudo_harmonic_map::<F32>(&rich, &lean).unwrap();
    let kids = rich.node_children(0);
    let exact = kids[1] as usize;
    let between = kids[2] as usize;
    assert_eq!(map.rich_to_lean_nodes[exact].len(), 1);
    let both = &map.rich_to_lean_nodes[between];
    assert_eq!(both.len(), 2);
    assert!((both[0].1 .0 + both[1].1 .0 - 1.0).abs() < 1e-6);
    assert!(map.max_entries_per_node() >= 2);
    assert!(map.paired_player_count(&rich) > 0);
}

#[test]
fn pot_fractions_count_the_chips_put_in() {
    let tree = grow(vec![0.5], 200);
    assert_eq!(pot_at_node(&tree, 0), 10);
    let bet = tree.node_children(0)[1] as usize;
    let x: F64 = action_pot_fraction(&tree, 0, bet, 0);
    assert_eq!(x, F64(20.0 / 10.0));
}

#[test]
fn flattened_averages_keep_the_flop() {
    let tree = grow(vec![0.5], 60);
    let table = toy_table();
    let solver = solved(&tree, &table, 10);
    let (cum, offsets) = solver.flattened_cum_strategy(&tree);
    let at = offsets[0];
    let na = tree.nodes[0].num_children as usize;
    assert_eq!(cum[at..at + na * 6], solver.cum_strategy_flop()[..na * 6]);
    for (i, n) in tree.nodes.iter().enumerate() {
        assert_eq!(offsets[i] != usize::MAX, n.is_player());
    }
    let profile = StrategyProfile::from_usize_offsets(&cum, &offsets, 6);
    assert_eq!(profile.nh, 6);
}

/// Win, tie and loss mass of bucket pairs.
fn masses(spot: &WtlSpot<F64>) -> WtlMatrices<F64> {
    let nb = spot.nb;
    let mut m = WtlMatrices {
        nb,
        w: vec![F64(0.0); nb * nb],
        t: vec![F64(0.0); nb * nb],
        l: vec![F64(0.0); nb * nb],
    };
    let nh = spot.strength.len();
    for h in 0..nh {
        for o in 0..nh {
            let c = &spot.hand_cards;
            if c[2 * h] == c[2 * o]
                || c[2 * h] == c[2 * o + 1]
                || c[2 * h + 1] == c[2 * o]
                || c[2 * h + 1] == c[2 * o + 1]
            {
                continue;
            }
            if spot.map[h] as usize >= nb || spot.map[o] as usize >= nb {
                continue;
            }
            let at = spot.map[h] as usize * nb + spot.map[o] as usize;
            let x = spot.weights[h].0 * spot.weights[o].0;
            if spot.strength[h] > spot.strength[o] {
                m.w[at].0 += x;
            } else if spot.strength[h] == spot.strength[o] {
                m.t[at].0 += x;
            } else {
                m.l[at].0 += x;
            }
        }
    }
    m
}

#[test]
fn buckets_of_one_hand_play_like_hands() {
    let tree = with_a_folded_player(grow(vec![0.5], 60));
    let table = table_for(3);
    let bk = FlopBucketing::identity(&table, &masses);
    let mut bucketed = BucketedFlopCfr::new(&tree, &table, &bk);
    let by_bucket = bucketed.run(&tree, &table, &bk, 12);
    let mut exact = FlopStartVectorCfr::new(&tree, &table);
    let by_hand = exact.run(&tree, &table, &payoff_of_three, 12);
    for h in 0..6 {
        assert!((by_bucket[h].0 - by_hand[h].0).abs() < 1e-2, "{:?} {:?}", by_bucket, by_hand);
    }
    let mut lifted = FlopStartVectorCfr::new(&tree, &table);
    lift_cum_to_exact(&tree, &table, &bucketed, &bk, &mut lifted);
    for (a, b) in lifted.cum_strategy_flop().iter().zip(exact.cum_strategy_flop()) {
        assert!((a.0 - b.0).abs() < 1e-2);
    }
    assert_eq!(bucketed.iteration_count(), 12);
    assert_eq!(bucketed.num_hands(), 6);
}

#[test]
fn pooled_hands_share_a_strategy() {
    let tree = with_a_folded_player(grow(vec![0.5], 60));
    let table = table_for(3);
    let map: Vec<u16> = vec![0, 0, 0, 1, 1, 1];
    let turn_map = vec![map.clone(); 2];
    let river_map = vec![vec![map.clone(); 2], vec![map.clone(); 3]];
    let bk = FlopBucketing::from_maps(&table, 2, 2, 2, map, turn_map, river_map, &masses);
    let mut bucketed = BucketedFlopCfr::new(&tree, &table, &bk);
    bucketed.run(&tree, &table, &bk, 8);
    let mut lifted = FlopStartVectorCfr::new(&tree, &table);
    lift_cum_to_exact(&tree, &table, &bucketed, &bk, &mut lifted);
    let cum = lifted.cum_strategy_flop();
    let na = tree.nodes[0].num_children as usize;
    for a in 0..na {
        assert_eq!(cum[a * 6], cum[a * 6 + 1]);
        assert_eq!(cum[a * 6 + 3], cum[a * 6 + 5]);
    }
}

#[test]
fn deals_of_the_flop_game_can_be_taken_back() {
    let mut game = FlopStartGame::new(toy_table(), payoff);
    let tree = grow(vec![0.5], 60);
    let reach = vec![vec![F32(1.0); 6]; 2];
    let leaf = (0..tree.nodes.len())
        .find(|&i| tree.nodes[i].is_terminal() && tree.folded_masks[i] == 0)
        .unwrap();
    game.set_turn_card(20);
    game.set_river_card(28);
    let dealt = game.evaluate_terminal(0, leaf, &tree, &reach);
    game.clear_chance();
    game.set_turn_card(24);
    game.set_river_card(40);
    let other = game.evaluate_terminal(0, leaf, &tree, &reach);
    assert_ne!(dealt, other);
    game.clear_chance();
    game.set_turn_card(20);
    game.set_river_card(28);
    assert_eq!(game.evaluate_terminal(0, leaf, &tree, &reach), dealt);
    assert_eq!(game.num_hands(0), 6);
    assert_eq!(game.initial_weight(1), vec![F32(1.0); 6]);
}

#[test]
fn chances_of_turn_and_river_leave_out_blocked_hands() {
    let table = toy_table();
    assert_eq!(table.turn_outcomes(), &[20, 24]);
    assert_eq!(table.river_outcomes(24), &[28, 36, 40]);
    let x = table.chance_probability_turn(0, 0);
    let y = table.chance_probability_turn(1, 5);
    assert!(x.0 > 0.0 && y.0 > 0.0);
    for h in 0..6 {
        let total: f32 = (0..2).map(|tc| table.chance_probability_turn(tc, h).0).sum();
        assert!((total - 1.0).abs() < 1e-6, "{h} {total}");
    }
    let prob = table.compute_turn_chance_prob();
    assert_eq!(prob.len(), 2 * 6);
    assert_eq!(table.initial_weight_flat(), vec![F32(1.0); 12]);
}

/// Runs CFR with the river's buffers kept outside of the solver, one pair of cards at a
/// time inside.
fn solved_by_pairs(
    tree: &FlatTree,
    table: &FlopChanceTable<F32>,
    n: u32,
) -> (FlopStartVectorCfr<F32>, Vec<F32>, Vec<F32>, Vec<F32>) {
    let full = FlopStartVectorCfr::new(tree, table);
    let (mut solver, mut regrets, mut cum) =
        full.into_disk_backed("regrets".to_string(), "cum".to_string());
    let len = solver.river_stride();
    let mut sum = vec![0.0f32; HANDS.len()];
    for it in 0..n {
        let params = solver.due();
        solver.set_iteration(it + 1);
        for traverser in 0..tree.num_players {
            let at = Setting { tree, table, showdown: &payoff, traverser, params };
            let reach = solver.begin_flop(tree, table);
            let mut turns = solver.value_buffer(tree);
            for tc in 0..solver.n_turn_outcomes() {
                let (turn_reach, mut rivers) = solver.begin_turn(tree, &Play::Regrets, tc, &reach);
                let mut cfv = solver.value_buffer(tree);
                for rc in 0..toy_rivers(TURNS[tc]).len() {
                    let from = solver.river_pair_byte_offset(tc, rc) as usize / 4;
                    solver.load_river_pair(
                        tc,
                        rc,
                        regrets[from..from + len].to_vec(),
                        cum[from..from + len].to_vec(),
                    );
                    solver.play_river(
                        &at, &Play::Regrets, tc, rc, &turn_reach, &mut cfv, &mut rivers,
                    );
                    let (r, c) = solver.save_river_pair(tc, rc).unwrap();
                    regrets[from..from + len].copy_from_slice(&r);
                    cum[from..from + len].copy_from_slice(&c);
                }
                solver.end_turn(&at, tc, &turn_reach, &rivers, &mut turns);
            }
            let root = solver.end_flop(&at, &reach, turns);
            if traverser == 0 {
                for (s, v) in sum.iter_mut().zip(root) {
                    *s += v.0;
                }
            }
        }
    }
    (solver, regrets, cum, sum.into_iter().map(|s| F32(s / n as f32)).collect())
}

#[test]
fn rivers_kept_outside_play_the_same() {
    let tree = grow(vec![0.5], 60);
    let table = toy_table();
    let mut inside = FlopStartVectorCfr::new(&tree, &table);
    let root = inside.run(&tree, &table, &payoff, 6);
    let (outside, regrets, cum, root2) = solved_by_pairs(&tree, &table, 6);
    assert_eq!(root, root2);
    assert_eq!(inside.regrets_flop(), outside.regrets_flop());
    assert_eq!(inside.cum_strategy_turn(), outside.cum_strategy_turn());
    assert_eq!(inside.regrets_river(), &regrets[..]);
    assert_eq!(inside.cum_strategy_river(), &cum[..]);
    assert_eq!(inside.iteration_count(), outside.iteration_count());
    assert_eq!(regrets.len(), inside.river_persistent_len());
}

#[test]
fn every_pair_is_played_once_and_in_order() {
    let counts = [2usize, 0, 3, 0];
    let mut pairs = Vec::new();
    let mut last = None;
    while let Some(pair) = next_pair(counts.len(), &counts, last) {
        pairs.push(pair);
        last = Some(pair);
    }
    assert_eq!(pairs, vec![(0, 0), (0, 1), (2, 0), (2, 1), (2, 2)]);
    assert_eq!(next_pair(0, &[], None), None);
    assert_eq!(next_pair(2, &[0, 0], None), None);
}

#[test]
fn a_saved_pair_outlasts_others() {
    let tree = grow(vec![0.5], 60);
    let table = toy_table();
    let (mut solver, mut regrets, mut cum) = solved(&tree, &table, 3)
        .into_disk_backed("regrets".to_string(), "cum".to_string());
    let len = solver.river_stride();
    let mut kept = None;
    for (tc, rc, fill) in [(0, 1, 7.0), (1, 2, 8.0), (0, 0, 9.0), (1, 0, 10.0)] {
        let from = solver.river_pair_byte_offset(tc, rc) as usize / 4;
        solver.load_river_pair(tc, rc, vec![F32(fill); len], vec![F32(-fill); len]);
        let (r, c) = solver.save_river_pair(tc, rc).unwrap();
        regrets[from..from + len].copy_from_slice(&r);
        cum[from..from + len].copy_from_slice(&c);
        kept = kept.or(Some((from, r, c)));
    }
    let (from, r, c) = kept.unwrap();
    solver.load_river_pair(
        0,
        1,
        regrets[from..from + len].to_vec(),
        cum[from..from + len].to_vec(),
    );
    assert_eq!(solver.regrets_river(), &r[..]);
    assert_eq!(solver.cum_strategy_river(), &c[..]);
    assert_eq!(r[0], F32(7.0));
}
