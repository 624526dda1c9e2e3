use solver_core::cross_tree::{
    build_action_map, compute_rich_offsets, deals_match, lift_strategy, CrossTreeMap,
};
use solver_core::tree::{
    FlatNode, FlatTree, ACTION_LABEL_ALLIN, ACTION_LABEL_BET, ACTION_LABEL_CALL,
    ACTION_LABEL_CHECK, ACTION_LABEL_FOLD, ACTION_LABEL_RAISE, MAX_NA_POSTFLOP, NODE_TYPE_CHANCE,
    NODE_TYPE_PLAYER, NODE_TYPE_TERMINAL,
};

/// A heads-up betting tree from the flop on, grown node by node.
struct Grower {
    nodes: Vec<FlatNode>,
    kids: Vec<Vec<u32>>,
    contributions: Vec<i32>,
    folded: Vec<u16>,
    bets: Vec<f64>,
    pot: i32,
    stack: i32,
}

#[derive(Clone, Copy)]
struct Spot {
    put: [i32; 2],
    street: u8,
    actor: u8,
    acted: u8,
}

impl Grower {
    fn node(&mut self, parent: Option<u32>, node_type: u8, spot: Spot, label: u8, folded: u16) -> u32 {
        let id = self.nodes.len() as u32;
        let level = parent.map(|p| self.nodes[p as usize].level + 1).unwrap_or(0);
        self.nodes.push(FlatNode {
            node_type,
            player_id: spot.actor,
            action_label: label,
            board_state: spot.street,
            num_children: 0,
            amount: 0,
            level,
            first_child: 0,
        });
        self.kids.push(Vec::new());
        self.contributions.extend_from_slice(&spot.put);
        self.folded.push(folded);
        if let Some(p) = parent {
            self.kids[p as usize].push(id);
        }
        id
    }

    fn decision(&mut self, parent: Option<u32>, spot: Spot, label: u8) {
        let me = self.node(parent, NODE_TYPE_PLAYER, spot, label, 0);
        let a = spot.actor as usize;
        let o = 1 - a;
        if spot.put[o] > spot.put[a] {
            self.node(Some(me), NODE_TYPE_TERMINAL, spot, ACTION_LABEL_FOLD, 1 << a);
            let mut called = spot;
            called.put[a] = spot.put[o];
            self.street_end(me, called, ACTION_LABEL_CALL);
            return;
        }
        let mut passed = spot;
        passed.actor = o as u8;
        passed.acted = spot.acted + 1;
        if passed.acted == 2 {
            self.street_end(me, passed, ACTION_LABEL_CHECK);
        } else {
            self.decision(Some(me), passed, ACTION_LABEL_CHECK);
        }
        let pot = self.pot + spot.put[0] + spot.put[1];
        for f in self.bets.clone() {
            let mut bet = spot;
            let size = (pot as f64 * f) as i32;
            let room = self.stack - spot.put[a];
            let label = if size >= room { ACTION_LABEL_ALLIN } else { ACTION_LABEL_BET };
            bet.put[a] += size.min(room);
            bet.actor = o as u8;
            bet.acted = spot.acted + 1;
            self.decision(Some(me), bet, label);
        }
    }

    fn street_end(&mut self, parent: u32, spot: Spot, label: u8) {
        let all_in = spot.put[0] == self.stack;
        if spot.street == 2 || all_in {
            self.node(Some(parent), NODE_TYPE_TERMINAL, spot, label, 0);
            return;
        }
        let mut next = spot;
        next.street += 1;
        next.actor = 0;
        next.acted = 0;
        let deal = self.node(Some(parent), NODE_TYPE_CHANCE, next, label, 0);
        self.decision(Some(deal), next, label);
    }
}

fn grow(bets: Vec<f64>) -> FlatTree {
    let mut g = Grower {
        nodes: Vec::new(),
        kids: Vec::new(),
        contributions: Vec::new(),
        folded: Vec::new(),
        bets,
        pot: 30,
        stack: 105,
    };
    g.decision(None, Spot { put: [5, 5], street: 0, actor: 0, acted: 0 }, 0);
    finish(g.nodes, g.kids, g.contributions, g.folded)
}

fn finish(
    mut nodes: Vec<FlatNode>,
    kids: Vec<Vec<u32>>,
    contributions: Vec<i32>,
    folded_masks: Vec<u16>,
) -> FlatTree {
    let mut child_ids = Vec::new();
    let max_depth = nodes.iter().map(|n| n.level).max().unwrap();
    let mut levels = vec![Vec::new(); max_depth as usize + 1];
    let mut decision_node_ids = Vec::new();
    let mut infoset_offsets = vec![u32::MAX; nodes.len()];
    for i in 0..nodes.len() {
        nodes[i].first_child = child_ids.len() as u32;
        nodes[i].num_children = kids[i].len() as u8;
        child_ids.extend_from_slice(&kids[i]);
        levels[nodes[i].level as usize].push(i as u32);
        if nodes[i].is_player() {
            infoset_offsets[i] = decision_node_ids.len() as u32;
            decision_node_ids.push(i as u32);
        }
    }
    let num_infosets = decision_node_ids.len() as u32;
    let tree = FlatTree {
        nodes,
        child_ids,
        levels,
        num_players: 2,
        contributions,
        folded_masks,
        decision_node_ids,
        infoset_offsets,
        num_infosets,
        max_depth,
        starting_pot: 30,
        rake_rate: 0,
        rake_cap: 0,
    };
    assert!(tree.is_tree());
    tree
}

/// One decision with the given (label, amount) leaves.
fn fan(actions: &[(u8, i32)]) -> FlatTree {
    let blank = FlatNode {
        node_type: NODE_TYPE_PLAYER,
        player_id: 0,
        action_label: 0,
        board_state: 0,
        num_children: 0,
        amount: 0,
        level: 0,
        first_child: 0,
    };
    let mut nodes = vec![blank];
    let mut kids = vec![Vec::new()];
    for &(action_label, amount) in actions {
        kids[0].push(nodes.len() as u32);
        nodes.push(FlatNode {
            node_type: NODE_TYPE_TERMINAL,
            action_label,
            amount,
            level: 1,
            ..blank
        });
        kids.push(Vec::new());
    }
    let n = nodes.len();
    finish(nodes, kids, vec![5; 2 * n], vec![0; n])
}

fn root_row(map: &CrossTreeMap) -> Vec<Option<usize>> {
    map.rich_action_to_lean[0].clone()
}

#[test]
fn identity_pairing_when_trees_are_equal() {
    let t = grow(vec![1.0]);
    let map = build_action_map(&t, &t);
    for &nid in &t.decision_node_ids {
        assert_eq!(map.rich_to_lean_node[nid as usize], Some(nid as usize));
        for (a, slot) in map.rich_action_to_lean[nid as usize].iter().enumerate() {
            assert_eq!(*slot, Some(a));
        }
    }
}

#[test]
fn lean_subset_pairs_subset_of_actions() {
    let rich = grow(vec![0.5, 1.0]);
    let lean = grow(vec![1.0]);
    assert!(deals_match(&rich, &lean, 0, 0));
    let map = build_action_map(&rich, &lean);
    let mut paired_actions = 0;
    let mut unpaired_actions = 0;
    for &nid in &rich.decision_node_ids {
        if map.rich_to_lean_node[nid as usize].is_none() {
            continue;
        }
        for slot in &map.rich_action_to_lean[nid as usize] {
            if slot.is_some() {
                paired_actions += 1;
            } else {
                unpaired_actions += 1;
            }
        }
    }
    assert!(paired_actions > 0, "expected some actions to pair in lean-subset case");
    assert!(unpaired_actions > 0, "expected some actions to be left un-paired");
    assert_eq!(map.paired_action_count(&rich), paired_actions);
}

#[test]
fn rich_offsets_match_flattened_layout() {
    let t = grow(vec![1.0]);
    let nh = 10usize;
    let offsets = compute_rich_offsets(&t, nh);
    for &nid in &t.decision_node_ids {
        let info_idx = t.infoset_offsets[nid as usize] as usize;
        let expected = info_idx * MAX_NA_POSTFLOP * nh;
        assert_eq!(offsets[nid as usize], expected);
    }
}

#[test]
fn equal_keys_pair_in_order_and_bets_translate_to_the_nearest() {
    let rich = fan(&[
        (ACTION_LABEL_FOLD, 0),
        (ACTION_LABEL_BET, 10),
        (ACTION_LABEL_BET, 26),
        (ACTION_LABEL_BET, 35),
        (ACTION_LABEL_ALLIN, 0),
        (ACTION_LABEL_ALLIN, 0),
        (ACTION_LABEL_RAISE, 7),
        (ACTION_LABEL_CALL, 1),
    ]);
    let lean = fan(&[
        (ACTION_LABEL_FOLD, 0),
        (ACTION_LABEL_BET, 20),
        (ACTION_LABEL_BET, 32),
        (ACTION_LABEL_ALLIN, 0),
        (ACTION_LABEL_ALLIN, 0),
    ]);
    let map = build_action_map(&rich, &lean);
    assert_eq!(
        root_row(&map),
        vec![Some(0), Some(1), Some(1), Some(2), Some(3), Some(4), None, None]
    );
    assert_eq!(map.rich_to_lean_node[2], Some(2));
    assert_eq!(map.rich_to_lean_node[3], Some(2));
    assert_eq!(map.rich_to_lean_node[7], None);
    assert_eq!(map.paired_player_count(&rich), 1);
    assert_eq!(map.paired_action_count(&rich), 6);
}

#[test]
fn a_tie_in_amount_goes_to_the_earlier_lean_action() {
    let rich = fan(&[(ACTION_LABEL_BET, 26)]);
    let lean = fan(&[(ACTION_LABEL_BET, 20), (ACTION_LABEL_BET, 32)]);
    assert_eq!(root_row(&build_action_map(&rich, &lean)), vec![Some(0)]);
}

#[test]
fn deals_of_different_sizes_do_not_match() {
    let one = grow(vec![]);
    let mut other = grow(vec![]);
    let deal = (0..other.nodes.len()).find(|&i| other.nodes[i].is_chance()).unwrap();
    other.nodes[deal].num_children = 0;
    assert!(deals_match(&one, &one, 0, 0));
    assert!(!deals_match(&one, &other, 0, 0));
}

#[test]
fn lift_copies_paired_rows_and_leaves_the_rest_zero() {
    let rich = fan(&[(ACTION_LABEL_CHECK, 0), (ACTION_LABEL_BET, 9), (ACTION_LABEL_BET, 8)]);
    let lean = fan(&[(ACTION_LABEL_BET, 8), (ACTION_LABEL_CHECK, 0)]);
    let map = build_action_map(&rich, &lean);
    // The larger bet is read as the lean one, which never plays it.
    assert_eq!(map.rich_action_to_lean[0], vec![Some(1), Some(0), Some(0)]);
    let nh = 3usize;
    let lean_offsets = compute_rich_offsets(&lean, nh);
    let rich_offsets = compute_rich_offsets(&rich, nh);
    let lean_buffer: Vec<i64> = (0..(MAX_NA_POSTFLOP * nh) as i64).map(|i| 100 + i).collect();
    let lifted = lift_strategy(&rich, &lean, &map, &lean_buffer, &lean_offsets, &rich_offsets, nh);
    let mut expected = vec![0i64; MAX_NA_POSTFLOP * nh];
    expected[..3].copy_from_slice(&[103, 104, 105]);
    expected[6..9].copy_from_slice(&[100, 101, 102]);
    assert_eq!(lifted, expected);
}

#[test]
fn broken_arrays_are_no_tree() {
    let whole = || fan(&[(ACTION_LABEL_FOLD, 0), (ACTION_LABEL_CALL, 10)]);
    assert!(whole().is_tree());
    // A child outside the tree.
    let mut t = whole();
    t.child_ids[1] = 7;
    assert!(!t.is_tree());
    // One node under the root twice, another nowhere.
    let mut t = whole();
    t.child_ids[1] = 1;
    assert!(!t.is_tree());
    // A child that is not one level down.
    let mut t = whole();
    t.nodes[2].level = 0;
    assert!(!t.is_tree());
    // A node that its level does not list.
    let mut t = whole();
    t.levels[1].pop();
    assert!(!t.is_tree());
    // A node listed twice.
    let mut t = whole();
    t.levels[1].push(1);
    assert!(!t.is_tree());
    // A decision that is not listed.
    let mut t = whole();
    t.decision_node_ids.clear();
    assert!(!t.is_tree());
    // An infoset number out of range.
    let mut t = whole();
    t.infoset_offsets[0] = 1;
    assert!(!t.is_tree());
    // Contributions of one player only.
    let mut t = whole();
    t.contributions.truncate(3);
    assert!(!t.is_tree());
    // A terminal with a child.
    let mut t = whole();
    t.nodes[1].num_children = 1;
    assert!(!t.is_tree());
    // Nobody plays.
    let mut t = whole();
    t.num_players = 0;
    assert!(!t.is_tree());
}
