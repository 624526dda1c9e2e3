//! The flattened game tree that every solver walks.
//!
//! Nodes are numbered; node 0 is the root. A node's children are a run of
//! entries of one shared list, and `levels` groups the nodes by their distance
//! from the root, so that a walk by levels sees every parent before (or, in
//! reverse, after) its children.
use vstd::prelude::*;

verus! {

/// A node index or infoset index that stands for "none".
pub const UNUSED: usize = usize::MAX;

/// Action slots that the postflop buffers reserve per infoset.
pub const MAX_NA_POSTFLOP: usize = 8;

/// Action slots that the preflop buffers reserve per infoset.
pub const MAX_NA_PREFLOP: usize = 16;

pub const NODE_TYPE_TERMINAL: u8 = 0;

pub const NODE_TYPE_CHANCE: u8 = 1;

pub const NODE_TYPE_PLAYER: u8 = 2;

pub const BOARD_FLOP: u8 = 0;

pub const BOARD_TURN: u8 = 1;

pub const BOARD_RIVER: u8 = 2;

pub const BOARD_PREFLOP: u8 = 3;

pub const ACTION_LABEL_FOLD: u8 = 0;

pub const ACTION_LABEL_CHECK: u8 = 1;

pub const ACTION_LABEL_CALL: u8 = 2;

pub const ACTION_LABEL_BET: u8 = 3;

pub const ACTION_LABEL_RAISE: u8 = 4;

pub const ACTION_LABEL_ALLIN: u8 = 5;

/// One node of a [`FlatTree`].
///
/// `board_state` of a chance node is the street that it deals.
#[derive(Clone, Copy, Debug, PartialEq, Eq, Structural)]
pub struct FlatNode {
    pub node_type: u8,
    pub player_id: u8,
    pub action_label: u8,
    pub board_state: u8,
    pub num_children: u8,
    pub amount: i32,
    pub level: u32,
    pub first_child: u32,
}

impl FlatNode {
    pub open spec fn spec_is_terminal(&self) -> bool {
        self.node_type == NODE_TYPE_TERMINAL
    }

    pub open spec fn spec_is_chance(&self) -> bool {
        self.node_type == NODE_TYPE_CHANCE
    }

    pub open spec fn spec_is_player(&self) -> bool {
        self.node_type == NODE_TYPE_PLAYER
    }

    #[verifier::when_used_as_spec(spec_is_terminal)]
    pub fn is_terminal(&self) -> (r: bool)
        ensures
            r == self.spec_is_terminal(),
    {
        self.node_type == NODE_TYPE_TERMINAL
    }

    #[verifier::when_used_as_spec(spec_is_chance)]
    pub fn is_chance(&self) -> (r: bool)
        ensures
            r == self.spec_is_chance(),
    {
        self.node_type == NODE_TYPE_CHANCE
    }

    #[verifier::when_used_as_spec(spec_is_player)]
    pub fn is_player(&self) -> (r: bool)
        ensures
            r == self.spec_is_player(),
    {
        self.node_type == NODE_TYPE_PLAYER
    }
}

/// A betting tree in flat arrays.
pub struct FlatTree {
    pub nodes: Vec<FlatNode>,
    /// All children lists, one after the other.
    pub child_ids: Vec<u32>,
    /// Node ids by distance from the root.
    pub levels: Vec<Vec<u32>>,
    pub num_players: u8,
    /// Chips put in by player `p` on the way to node `i`, at `i * num_players + p`.
    pub contributions: Vec<i32>,
    /// Bit `p` of entry `i` is set when player `p` has folded at node `i`.
    pub folded_masks: Vec<u16>,
    /// The player nodes, in infoset order.
    pub decision_node_ids: Vec<u32>,
    /// Infoset number of each player node.
    pub infoset_offsets: Vec<u32>,
    pub num_infosets: u32,
    pub max_depth: u32,
    pub starting_pot: i32,
    /// The share of the pot that the house keeps, as a double word.
    pub rake_rate: u64,
    /// The most that the house keeps, as a double word.
    pub rake_cap: u64,
}

impl FlatTree {
    pub open spec fn size(&self) -> int {
        self.nodes@.len() as int
    }

    pub open spec fn np(&self) -> int {
        self.num_players as int
    }

    pub open spec fn is_node(&self, i: int) -> bool {
        0 <= i < self.size()
    }

    /// Number of children of node `i`.
    pub open spec fn arity(&self, i: int) -> int {
        self.nodes@[i].num_children as int
    }

    /// The `a`-th child of node `i`.
    pub open spec fn child(&self, i: int, a: int) -> int {
        self.child_ids@[self.nodes@[i].first_child + a] as int
    }

    pub open spec fn is_edge(&self, i: int, a: int) -> bool {
        self.is_node(i) && 0 <= a < self.arity(i)
    }

    pub open spec fn level(&self, i: int) -> int {
        self.nodes@[i].level as int
    }

    pub open spec fn kids(&self, i: int) -> Seq<u32> {
        self.child_ids@.subrange(
            self.nodes@[i].first_child as int,
            self.nodes@[i].first_child + self.nodes@[i].num_children,
        )
    }

    /// What holds of one node on its own.
    pub open spec fn node_ok(&self, i: int) -> bool {
        let n = self.nodes@[i];
        &&& n.node_type <= NODE_TYPE_PLAYER
        &&& n.first_child + n.num_children <= self.child_ids@.len()
        &&& n.level <= self.max_depth
        &&& n.is_terminal() ==> n.num_children == 0
        &&& n.is_player() ==> n.player_id < self.num_players
    }

    /// A child lies inside the tree, one level below its parent.
    pub open spec fn edge_ok(&self, i: int, a: int) -> bool {
        self.is_node(self.child(i, a)) && self.level(self.child(i, a)) == self.level(i) + 1
            <= self.max_depth
    }

    pub open spec fn level_entry_ok(&self, d: int, k: int) -> bool {
        let i = self.levels@[d]@[k] as int;
        self.is_node(i) && self.level(i) == d
    }

    /// `d` and `k` locate node `i` in the level lists.
    pub open spec fn at_level(&self, d: int, k: int, i: int) -> bool {
        0 <= d < self.levels@.len() && 0 <= k < self.levels@[d]@.len() && self.levels@[d]@[k] == i
    }

    /// `k` locates node `i` among the decision nodes.
    pub open spec fn at_decision(&self, k: int, i: int) -> bool {
        0 <= k < self.decision_node_ids@.len() && self.decision_node_ids@[k] == i
    }

    /// The shape of the arrays.
    pub open spec fn shape_ok(&self) -> bool {
        &&& 1 <= self.size() <= u32::MAX
        &&& 1 <= self.num_players
        &&& self.contributions@.len() == self.size() * self.np()
        &&& self.folded_masks@.len() == self.size()
        &&& self.infoset_offsets@.len() == self.size()
        &&& self.levels@.len() == self.max_depth + 1
        &&& self.level(0) == 0
        &&& forall|i: int| self.is_node(i) ==> #[trigger] self.node_ok(i)
        &&& forall|i: int, a: int| #[trigger] self.is_edge(i, a) ==> self.edge_ok(i, a)
    }

    /// No node has two parents, or stands twice under one.
    pub open spec fn parents_ok(&self) -> bool {
        forall|i: int, a: int, j: int, b: int|
            #![trigger self.is_edge(i, a), self.is_edge(j, b)]
            self.is_edge(i, a) && self.is_edge(j, b) && self.child(i, a) == self.child(j, b) ==> i
                == j && a == b
    }

    /// Edge `(j, b)` leads to node `i`.
    pub open spec fn is_parent(&self, j: int, b: int, i: int) -> bool {
        self.is_edge(j, b) && self.child(j, b) == i
    }

    pub open spec fn has_parent(&self, i: int) -> bool {
        exists|j: int, b: int| self.is_parent(j, b, i)
    }

    /// Every node but the root hangs under another one.
    pub open spec fn connected_ok(&self) -> bool {
        forall|i: int| 0 < i < self.size() ==> #[trigger] self.has_parent(i)
    }

    /// The level lists hold every node once, at its own level.
    pub open spec fn levels_ok(&self) -> bool {
        &&& forall|d: int, k: int|
            0 <= d < self.levels@.len() && 0 <= k < self.levels@[d]@.len()
                ==> #[trigger] self.level_entry_ok(d, k)
        &&& forall|d: int| 0 <= d < self.levels@.len() ==> (#[trigger] self.levels@[d])@.no_duplicates()
        &&& forall|i: int|
            self.is_node(i) ==> #[trigger] self.levels@[self.level(i)]@.contains(i as u32)
    }

    /// The decision list holds every player node once, and infoset numbers tell
    /// them apart.
    pub open spec fn decisions_ok(&self) -> bool {
        let ids = self.decision_node_ids@;
        &&& ids.no_duplicates()
        &&& forall|k: int|
            0 <= k < ids.len() ==> (#[trigger] ids[k]) < self.size()
                && self.nodes@[ids[k] as int].is_player()
                && self.infoset_offsets@[ids[k] as int] < self.num_infosets
        &&& forall|i: int|
            self.is_node(i) && (#[trigger] self.nodes@[i]).is_player() ==> ids.contains(i as u32)
        &&& forall|k: int, l: int|
            0 <= k < ids.len() && 0 <= l < ids.len() && self.infoset_offsets@[(
            #[trigger] ids[k]) as int] == self.infoset_offsets@[(#[trigger] ids[l]) as int] ==> k
                == l
    }

    /// A tree: every array fits, every node but the root hangs under one parent,
    /// and the level and decision lists are complete.
    pub open spec fn wf(&self) -> bool {
        &&& self.shape_ok()
        &&& self.parents_ok()
        &&& self.connected_ok()
        &&& self.levels_ok()
        &&& self.decisions_ok()
    }

    /// Every player node fits the postflop action slots.
    pub open spec fn fits_postflop(&self) -> bool {
        forall|i: int|
            self.is_node(i) && (#[trigger] self.nodes@[i]).is_player() ==> self.arity(i)
                <= MAX_NA_POSTFLOP
    }

    /// Node `x` lies in the subtree under `root`, `root` included.
    pub open spec fn in_subtree(&self, root: int, x: int) -> bool
        decreases self.max_depth + 1 - self.level(root),
        when self.wf() && self.is_node(root)
    {
        x == root || exists|a: int| #[trigger] self.is_edge(root, a) && self.in_subtree(self.child(root, a), x)
    }

    /// A subtree lies under its root, which is alone at its level.
    pub proof fn lemma_subtree_level(&self, root: int, x: int)
        requires
            self.wf(),
            self.is_node(root),
            self.in_subtree(root, x),
        ensures
            self.is_node(x),
            self.level(root) <= self.level(x),
            self.level(root) == self.level(x) ==> x == root,
        decreases self.max_depth + 1 - self.level(root),
    {
        if x != root {
            let a = choose|a: int| #[trigger]
                self.is_edge(root, a) && self.in_subtree(self.child(root, a), x);
            self.lemma_subtree_level(self.child(root, a), x);
        }
    }

    /// A subtree holds the children of its nodes.
    pub proof fn lemma_subtree_step(&self, root: int, x: int, a: int)
        requires
            self.wf(),
            self.is_node(root),
            self.in_subtree(root, x),
            self.is_edge(x, a),
        ensures
            self.in_subtree(root, self.child(x, a)),
        decreases self.max_depth + 1 - self.level(root),
    {
        if x == root {
            assert(self.in_subtree(self.child(x, a), self.child(x, a)));
        } else {
            let b = choose|b: int| #[trigger]
                self.is_edge(root, b) && self.in_subtree(self.child(root, b), x);
            self.lemma_subtree_step(self.child(root, b), x, a);
        }
    }

    /// A node of a subtree other than its root hangs under a node of it.
    pub proof fn lemma_subtree_last(&self, root: int, x: int) -> (e: (int, int))
        requires
            self.wf(),
            self.is_node(root),
            self.in_subtree(root, x),
            x != root,
        ensures
            self.is_parent(e.0, e.1, x),
            self.in_subtree(root, e.0),
        decreases self.max_depth + 1 - self.level(root),
    {
        let a = choose|a: int| #[trigger]
            self.is_edge(root, a) && self.in_subtree(self.child(root, a), x);
        let c = self.child(root, a);
        if c == x {
            (root, a)
        } else {
            self.lemma_subtree_last(c, x)
        }
    }

    /// Subtrees of different nodes of one level share nothing.
    pub proof fn lemma_subtree_apart(&self, u: int, v: int, x: int)
        requires
            self.wf(),
            self.is_node(u),
            self.is_node(v),
            self.level(u) == self.level(v),
            self.in_subtree(u, x),
            self.in_subtree(v, x),
        ensures
            u == v,
        decreases self.level(x),
    {
        self.lemma_subtree_level(u, x);
        self.lemma_subtree_level(v, x);
        if x != u && x != v {
            let (p, a) = self.lemma_subtree_last(u, x);
            let (q, b) = self.lemma_subtree_last(v, x);
            assert(self.is_edge(p, a) && self.is_edge(q, b));
            assert(p == q);
            assert(self.edge_ok(p, a));
            self.lemma_subtree_apart(u, v, p);
        }
    }

    /// Every node lies under the root.
    pub proof fn lemma_all_below_root(&self, x: int)
        requires
            self.wf(),
            self.is_node(x),
        ensures
            self.in_subtree(0, x),
        decreases self.level(x),
    {
        if x != 0 {
            assert(self.has_parent(x));
            let (j, b) = choose|j: int, b: int| self.is_parent(j, b, x);
            assert(self.is_edge(j, b));
            assert(self.edge_ok(j, b));
            self.lemma_all_below_root(j);
            self.lemma_subtree_step(0, j, b);
        }
    }

    pub open spec fn contribution(&self, i: int, p: int) -> int {
        self.contributions@[i * self.np() + p] as int
    }

    pub fn num_nodes(&self) -> (n: usize)
        ensures
            n == self.size(),
    {
        self.nodes.len()
    }

    /// The children of node `idx`, in action order.
    pub fn node_children(&self, idx: usize) -> (kids: &[u32])
        requires
            self.shape_ok(),
            self.is_node(idx as int),
        ensures
            kids@ == self.kids(idx as int),
            kids@.len() == self.arity(idx as int),
            forall|a: int|
                0 <= a < kids@.len() ==> (#[trigger] kids@[a]) as int == self.child(idx as int, a),
    {
        assert(self.node_ok(idx as int));
        let first: usize = self.nodes[idx].first_child as usize;
        let count: usize = self.nodes[idx].num_children as usize;
        let total: usize = self.child_ids.len();
        assert(first + count <= total);
        vstd::slice::slice_subrange(self.child_ids.as_slice(), first, first + count)
    }

    /// The nodes at distance `level` from the root.
    pub fn nodes_at_level(&self, level: u32) -> (ids: &[u32])
        requires
            self.shape_ok(),
            level <= self.max_depth,
        ensures
            ids@ == self.levels@[level as int]@,
    {
        self.levels[level as usize].as_slice()
    }

    /// Chips that player `p` has put in at node `idx`.
    pub fn get_contribution(&self, idx: usize, p: u8) -> (c: i32)
        requires
            self.shape_ok(),
            self.is_node(idx as int),
            p < self.num_players,
        ensures
            c == self.contribution(idx as int, p as int),
    {
        proof {
            let n = self.size();
            let np = self.np();
            assert(0 <= idx * np + p < n * np) by (nonlinear_arith)
                requires
                    0 <= idx < n,
                    0 <= p < np,
            ;
            assert(0 <= idx * np <= idx * np + p) by (nonlinear_arith)
                requires
                    0 <= idx,
                    0 <= p,
                    0 <= np,
            ;
        }
        let total: usize = self.contributions.len();
        assert(idx * self.np() + p < total);
        self.contributions[idx * (self.num_players as usize) + p as usize]
    }

    /// The players that have folded at node `idx`, one bit each.
    pub fn get_folded_mask(&self, idx: usize) -> (m: u16)
        requires
            self.shape_ok(),
            self.is_node(idx as int),
        ensures
            m == self.folded_masks@[idx as int],
    {
        self.folded_masks[idx]
    }
}

} // verus!
