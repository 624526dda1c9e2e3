//! Vector CFR from a known flop: every hand at once, every dealt card with
//! regrets of its own.
use vstd::prelude::*;

use crate::bank::{room, strategy_of, ZoneBank};
use crate::flop_start_game::{lemma_distinct_take, FlopChanceTable};
use crate::layout::{
    at, flat, get_row, lemma_at_bound, lemma_flat_row, lemma_other_row, lemma_row_inside, put_row,
    row,
};
use crate::learn::DcfrParams;
use crate::rows::{are_marks, copy_rows, same_row};
use crate::runout::joined;
use crate::scalar::{filled, s_match_eps, Scalar, Widen};
use crate::sweep::{fed_from, is_fed, passes_on, propagate, seat, Lens};
use crate::terminal::{
    is_evaluator, is_table_for, lemma_terminal_value, terminal_value_of, terminal_values, views,
    Dealt, TerminalSpot,
};
use crate::tree::{BOARD_RIVER, BOARD_TURN, FlatTree, UNUSED};
use crate::zone_pass::{bank_learned, zone_valued};
use crate::zones::{
    classify, collect_zone_nodes, deal_children, dealt, lemma_deal_children, zone_count, zone_of,
    zone_players, zone_players_under, Zone, ZoneBook,
};

verus! {

/// Where the river regrets and cumulative strategies are kept.
#[derive(Clone, Debug)]
pub enum RiverPersistenceMode {
    /// All turn and river pairs at once.
    InMemory,
    /// In two files; the buffers hold one turn and river pair at a time.
    DiskBacked { regrets_path: String, cum_strategy_path: String },
}

impl RiverPersistenceMode {
    pub open spec fn spec_in_memory(&self) -> bool {
        *self is InMemory
    }

    #[verifier::when_used_as_spec(spec_in_memory)]
    pub fn in_memory(&self) -> (r: bool)
        ensures
            r == self.spec_in_memory(),
    {
        match self {
            RiverPersistenceMode::InMemory => true,
            RiverPersistenceMode::DiskBacked { .. } => false,
        }
    }
}

/// The longest river deck after one of the first `n` turn cards.
pub open spec fn longest_river<T: Widen>(table: &FlopChanceTable<T>, n: nat) -> nat
    decreases n,
{
    if n == 0 {
        0
    } else {
        let prev = longest_river(table, (n - 1) as nat);
        let here = table.river_decks@[table.remaining_deck@[n - 1] as int]@.len();
        if here > prev {
            here
        } else {
            prev
        }
    }
}

pub proof fn lemma_longest_river<T: Widen>(table: &FlopChanceTable<T>, n: nat, k: int)
    requires
        0 <= k < n,
    ensures
        table.river_decks@[table.remaining_deck@[k] as int]@.len() <= longest_river(table, n),
    decreases n,
{
    if k < n - 1 {
        lemma_longest_river(table, (n - 1) as nat, k);
    }
}

/// The last of the first `n` lists that holds node `i`.
pub open spec fn list_holding(lists: Seq<Vec<u32>>, n: nat, i: int) -> Option<int>
    decreases n,
{
    if n == 0 {
        None
    } else if lists[n - 1]@.contains(i as u32) {
        Some(n - 1)
    } else {
        list_holding(lists, (n - 1) as nat, i)
    }
}

/// `lists` holds the zone decisions under each deal child, and `of` the list of
/// each node.
pub open spec fn are_subtrees(
    tree: &FlatTree,
    zones: Seq<Zone>,
    zone: Zone,
    children: Seq<u32>,
    lists: Seq<Vec<u32>>,
    of: Seq<usize>,
) -> bool {
    &&& lists.len() == children.len()
    &&& forall|k: int|
        0 <= k < lists.len() ==> (#[trigger] lists[k])@ == zone_players(
            tree,
            zones,
            zone,
            children[k] as int,
        )
    &&& of.len() == tree.size()
    &&& forall|i: int|
        tree.is_node(i) ==> #[trigger] of[i] == match list_holding(lists, lists.len(), i) {
            Some(k) => k as usize,
            None => UNUSED,
        }
}

proof fn lemma_list_frame(a: Seq<Vec<u32>>, b: Seq<Vec<u32>>, n: nat, i: int)
    requires
        n <= a.len(),
        n <= b.len(),
        forall|k: int| 0 <= k < n ==> a[k] == b[k],
    ensures
        list_holding(a, n, i) == list_holding(b, n, i),
    decreases n,
{
    if n > 0 {
        lemma_list_frame(a, b, (n - 1) as nat, i);
    }
}

/// The players of a zone under a node are nodes.
proof fn lemma_zone_players(tree: &FlatTree, zones: Seq<Zone>, zone: Zone, i: int, m: int)
    requires
        tree.wf(),
        tree.is_node(i),
        0 <= m < zone_players(tree, zones, zone, i).len(),
    ensures
        tree.is_node(zone_players(tree, zones, zone, i)[m] as int),
    decreases tree.max_depth + 1 - tree.level(i), tree.arity(i) + 1,
{
    if zones[i] == zone {
        let own: Seq<u32> = if tree.nodes@[i].is_player() {
            seq![i as u32]
        } else {
            Seq::empty()
        };
        if m >= own.len() {
            lemma_zone_players_under(tree, zones, zone, i, tree.arity(i), m - own.len());
        }
    }
}

proof fn lemma_zone_players_under(
    tree: &FlatTree,
    zones: Seq<Zone>,
    zone: Zone,
    i: int,
    n: int,
    m: int,
)
    requires
        tree.wf(),
        tree.is_node(i),
        0 <= n <= tree.arity(i),
        0 <= m < zone_players_under(tree, zones, zone, i, n).len(),
    ensures
        tree.is_node(zone_players_under(tree, zones, zone, i, n)[m] as int),
    decreases tree.max_depth + 1 - tree.level(i), n,
{
    if n > 0 {
        let prev = zone_players_under(tree, zones, zone, i, n - 1);
        if m < prev.len() {
            lemma_zone_players_under(tree, zones, zone, i, n - 1, m);
        } else {
            assert(tree.is_edge(i, n - 1));
            assert(tree.edge_ok(i, n - 1));
            lemma_zone_players(tree, zones, zone, tree.child(i, n - 1), m - prev.len());
        }
    }
}

/// Lists the zone decisions under each deal child.
fn subtree_lists(tree: &FlatTree, zones: &Vec<Zone>, zone: Zone, children: &Vec<u32>) -> (out: (
    Vec<Vec<u32>>,
    Vec<usize>,
))
    requires
        tree.wf(),
        zones@.len() == tree.size(),
        forall|k: int| 0 <= k < children@.len() ==> tree.is_node((#[trigger] children@[k]) as int),
    ensures
        are_subtrees(tree, zones@, zone, children@, out.0@, out.1@),
{
    let nn: usize = tree.num_nodes();
    let mut lists: Vec<Vec<u32>> = Vec::new();
    let mut of: Vec<usize> = filled(UNUSED, nn);
    let mut k: usize = 0;
    while k < children.len()
        invariant
            k <= children@.len(),
            tree.wf(),
            zones@.len() == tree.size(),
            forall|j: int|
                0 <= j < children@.len() ==> tree.is_node((#[trigger] children@[j]) as int),
            lists@.len() == k,
            forall|j: int|
                0 <= j < k ==> (#[trigger] lists@[j])@ == zone_players(
                    tree,
                    zones@,
                    zone,
                    children@[j] as int,
                ),
            of@.len() == tree.size(),
            forall|i: int|
                tree.is_node(i) ==> #[trigger] of@[i] == match list_holding(lists@, k as nat, i) {
                    Some(m) => m as usize,
                    None => UNUSED,
                },
        decreases children@.len() - k,
    {
        let mut nodes: Vec<u32> = Vec::new();
        let c: usize = children[k] as usize;
        assert(tree.is_node(children@[k as int] as int));
        collect_zone_nodes(tree, c, zones.as_slice(), zone, &mut nodes);
        assert(nodes@ =~= zone_players(tree, zones@, zone, c as int));
        let ghost before = of@;
        let mut m: usize = 0;
        while m < nodes.len()
            invariant
                m <= nodes@.len(),
                tree.wf(),
                tree.is_node(c as int),
                nodes@ == zone_players(tree, zones@, zone, c as int),
                of@.len() == tree.size(),
                before.len() == tree.size(),
                forall|i: int|
                    tree.is_node(i) ==> #[trigger] of@[i] == if nodes@.take(m as int).contains(
                        i as u32,
                    ) {
                        k
                    } else {
                        before[i]
                    },
            decreases nodes@.len() - m,
        {
            proof {
                lemma_zone_players(tree, zones@, zone, c as int, m as int);
            }
            let n: usize = nodes[m] as usize;
            let ghost was = of@;
            of[n] = k;
            proof {
                let short = nodes@.take(m as int);
                let long = nodes@.take(m + 1);
                assert forall|i: int| tree.is_node(i) implies #[trigger] of@[i] == if long.contains(
                    i as u32,
                ) {
                    k
                } else {
                    before[i]
                } by {
                    assert(was[i] == if short.contains(i as u32) {
                        k
                    } else {
                        before[i]
                    });
                    if long.contains(i as u32) {
                        let j = choose|j: int| 0 <= j < long.len() && long[j] == i as u32;
                        if j < m {
                            assert(short[j] == i as u32);
                        }
                    }
                    if short.contains(i as u32) {
                        let j = choose|j: int| 0 <= j < short.len() && short[j] == i as u32;
                        assert(long[j] == i as u32);
                    }
                    if i == n {
                        assert(long[m as int] == i as u32);
                    }
                }
            }
            m += 1;
        }
        assert(nodes@.take(m as int) =~= nodes@);
        let ghost lists0 = lists@;
        lists.push(nodes);
        proof {
            assert forall|i: int| tree.is_node(i) implies #[trigger] of@[i] == match list_holding(
                lists@,
                (k + 1) as nat,
                i,
            ) {
                Some(j) => j as usize,
                None => UNUSED,
            } by {
                lemma_list_frame(lists0, lists@, k as nat, i);
            }
        }
        k += 1;
    }
    (lists, of)
}

/// Buffers of this size can be indexed.
pub open spec fn bank_fits(outcomes: int, infosets: int, nh: int) -> bool {
    &&& outcomes * infosets <= usize::MAX
    &&& infosets * room(nh) <= usize::MAX
    &&& outcomes * infosets * room(nh) <= usize::MAX
}

/// The zones of a tree.
pub open spec fn zone_map(tree: &FlatTree) -> Seq<Zone> {
    Seq::new(tree.size() as nat, |i: int| zone_of(tree, i))
}

/// Decisions in a zone.
pub open spec fn zone_size(tree: &FlatTree, zone: Zone) -> int {
    zone_count(tree, zone_map(tree), zone, tree.decision_node_ids@.len()) as int
}

/// Per-outcome CFR on a flop-start tree: one copy of the flop's regrets, one per
/// turn card of the turn's, one per turn and river card of the river's.
pub struct FlopStartVectorCfr<T: Widen> {
    pub num_players: u8,
    pub nh: usize,
    pub zones: Vec<Zone>,
    pub flop_book: ZoneBook,
    pub turn_book: ZoneBook,
    pub river_book: ZoneBook,
    pub preflop_book: ZoneBook,
    pub flop: ZoneBank<T>,
    pub turn: ZoneBank<T>,
    pub river: ZoneBank<T>,
    /// Every hand plays its own column.
    pub lens: Lens,
    pub river_mode: RiverPersistenceMode,
    /// The pair that the river buffers hold, if they hold one pair only.
    pub current_river_pair: Option<(usize, usize)>,
    pub river_chance_children: Vec<u32>,
    pub turn_chance_children: Vec<u32>,
    pub n_turn: usize,
    pub max_n_river: usize,
    /// River cards by turn card.
    pub river_deck_sizes: Vec<usize>,
    /// River cards by turn place.
    pub river_counts: Vec<usize>,
    pub turn_subtree_nodes: Vec<Vec<u32>>,
    pub river_subtree_nodes: Vec<Vec<u32>>,
    pub turn_node_to_subtree: Vec<usize>,
    pub river_node_to_subtree: Vec<usize>,
    pub iteration: u32,
    pub debug: bool,
    pub vanilla_mode: bool,
    /// Turn and river play a frozen strategy and do not learn.
    pub continuation_frozen: bool,
}

impl<T: Widen> FlopStartVectorCfr<T> {
    /// The copies of the river buffers.
    pub open spec fn river_outcomes(&self) -> int {
        if self.river_mode.in_memory() {
            self.n_turn * self.max_n_river
        } else {
            1
        }
    }

    /// The solver belongs to `tree`, and its parts fit together.
    pub open spec fn wf(&self, tree: &FlatTree) -> bool {
        &&& tree.wf()
        &&& tree.fits_postflop()
        &&& self.num_players == tree.num_players
        &&& self.nh <= 1326
        &&& tree.size() * (tree.np() * self.nh) <= usize::MAX
        &&& self.zones@ == zone_map(tree)
        &&& self.flop_book.of(tree, self.zones@, Zone::Flop)
        &&& self.turn_book.of(tree, self.zones@, Zone::Turn)
        &&& self.river_book.of(tree, self.zones@, Zone::River)
        &&& self.preflop_book.of(tree, self.zones@, Zone::Preflop)
        &&& self.flop.for_book(&self.flop_book)
        &&& self.turn.for_book(&self.turn_book)
        &&& self.river.for_book(&self.river_book)
        &&& self.flop.width == self.nh
        &&& self.turn.width == self.nh
        &&& self.river.width == self.nh
        &&& self.flop.outcomes == 1
        &&& self.turn.outcomes == self.n_turn
        &&& self.river.outcomes == self.river_outcomes()
        &&& self.n_turn * self.max_n_river <= usize::MAX
        &&& self.lens.is_identity(self.nh as int)
        &&& self.lens.wf(self.nh as int)
        &&& self.turn_chance_children@ == deal_children(tree, BOARD_TURN, tree.size() as nat)
        &&& self.river_chance_children@ == deal_children(tree, BOARD_RIVER, tree.size() as nat)
        &&& self.river_deck_sizes@.len() == 52
        &&& self.river_counts@.len() == self.n_turn
        &&& forall|k: int|
            0 <= k < self.n_turn ==> (#[trigger] self.river_counts@[k]) <= self.max_n_river
    }

    /// The solver was made for `table`.
    pub open spec fn is_for(&self, table: &FlopChanceTable<T>) -> bool {
        &&& table.wf()
        &&& table.num_players == self.num_players
        &&& self.nh == table.num_valid
        &&& self.n_turn == table.remaining_deck@.len()
        &&& forall|k: int|
            0 <= k < self.n_turn ==> (#[trigger] self.river_counts@[k])
                == table.river_decks@[table.remaining_deck@[k] as int]@.len()
    }

    pub open spec fn book(&self, zone: Zone) -> ZoneBook {
        match zone {
            Zone::Flop => self.flop_book,
            Zone::Turn => self.turn_book,
            Zone::River => self.river_book,
            Zone::Preflop => self.preflop_book,
        }
    }

    /// The buffers of a zone; the preflop zone has none.
    pub open spec fn bank(&self, zone: Zone) -> ZoneBank<T> {
        match zone {
            Zone::Turn => self.turn,
            Zone::River => self.river,
            _ => self.flop,
        }
    }

    /// The copy of the zone's buffers that turn place `tc` and river place `rc`
    /// use.
    pub open spec fn outcome(&self, zone: Zone, tc: int, rc: int) -> int {
        match zone {
            Zone::Turn => tc,
            Zone::River => if self.river_mode.in_memory() {
                at(self.max_n_river as int, tc, rc)
            } else {
                0
            },
            _ => 0,
        }
    }

    /// The buffers of the zone hold turn place `tc` and river place `rc`.
    pub open spec fn holds_outcome(&self, zone: Zone, tc: int, rc: int) -> bool {
        match zone {
            Zone::Turn => 0 <= tc < self.n_turn,
            Zone::River => 0 <= tc < self.n_turn && 0 <= rc < self.river_counts@[tc] && (
            self.river_mode.in_memory() || self.current_river_pair == Some(
                (tc as usize, rc as usize),
            )),
            Zone::Flop => true,
            Zone::Preflop => false,
        }
    }

    pub proof fn lemma_outcome(&self, tree: &FlatTree, zone: Zone, tc: int, rc: int)
        requires
            self.wf(tree),
            self.holds_outcome(zone, tc, rc),
        ensures
            0 <= self.outcome(zone, tc, rc) < self.bank(zone).outcomes,
    {
        if zone == Zone::River && self.river_mode.in_memory() {
            assert(self.river_counts@[tc] <= self.max_n_river);
            lemma_at_bound(self.max_n_river as int, self.n_turn as int, tc, rc);
        }
    }

    /// Every buffer zero, for `tree` with the hands and deals of `table`.
    pub fn new(tree: &FlatTree, table: &FlopChanceTable<T>) -> (solver: FlopStartVectorCfr<T>)
        requires
            tree.wf(),
            tree.fits_postflop(),
            is_table_for(table, tree),
            tree.size() * (tree.np() * table.nh()) <= usize::MAX,
            bank_fits(1, zone_size(tree, Zone::Flop), table.nh()),
            bank_fits(
                table.remaining_deck@.len() as int,
                zone_size(tree, Zone::Turn),
                table.nh(),
            ),
            bank_fits(
                (table.remaining_deck@.len() * longest_river(table, table.remaining_deck@.len())) as int,
                zone_size(tree, Zone::River),
                table.nh(),
            ),
        ensures
            solver.wf(tree),
            solver.is_for(table),
            solver.max_n_river == longest_river(table, table.remaining_deck@.len()),
            forall|c: int|
                0 <= c < 52 ==> #[trigger] solver.river_deck_sizes@[c]
                    == if table.remaining_deck@.contains(c as u8) {
                    table.river_decks@[c]@.len() as int
                } else {
                    0
                },
            forall|zone: Zone| zone != Zone::Preflop ==> {
                let b = #[trigger] solver.bank(zone);
                &&& b.regrets@ == flat(T::s_zero(), b.outcomes * b.infosets * room(table.nh()))
                &&& b.cum@ == flat(T::s_zero(), b.outcomes * b.infosets * room(table.nh()))
                &&& b.strategy@ == flat(T::s_zero(), b.infosets * room(table.nh()))
            },
            solver.river_mode is InMemory,
            solver.current_river_pair is None,
            are_subtrees(
                tree,
                solver.zones@,
                Zone::Turn,
                solver.turn_chance_children@,
                solver.turn_subtree_nodes@,
                solver.turn_node_to_subtree@,
            ),
            are_subtrees(
                tree,
                solver.zones@,
                Zone::River,
                solver.river_chance_children@,
                solver.river_subtree_nodes@,
                solver.river_node_to_subtree@,
            ),
            solver.iteration == 0,
            !solver.debug,
            !solver.vanilla_mode,
            !solver.continuation_frozen,
    {
        let split = classify(tree);
        let zones = split.zones;
        assert(zones@ =~= zone_map(tree));
        let flop_book = ZoneBook::build(tree, &zones, Zone::Flop);
        let turn_book = ZoneBook::build(tree, &zones, Zone::Turn);
        let river_book = ZoneBook::build(tree, &zones, Zone::River);
        let preflop_book = ZoneBook::build(tree, &zones, Zone::Preflop);
        let nh: usize = table.num_valid;
        let n_turn: usize = table.remaining_deck.len();
        let mut max_n_river: usize = 0;
        let mut river_counts: Vec<usize> = Vec::new();
        let mut river_deck_sizes: Vec<usize> = filled(0, 52);
        let ghost deck = table.remaining_deck@;
        let mut k: usize = 0;
        assert(deck.take(0) =~= Seq::<u8>::empty());
        while k < n_turn
            invariant
                k <= n_turn,
                n_turn == deck.len(),
                deck == table.remaining_deck@,
                table.wf(),
                max_n_river == longest_river(table, k as nat),
                max_n_river <= 52,
                river_counts@.len() == k,
                forall|j: int|
                    0 <= j < k ==> (#[trigger] river_counts@[j])
                        == table.river_decks@[deck[j] as int]@.len(),
                river_deck_sizes@.len() == 52,
                forall|c: int|
                    0 <= c < 52 ==> #[trigger] river_deck_sizes@[c] == if deck.take(
                        k as int,
                    ).contains(c as u8) {
                        table.river_decks@[c]@.len() as int
                    } else {
                        0
                    },
            decreases n_turn - k,
        {
            let tc: usize = table.remaining_deck[k] as usize;
            assert(table.remaining_deck@[k as int] < 52);
            assert(table.river_decks@[tc as int]@.len() <= 52);
            let len: usize = table.river_decks[tc].len();
            if len > max_n_river {
                max_n_river = len;
            }
            river_counts.push(len);
            let ghost sizes0 = river_deck_sizes@;
            river_deck_sizes[tc] = len;
            proof {
                assert forall|c: int| 0 <= c < 52 implies #[trigger] river_deck_sizes@[c]
                    == if deck.take(k + 1).contains(c as u8) {
                    table.river_decks@[c]@.len() as int
                } else {
                    0
                } by {
                    lemma_distinct_take(deck, k as int, c as u8);
                    assert(sizes0[c] == if deck.take(k as int).contains(c as u8) {
                        table.river_decks@[c]@.len() as int
                    } else {
                        0
                    });
                }
            }
            k += 1;
        }
        proof {
            assert(deck.take(n_turn as int) =~= deck);
            assert forall|j: int| 0 <= j < n_turn implies (#[trigger] river_counts@[j])
                <= max_n_river by {
                lemma_longest_river(table, n_turn as nat, j);
            }
            assert(n_turn * max_n_river <= 2704) by (nonlinear_arith)
                requires
                    n_turn <= 52,
                    max_n_river <= 52,
            ;
            lemma_deal_children(tree, BOARD_TURN, tree.size() as nat);
            lemma_deal_children(tree, BOARD_RIVER, tree.size() as nat);
        }
        let (turn_subtree_nodes, turn_node_to_subtree) = subtree_lists(
            tree,
            &zones,
            Zone::Turn,
            &split.turn_chance_children,
        );
        let (river_subtree_nodes, river_node_to_subtree) = subtree_lists(
            tree,
            &zones,
            Zone::River,
            &split.river_chance_children,
        );
        let flop = ZoneBank::new(flop_book.infoset_count, nh, 1);
        let turn = ZoneBank::new(turn_book.infoset_count, nh, n_turn);
        let river = ZoneBank::new(river_book.infoset_count, nh, n_turn * max_n_river);
        FlopStartVectorCfr {
            num_players: tree.num_players,
            nh,
            zones,
            flop_book,
            turn_book,
            river_book,
            preflop_book,
            flop,
            turn,
            river,
            lens: Lens::identity(nh),
            river_mode: RiverPersistenceMode::InMemory,
            current_river_pair: None,
            river_chance_children: split.river_chance_children,
            turn_chance_children: split.turn_chance_children,
            n_turn,
            max_n_river,
            river_deck_sizes,
            river_counts,
            turn_subtree_nodes,
            river_subtree_nodes,
            turn_node_to_subtree,
            river_node_to_subtree,
            iteration: 0,
            debug: false,
            vanilla_mode: false,
            continuation_frozen: false,
        }
    }
}

/// Only the strategy differs.
pub open spec fn same_but_strategy<T>(a: &ZoneBank<T>, b: &ZoneBank<T>) -> bool {
    *b == (ZoneBank { strategy: b.strategy, ..*a }) && b.strategy@.len() == a.strategy@.len()
}

impl<T: Widen> FlopStartVectorCfr<T> {
    /// `s` is this solver with other buffers in `zone`.
    pub open spec fn differs_in(&self, s: &Self, zone: Zone) -> bool {
        match zone {
            Zone::Turn => *s == (FlopStartVectorCfr { turn: s.turn, ..*self }),
            Zone::River => *s == (FlopStartVectorCfr { river: s.river, ..*self }),
            _ => *s == (FlopStartVectorCfr { flop: s.flop, ..*self }),
        }
    }

    /// `s` is this solver with the strategy of `zone` set from values of its
    /// outcome for `tc` and `rc`: from the regrets, or from the averages.
    pub open spec fn matched(
        &self,
        tree: &FlatTree,
        zone: Zone,
        tc: int,
        rc: int,
        from_regrets: bool,
        s: &Self,
    ) -> bool {
        let was = self.bank(zone);
        let b = s.bank(zone);
        &&& self.differs_in(s, zone)
        &&& same_but_strategy(&was, &b)
        &&& strategy_of(
            tree,
            self.zones@,
            zone,
            &self.book(zone),
            self.nh as int,
            self.outcome(zone, tc, rc),
            if from_regrets {
                was.regrets@
            } else {
                was.cum@
            },
            if from_regrets {
                s_match_eps::<T>()
            } else {
                T::s_zero()
            },
            was.strategy@,
            b.strategy@,
        )
    }

    /// The buffer number of an outcome of the river.
    pub fn river_place(&self, tc: usize, rc: usize) -> (o: usize)
        requires
            self.n_turn * self.max_n_river <= usize::MAX,
            self.river_counts@.len() == self.n_turn,
            tc < self.n_turn,
            self.river_counts@[tc as int] <= self.max_n_river,
            rc < self.river_counts@[tc as int],
        ensures
            o == self.outcome(Zone::River, tc as int, rc as int),
    {
        if self.river_mode.in_memory() {
            proof {
                lemma_at_bound(self.max_n_river as int, self.n_turn as int, tc as int, rc as int);
            }
            tc * self.max_n_river + rc
        } else {
            0
        }
    }

    /// The flop strategy from the current regrets.
    pub fn compute_flop_strategy(&mut self, tree: &FlatTree)
        requires
            old(self).wf(tree),
        ensures
            final(self).wf(tree),
            old(self).matched(tree, Zone::Flop, 0, 0, true, &*final(self)),
    {
        self.flop.match_regrets(tree, &self.zones, Zone::Flop, &self.flop_book, 0);
    }

    /// The turn strategy of one turn card from its regrets.
    pub fn compute_turn_strategy_for_tc(&mut self, tree: &FlatTree, tc: usize)
        requires
            old(self).wf(tree),
            tc < old(self).n_turn,
        ensures
            final(self).wf(tree),
            old(self).matched(tree, Zone::Turn, tc as int, 0, true, &*final(self)),
    {
        self.turn.match_regrets(tree, &self.zones, Zone::Turn, &self.turn_book, tc);
    }

    /// The river strategy of one turn and river card from their regrets.
    pub fn compute_river_strategy_for_pair(&mut self, tree: &FlatTree, tc: usize, rc: usize)
        requires
            old(self).wf(tree),
            old(self).holds_outcome(Zone::River, tc as int, rc as int),
        ensures
            final(self).wf(tree),
            old(self).matched(tree, Zone::River, tc as int, rc as int, true, &*final(self)),
    {
        let o: usize = self.river_place(tc, rc);
        proof {
            self.lemma_outcome(tree, Zone::River, tc as int, rc as int);
        }
        self.river.match_regrets(tree, &self.zones, Zone::River, &self.river_book, o);
    }

    /// The flop strategy, and those of the first turn and river card if there
    /// are any.
    pub fn compute_all_strategies(&mut self, tree: &FlatTree)
        requires
            old(self).wf(tree),
            old(self).n_turn > 0 && old(self).max_n_river > 0 ==> old(self).holds_outcome(
                Zone::River,
                0,
                0,
            ),
        ensures
            final(self).wf(tree),
            exists|a: Self, b: Self|
                old(self).matched(tree, Zone::Flop, 0, 0, true, &a) && (if old(self).n_turn > 0 {
                    #[trigger] a.matched(tree, Zone::Turn, 0, 0, true, &b)
                } else {
                    b == a
                }) && (if old(self).n_turn > 0 && old(self).max_n_river > 0 {
                    #[trigger] b.matched(tree, Zone::River, 0, 0, true, &*final(self))
                } else {
                    *final(self) == b
                }),
    {
        let ghost first = *self;
        self.compute_flop_strategy(tree);
        let ghost a = *self;
        let mut with_turn = false;
        if self.n_turn > 0 {
            with_turn = true;
            self.compute_turn_strategy_for_tc(tree, 0);
        }
        let ghost b = *self;
        if with_turn && self.max_n_river > 0 {
            self.compute_river_strategy_for_pair(tree, 0, 0);
        }
        proof {
            let _ = a.matched(tree, Zone::Turn, 0, 0, true, &b);
            let _ = b.matched(tree, Zone::River, 0, 0, true, self);
        }
    }

    /// The average flop strategy.
    pub fn freeze_average_strategy_flop(&mut self, tree: &FlatTree)
        requires
            old(self).wf(tree),
        ensures
            final(self).wf(tree),
            old(self).matched(tree, Zone::Flop, 0, 0, false, &*final(self)),
    {
        self.flop.freeze_average(tree, &self.zones, Zone::Flop, &self.flop_book, 0);
    }

    /// The average turn strategy of one turn card.
    pub fn freeze_average_strategy_for_turn(&mut self, tree: &FlatTree, tc: usize)
        requires
            old(self).wf(tree),
            tc < old(self).n_turn,
        ensures
            final(self).wf(tree),
            old(self).matched(tree, Zone::Turn, tc as int, 0, false, &*final(self)),
    {
        self.turn.freeze_average(tree, &self.zones, Zone::Turn, &self.turn_book, tc);
    }

    /// The average river strategy of one turn and river card.
    pub fn freeze_average_strategy_for_river_pair(&mut self, tree: &FlatTree, tc: usize, rc: usize)
        requires
            old(self).wf(tree),
            old(self).holds_outcome(Zone::River, tc as int, rc as int),
        ensures
            final(self).wf(tree),
            old(self).matched(tree, Zone::River, tc as int, rc as int, false, &*final(self)),
    {
        let o: usize = self.river_place(tc, rc);
        proof {
            self.lemma_outcome(tree, Zone::River, tc as int, rc as int);
        }
        self.river.freeze_average(tree, &self.zones, Zone::River, &self.river_book, o);
    }

    /// The average flop strategy, and those of the first turn and river card if
    /// there are any.
    pub fn freeze_average_strategy(&mut self, tree: &FlatTree)
        requires
            old(self).wf(tree),
            old(self).n_turn > 0 && old(self).max_n_river > 0 ==> old(self).holds_outcome(
                Zone::River,
                0,
                0,
            ),
        ensures
            final(self).wf(tree),
            exists|a: Self, b: Self|
                old(self).matched(tree, Zone::Flop, 0, 0, false, &a) && (if old(self).n_turn > 0 {
                    #[trigger] a.matched(tree, Zone::Turn, 0, 0, false, &b)
                } else {
                    b == a
                }) && (if old(self).n_turn > 0 && old(self).max_n_river > 0 {
                    #[trigger] b.matched(tree, Zone::River, 0, 0, false, &*final(self))
                } else {
                    *final(self) == b
                }),
    {
        self.freeze_average_strategy_flop(tree);
        let ghost a = *self;
        let mut with_turn = false;
        if self.n_turn > 0 {
            with_turn = true;
            self.freeze_average_strategy_for_turn(tree, 0);
        }
        let ghost b = *self;
        if with_turn && self.max_n_river > 0 {
            self.freeze_average_strategy_for_river_pair(tree, 0, 0);
        }
        proof {
            let _ = a.matched(tree, Zone::Turn, 0, 0, false, &b);
            let _ = b.matched(tree, Zone::River, 0, 0, false, self);
        }
    }
}

/// Reach that starts with the rows `start` and went down through `zone`.
pub open spec fn is_zone_reach<T: Scalar>(
    tree: &FlatTree,
    zones: Seq<Zone>,
    zone: Zone,
    through_deals: bool,
    book: &ZoneBook,
    lens: &Lens,
    strategy: Seq<T>,
    nh: int,
    start: spec_fn(int) -> Seq<T>,
    reach: Seq<T>,
) -> bool {
    &&& reach.len() == tree.size() * (tree.np() * nh)
    &&& forall|i: int| #[trigger]
        passes_on(tree, zones, zone, through_deals, i) ==> fed_from(
            tree,
            book,
            lens,
            strategy,
            tree.np(),
            nh,
            reach,
            i,
        )
    &&& forall|c: int|
        tree.is_node(c) && !is_fed(tree, zones, zone, through_deals, c) ==> #[trigger] row(
            reach,
            tree.np() * nh,
            c,
        ) == start(c)
}

/// The initial weights at the root, nothing elsewhere.
pub open spec fn from_root<T: Widen>(table: &FlopChanceTable<T>, w: int) -> spec_fn(int) -> Seq<T> {
    |i: int|
        if i == 0 {
            joined(table.initial_weights@, table.num_players as nat)
        } else {
            flat(T::s_zero(), w)
        }
}

/// The rows of `src` at the marked nodes, nothing elsewhere.
pub open spec fn from_marks<T: Scalar>(marks: Seq<u32>, src: Seq<T>, w: int) -> spec_fn(int) -> Seq<
    T,
> {
    |i: int|
        if marks.contains(i as u32) {
            row(src, w, i)
        } else {
            flat(T::s_zero(), w)
        }
}

/// Joined rows have one entry per player and hand.
pub proof fn lemma_joined_len<T>(rows: Seq<Vec<T>>, n: nat, nh: int)
    requires
        n <= rows.len(),
        forall|p: int| 0 <= p < n ==> (#[trigger] rows[p])@.len() == nh,
    ensures
        joined(rows, n).len() == n * nh,
    decreases n,
{
    if n > 0 {
        lemma_joined_len(rows, (n - 1) as nat, nh);
        assert((n - 1) * nh + nh == n * nh) by (nonlinear_arith);
    } else {
        assert(0 * nh == 0) by (nonlinear_arith);
    }
}

impl<T: Widen> FlopStartVectorCfr<T> {
    /// The children of the deals of a street are rows to mark.
    pub proof fn lemma_marks(&self, tree: &FlatTree)
        requires
            self.wf(tree),
        ensures
            are_marks(self.turn_chance_children@, tree.size()),
            are_marks(self.river_chance_children@, tree.size()),
    {
        lemma_deal_children(tree, BOARD_TURN, tree.size() as nat);
        lemma_deal_children(tree, BOARD_RIVER, tree.size() as nat);
    }

    /// Entries of one node in the reach buffers, and of all nodes.
    fn reach_size(&self, tree: &FlatTree) -> (n: (usize, usize))
        requires
            self.wf(tree),
        ensures
            n.0 == tree.np() * self.nh,
            n.1 == tree.size() * (tree.np() * self.nh),
    {
        let np: usize = self.num_players as usize;
        proof {
            assert(0 <= np * self.nh <= 255 * 1326) by (nonlinear_arith)
                requires
                    np <= 255,
                    self.nh <= 1326,
            ;
        }
        let w: usize = np * self.nh;
        (w, tree.num_nodes() * w)
    }

    /// `reach` is what the current flop strategy makes of the initial weights.
    pub open spec fn is_flop_reach(
        &self,
        tree: &FlatTree,
        table: &FlopChanceTable<T>,
        reach: Seq<T>,
    ) -> bool {
        is_zone_reach(
            tree,
            self.zones@,
            Zone::Flop,
            true,
            &self.flop_book,
            &self.lens,
            self.flop.strategy@,
            self.nh as int,
            from_root(table, tree.np() * self.nh),
            reach,
        )
    }

    /// `reach` is what the current turn strategy makes of the flop's reach.
    pub open spec fn is_turn_reach(
        &self,
        tree: &FlatTree,
        flop_reach: Seq<T>,
        reach: Seq<T>,
    ) -> bool {
        is_zone_reach(
            tree,
            self.zones@,
            Zone::Turn,
            true,
            &self.turn_book,
            &self.lens,
            self.turn.strategy@,
            self.nh as int,
            from_marks(self.turn_chance_children@, flop_reach, tree.np() * self.nh),
            reach,
        )
    }

    /// `reach` is what the current river strategy makes of the turn's reach.
    pub open spec fn is_river_reach(
        &self,
        tree: &FlatTree,
        turn_reach: Seq<T>,
        reach: Seq<T>,
    ) -> bool {
        is_zone_reach(
            tree,
            self.zones@,
            Zone::River,
            false,
            &self.river_book,
            &self.lens,
            self.river.strategy@,
            self.nh as int,
            from_marks(self.river_chance_children@, turn_reach, tree.np() * self.nh),
            reach,
        )
    }

    /// Reach through the flop.
    pub fn compute_reach_flop(&self, tree: &FlatTree, table: &FlopChanceTable<T>) -> (reach: Vec<T>)
        requires
            self.wf(tree),
            self.is_for(table),
        ensures
            self.is_flop_reach(tree, table, reach@),
    {
        let (w, len) = self.reach_size(tree);
        let nn: usize = tree.num_nodes();
        let mut reach: Vec<T> = filled(T::zero(), len);
        let root = table.initial_weight_flat();
        let ghost wi = w as int;
        proof {
            lemma_joined_len(table.initial_weights@, table.num_players as nat, table.nh());
            assert(reach@ =~= flat(T::s_zero(), tree.size() * wi));
        }
        let ghost zeros = reach@;
        put_row(&mut reach, w, nn, 0, &root);
        let ghost start = reach@;
        propagate(
            tree,
            &self.zones,
            Zone::Flop,
            true,
            &self.flop_book,
            &self.lens,
            &self.flop.strategy,
            self.nh,
            &mut reach,
        );
        proof {
            assert forall|c: int|
                tree.is_node(c) && !is_fed(
                    tree,
                    self.zones@,
                    Zone::Flop,
                    true,
                    c,
                ) implies #[trigger] row(reach@, wi, c) == from_root(table, wi)(c) by {
                assert(row(reach@, wi, c) == row(start, wi, c));
                if c != 0 {
                    lemma_row_inside(wi, tree.size(), c);
                    lemma_other_row(zeros, start, wi, 0, c);
                    lemma_flat_row(T::s_zero(), wi, tree.size(), c);
                }
            }
        }
        reach
    }

    /// Zeros but for the marked rows, which are those of `src`.
    fn seeded(&self, tree: &FlatTree, marks: &Vec<u32>, src: &Vec<T>) -> (reach: Vec<T>)
        requires
            self.wf(tree),
            are_marks(marks@, tree.size()),
            src@.len() == tree.size() * (tree.np() * self.nh),
        ensures
            reach@.len() == src@.len(),
            forall|c: int|
                tree.is_node(c) ==> #[trigger] row(reach@, tree.np() * self.nh, c) == from_marks(
                    marks@,
                    src@,
                    tree.np() * self.nh,
                )(c),
    {
        let (w, len) = self.reach_size(tree);
        let nn: usize = tree.num_nodes();
        let mut reach: Vec<T> = filled(T::zero(), len);
        let ghost wi = w as int;
        assert(reach@ =~= flat(T::s_zero(), tree.size() * wi));
        let ghost zeros = reach@;
        copy_rows(marks, w, nn, src, &mut reach);
        proof {
            assert forall|c: int| tree.is_node(c) implies #[trigger] row(reach@, wi, c)
                == from_marks(marks@, src@, wi)(c) by {
                lemma_flat_row(T::s_zero(), wi, tree.size(), c);
                assert(row(reach@, wi, c) == if marks@.contains(c as u32) {
                    same_row(src@, wi)(c)
                } else {
                    row(zeros, wi, c)
                });
            }
        }
        reach
    }

    /// Reach through the turn, for the turn card whose strategy is current.
    pub fn compute_reach_turn(&self, tree: &FlatTree, flop_reach: &Vec<T>) -> (reach: Vec<T>)
        requires
            self.wf(tree),
            flop_reach@.len() == tree.size() * (tree.np() * self.nh),
        ensures
            self.is_turn_reach(tree, flop_reach@, reach@),
    {
        proof {
            self.lemma_marks(tree);
        }
        let mut reach = self.seeded(tree, &self.turn_chance_children, flop_reach);
        propagate(
            tree,
            &self.zones,
            Zone::Turn,
            true,
            &self.turn_book,
            &self.lens,
            &self.turn.strategy,
            self.nh,
            &mut reach,
        );
        reach
    }

    /// Reach through the river, for the pair whose strategy is current.
    pub fn compute_reach_river(&self, tree: &FlatTree, turn_reach: &Vec<T>) -> (reach: Vec<T>)
        requires
            self.wf(tree),
            turn_reach@.len() == tree.size() * (tree.np() * self.nh),
        ensures
            self.is_river_reach(tree, turn_reach@, reach@),
    {
        proof {
            self.lemma_marks(tree);
        }
        let mut reach = self.seeded(tree, &self.river_chance_children, turn_reach);
        propagate(
            tree,
            &self.zones,
            Zone::River,
            false,
            &self.river_book,
            &self.lens,
            &self.river.strategy,
            self.nh,
            &mut reach,
        );
        reach
    }
}

/// The reach rows of all players at node `i`.
pub open spec fn seats<T>(reach: Seq<T>, np: int, nh: int, i: int) -> Seq<Seq<T>> {
    Seq::new(np as nat, |p: int| seat(reach, np, nh, i, p))
}

/// The cards on the board in `zone` at turn place `tc` and river place `rc`.
pub open spec fn dealt_in<T: Widen>(
    table: &FlopChanceTable<T>,
    zone: Zone,
    tc: int,
    rc: int,
) -> Dealt {
    let t = table.remaining_deck@[tc];
    match zone {
        Zone::Turn => Dealt { turn: Some(t), river: None },
        Zone::River => Dealt {
            turn: Some(t),
            river: Some(table.river_decks@[t as int]@[rc]),
        },
        _ => Dealt { turn: None, river: None },
    }
}

/// What one traverser's pass runs on.
pub struct Setting<'a, T: Widen, F> {
    pub tree: &'a FlatTree,
    pub table: &'a FlopChanceTable<T>,
    pub showdown: &'a F,
    pub traverser: u8,
    pub params: DcfrParams<T>,
}

impl<'a, T: Widen, F: Fn(&TerminalSpot<T>) -> Vec<T>> Setting<'a, T, F> {
    pub open spec fn wf(&self) -> bool {
        &&& is_table_for(self.table, self.tree)
        &&& is_evaluator(self.showdown, self.tree.np(), self.table.nh())
        &&& self.traverser < self.tree.num_players
    }

    /// The values of the terminals under `reach`, by node.
    pub open spec fn terminal_row(&self, dealt: Dealt, reach: Seq<T>) -> spec_fn(int) -> Seq<T> {
        |i: int|
            terminal_value_of(
                self.showdown,
                self.tree,
                self.table,
                &dealt,
                seats(reach, self.tree.np(), self.table.nh(), i),
                self.traverser,
                i,
            )
    }
}

impl<T: Widen> FlopStartVectorCfr<T> {
    /// The zone plays a frozen strategy.
    pub open spec fn is_frozen(&self, zone: Zone) -> bool {
        self.continuation_frozen && (zone == Zone::Turn || zone == Zone::River)
    }

    /// `s` is this solver after a bottom-up pass over `zone` under `reach`, and
    /// `cfv` the values it found; rows outside the zone are those of `was`.
    pub open spec fn passed<F: Fn(&TerminalSpot<T>) -> Vec<T>>(
        &self,
        at_: &Setting<T, F>,
        zone: Zone,
        tc: int,
        rc: int,
        reach: Seq<T>,
        was: Seq<T>,
        cfv: Seq<T>,
        s: &Self,
    ) -> bool {
        &&& self.differs_in(s, zone)
        &&& zone_valued(
            at_.tree,
            self.zones@,
            zone,
            &self.book(zone),
            &self.lens,
            self.bank(zone).strategy@,
            self.nh as int,
            at_.traverser,
            at_.terminal_row(dealt_in(at_.table, zone, tc, rc), reach),
            was,
            cfv,
        )
        &&& if self.is_frozen(zone) {
            *s == *self
        } else {
            bank_learned(
                at_.tree,
                self.zones@,
                zone,
                &self.book(zone),
                &self.lens,
                None,
                cfv,
                self.nh as int,
                at_.traverser,
                &at_.params,
                self.outcome(zone, tc, rc),
                &self.bank(zone),
                &s.bank(zone),
            )
        }
    }

    /// The cards on the board, and that they are cards.
    fn dealt_for(&self, table: &FlopChanceTable<T>, zone: Zone, tc: usize, rc: usize) -> (d: Dealt)
        requires
            self.is_for(table),
            self.river_counts@.len() == self.n_turn,
            self.holds_outcome(zone, tc as int, rc as int),
        ensures
            d == dealt_in(table, zone, tc as int, rc as int),
            d.wf(),
    {
        match zone {
            Zone::Turn => {
                let t: u8 = table.remaining_deck[tc];
                assert(table.remaining_deck@[tc as int] < 52);
                Dealt { turn: Some(t), river: None }
            },
            Zone::River => {
                let t: u8 = table.remaining_deck[tc];
                assert(table.remaining_deck@[tc as int] < 52);
                assert(self.river_counts@[tc as int] == table.river_decks@[t as int]@.len());
                let r: u8 = table.river_decks[t as usize][rc];
                assert(table.river_decks@[t as int]@[rc as int] < 52);
                Dealt { turn: Some(t), river: Some(r) }
            },
            _ => Dealt { turn: None, river: None },
        }
    }

    /// The values of the zone's terminals under `reach`.
    fn zone_terminals<F: Fn(&TerminalSpot<T>) -> Vec<T>>(
        &self,
        at_: &Setting<T, F>,
        zone: Zone,
        dealt: &Dealt,
        reach: &Vec<T>,
    ) -> (terminal: Vec<T>)
        requires
            self.wf(at_.tree),
            self.is_for(at_.table),
            at_.wf(),
            dealt.wf(),
            reach@.len() == at_.tree.size() * (at_.tree.np() * self.nh),
        ensures
            terminal@.len() == at_.tree.size() * self.nh,
            forall|i: int|
                at_.tree.is_node(i) && self.zones@[i] == zone && at_.tree.nodes@[i].is_terminal()
                    ==> #[trigger] row(terminal@, self.nh as int, i) == at_.terminal_row(
                    *dealt,
                    reach@,
                )(i),
    {
        let tree = at_.tree;
        let nn: usize = tree.num_nodes();
        let nh: usize = self.nh;
        let np: usize = self.num_players as usize;
        let (w, len) = self.reach_size(tree);
        proof {
            assert(nn * nh <= nn * (np * nh)) by (nonlinear_arith)
                requires
                    1 <= np,
                    0 <= nn,
                    0 <= nh,
            ;
        }
        let mut terminal: Vec<T> = filled(T::zero(), nn * nh);
        let mut i: usize = 0;
        while i < nn
            invariant
                i <= nn,
                nn == tree.size(),
                tree == at_.tree,
                nh == self.nh,
                np == tree.np(),
                w == np * nh,
                self.wf(at_.tree),
                self.is_for(at_.table),
                at_.wf(),
                dealt.wf(),
                reach@.len() == nn * w,
                terminal@.len() == nn * nh,
                forall|j: int|
                    0 <= j < i && self.zones@[j] == zone && tree.nodes@[j].is_terminal()
                        ==> #[trigger] row(terminal@, nh as int, j) == at_.terminal_row(
                        *dealt,
                        reach@,
                    )(j),
            decreases nn - i,
        {
            if self.zones[i] == zone && tree.nodes[i].is_terminal() {
                let here = get_row(reach, w, nn, i);
                let mut rows: Vec<Vec<T>> = Vec::new();
                let mut p: usize = 0;
                while p < np
                    invariant
                        p <= np,
                        here@ == row(reach@, np * nh, i as int),
                        here@.len() == np * nh,
                        rows@.len() == p,
                        forall|q: int|
                            0 <= q < p ==> (#[trigger] rows@[q])@ == seat(
                                reach@,
                                np as int,
                                nh as int,
                                i as int,
                                q,
                            ) && rows@[q]@.len() == nh,
                    decreases np - p,
                {
                    rows.push(get_row(&here, nh, np, p));
                    p += 1;
                }
                let values = terminal_values(
                    at_.showdown,
                    tree,
                    at_.table,
                    dealt,
                    &rows,
                    at_.traverser,
                    i,
                );
                let ghost was = terminal@;
                put_row(&mut terminal, nh, nn, i, &values);
                proof {
                    assert(views(rows@) =~= seats(reach@, np as int, nh as int, i as int));
                    lemma_terminal_value(
                        at_.showdown,
                        tree,
                        at_.table,
                        dealt,
                        views(rows@),
                        at_.traverser,
                        i as int,
                        values@,
                    );
                    assert forall|j: int|
                        0 <= j < i + 1 && self.zones@[j] == zone
                            && tree.nodes@[j].is_terminal() implies #[trigger] row(
                        terminal@,
                        nh as int,
                        j,
                    ) == at_.terminal_row(*dealt, reach@)(j) by {
                        if j < i {
                            lemma_row_inside(nh as int, nn as int, j);
                            lemma_other_row(
                                was,
                                terminal@,
                                nh as int,
                                i as int,
                                j,
                            );
                            assert(row(was, nh as int, j) == at_.terminal_row(*dealt, reach@)(j));
                        }
                    }
                }
            }
            i += 1;
        }
        terminal
    }

    /// One bottom-up pass over a zone: terminals are valued, every other node
    /// from its children, and the traverser's decisions learn.
    pub fn bottom_up_zone<F: Fn(&TerminalSpot<T>) -> Vec<T>>(
        &mut self,
        at_: &Setting<T, F>,
        reach: &Vec<T>,
        cfv: &mut Vec<T>,
        zone: Zone,
        tc: usize,
        rc: usize,
    )
        requires
            old(self).wf(at_.tree),
            old(self).is_for(at_.table),
            at_.wf(),
            zone != Zone::Preflop,
            old(self).holds_outcome(zone, tc as int, rc as int),
            reach@.len() == at_.tree.size() * (at_.tree.np() * old(self).nh),
            old(cfv)@.len() == at_.tree.size() * old(self).nh,
        ensures
            final(self).wf(at_.tree),
            final(self).is_for(at_.table),
            old(self).passed(
                at_,
                zone,
                tc as int,
                rc as int,
                reach@,
                old(cfv)@,
                final(cfv)@,
                &*final(self),
            ),
    {
        let dealt = self.dealt_for(at_.table, zone, tc, rc);
        let terminal = self.zone_terminals(at_, zone, &dealt, reach);
        let frozen = self.continuation_frozen && (zone == Zone::Turn || zone == Zone::River);
        let ghost was = *self;
        let ghost cfv0 = cfv@;
        proof {
            self.lemma_outcome(at_.tree, zone, tc as int, rc as int);
        }
        match zone {
            Zone::Turn => {
                self.turn.pass(
                    at_.tree,
                    &self.zones,
                    zone,
                    &self.turn_book,
                    &self.lens,
                    None,
                    self.nh,
                    at_.traverser,
                    &terminal,
                    cfv,
                    &at_.params,
                    tc,
                    frozen,
                );
            },
            Zone::River => {
                let o: usize = self.river_place(tc, rc);
                self.river.pass(
                    at_.tree,
                    &self.zones,
                    zone,
                    &self.river_book,
                    &self.lens,
                    None,
                    self.nh,
                    at_.traverser,
                    &terminal,
                    cfv,
                    &at_.params,
                    o,
                    frozen,
                );
            },
            _ => {
                self.flop.pass(
                    at_.tree,
                    &self.zones,
                    zone,
                    &self.flop_book,
                    &self.lens,
                    None,
                    self.nh,
                    at_.traverser,
                    &terminal,
                    cfv,
                    &at_.params,
                    0,
                    frozen,
                );
            },
        }
        proof {
            let tree = at_.tree;
            let nh = was.nh as int;
            assert forall|i: int|
                tree.is_node(i) && was.zones@[i] == zone
                    && tree.nodes@[i].is_terminal() implies #[trigger] row(cfv@, nh, i)
                == at_.terminal_row(dealt, reach@)(i) by {
                assert(row(cfv@, nh, i) == same_row(terminal@, nh)(i));
                assert(row(terminal@, nh, i) == at_.terminal_row(dealt, reach@)(i));
            }
        }
    }
}

} // verus!
