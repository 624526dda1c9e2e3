//! Per-outcome CFR on a flop-start tree whose regrets and strategies are kept per
//! bucket of hands; reach and values stay per hand.
use vstd::prelude::*;

use crate::bank::{room, strategy_of, ZoneBank};
use crate::bucketed_showdown::MAX_OPP;
use crate::buckets::{
    bucket_terminal, bucket_terminal_values, river_deck, BucketLayer, FlopBucketing,
};
use crate::flop_access::local_of;
use crate::flop_run::{
    list_river_chances, list_turn_chances, plus_rows, river_chances, turn_chances,
};
use crate::flop_start_game::{lemma_distinct_take, FlopChanceTable};
use crate::flop_start_vector_cfr::{
    bank_fits, dealt_in, from_marks, from_root, is_zone_reach, lemma_joined_len,
    lemma_longest_river, longest_river, same_but_strategy, seats, zone_map, zone_size,
};
use crate::layout::{
    at, flat, get_row, lemma_at_bound, lemma_flat_row, lemma_other_row, lemma_row_inside, put_row,
    row,
};
use crate::learn::{counts_on, discounts, DcfrParams};
use crate::rows::{
    add_rows, are_marks, copy_rows, over_count, plus_row, row_over, row_sum, rows_set, same_row,
    sum_row, zero_row, zero_rows,
};
use crate::scalar::{filled, s_match_eps, Scalar, Widen};
use crate::sweep::{is_fed, propagate, seat};
use crate::terminal::{is_table_for, views, Dealt};
use crate::tree::{BOARD_PREFLOP, BOARD_RIVER, BOARD_TURN, FlatTree, UNUSED};
use crate::zone_pass::{bank_learned, zone_valued};
use crate::zones::{classify, deal_children, lemma_deal_children, Zone, ZoneBook};

verus! {

/// Per-outcome CFR per bucket of hands: one copy of the flop's regrets, one per turn
/// card of the turn's, one per turn and river card of the river's.
pub struct BucketedFlopCfr<T: Widen> {
    pub num_players: u8,
    pub nh: usize,
    pub zones: Vec<Zone>,
    pub flop_book: ZoneBook,
    pub turn_book: ZoneBook,
    pub river_book: ZoneBook,
    pub flop: ZoneBank<T>,
    pub turn: ZoneBank<T>,
    pub river: ZoneBank<T>,
    pub river_chance_children: Vec<u32>,
    pub turn_chance_children: Vec<u32>,
    pub n_turn: usize,
    pub max_n_river: usize,
    /// River cards by turn card.
    pub river_deck_sizes: Vec<usize>,
    /// River cards by turn place.
    pub river_counts: Vec<usize>,
    pub iteration: u32,
}

/// The buckets that `zone` uses at turn place `tc` and river place `rc`.
pub open spec fn layer_of<T: Widen>(bk: &FlopBucketing<T>, zone: Zone, tc: int, rc: int) -> BucketLayer<
    T,
> {
    match zone {
        Zone::Turn => bk.turn@[tc],
        Zone::River => bk.river@[tc]@[rc],
        _ => bk.flop,
    }
}

impl<T: Widen> BucketedFlopCfr<T> {
    /// The solver belongs to `tree`, and its parts fit together.
    pub open spec fn wf(&self, tree: &FlatTree) -> bool {
        &&& tree.wf()
        &&& tree.fits_postflop()
        &&& self.num_players == tree.num_players
        &&& self.nh <= 1326
        &&& tree.size() * (tree.np() * self.nh) <= usize::MAX
        &&& self.zones@ == zone_map(tree)
        &&& self.flop_book.of(tree, self.zones@, Zone::Flop)
        &&& self.turn_book.of(tree, self.zones@, Zone::Turn)
        &&& self.river_book.of(tree, self.zones@, Zone::River)
        &&& self.flop.for_book(&self.flop_book)
        &&& self.turn.for_book(&self.turn_book)
        &&& self.river.for_book(&self.river_book)
        &&& self.flop.outcomes == 1
        &&& self.turn.outcomes == self.n_turn
        &&& self.river.outcomes == self.n_turn * self.max_n_river
        &&& self.n_turn * self.max_n_river <= usize::MAX
        &&& self.turn_chance_children@ == deal_children(tree, BOARD_TURN, tree.size() as nat)
        &&& self.river_chance_children@ == deal_children(tree, BOARD_RIVER, tree.size() as nat)
        &&& self.river_deck_sizes@.len() == 52
        &&& self.river_counts@.len() == self.n_turn
        &&& forall|k: int|
            0 <= k < self.n_turn ==> (#[trigger] self.river_counts@[k]) <= self.max_n_river
    }

    /// The solver was made for `table` and its buckets.
    pub open spec fn is_for(&self, table: &FlopChanceTable<T>, bk: &FlopBucketing<T>) -> bool {
        &&& table.wf()
        &&& table.num_players == self.num_players
        &&& self.nh == table.num_valid
        &&& self.n_turn == table.remaining_deck@.len()
        &&& forall|k: int|
            0 <= k < self.n_turn ==> (#[trigger] self.river_counts@[k])
                == table.river_decks@[table.remaining_deck@[k] as int]@.len()
        &&& bk.wf(table)
        &&& self.flop.width == bk.nb_flop
        &&& self.turn.width == bk.nb_turn
        &&& self.river.width == bk.nb_river
    }

    pub open spec fn book(&self, zone: Zone) -> ZoneBook {
        match zone {
            Zone::Turn => self.turn_book,
            Zone::River => self.river_book,
            _ => self.flop_book,
        }
    }

    pub open spec fn bank(&self, zone: Zone) -> ZoneBank<T> {
        match zone {
            Zone::Turn => self.turn,
            Zone::River => self.river,
            _ => self.flop,
        }
    }

    /// The copy of the zone's buffers that turn place `tc` and river place `rc`
    /// use.
    pub open spec fn outcome(&self, zone: Zone, tc: int, rc: int) -> int {
        match zone {
            Zone::Turn => tc,
            Zone::River => at(self.max_n_river as int, tc, rc),
            _ => 0,
        }
    }

    /// The deck has turn place `tc` and river place `rc`, as far as the zone needs
    /// them.
    pub open spec fn holds_outcome(&self, zone: Zone, tc: int, rc: int) -> bool {
        match zone {
            Zone::Turn => 0 <= tc < self.n_turn,
            Zone::River => 0 <= tc < self.n_turn && 0 <= rc < self.river_counts@[tc],
            Zone::Flop => true,
            Zone::Preflop => false,
        }
    }

    pub proof fn lemma_outcome(&self, tree: &FlatTree, zone: Zone, tc: int, rc: int)
        requires
            self.wf(tree),
            self.holds_outcome(zone, tc, rc),
        ensures
            0 <= self.outcome(zone, tc, rc) < self.bank(zone).outcomes,
    {
        if zone == Zone::River {
            assert(self.river_counts@[tc] <= self.max_n_river);
            lemma_at_bound(self.max_n_river as int, self.n_turn as int, tc, rc);
        }
    }

    /// The buckets of an outcome fit its buffers.
    pub proof fn lemma_layer(
        &self,
        table: &FlopChanceTable<T>,
        bk: &FlopBucketing<T>,
        zone: Zone,
        tc: int,
        rc: int,
    )
        requires
            self.is_for(table, bk),
            self.holds_outcome(zone, tc, rc),
        ensures
            layer_of(bk, zone, tc, rc).wf(self.nh as int, self.bank(zone).width as int),
            zone == Zone::River ==> rc < bk.river@[tc]@.len(),
    {
        if zone == Zone::River {
            assert(self.river_counts@[tc] == table.river_decks@[table.remaining_deck@[tc] as int]@.len());
            assert(bk.river@[tc]@.len() == river_deck(table, tc).len());
            assert(bk.river@[tc]@[rc].wf(self.nh as int, bk.nb_river as int));
        } else if zone == Zone::Turn {
            assert(bk.turn@[tc].wf(self.nh as int, bk.nb_turn as int));
        }
    }

    /// Every buffer zero.
    pub fn new(tree: &FlatTree, table: &FlopChanceTable<T>, bucketing: &FlopBucketing<T>) -> (solver:
        BucketedFlopCfr<T>)
        requires
            tree.wf(),
            tree.fits_postflop(),
            is_table_for(table, tree),
            bucketing.wf(table),
            tree.nodes@[0].board_state != BOARD_PREFLOP,
            tree.size() * (tree.np() * table.nh()) <= usize::MAX,
            room(bucketing.nb_flop as int) <= usize::MAX,
            room(bucketing.nb_turn as int) <= usize::MAX,
            room(bucketing.nb_river as int) <= usize::MAX,
            bank_fits(1, zone_size(tree, Zone::Flop), bucketing.nb_flop as int),
            bank_fits(
                table.remaining_deck@.len() as int,
                zone_size(tree, Zone::Turn),
                bucketing.nb_turn as int,
            ),
            bank_fits(
                (table.remaining_deck@.len() * longest_river(table, table.remaining_deck@.len())) as int,
                zone_size(tree, Zone::River),
                bucketing.nb_river as int,
            ),
        ensures
            solver.wf(tree),
            solver.is_for(table, bucketing),
            solver.max_n_river == longest_river(table, table.remaining_deck@.len()),
            forall|c: int|
                0 <= c < 52 ==> #[trigger] solver.river_deck_sizes@[c]
                    == if table.remaining_deck@.contains(c as u8) {
                    table.river_decks@[c]@.len() as int
                } else {
                    0
                },
            forall|zone: Zone| zone != Zone::Preflop ==> {
                let b = #[trigger] solver.bank(zone);
                &&& b.regrets@ == flat(T::s_zero(), b.outcomes * b.infosets * room(b.width as int))
                &&& b.cum@ == flat(T::s_zero(), b.outcomes * b.infosets * room(b.width as int))
                &&& b.strategy@ == flat(T::s_zero(), b.infosets * room(b.width as int))
            },
            solver.iteration == 0,
    {
        let split = classify(tree);
        let zones = split.zones;
        assert(zones@ =~= zone_map(tree));
        let flop_book = ZoneBook::build(tree, &zones, Zone::Flop);
        let turn_book = ZoneBook::build(tree, &zones, Zone::Turn);
        let river_book = ZoneBook::build(tree, &zones, Zone::River);
        let nh: usize = table.num_valid;
        let n_turn: usize = table.remaining_deck.len();
        let mut max_n_river: usize = 0;
        let mut river_counts: Vec<usize> = Vec::new();
        let mut river_deck_sizes: Vec<usize> = filled(0, 52);
        let ghost deck = table.remaining_deck@;
        let mut k: usize = 0;
        assert(deck.take(0) =~= Seq::<u8>::empty());
        while k < n_turn
            invariant
                k <= n_turn,
                n_turn == deck.len(),
                deck == table.remaining_deck@,
                table.wf(),
                max_n_river == longest_river(table, k as nat),
                max_n_river <= 52,
                river_counts@.len() == k,
                forall|j: int|
                    0 <= j < k ==> (#[trigger] river_counts@[j])
                        == table.river_decks@[deck[j] as int]@.len(),
                river_deck_sizes@.len() == 52,
                forall|c: int|
                    0 <= c < 52 ==> #[trigger] river_deck_sizes@[c] == if deck.take(
                        k as int,
                    ).contains(c as u8) {
                        table.river_decks@[c]@.len() as int
                    } else {
                        0
                    },
            decreases n_turn - k,
        {
            let tc: usize = table.remaining_deck[k] as usize;
            assert(table.remaining_deck@[k as int] < 52);
            assert(table.river_decks@[tc as int]@.len() <= 52);
            let len: usize = table.river_decks[tc].len();
            if len > max_n_river {
                max_n_river = len;
            }
            river_counts.push(len);
            let ghost sizes0 = river_deck_sizes@;
            river_deck_sizes[tc] = len;
            proof {
                assert forall|c: int| 0 <= c < 52 implies #[trigger] river_deck_sizes@[c]
                    == if deck.take(k + 1).contains(c as u8) {
                    table.river_decks@[c]@.len() as int
                } else {
                    0
                } by {
                    lemma_distinct_take(deck, k as int, c as u8);
                    assert(sizes0[c] == if deck.take(k as int).contains(c as u8) {
                        table.river_decks@[c]@.len() as int
                    } else {
                        0
                    });
                }
            }
            k += 1;
        }
        proof {
            assert(deck.take(n_turn as int) =~= deck);
            assert forall|j: int| 0 <= j < n_turn implies (#[trigger] river_counts@[j])
                <= max_n_river by {
                lemma_longest_river(table, n_turn as nat, j);
            }
            assert(n_turn * max_n_river <= 2704) by (nonlinear_arith)
                requires
                    n_turn <= 52,
                    max_n_river <= 52,
            ;
            lemma_deal_children(tree, BOARD_TURN, tree.size() as nat);
            lemma_deal_children(tree, BOARD_RIVER, tree.size() as nat);
        }
        let flop = ZoneBank::new(flop_book.infoset_count, bucketing.nb_flop, 1);
        let turn = ZoneBank::new(turn_book.infoset_count, bucketing.nb_turn, n_turn);
        let river = ZoneBank::new(
            river_book.infoset_count,
            bucketing.nb_river,
            n_turn * max_n_river,
        );
        BucketedFlopCfr {
            num_players: tree.num_players,
            nh,
            zones,
            flop_book,
            turn_book,
            river_book,
            flop,
            turn,
            river,
            river_chance_children: split.river_chance_children,
            turn_chance_children: split.turn_chance_children,
            n_turn,
            max_n_river,
            river_deck_sizes,
            river_counts,
            iteration: 0,
        }
    }

    /// `s` is this solver with other buffers in `zone`.
    pub open spec fn differs_in(&self, s: &Self, zone: Zone) -> bool {
        match zone {
            Zone::Turn => *s == (BucketedFlopCfr { turn: s.turn, ..*self }),
            Zone::River => *s == (BucketedFlopCfr { river: s.river, ..*self }),
            _ => *s == (BucketedFlopCfr { flop: s.flop, ..*self }),
        }
    }

    /// `s` is this solver with the strategy of `zone` regret-matched from its
    /// outcome for `tc` and `rc`.
    pub open spec fn matched(&self, tree: &FlatTree, zone: Zone, tc: int, rc: int, s: &Self) -> bool {
        let was = self.bank(zone);
        let b = s.bank(zone);
        &&& self.differs_in(s, zone)
        &&& same_but_strategy(&was, &b)
        &&& strategy_of(
            tree,
            self.zones@,
            zone,
            &self.book(zone),
            was.width as int,
            self.outcome(zone, tc, rc),
            was.regrets@,
            s_match_eps::<T>(),
            was.strategy@,
            b.strategy@,
        )
    }

    /// The buffer number of an outcome of the river.
    pub fn river_place(&self, tc: usize, rc: usize) -> (o: usize)
        requires
            self.n_turn * self.max_n_river <= usize::MAX,
            self.river_counts@.len() == self.n_turn,
            tc < self.n_turn,
            self.river_counts@[tc as int] <= self.max_n_river,
            rc < self.river_counts@[tc as int],
        ensures
            o == self.outcome(Zone::River, tc as int, rc as int),
    {
        proof {
            lemma_at_bound(self.max_n_river as int, self.n_turn as int, tc as int, rc as int);
        }
        tc * self.max_n_river + rc
    }

    /// The flop strategy from the current regrets.
    pub fn compute_flop_strategy(&mut self, tree: &FlatTree)
        requires
            old(self).wf(tree),
        ensures
            final(self).wf(tree),
            old(self).matched(tree, Zone::Flop, 0, 0, &*final(self)),
    {
        self.flop.match_regrets(tree, &self.zones, Zone::Flop, &self.flop_book, 0);
    }

    /// The turn strategy of one turn card from its regrets.
    pub fn compute_turn_strategy_for_tc(&mut self, tree: &FlatTree, tc: usize)
        requires
            old(self).wf(tree),
            tc < old(self).n_turn,
        ensures
            final(self).wf(tree),
            old(self).matched(tree, Zone::Turn, tc as int, 0, &*final(self)),
    {
        self.turn.match_regrets(tree, &self.zones, Zone::Turn, &self.turn_book, tc);
    }

    /// The river strategy of one turn and river card from their regrets.
    pub fn compute_river_strategy_for_pair(&mut self, tree: &FlatTree, tc: usize, rc: usize)
        requires
            old(self).wf(tree),
            old(self).holds_outcome(Zone::River, tc as int, rc as int),
        ensures
            final(self).wf(tree),
            old(self).matched(tree, Zone::River, tc as int, rc as int, &*final(self)),
    {
        let o: usize = self.river_place(tc, rc);
        proof {
            self.lemma_outcome(tree, Zone::River, tc as int, rc as int);
        }
        self.river.match_regrets(tree, &self.zones, Zone::River, &self.river_book, o);
    }
}

impl<T: Widen> BucketedFlopCfr<T> {
    /// The children of the deals of a street are rows to mark.
    pub proof fn lemma_marks(&self, tree: &FlatTree)
        requires
            self.wf(tree),
        ensures
            are_marks(self.turn_chance_children@, tree.size()),
            are_marks(self.river_chance_children@, tree.size()),
    {
        lemma_deal_children(tree, BOARD_TURN, tree.size() as nat);
        lemma_deal_children(tree, BOARD_RIVER, tree.size() as nat);
    }

    /// Entries of one node in the reach buffers, and of all nodes.
    fn reach_size(&self, tree: &FlatTree) -> (n: (usize, usize))
        requires
            self.wf(tree),
        ensures
            n.0 == tree.np() * self.nh,
            n.1 == tree.size() * (tree.np() * self.nh),
    {
        let np: usize = self.num_players as usize;
        proof {
            assert(0 <= np * self.nh <= 255 * 1326) by (nonlinear_arith)
                requires
                    np <= 255,
                    self.nh <= 1326,
            ;
        }
        let w: usize = np * self.nh;
        (w, tree.num_nodes() * w)
    }

    /// `reach` is what the current flop strategy makes of the initial weights.
    pub open spec fn is_flop_reach(
        &self,
        tree: &FlatTree,
        table: &FlopChanceTable<T>,
        bk: &FlopBucketing<T>,
        reach: Seq<T>,
    ) -> bool {
        is_zone_reach(
            tree,
            self.zones@,
            Zone::Flop,
            true,
            &self.flop_book,
            &layer_of(bk, Zone::Flop, 0, 0).lens,
            self.flop.strategy@,
            self.nh as int,
            from_root(table, tree.np() * self.nh),
            reach,
        )
    }

    /// `reach` is what the current turn strategy makes of the flop's reach.
    pub open spec fn is_turn_reach(
        &self,
        tree: &FlatTree,
        bk: &FlopBucketing<T>,
        tc: int,
        flop_reach: Seq<T>,
        reach: Seq<T>,
    ) -> bool {
        is_zone_reach(
            tree,
            self.zones@,
            Zone::Turn,
            true,
            &self.turn_book,
            &layer_of(bk, Zone::Turn, tc, 0).lens,
            self.turn.strategy@,
            self.nh as int,
            from_marks(self.turn_chance_children@, flop_reach, tree.np() * self.nh),
            reach,
        )
    }

    /// `reach` is what the current river strategy makes of the turn's reach.
    pub open spec fn is_river_reach(
        &self,
        tree: &FlatTree,
        bk: &FlopBucketing<T>,
        tc: int,
        rc: int,
        turn_reach: Seq<T>,
        reach: Seq<T>,
    ) -> bool {
        is_zone_reach(
            tree,
            self.zones@,
            Zone::River,
            false,
            &self.river_book,
            &layer_of(bk, Zone::River, tc, rc).lens,
            self.river.strategy@,
            self.nh as int,
            from_marks(self.river_chance_children@, turn_reach, tree.np() * self.nh),
            reach,
        )
    }

    /// Reach through the flop.
    pub fn compute_reach_flop(
        &self,
        tree: &FlatTree,
        table: &FlopChanceTable<T>,
        bk: &FlopBucketing<T>,
    ) -> (reach: Vec<T>)
        requires
            self.wf(tree),
            self.is_for(table, bk),
        ensures
            self.is_flop_reach(tree, table, bk, reach@),
    {
        let (w, len) = self.reach_size(tree);
        let nn: usize = tree.num_nodes();
        let mut reach: Vec<T> = filled(T::zero(), len);
        let root = table.initial_weight_flat();
        let ghost wi = w as int;
        proof {
            lemma_joined_len(table.initial_weights@, table.num_players as nat, table.nh());
            assert(reach@ =~= flat(T::s_zero(), tree.size() * wi));
        }
        let ghost zeros = reach@;
        put_row(&mut reach, w, nn, 0, &root);
        let ghost start = reach@;
        propagate(
            tree,
            &self.zones,
            Zone::Flop,
            true,
            &self.flop_book,
            &bk.flop.lens,
            &self.flop.strategy,
            self.nh,
            &mut reach,
        );
        proof {
            assert forall|c: int|
                tree.is_node(c) && !is_fed(
                    tree,
                    self.zones@,
                    Zone::Flop,
                    true,
                    c,
                ) implies #[trigger] row(reach@, wi, c) == from_root(table, wi)(c) by {
                assert(row(reach@, wi, c) == row(start, wi, c));
                if c != 0 {
                    lemma_row_inside(wi, tree.size(), c);
                    lemma_other_row(zeros, start, wi, 0, c);
                    lemma_flat_row(T::s_zero(), wi, tree.size(), c);
                }
            }
        }
        reach
    }

    /// Zeros but for the marked rows, which are those of `src`.
    fn seeded(&self, tree: &FlatTree, marks: &Vec<u32>, src: &Vec<T>) -> (reach: Vec<T>)
        requires
            self.wf(tree),
            are_marks(marks@, tree.size()),
            src@.len() == tree.size() * (tree.np() * self.nh),
        ensures
            reach@.len() == src@.len(),
            forall|c: int|
                tree.is_node(c) ==> #[trigger] row(reach@, tree.np() * self.nh, c) == from_marks(
                    marks@,
                    src@,
                    tree.np() * self.nh,
                )(c),
    {
        let (w, len) = self.reach_size(tree);
        let nn: usize = tree.num_nodes();
        let mut reach: Vec<T> = filled(T::zero(), len);
        let ghost wi = w as int;
        assert(reach@ =~= flat(T::s_zero(), tree.size() * wi));
        let ghost zeros = reach@;
        copy_rows(marks, w, nn, src, &mut reach);
        proof {
            assert forall|c: int| tree.is_node(c) implies #[trigger] row(reach@, wi, c)
                == from_marks(marks@, src@, wi)(c) by {
                lemma_flat_row(T::s_zero(), wi, tree.size(), c);
                assert(row(reach@, wi, c) == if marks@.contains(c as u32) {
                    same_row(src@, wi)(c)
                } else {
                    row(zeros, wi, c)
                });
            }
        }
        reach
    }

    /// Reach through the turn, for the turn card whose strategy is current.
    pub fn compute_reach_turn(
        &self,
        tree: &FlatTree,
        table: &FlopChanceTable<T>,
        bk: &FlopBucketing<T>,
        tc: usize,
        flop_reach: &Vec<T>,
    ) -> (reach: Vec<T>)
        requires
            self.wf(tree),
            self.is_for(table, bk),
            tc < self.n_turn,
            flop_reach@.len() == tree.size() * (tree.np() * self.nh),
        ensures
            self.is_turn_reach(tree, bk, tc as int, flop_reach@, reach@),
    {
        proof {
            self.lemma_marks(tree);
            self.lemma_layer(table, bk, Zone::Turn, tc as int, 0);
        }
        let mut reach = self.seeded(tree, &self.turn_chance_children, flop_reach);
        propagate(
            tree,
            &self.zones,
            Zone::Turn,
            true,
            &self.turn_book,
            &bk.turn[tc].lens,
            &self.turn.strategy,
            self.nh,
            &mut reach,
        );
        reach
    }

    /// Reach through the river, for the pair whose strategy is current.
    pub fn compute_reach_river(
        &self,
        tree: &FlatTree,
        table: &FlopChanceTable<T>,
        bk: &FlopBucketing<T>,
        tc: usize,
        rc: usize,
        turn_reach: &Vec<T>,
    ) -> (reach: Vec<T>)
        requires
            self.wf(tree),
            self.is_for(table, bk),
            self.holds_outcome(Zone::River, tc as int, rc as int),
            turn_reach@.len() == tree.size() * (tree.np() * self.nh),
        ensures
            self.is_river_reach(tree, bk, tc as int, rc as int, turn_reach@, reach@),
    {
        proof {
            self.lemma_marks(tree);
            self.lemma_layer(table, bk, Zone::River, tc as int, rc as int);
        }
        let mut reach = self.seeded(tree, &self.river_chance_children, turn_reach);
        propagate(
            tree,
            &self.zones,
            Zone::River,
            false,
            &self.river_book,
            &bk.river[tc][rc].lens,
            &self.river.strategy,
            self.nh,
            &mut reach,
        );
        reach
    }
}

/// What one traverser's pass runs on.
pub struct BucketSetting<'a, T: Widen> {
    pub tree: &'a FlatTree,
    pub table: &'a FlopChanceTable<T>,
    pub bk: &'a FlopBucketing<T>,
    pub traverser: u8,
    pub params: DcfrParams<T>,
}

impl<'a, T: Widen> BucketSetting<'a, T> {
    pub open spec fn wf(&self) -> bool {
        &&& is_table_for(self.table, self.tree)
        &&& 3 <= self.tree.num_players <= MAX_OPP + 1
        &&& self.traverser < self.tree.num_players
    }

    /// The values of the terminals under `reach`, by node.
    pub open spec fn terminal_row(&self, layer: BucketLayer<T>, dealt: Dealt, reach: Seq<T>) -> spec_fn(
        int,
    ) -> Seq<T> {
        |i: int|
            bucket_terminal(
                &layer,
                self.tree,
                self.table,
                &dealt,
                seats(reach, self.tree.np(), self.table.nh(), i),
                self.traverser,
                i,
            )
    }
}

impl<T: Widen> BucketedFlopCfr<T> {
    /// `s` is this solver after a bottom-up pass over `zone` under `reach`, and
    /// `cfv` the values it found; rows outside the zone are those of `was`.
    pub open spec fn passed(
        &self,
        at_: &BucketSetting<T>,
        zone: Zone,
        tc: int,
        rc: int,
        reach: Seq<T>,
        was: Seq<T>,
        cfv: Seq<T>,
        s: &Self,
    ) -> bool {
        &&& self.differs_in(s, zone)
        &&& zone_valued(
            at_.tree,
            self.zones@,
            zone,
            &self.book(zone),
            &layer_of(at_.bk, zone, tc, rc).lens,
            self.bank(zone).strategy@,
            self.nh as int,
            at_.traverser,
            at_.terminal_row(
                layer_of(at_.bk, zone, tc, rc),
                dealt_in(at_.table, zone, tc, rc),
                reach,
            ),
            was,
            cfv,
        )
        &&& bank_learned(
            at_.tree,
            self.zones@,
            zone,
            &self.book(zone),
            &layer_of(at_.bk, zone, tc, rc).lens,
            Some(layer_of(at_.bk, zone, tc, rc).omega@),
            cfv,
            self.nh as int,
            at_.traverser,
            &at_.params,
            self.outcome(zone, tc, rc),
            &self.bank(zone),
            &s.bank(zone),
        )
    }

    /// The cards on the board, and that they are cards.
    fn dealt_for(
        &self,
        table: &FlopChanceTable<T>,
        bk: &FlopBucketing<T>,
        zone: Zone,
        tc: usize,
        rc: usize,
    ) -> (d: Dealt)
        requires
            self.is_for(table, bk),
            self.river_counts@.len() == self.n_turn,
            self.holds_outcome(zone, tc as int, rc as int),
        ensures
            d == dealt_in(table, zone, tc as int, rc as int),
            d.wf(),
    {
        match zone {
            Zone::Turn => {
                let t: u8 = table.remaining_deck[tc];
                assert(table.remaining_deck@[tc as int] < 52);
                Dealt { turn: Some(t), river: None }
            },
            Zone::River => {
                let t: u8 = table.remaining_deck[tc];
                assert(table.remaining_deck@[tc as int] < 52);
                assert(self.river_counts@[tc as int] == table.river_decks@[t as int]@.len());
                let r: u8 = table.river_decks[t as usize][rc];
                assert(table.river_decks@[t as int]@[rc as int] < 52);
                Dealt { turn: Some(t), river: Some(r) }
            },
            _ => Dealt { turn: None, river: None },
        }
    }

    /// The values of the zone's terminals under `reach`.
    fn zone_terminals(
        &self,
        at_: &BucketSetting<T>,
        zone: Zone,
        layer: &BucketLayer<T>,
        dealt: &Dealt,
        reach: &Vec<T>,
    ) -> (terminal: Vec<T>)
        requires
            self.wf(at_.tree),
            self.is_for(at_.table, at_.bk),
            at_.wf(),
            dealt.wf(),
            layer.wf(self.nh as int, layer.tables.nb as int),
            reach@.len() == at_.tree.size() * (at_.tree.np() * self.nh),
        ensures
            terminal@.len() == at_.tree.size() * self.nh,
            forall|i: int|
                at_.tree.is_node(i) && self.zones@[i] == zone && at_.tree.nodes@[i].is_terminal()
                    ==> #[trigger] row(terminal@, self.nh as int, i) == at_.terminal_row(*layer, *dealt, reach@)(i),
    {
        let tree = at_.tree;
        let nn: usize = tree.num_nodes();
        let nh: usize = self.nh;
        let np: usize = self.num_players as usize;
        let (w, len) = self.reach_size(tree);
        proof {
            assert(nn * nh <= nn * (np * nh)) by (nonlinear_arith)
                requires
                    1 <= np,
                    0 <= nn,
                    0 <= nh,
            ;
        }
        let mut terminal: Vec<T> = filled(T::zero(), nn * nh);
        let mut i: usize = 0;
        while i < nn
            invariant
                i <= nn,
                nn == tree.size(),
                tree == at_.tree,
                nh == self.nh,
                np == tree.np(),
                w == np * nh,
                self.wf(at_.tree),
                self.is_for(at_.table, at_.bk),
                at_.wf(),
                dealt.wf(),
                layer.wf(self.nh as int, layer.tables.nb as int),
                reach@.len() == nn * w,
                terminal@.len() == nn * nh,
                forall|j: int|
                    0 <= j < i && self.zones@[j] == zone && tree.nodes@[j].is_terminal()
                        ==> #[trigger] row(terminal@, nh as int, j) == at_.terminal_row(*layer, *dealt, reach@)(j),
            decreases nn - i,
        {
            if self.zones[i] == zone && tree.nodes[i].is_terminal() {
                let here = get_row(reach, w, nn, i);
                let mut rows: Vec<Vec<T>> = Vec::new();
                let mut p: usize = 0;
                while p < np
                    invariant
                        p <= np,
                        here@ == row(reach@, np * nh, i as int),
                        here@.len() == np * nh,
                        rows@.len() == p,
                        forall|q: int|
                            0 <= q < p ==> (#[trigger] rows@[q])@ == seat(
                                reach@,
                                np as int,
                                nh as int,
                                i as int,
                                q,
                            ) && rows@[q]@.len() == nh,
                    decreases np - p,
                {
                    rows.push(get_row(&here, nh, np, p));
                    p += 1;
                }
                let values = bucket_terminal_values(
                    layer,
                    tree,
                    at_.table,
                    dealt,
                    &rows,
                    at_.traverser,
                    i,
                );
                let ghost was = terminal@;
                put_row(&mut terminal, nh, nn, i, &values);
                proof {
                    assert(views(rows@) =~= seats(reach@, np as int, nh as int, i as int));
                    assert forall|j: int|
                        0 <= j < i + 1 && self.zones@[j] == zone
                            && tree.nodes@[j].is_terminal() implies #[trigger] row(
                        terminal@,
                        nh as int,
                        j,
                    ) == at_.terminal_row(*layer, *dealt, reach@)(j) by {
                        if j < i {
                            lemma_row_inside(nh as int, nn as int, j);
                            lemma_other_row(
                                was,
                                terminal@,
                                nh as int,
                                i as int,
                                j,
                            );
                            assert(row(was, nh as int, j) == at_.terminal_row(*layer, *dealt, reach@)(j));
                        }
                    }
                }
            }
            i += 1;
        }
        terminal
    }

    /// One bottom-up pass over a zone: terminals are valued, every other node
    /// from its children, and the traverser's decisions learn.
    pub fn bottom_up_zone(
        &mut self,
        at_: &BucketSetting<T>,
        reach: &Vec<T>,
        cfv: &mut Vec<T>,
        zone: Zone,
        tc: usize,
        rc: usize,
    )
        requires
            old(self).wf(at_.tree),
            old(self).is_for(at_.table, at_.bk),
            at_.wf(),
            zone != Zone::Preflop,
            old(self).holds_outcome(zone, tc as int, rc as int),
            reach@.len() == at_.tree.size() * (at_.tree.np() * old(self).nh),
            old(cfv)@.len() == at_.tree.size() * old(self).nh,
        ensures
            final(self).wf(at_.tree),
            final(self).is_for(at_.table, at_.bk),
            old(self).passed(
                at_,
                zone,
                tc as int,
                rc as int,
                reach@,
                old(cfv)@,
                final(cfv)@,
                &*final(self),
            ),
    {
        let dealt = self.dealt_for(at_.table, at_.bk, zone, tc, rc);
        proof {
            self.lemma_layer(at_.table, at_.bk, zone, tc as int, rc as int);
        }
        let layer: &BucketLayer<T> = match zone {
            Zone::Turn => &at_.bk.turn[tc],
            Zone::River => &at_.bk.river[tc][rc],
            _ => &at_.bk.flop,
        };
        let terminal = self.zone_terminals(at_, zone, layer, &dealt, reach);
        let ghost was = *self;
        let ghost cfv0 = cfv@;
        proof {
            self.lemma_outcome(at_.tree, zone, tc as int, rc as int);
        }
        match zone {
            Zone::Turn => {
                self.turn.pass(
                    at_.tree,
                    &self.zones,
                    zone,
                    &self.turn_book,
                    &layer.lens,
                    Some(&layer.omega),
                    self.nh,
                    at_.traverser,
                    &terminal,
                    cfv,
                    &at_.params,
                    tc,
                    false,
                );
            },
            Zone::River => {
                let o: usize = self.river_place(tc, rc);
                self.river.pass(
                    at_.tree,
                    &self.zones,
                    zone,
                    &self.river_book,
                    &layer.lens,
                    Some(&layer.omega),
                    self.nh,
                    at_.traverser,
                    &terminal,
                    cfv,
                    &at_.params,
                    o,
                    false,
                );
            },
            _ => {
                self.flop.pass(
                    at_.tree,
                    &self.zones,
                    zone,
                    &self.flop_book,
                    &layer.lens,
                    Some(&layer.omega),
                    self.nh,
                    at_.traverser,
                    &terminal,
                    cfv,
                    &at_.params,
                    0,
                    false,
                );
            },
        }
        proof {
            let tree = at_.tree;
            let nh = was.nh as int;
            assert forall|i: int|
                tree.is_node(i) && was.zones@[i] == zone
                    && tree.nodes@[i].is_terminal() implies #[trigger] row(cfv@, nh, i)
                == at_.terminal_row(layer_of(at_.bk, zone, tc as int, rc as int), dealt, reach@)(i) by {
                assert(row(cfv@, nh, i) == same_row(terminal@, nh)(i));
                assert(row(terminal@, nh, i) == at_.terminal_row(layer_of(at_.bk, zone, tc as int, rc as int), dealt, reach@)(i));
            }
        }
    }
}

impl<T: Widen> BucketedFlopCfr<T> {
    /// One river card: strategy, reach, values; the values of the river deals
    /// are added to `acc0`, weighted by their chance.
    pub open spec fn river_step(
        &self,
        at_: &BucketSetting<T>,
        tc: int,
        rc: int,
        turn_reach: Seq<T>,
        acc0: Seq<T>,
        acc: Seq<T>,
        s: &Self,
    ) -> bool {
        exists|sp: Self, reach: Seq<T>, was: Seq<T>, cfv: Seq<T>|
            {
                &&& self.matched(at_.tree, Zone::River, tc, rc, &sp)
                &&& sp.is_river_reach(at_.tree, at_.bk, tc, rc, turn_reach, reach)
                &&& was.len() == at_.tree.size() * self.nh
                &&& #[trigger] sp.passed(at_, Zone::River, tc, rc, reach, was, cfv, s)
                &&& rows_set(
                    acc0,
                    acc,
                    self.nh as int,
                    at_.tree.size(),
                    self.river_chance_children@,
                    sum_row(
                        acc0,
                        river_chances(at_.table, at_.table.remaining_deck@[tc] as int, rc),
                        cfv,
                        self.nh as int,
                    ),
                )
            }
    }

    /// The first `n` river cards after turn place `tc`, one after the other,
    /// starting from zeros.
    pub open spec fn rivers_done(
        &self,
        at_: &BucketSetting<T>,
        tc: int,
        turn_reach: Seq<T>,
        acc0: Seq<T>,
        acc: Seq<T>,
        s: &Self,
        n: nat,
    ) -> bool
        decreases n,
    {
        if n == 0 {
            *s == *self && rows_set(
                acc0,
                acc,
                self.nh as int,
                at_.tree.size(),
                self.river_chance_children@,
                zero_row::<T>(self.nh as int),
            )
        } else {
            exists|sm: Self, mid: Seq<T>|
                self.rivers_done(at_, tc, turn_reach, acc0, mid, &sm, (n - 1) as nat)
                    && #[trigger] sm.river_step(at_, tc, n - 1, turn_reach, mid, acc, s)
        }
    }

    /// The strategy of turn place `tc` is set up, and `reach` is its reach.
    pub open spec fn turn_begun(
        &self,
        tree: &FlatTree,
        bk: &FlopBucketing<T>,
        tc: int,
        flop_reach: Seq<T>,
        reach: Seq<T>,
        s: &Self,
    ) -> bool {
        self.matched(tree, Zone::Turn, tc, 0, s) && s.is_turn_reach(tree, bk, tc, flop_reach, reach)
    }

    /// The turn was valued on top of what its river deals are worth, and what
    /// the turn deals are worth was added to `acc0`, weighted by their chance.
    pub open spec fn turn_ended(
        &self,
        at_: &BucketSetting<T>,
        tc: int,
        reach: Seq<T>,
        rivers: Seq<T>,
        acc0: Seq<T>,
        acc: Seq<T>,
        s: &Self,
    ) -> bool {
        exists|was: Seq<T>, cfv: Seq<T>|
            {
                &&& was.len() == at_.tree.size() * self.nh
                &&& rows_set(
                    flat(T::s_zero(), at_.tree.size() * self.nh),
                    was,
                    self.nh as int,
                    at_.tree.size(),
                    self.river_chance_children@,
                    same_row(rivers, self.nh as int),
                )
                &&& #[trigger] self.passed(at_, Zone::Turn, tc, 0, reach, was, cfv, s)
                &&& rows_set(
                    acc0,
                    acc,
                    self.nh as int,
                    at_.tree.size(),
                    self.turn_chance_children@,
                    sum_row(acc0, turn_chances(at_.table, tc), cfv, self.nh as int),
                )
            }
    }

    /// One turn card: strategy, reach, all its rivers, values; the values of the
    /// turn deals are added to `acc0`, weighted by their chance.
    pub open spec fn turn_step(
        &self,
        at_: &BucketSetting<T>,
        tc: int,
        flop_reach: Seq<T>,
        acc0: Seq<T>,
        acc: Seq<T>,
        s: &Self,
    ) -> bool {
        exists|sp: Self, reach: Seq<T>, r0: Seq<T>, rivers: Seq<T>, sr: Self|
            {
                &&& self.turn_begun(at_.tree, at_.bk, tc, flop_reach, reach, &sp)
                &&& #[trigger] sp.rivers_done(
                    at_,
                    tc,
                    reach,
                    r0,
                    rivers,
                    &sr,
                    self.river_counts@[tc] as nat,
                )
                &&& sr.turn_ended(at_, tc, reach, rivers, acc0, acc, s)
            }
    }

    /// The first `n` turn cards, one after the other, starting from zeros.
    pub open spec fn turns_done(
        &self,
        at_: &BucketSetting<T>,
        flop_reach: Seq<T>,
        acc0: Seq<T>,
        acc: Seq<T>,
        s: &Self,
        n: nat,
    ) -> bool
        decreases n,
    {
        if n == 0 {
            *s == *self && rows_set(
                acc0,
                acc,
                self.nh as int,
                at_.tree.size(),
                self.turn_chance_children@,
                zero_row::<T>(self.nh as int),
            )
        } else {
            exists|sm: Self, mid: Seq<T>|
                self.turns_done(at_, flop_reach, acc0, mid, &sm, (n - 1) as nat)
                    && #[trigger] sm.turn_step(at_, n - 1, flop_reach, mid, acc, s)
        }
    }

    /// The tables and counts of the two states are the same.
    pub open spec fn same_frame(&self, s: &Self) -> bool {
        *s == (BucketedFlopCfr { flop: s.flop, turn: s.turn, river: s.river, ..*self })
    }

    /// A buffer of one row of hands per node.
    fn value_buffer(&self, tree: &FlatTree) -> (buf: Vec<T>)
        requires
            self.wf(tree),
        ensures
            buf@ == flat(T::s_zero(), tree.size() * self.nh),
            buf@.len() == tree.size() * self.nh,
    {
        let nn: usize = tree.num_nodes();
        let np: usize = self.num_players as usize;
        let nh: usize = self.nh;
        proof {
            assert(nn * nh <= nn * (np * nh)) by (nonlinear_arith)
                requires
                    1 <= np,
                    0 <= nn,
                    0 <= nh,
            ;
            assert(0 <= nn * nh) by (nonlinear_arith)
                requires
                    0 <= nn,
                    0 <= nh,
            ;
        }
        let buf = filled(T::zero(), nn * nh);
        assert(buf@ =~= flat(T::s_zero(), tree.size() * self.nh));
        buf
    }

    /// Plays one turn and river card and adds what the river deals are worth.
    fn play_river(
        &mut self,
        at_: &BucketSetting<T>,
        tc: usize,
        rc: usize,
        turn_reach: &Vec<T>,
        cfv: &mut Vec<T>,
        acc: &mut Vec<T>,
    )
        requires
            old(self).wf(at_.tree),
            old(self).is_for(at_.table, at_.bk),
            at_.wf(),
            old(self).holds_outcome(Zone::River, tc as int, rc as int),
            turn_reach@.len() == at_.tree.size() * (at_.tree.np() * old(self).nh),
            old(cfv)@.len() == at_.tree.size() * old(self).nh,
            old(acc)@.len() == at_.tree.size() * old(self).nh,
        ensures
            final(self).wf(at_.tree),
            final(self).is_for(at_.table, at_.bk),
            old(self).same_frame(&*final(self)),
            final(cfv)@.len() == old(cfv)@.len(),
            final(acc)@.len() == old(acc)@.len(),
            old(self).river_step(
                at_,
                tc as int,
                rc as int,
                turn_reach@,
                old(acc)@,
                final(acc)@,
                &*final(self),
            ),
    {
        let ghost s0 = *self;
        let ghost acc0 = acc@;
        let ghost was = cfv@;
        let tree = at_.tree;
        self.compute_river_strategy_for_pair(tree, tc, rc);
        let ghost sp = *self;
        let reach = self.compute_reach_river(tree, at_.table, at_.bk, tc, rc, turn_reach);
        self.bottom_up_zone(at_, &reach, cfv, Zone::River, tc, rc);
        let t: u8 = at_.table.remaining_deck[tc];
        proof {
            self.lemma_marks(tree);
            assert(at_.table.remaining_deck@[tc as int] < 52);
            assert(self.river_counts@[tc as int] == at_.table.river_decks@[t as int]@.len());
        }
        let weights = list_river_chances(at_.table, t, rc);
        add_rows(&self.river_chance_children, self.nh, tree.num_nodes(), &weights, cfv, acc);
        proof {
            assert(sp.passed(
                at_,
                Zone::River,
                tc as int,
                rc as int,
                reach@,
                was,
                cfv@,
                self,
            ));
        }
    }

    /// Sets up one turn card: its strategy, its reach, and zeros for what its
    /// river deals are worth.
    fn begin_turn(
        &mut self,
        tree: &FlatTree,
        table: &FlopChanceTable<T>,
        bk: &FlopBucketing<T>,
        tc: usize,
        flop_reach: &Vec<T>,
    ) -> (out: (Vec<T>, Vec<T>))
        requires
            old(self).wf(tree),
            old(self).is_for(table, bk),
            tc < old(self).n_turn,
            flop_reach@.len() == tree.size() * (tree.np() * old(self).nh),
        ensures
            final(self).wf(tree),
            old(self).same_frame(&*final(self)),
            final(self).is_for(table, bk),
            old(self).turn_begun(tree, bk, tc as int, flop_reach@, out.0@, &*final(self)),
            out.0@.len() == flop_reach@.len(),
            out.1@.len() == tree.size() * old(self).nh,
            rows_set(
                flat(T::s_zero(), tree.size() * old(self).nh),
                out.1@,
                old(self).nh as int,
                tree.size(),
                old(self).river_chance_children@,
                zero_row::<T>(old(self).nh as int),
            ),
    {
        self.compute_turn_strategy_for_tc(tree, tc);
        let reach = self.compute_reach_turn(tree, table, bk, tc, flop_reach);
        let mut rivers = self.value_buffer(tree);
        proof {
            self.lemma_marks(tree);
        }
        zero_rows(&self.river_chance_children, self.nh, tree.num_nodes(), &mut rivers);
        (reach, rivers)
    }

    /// Values the turn on top of its rivers, and adds what the turn deals are
    /// worth.
    fn end_turn(
        &mut self,
        at_: &BucketSetting<T>,
        tc: usize,
        reach: &Vec<T>,
        rivers: &Vec<T>,
        acc: &mut Vec<T>,
    )
        requires
            old(self).wf(at_.tree),
            old(self).is_for(at_.table, at_.bk),
            at_.wf(),
            tc < old(self).n_turn,
            reach@.len() == at_.tree.size() * (at_.tree.np() * old(self).nh),
            rivers@.len() == at_.tree.size() * old(self).nh,
            old(acc)@.len() == at_.tree.size() * old(self).nh,
        ensures
            final(self).wf(at_.tree),
            final(self).is_for(at_.table, at_.bk),
            old(self).same_frame(&*final(self)),
            final(acc)@.len() == old(acc)@.len(),
            old(self).turn_ended(
                at_,
                tc as int,
                reach@,
                rivers@,
                old(acc)@,
                final(acc)@,
                &*final(self),
            ),
    {
        let ghost sr = *self;
        let tree = at_.tree;
        let nn: usize = tree.num_nodes();
        let nh: usize = self.nh;
        let mut turn_cfv = self.value_buffer(tree);
        proof {
            self.lemma_marks(tree);
        }
        copy_rows(&self.river_chance_children, nh, nn, rivers, &mut turn_cfv);
        let ghost was = turn_cfv@;
        self.bottom_up_zone(at_, reach, &mut turn_cfv, Zone::Turn, tc, 0);
        let weights = list_turn_chances(at_.table, tc);
        add_rows(&self.turn_chance_children, nh, nn, &weights, &turn_cfv, acc);
        proof {
            assert(sr.passed(at_, Zone::Turn, tc as int, 0, reach@, was, turn_cfv@, self));
        }
    }

    /// Plays one turn card with all its rivers and adds what the turn deals are
    /// worth.
    fn play_turn(
        &mut self,
        at_: &BucketSetting<T>,
        tc: usize,
        flop_reach: &Vec<T>,
        acc: &mut Vec<T>,
    )
        requires
            old(self).wf(at_.tree),
            old(self).is_for(at_.table, at_.bk),
            at_.wf(),
            tc < old(self).n_turn,
            flop_reach@.len() == at_.tree.size() * (at_.tree.np() * old(self).nh),
            old(acc)@.len() == at_.tree.size() * old(self).nh,
        ensures
            final(self).wf(at_.tree),
            final(self).is_for(at_.table, at_.bk),
            old(self).same_frame(&*final(self)),
            final(acc)@.len() == old(acc)@.len(),
            old(self).turn_step(
                at_,
                tc as int,
                flop_reach@,
                old(acc)@,
                final(acc)@,
                &*final(self),
            ),
    {
        let ghost s0 = *self;
        let tree = at_.tree;
        let nh: usize = self.nh;
        let (reach, mut rivers) = self.begin_turn(tree, at_.table, at_.bk, tc, flop_reach);
        let ghost sp = *self;
        let mut cfv = self.value_buffer(tree);
        let ghost r0 = flat(T::s_zero(), tree.size() * nh);
        let n: usize = self.river_counts[tc];
        let mut rc: usize = 0;
        while rc < n
            invariant
                rc <= n,
                tree == at_.tree,
                nh == sp.nh,
                n == sp.river_counts@[tc as int],
                tc < sp.n_turn,
                sp.river_counts@.len() == sp.n_turn,
                sp.same_frame(&*self),
                self.wf(tree),
                self.is_for(at_.table, at_.bk),
                at_.wf(),
                reach@.len() == tree.size() * (tree.np() * nh),
                cfv@.len() == tree.size() * nh,
                rivers@.len() == tree.size() * nh,
                sp.rivers_done(
                    at_,
                    tc as int,
                    reach@,
                    r0,
                    rivers@,
                    &*self,
                    rc as nat,
                ),
            decreases n - rc,
        {
            let ghost sm = *self;
            let ghost mid = rivers@;
            self.play_river(at_, tc, rc, &reach, &mut cfv, &mut rivers);
            proof {
                let n = (rc + 1) as nat;
                assert((n - 1) as nat == rc as nat);
                assert(sm.river_step(at_, tc as int, n - 1, reach@, mid, rivers@, self));
            }
            rc += 1;
        }
        let ghost sr = *self;
        self.end_turn(at_, tc, &reach, &rivers, acc);
        proof {
            assert(sp.rivers_done(
                at_,
                tc as int,
                reach@,
                r0,
                rivers@,
                &sr,
                s0.river_counts@[tc as int] as nat,
            ));
        }
    }

    /// What the turn deals are worth: all turn and river cards are played, and
    /// their values added up by chance.
    fn continuation(
        &mut self,
        at_: &BucketSetting<T>,
        flop_reach: &Vec<T>,
    ) -> (acc: Vec<T>)
        requires
            old(self).wf(at_.tree),
            old(self).is_for(at_.table, at_.bk),
            at_.wf(),
            flop_reach@.len() == at_.tree.size() * (at_.tree.np() * old(self).nh),
        ensures
            final(self).wf(at_.tree),
            final(self).is_for(at_.table, at_.bk),
            old(self).same_frame(&*final(self)),
            acc@.len() == at_.tree.size() * old(self).nh,
            old(self).turns_done(
                at_,
                flop_reach@,
                flat(T::s_zero(), at_.tree.size() * old(self).nh),
                acc@,
                &*final(self),
                old(self).n_turn as nat,
            ),
    {
        let ghost s0 = *self;
        let tree = at_.tree;
        let nn: usize = tree.num_nodes();
        let mut acc = self.value_buffer(tree);
        let ghost acc0 = acc@;
        proof {
            self.lemma_marks(tree);
        }
        zero_rows(&self.turn_chance_children, self.nh, nn, &mut acc);
        let n: usize = self.n_turn;
        let mut tc: usize = 0;
        while tc < n
            invariant
                tc <= n,
                tree == at_.tree,
                n == s0.n_turn,
                s0.same_frame(&*self),
                self.wf(tree),
                self.is_for(at_.table, at_.bk),
                at_.wf(),
                flop_reach@.len() == tree.size() * (tree.np() * s0.nh),
                acc@.len() == tree.size() * s0.nh,
                s0.turns_done(at_, flop_reach@, acc0, acc@, &*self, tc as nat),
            decreases n - tc,
        {
            let ghost sm = *self;
            let ghost mid = acc@;
            self.play_turn(at_, tc, flop_reach, &mut acc);
            proof {
                let k = (tc + 1) as nat;
                assert((k - 1) as nat == tc as nat);
                assert(sm.turn_step(at_, k - 1, flop_reach@, mid, acc@, self));
            }
            tc += 1;
        }
        acc
    }
}

/// The setting of one traverser.
pub open spec fn bucket_setting<'a, T: Widen>(
    tree: &'a FlatTree,
    table: &'a FlopChanceTable<T>,
    bk: &'a FlopBucketing<T>,
    traverser: u8,
    params: DcfrParams<T>,
) -> BucketSetting<'a, T> {
    BucketSetting { tree, table, bk, traverser, params }
}

impl<T: Widen> BucketedFlopCfr<T> {
    /// The flop strategy is regret-matched, and `reach` is its reach.
    pub open spec fn flop_begun(
        &self,
        tree: &FlatTree,
        table: &FlopChanceTable<T>,
        bk: &FlopBucketing<T>,
        reach: Seq<T>,
        s: &Self,
    ) -> bool {
        self.matched(tree, Zone::Flop, 0, 0, s) && s.is_flop_reach(tree, table, bk, reach)
    }

    /// The flop was valued on top of what its turn deals are worth; `root` are
    /// the root's values.
    pub open spec fn flop_ended(
        &self,
        at_: &BucketSetting<T>,
        reach: Seq<T>,
        turns: Seq<T>,
        root: Seq<T>,
        s: &Self,
    ) -> bool {
        exists|cfv: Seq<T>| #[trigger]
            self.passed(at_, Zone::Flop, 0, 0, reach, turns, cfv, s) && root == row(
                cfv,
                self.nh as int,
                0,
            )
    }

    /// One traverser's pass over the whole tree.
    pub open spec fn traversed(
        &self,
        at_: &BucketSetting<T>,
        root: Seq<T>,
        s: &Self,
    ) -> bool {
        exists|sp: Self, reach: Seq<T>, turns: Seq<T>, sc: Self|
            {
                &&& self.flop_begun(at_.tree, at_.table, at_.bk, reach, &sp)
                &&& #[trigger] sp.turns_done(
                    at_,
                    reach,
                    flat(T::s_zero(), at_.tree.size() * self.nh),
                    turns,
                    &sc,
                    self.n_turn as nat,
                )
                &&& sc.flop_ended(at_, reach, turns, root, s)
            }
    }

    /// The passes of the first `n` traversers, one after the other.
    pub open spec fn round_done(
        &self,
        tree: &FlatTree,
        table: &FlopChanceTable<T>,
        bk: &FlopBucketing<T>,
        params: DcfrParams<T>,
        roots: Seq<Seq<T>>,
        s: &Self,
        n: nat,
    ) -> bool
        decreases n,
    {
        if n == 0 {
            *s == *self && roots.len() == 0
        } else {
            exists|sm: Self, prev: Seq<Seq<T>>, root: Seq<T>|
                {
                    &&& self.round_done(
                        tree,
                        table,
                        bk,
                        params,
                        prev,
                        &sm,
                        (n - 1) as nat,
                    )
                    &&& roots == #[trigger] prev.push(root)
                    &&& #[trigger] sm.traversed(
                        &bucket_setting(tree, table, bk, (n - 1) as u8, params),
                        root,
                        s,
                    )
                }
        }
    }

    /// This solver with one more iteration on its count.
    pub open spec fn counted(&self) -> Self {
        BucketedFlopCfr { iteration: (self.iteration + 1) as u32, ..*self }
    }

    /// `n` iterations; `sums` adds up every traverser's root values.
    pub open spec fn iterated(
        &self,
        tree: &FlatTree,
        table: &FlopChanceTable<T>,
        bk: &FlopBucketing<T>,
        sums: Seq<Seq<T>>,
        s: &Self,
        n: nat,
    ) -> bool
        decreases n,
    {
        if n == 0 {
            *s == *self && sums == Seq::new(
                tree.np() as nat,
                |p: int| flat(T::s_zero(), self.nh as int),
            )
        } else {
            exists|sm: Self, prev: Seq<Seq<T>>, p: DcfrParams<T>, roots: Seq<Seq<T>>|
                {
                    &&& self.iterated(
                        tree,
                        table,
                        bk,
                        prev,
                        &sm,
                        (n - 1) as nat,
                    )
                    &&& (p.alpha(), p.beta(), p.gamma()) == discounts::<T>(sm.iteration as int)
                    &&& #[trigger] sm.counted().round_done(
                        tree,
                        table,
                        bk,
                        p,
                        roots,
                        s,
                        tree.np() as nat,
                    )
                    &&& sums == #[trigger] plus_rows(prev, roots)
                }
        }
    }

    /// Sets up the flop: its strategy and its reach.
    fn begin_flop(
        &mut self,
        tree: &FlatTree,
        table: &FlopChanceTable<T>,
        bk: &FlopBucketing<T>,
    ) -> (reach: Vec<T>)
        requires
            old(self).wf(tree),
            old(self).is_for(table, bk),
        ensures
            final(self).wf(tree),
            final(self).is_for(table, bk),
            old(self).same_frame(&*final(self)),
            old(self).flop_begun(tree, table, bk, reach@, &*final(self)),
            reach@.len() == tree.size() * (tree.np() * old(self).nh),
    {
        self.compute_flop_strategy(tree);
        self.compute_reach_flop(tree, table, bk)
    }

    /// Values the flop on top of what its turn deals are worth.
    fn end_flop(
        &mut self,
        at_: &BucketSetting<T>,
        reach: &Vec<T>,
        turns: Vec<T>,
    ) -> (root: Vec<T>)
        requires
            old(self).wf(at_.tree),
            old(self).is_for(at_.table, at_.bk),
            at_.wf(),
            reach@.len() == at_.tree.size() * (at_.tree.np() * old(self).nh),
            turns@.len() == at_.tree.size() * old(self).nh,
        ensures
            final(self).wf(at_.tree),
            final(self).is_for(at_.table, at_.bk),
            old(self).same_frame(&*final(self)),
            old(self).flop_ended(at_, reach@, turns@, root@, &*final(self)),
            root@.len() == old(self).nh,
    {
        let ghost was = turns@;
        let ghost sc = *self;
        let mut cfv = turns;
        self.bottom_up_zone(at_, reach, &mut cfv, Zone::Flop, 0, 0);
        let root = get_row(&cfv, self.nh, at_.tree.num_nodes(), 0);
        proof {
            assert(sc.passed(at_, Zone::Flop, 0, 0, reach@, was, cfv@, self));
        }
        root
    }

    /// One traverser's pass over the whole tree; the root's values.
    fn traverse(
        &mut self,
        at_: &BucketSetting<T>,
    ) -> (root: Vec<T>)
        requires
            old(self).wf(at_.tree),
            old(self).is_for(at_.table, at_.bk),
            at_.wf(),
        ensures
            final(self).wf(at_.tree),
            final(self).is_for(at_.table, at_.bk),
            old(self).same_frame(&*final(self)),
            old(self).traversed(at_, root@, &*final(self)),
            root@.len() == old(self).nh,
    {
        let ghost s0 = *self;
        let reach = self.begin_flop(at_.tree, at_.table, at_.bk);
        let ghost sp = *self;
        let turns = self.continuation(at_, &reach);
        let ghost sc = *self;
        let ghost tv = turns@;
        let root = self.end_flop(at_, &reach, turns);
        proof {
            assert(sp.turns_done(
                at_,
                reach@,
                flat(T::s_zero(), at_.tree.size() * s0.nh),
                tv,
                &sc,
                s0.n_turn as nat,
            ));
        }
        root
    }

    /// One pass for every player.
    fn round(
        &mut self,
        tree: &FlatTree,
        table: &FlopChanceTable<T>,
        bk: &FlopBucketing<T>,
        params: DcfrParams<T>,
    ) -> (roots: Vec<Vec<T>>)
        requires
            old(self).wf(tree),
            old(self).is_for(table, bk),
            is_table_for(table, tree),
            3 <= tree.num_players <= MAX_OPP + 1,
        ensures
            final(self).wf(tree),
            final(self).is_for(table, bk),
            old(self).same_frame(&*final(self)),
            roots@.len() == tree.np(),
            forall|p: int| 0 <= p < tree.np() ==> (#[trigger] roots@[p])@.len() == old(self).nh,
            old(self).round_done(
                tree,
                table,
                bk,
                params,
                views(roots@),
                &*final(self),
                tree.np() as nat,
            ),
    {
        let ghost s0 = *self;
        let np: u8 = self.num_players;
        let mut roots: Vec<Vec<T>> = Vec::new();
        assert(views(roots@) =~= Seq::<Seq<T>>::empty());
        let mut t: u8 = 0;
        while t < np
            invariant
                t <= np,
                np == tree.num_players,
                s0.same_frame(&*self),
                self.wf(tree),
                self.is_for(table, bk),
                is_table_for(table, tree),
                3 <= tree.num_players <= MAX_OPP + 1,
                roots@.len() == t,
                forall|p: int| 0 <= p < t ==> (#[trigger] roots@[p])@.len() == s0.nh,
                s0.round_done(
                    tree,
                    table,
                    bk,
                    params,
                    views(roots@),
                    &*self,
                    t as nat,
                ),
            decreases np - t,
        {
            let ghost sm = *self;
            let ghost prev = views(roots@);
            let at_ = BucketSetting { tree, table, bk, traverser: t, params };
            let root = self.traverse(&at_);
            let ghost rv = root@;
            roots.push(root);
            proof {
                let n = (t + 1) as nat;
                assert((n - 1) as nat == t as nat);
                assert((n - 1) as u8 == t);
                assert(views(roots@) =~= prev.push(rv));
                assert(sm.traversed(
                    &bucket_setting(tree, table, bk, (n - 1) as u8, params),
                    rv,
                    self,
                ));
            }
            t += 1;
        }
        roots
    }

    /// `num_iterations` rounds; every player's root values added up.
    fn iterate(
        &mut self,
        tree: &FlatTree,
        table: &FlopChanceTable<T>,
        bk: &FlopBucketing<T>,
        num_iterations: u32,
    ) -> (sums: Vec<Vec<T>>)
        requires
            old(self).wf(tree),
            old(self).is_for(table, bk),
            is_table_for(table, tree),
            3 <= tree.num_players <= MAX_OPP + 1,
            counts_on(old(self).iteration as int, num_iterations as int),
        ensures
            final(self).wf(tree),
            final(self).is_for(table, bk),
            final(self).iteration == old(self).iteration + num_iterations,
            sums@.len() == tree.np(),
            forall|p: int| 0 <= p < tree.np() ==> (#[trigger] sums@[p])@.len() == old(self).nh,
            old(self).iterated(
                tree,
                table,
                bk,
                views(sums@),
                &*final(self),
                num_iterations as nat,
            ),
    {
        let ghost s0 = *self;
        let np: usize = self.num_players as usize;
        let nh: usize = self.nh;
        let mut sums: Vec<Vec<T>> = Vec::new();
        let mut p: usize = 0;
        while p < np
            invariant
                p <= np,
                sums@.len() == p,
                forall|q: int| 0 <= q < p ==> (#[trigger] sums@[q])@ == flat(T::s_zero(), nh as int),
            decreases np - p,
        {
            let zeros = filled(T::zero(), nh);
            assert(zeros@ =~= flat(T::s_zero(), nh as int));
            sums.push(zeros);
            p += 1;
        }
        assert(views(sums@) =~= Seq::new(
            tree.np() as nat,
            |p: int| flat(T::s_zero(), s0.nh as int),
        ));
        let mut k: u32 = 0;
        while k < num_iterations
            invariant
                k <= num_iterations,
                nh == s0.nh,
                np == tree.np(),
                self.wf(tree),
                self.is_for(table, bk),
                self.nh == s0.nh,
                self.zones@ == s0.zones@,
                self.iteration == s0.iteration + k,
                counts_on(s0.iteration as int, num_iterations as int),
                is_table_for(table, tree),
                3 <= tree.num_players <= MAX_OPP + 1,
                sums@.len() == np,
                forall|q: int| 0 <= q < np ==> (#[trigger] sums@[q])@.len() == nh,
                s0.iterated(
                    tree,
                    table,
                    bk,
                    views(sums@),
                    &*self,
                    k as nat,
                ),
            decreases num_iterations - k,
        {
            let ghost sm = *self;
            let ghost prev = views(sums@);
            let params = DcfrParams::new(self.iteration);
            self.iteration = self.iteration + 1;
            let ghost sc = *self;
            let roots = self.round(tree, table, bk, params);
            let ghost rv = views(roots@);
            let mut q: usize = 0;
            let ghost sums0 = sums@;
            while q < np
                invariant
                    q <= np,
                    np == tree.np(),
                    sums@.len() == np,
                    sums0.len() == np,
                    roots@.len() == np,
                    forall|j: int| 0 <= j < np ==> (#[trigger] roots@[j])@.len() == nh,
                    forall|j: int| 0 <= j < np ==> (#[trigger] sums0[j])@.len() == nh,
                    forall|j: int| 0 <= j < np ==> (#[trigger] sums@[j])@.len() == nh,
                    forall|j: int|
                        0 <= j < q ==> (#[trigger] sums@[j])@ == plus_row(sums0[j]@, roots@[j]@),
                    forall|j: int| q <= j < np ==> (#[trigger] sums@[j]) == sums0[j],
                decreases np - q,
            {
                let s = row_sum(&sums[q], &roots[q]);
                sums[q] = s;
                q += 1;
            }
            proof {
                let n = (k + 1) as nat;
                assert((n - 1) as nat == k as nat);
                assert(views(sums@) =~= plus_rows(prev, rv));
                assert(sc == sm.counted());
                assert(sm.counted().round_done(
                    tree,
                    table,
                    bk,
                    params,
                    rv,
                    self,
                    tree.np() as nat,
                ));
            }
            k += 1;
        }
        sums
    }

    /// Runs CFR; returns the first player's root values, averaged over the
    /// iterations.
    pub fn run(
        &mut self,
        tree: &FlatTree,
        table: &FlopChanceTable<T>,
        bk: &FlopBucketing<T>,
        num_iterations: u32,
    ) -> (root: Vec<T>)
        requires
            old(self).wf(tree),
            old(self).is_for(table, bk),
            is_table_for(table, tree),
            3 <= tree.num_players <= MAX_OPP + 1,
            counts_on(old(self).iteration as int, num_iterations as int),
        ensures
            final(self).wf(tree),
            final(self).is_for(table, bk),
            exists|sums: Seq<Seq<T>>| #[trigger]
                old(self).iterated(
                    tree,
                    table,
                    bk,
                    sums,
                    &*final(self),
                    num_iterations as nat,
                ) && root@ == over_count(sums[0], num_iterations as int),
    {
        let ghost s0 = *self;
        let sums = self.iterate(tree, table, bk, num_iterations);
        proof {
            assert(s0.iterated(
                tree,
                table,
                bk,
                views(sums@),
                self,
                num_iterations as nat,
            ));
        }
        row_over(&sums[0], num_iterations as usize)
    }
}

impl<T: Widen> BucketedFlopCfr<T> {
    pub fn iteration_count(&self) -> (r: u32)
        ensures
            r == self.iteration,
    {
        self.iteration
    }

    pub fn num_hands(&self) -> (r: usize)
        ensures
            r == self.nh,
    {
        self.nh
    }

    pub fn flop_infosets(&self) -> (r: usize)
        ensures
            r == self.flop_book.infoset_count,
    {
        self.flop_book.infoset_count
    }

    pub fn turn_infosets(&self) -> (r: usize)
        ensures
            r == self.turn_book.infoset_count,
    {
        self.turn_book.infoset_count
    }

    pub fn river_infosets(&self) -> (r: usize)
        ensures
            r == self.river_book.infoset_count,
    {
        self.river_book.infoset_count
    }

    pub fn max_river_outcomes(&self) -> (r: usize)
        ensures
            r == self.max_n_river,
    {
        self.max_n_river
    }

    /// Entries of one outcome in the flop's buffers.
    pub fn flop_stride(&self) -> (n: usize)
        requires
            self.flop.wf(),
        ensures
            n == self.flop.infosets * room(self.flop.width as int),
    {
        self.flop.stride()
    }

    pub fn regrets_flop(&self) -> (r: &Vec<T>)
        ensures
            *r == self.flop.regrets,
    {
        &self.flop.regrets
    }

    pub fn cum_strategy_flop(&self) -> (r: &Vec<T>)
        ensures
            *r == self.flop.cum,
    {
        &self.flop.cum
    }

    /// The number of a flop decision among the flop's infosets.
    pub fn flop_local_offset_at(&self, idx: usize) -> (r: Option<usize>)
        requires
            idx < self.flop_book.local_offset@.len(),
        ensures
            r == local_of(&self.flop_book, idx as int),
    {
        let v: usize = self.flop_book.local_offset[idx];
        if v == UNUSED {
            None
        } else {
            Some(v)
        }
    }

    /// Entries of one outcome in the turn's buffers.
    pub fn turn_stride(&self) -> (n: usize)
        requires
            self.turn.wf(),
        ensures
            n == self.turn.infosets * room(self.turn.width as int),
    {
        self.turn.stride()
    }

    pub fn regrets_turn(&self) -> (r: &Vec<T>)
        ensures
            *r == self.turn.regrets,
    {
        &self.turn.regrets
    }

    pub fn cum_strategy_turn(&self) -> (r: &Vec<T>)
        ensures
            *r == self.turn.cum,
    {
        &self.turn.cum
    }

    /// The number of a turn decision among the turn's infosets.
    pub fn turn_local_offset_at(&self, idx: usize) -> (r: Option<usize>)
        requires
            idx < self.turn_book.local_offset@.len(),
        ensures
            r == local_of(&self.turn_book, idx as int),
    {
        let v: usize = self.turn_book.local_offset[idx];
        if v == UNUSED {
            None
        } else {
            Some(v)
        }
    }

    /// Entries of one outcome in the river's buffers.
    pub fn river_stride(&self) -> (n: usize)
        requires
            self.river.wf(),
        ensures
            n == self.river.infosets * room(self.river.width as int),
    {
        self.river.stride()
    }

    pub fn regrets_river(&self) -> (r: &Vec<T>)
        ensures
            *r == self.river.regrets,
    {
        &self.river.regrets
    }

    pub fn cum_strategy_river(&self) -> (r: &Vec<T>)
        ensures
            *r == self.river.cum,
    {
        &self.river.cum
    }

    /// The number of a river decision among the river's infosets.
    pub fn river_local_offset_at(&self, idx: usize) -> (r: Option<usize>)
        requires
            idx < self.river_book.local_offset@.len(),
        ensures
            r == local_of(&self.river_book, idx as int),
    {
        let v: usize = self.river_book.local_offset[idx];
        if v == UNUSED {
            None
        } else {
            Some(v)
        }
    }
}

} // verus!
