//! Whole passes and runs of the flop-start solver.
use vstd::prelude::*;

use crate::bank::ZoneBank;
use crate::flop_start_game::FlopChanceTable;
use crate::flop_start_vector_cfr::{FlopStartVectorCfr, Setting};
use crate::layout::{flat, get_row, row};
use crate::learn::{counts_on, discounts, DcfrParams};
use crate::rows::{
    add_rows, copy_rows, over_count, plus_row, row_over, row_sum, rows_set, same_row, sum_row,
    zero_row, zero_rows,
};
use crate::scalar::{filled, Scalar, Widen};
use crate::terminal::{is_evaluator, views, TerminalSpot};
use crate::tree::FlatTree;
use crate::variants::{lean_fits, leaned_of, Lean};
use crate::zones::Zone;

verus! {

/// The strategy that turn and river play in a pass.
pub enum Play<'a, T> {
    /// The current regrets, matched.
    Regrets,
    /// The average so far.
    Average,
    /// The average, leaning.
    Leaning(&'a Lean<'a, T>),
}

/// The pass can be made with this strategy.
pub open spec fn play_fits<T: Scalar>(play: &Play<T>, tree: &FlatTree, zones: Seq<Zone>, nh: int) -> bool {
    match play {
        Play::Leaning(lean) => lean_fits(*lean, tree, zones, Zone::Turn, nh) && lean_fits(
            *lean,
            tree,
            zones,
            Zone::River,
            nh,
        ),
        _ => true,
    }
}

/// The chances of river place `rc` after turn card `tc`, by hand.
pub open spec fn river_chances<T: Widen>(table: &FlopChanceTable<T>, tc: int, rc: int) -> Seq<T> {
    Seq::new(table.nh() as nat, |h: int| table.river_chance(tc, rc, h))
}

/// The chances of turn place `tc`, by hand.
pub open spec fn turn_chances<T: Widen>(table: &FlopChanceTable<T>, tc: int) -> Seq<T> {
    Seq::new(table.nh() as nat, |h: int| table.turn_chance(tc, h))
}

pub fn list_river_chances<T: Widen>(table: &FlopChanceTable<T>, tc: u8, rc: usize) -> (w: Vec<T>)
    requires
        table.wf(),
        tc < 52,
        rc < table.river_decks@[tc as int]@.len(),
    ensures
        w@ == river_chances(table, tc as int, rc as int),
{
    let mut w: Vec<T> = Vec::new();
    let mut h: usize = 0;
    while h < table.num_valid
        invariant
            h <= table.num_valid,
            table.wf(),
            tc < 52,
            rc < table.river_decks@[tc as int]@.len(),
            w@.len() == h,
            forall|k: int|
                0 <= k < h ==> #[trigger] w@[k] == table.river_chance(tc as int, rc as int, k),
        decreases table.num_valid - h,
    {
        w.push(table.chance_probability_river(tc, rc, h));
        h += 1;
    }
    assert(w@ =~= river_chances(table, tc as int, rc as int));
    w
}

pub fn list_turn_chances<T: Widen>(table: &FlopChanceTable<T>, tc: usize) -> (w: Vec<T>)
    requires
        table.wf(),
        tc < table.remaining_deck@.len(),
    ensures
        w@ == turn_chances(table, tc as int),
{
    let mut w: Vec<T> = Vec::new();
    let mut h: usize = 0;
    while h < table.num_valid
        invariant
            h <= table.num_valid,
            table.wf(),
            tc < table.remaining_deck@.len(),
            w@.len() == h,
            forall|k: int| 0 <= k < h ==> #[trigger] w@[k] == table.turn_chance(tc as int, k),
        decreases table.num_valid - h,
    {
        w.push(table.chance_probability_turn(tc, h));
        h += 1;
    }
    assert(w@ =~= turn_chances(table, tc as int));
    w
}

/// The marked rows of the two buffers agree.
pub open spec fn agree_at<T>(a: Seq<T>, b: Seq<T>, w: int, n: int, marks: Seq<u32>) -> bool {
    forall|i: int|
        0 <= i < n && marks.contains(i as u32) ==> #[trigger] row(a, w, i) == row(b, w, i)
}

impl<T: Widen> FlopStartVectorCfr<T> {
    /// `s` is this solver with the strategy of a street set up.
    pub open spec fn prepared(
        &self,
        tree: &FlatTree,
        play: &Play<T>,
        zone: Zone,
        tc: int,
        rc: int,
        s: &Self,
    ) -> bool {
        match play {
            Play::Regrets => self.matched(tree, zone, tc, rc, true, s),
            Play::Average => self.matched(tree, zone, tc, rc, false, s),
            Play::Leaning(lean) => {
                let was = self.bank(zone);
                let b = s.bank(zone);
                &&& self.differs_in(s, zone)
                &&& b == (ZoneBank { strategy: b.strategy, ..was })
                &&& leaned_of(
                    tree,
                    self.zones@,
                    zone,
                    &self.book(zone),
                    self.nh as int,
                    self.outcome(zone, tc, rc),
                    was.cum@,
                    *lean,
                    was.strategy@,
                    b.strategy@,
                )
            },
        }
    }

    /// The turn strategy of one turn card.
    fn prepare_turn(&mut self, tree: &FlatTree, play: &Play<T>, tc: usize)
        requires
            old(self).wf(tree),
            tc < old(self).n_turn,
            play_fits(play, tree, old(self).zones@, old(self).nh as int),
        ensures
            final(self).wf(tree),
            old(self).prepared(tree, play, Zone::Turn, tc as int, 0, &*final(self)),
    {
        match play {
            Play::Regrets => {
                self.compute_turn_strategy_for_tc(tree, tc);
            },
            Play::Average => {
                self.freeze_average_strategy_for_turn(tree, tc);
            },
            Play::Leaning(lean) => {
                self.turn.freeze_leaning(
                    tree,
                    &self.zones,
                    Zone::Turn,
                    &self.turn_book,
                    tc,
                    *lean,
                );
            },
        }
    }

    /// The river strategy of one turn and river card.
    fn prepare_river(&mut self, tree: &FlatTree, play: &Play<T>, tc: usize, rc: usize)
        requires
            old(self).wf(tree),
            old(self).holds_outcome(Zone::River, tc as int, rc as int),
            play_fits(play, tree, old(self).zones@, old(self).nh as int),
        ensures
            final(self).wf(tree),
            old(self).prepared(tree, play, Zone::River, tc as int, rc as int, &*final(self)),
    {
        match play {
            Play::Regrets => {
                self.compute_river_strategy_for_pair(tree, tc, rc);
            },
            Play::Average => {
                self.freeze_average_strategy_for_river_pair(tree, tc, rc);
            },
            Play::Leaning(lean) => {
                let o: usize = self.river_place(tc, rc);
                proof {
                    self.lemma_outcome(tree, Zone::River, tc as int, rc as int);
                }
                self.river.freeze_leaning(
                    tree,
                    &self.zones,
                    Zone::River,
                    &self.river_book,
                    o,
                    *lean,
                );
            },
        }
    }

    /// One river card: strategy, reach, values; the values of the river deals
    /// are added to `acc0`, weighted by their chance.
    pub open spec fn river_step<F: Fn(&TerminalSpot<T>) -> Vec<T>>(
        &self,
        at_: &Setting<T, F>,
        play: &Play<T>,
        tc: int,
        rc: int,
        turn_reach: Seq<T>,
        acc0: Seq<T>,
        acc: Seq<T>,
        s: &Self,
    ) -> bool {
        exists|sp: Self, reach: Seq<T>, was: Seq<T>, cfv: Seq<T>|
            {
                &&& self.prepared(at_.tree, play, Zone::River, tc, rc, &sp)
                &&& sp.is_river_reach(at_.tree, turn_reach, reach)
                &&& was.len() == at_.tree.size() * self.nh
                &&& #[trigger] sp.passed(at_, Zone::River, tc, rc, reach, was, cfv, s)
                &&& rows_set(
                    acc0,
                    acc,
                    self.nh as int,
                    at_.tree.size(),
                    self.river_chance_children@,
                    sum_row(
                        acc0,
                        river_chances(at_.table, at_.table.remaining_deck@[tc] as int, rc),
                        cfv,
                        self.nh as int,
                    ),
                )
            }
    }

    /// The first `n` river cards after turn place `tc`, one after the other,
    /// starting from zeros.
    pub open spec fn rivers_done<F: Fn(&TerminalSpot<T>) -> Vec<T>>(
        &self,
        at_: &Setting<T, F>,
        play: &Play<T>,
        tc: int,
        turn_reach: Seq<T>,
        acc0: Seq<T>,
        acc: Seq<T>,
        s: &Self,
        n: nat,
    ) -> bool
        decreases n,
    {
        if n == 0 {
            *s == *self && rows_set(
                acc0,
                acc,
                self.nh as int,
                at_.tree.size(),
                self.river_chance_children@,
                zero_row::<T>(self.nh as int),
            )
        } else {
            exists|sm: Self, mid: Seq<T>|
                self.rivers_done(at_, play, tc, turn_reach, acc0, mid, &sm, (n - 1) as nat)
                    && #[trigger] sm.river_step(at_, play, tc, n - 1, turn_reach, mid, acc, s)
        }
    }

    /// The strategy of turn place `tc` is set up, and `reach` is its reach.
    pub open spec fn turn_begun(
        &self,
        tree: &FlatTree,
        play: &Play<T>,
        tc: int,
        flop_reach: Seq<T>,
        reach: Seq<T>,
        s: &Self,
    ) -> bool {
        self.prepared(tree, play, Zone::Turn, tc, 0, s) && s.is_turn_reach(tree, flop_reach, reach)
    }

    /// The turn was valued on top of what its river deals are worth, and what
    /// the turn deals are worth was added to `acc0`, weighted by their chance.
    pub open spec fn turn_ended<F: Fn(&TerminalSpot<T>) -> Vec<T>>(
        &self,
        at_: &Setting<T, F>,
        tc: int,
        reach: Seq<T>,
        rivers: Seq<T>,
        acc0: Seq<T>,
        acc: Seq<T>,
        s: &Self,
    ) -> bool {
        exists|was: Seq<T>, cfv: Seq<T>|
            {
                &&& was.len() == at_.tree.size() * self.nh
                &&& rows_set(
                    flat(T::s_zero(), at_.tree.size() * self.nh),
                    was,
                    self.nh as int,
                    at_.tree.size(),
                    self.river_chance_children@,
                    same_row(rivers, self.nh as int),
                )
                &&& #[trigger] self.passed(at_, Zone::Turn, tc, 0, reach, was, cfv, s)
                &&& rows_set(
                    acc0,
                    acc,
                    self.nh as int,
                    at_.tree.size(),
                    self.turn_chance_children@,
                    sum_row(acc0, turn_chances(at_.table, tc), cfv, self.nh as int),
                )
            }
    }

    /// One turn card: strategy, reach, all its rivers, values; the values of the
    /// turn deals are added to `acc0`, weighted by their chance.
    pub open spec fn turn_step<F: Fn(&TerminalSpot<T>) -> Vec<T>>(
        &self,
        at_: &Setting<T, F>,
        play: &Play<T>,
        tc: int,
        flop_reach: Seq<T>,
        acc0: Seq<T>,
        acc: Seq<T>,
        s: &Self,
    ) -> bool {
        exists|sp: Self, reach: Seq<T>, r0: Seq<T>, rivers: Seq<T>, sr: Self|
            {
                &&& self.turn_begun(at_.tree, play, tc, flop_reach, reach, &sp)
                &&& #[trigger] sp.rivers_done(
                    at_,
                    play,
                    tc,
                    reach,
                    r0,
                    rivers,
                    &sr,
                    self.river_counts@[tc] as nat,
                )
                &&& sr.turn_ended(at_, tc, reach, rivers, acc0, acc, s)
            }
    }

    /// The first `n` turn cards, one after the other, starting from zeros.
    pub open spec fn turns_done<F: Fn(&TerminalSpot<T>) -> Vec<T>>(
        &self,
        at_: &Setting<T, F>,
        play: &Play<T>,
        flop_reach: Seq<T>,
        acc0: Seq<T>,
        acc: Seq<T>,
        s: &Self,
        n: nat,
    ) -> bool
        decreases n,
    {
        if n == 0 {
            *s == *self && rows_set(
                acc0,
                acc,
                self.nh as int,
                at_.tree.size(),
                self.turn_chance_children@,
                zero_row::<T>(self.nh as int),
            )
        } else {
            exists|sm: Self, mid: Seq<T>|
                self.turns_done(at_, play, flop_reach, acc0, mid, &sm, (n - 1) as nat)
                    && #[trigger] sm.turn_step(at_, play, n - 1, flop_reach, mid, acc, s)
        }
    }

    /// The tables and counts of the two states are the same.
    pub open spec fn same_frame(&self, s: &Self) -> bool {
        *s == (FlopStartVectorCfr { flop: s.flop, turn: s.turn, river: s.river, ..*self })
    }

    /// A buffer of one row of hands per node.
    pub fn value_buffer(&self, tree: &FlatTree) -> (buf: Vec<T>)
        requires
            self.wf(tree),
        ensures
            buf@ == flat(T::s_zero(), tree.size() * self.nh),
            buf@.len() == tree.size() * self.nh,
    {
        let nn: usize = tree.num_nodes();
        let np: usize = self.num_players as usize;
        let nh: usize = self.nh;
        proof {
            assert(nn * nh <= nn * (np * nh)) by (nonlinear_arith)
                requires
                    1 <= np,
                    0 <= nn,
                    0 <= nh,
            ;
            assert(0 <= nn * nh) by (nonlinear_arith)
                requires
                    0 <= nn,
                    0 <= nh,
            ;
        }
        let buf = filled(T::zero(), nn * nh);
        assert(buf@ =~= flat(T::s_zero(), tree.size() * self.nh));
        buf
    }

    /// Plays one turn and river card and adds what the river deals are worth.
    pub fn play_river<F: Fn(&TerminalSpot<T>) -> Vec<T>>(
        &mut self,
        at_: &Setting<T, F>,
        play: &Play<T>,
        tc: usize,
        rc: usize,
        turn_reach: &Vec<T>,
        cfv: &mut Vec<T>,
        acc: &mut Vec<T>,
    )
        requires
            old(self).wf(at_.tree),
            old(self).is_for(at_.table),
            at_.wf(),
            play_fits(play, at_.tree, old(self).zones@, old(self).nh as int),
            old(self).holds_outcome(Zone::River, tc as int, rc as int),
            turn_reach@.len() == at_.tree.size() * (at_.tree.np() * old(self).nh),
            old(cfv)@.len() == at_.tree.size() * old(self).nh,
            old(acc)@.len() == at_.tree.size() * old(self).nh,
        ensures
            final(self).wf(at_.tree),
            final(self).is_for(at_.table),
            old(self).same_frame(&*final(self)),
            final(cfv)@.len() == old(cfv)@.len(),
            final(acc)@.len() == old(acc)@.len(),
            old(self).river_step(
                at_,
                play,
                tc as int,
                rc as int,
                turn_reach@,
                old(acc)@,
                final(acc)@,
                &*final(self),
            ),
    {
        let ghost s0 = *self;
        let ghost acc0 = acc@;
        let ghost was = cfv@;
        let tree = at_.tree;
        self.prepare_river(tree, play, tc, rc);
        let ghost sp = *self;
        let reach = self.compute_reach_river(tree, turn_reach);
        self.bottom_up_zone(at_, &reach, cfv, Zone::River, tc, rc);
        let t: u8 = at_.table.remaining_deck[tc];
        proof {
            self.lemma_marks(tree);
            assert(at_.table.remaining_deck@[tc as int] < 52);
            assert(self.river_counts@[tc as int] == at_.table.river_decks@[t as int]@.len());
        }
        let weights = list_river_chances(at_.table, t, rc);
        add_rows(&self.river_chance_children, self.nh, tree.num_nodes(), &weights, cfv, acc);
        proof {
            assert(sp.passed(
                at_,
                Zone::River,
                tc as int,
                rc as int,
                reach@,
                was,
                cfv@,
                self,
            ));
        }
    }

    /// Sets up one turn card: its strategy, its reach, and zeros for what its
    /// river deals are worth.
    pub fn begin_turn(&mut self, tree: &FlatTree, play: &Play<T>, tc: usize, flop_reach: &Vec<T>) -> (out:
        (Vec<T>, Vec<T>))
        requires
            old(self).wf(tree),
            play_fits(play, tree, old(self).zones@, old(self).nh as int),
            tc < old(self).n_turn,
            flop_reach@.len() == tree.size() * (tree.np() * old(self).nh),
        ensures
            final(self).wf(tree),
            old(self).same_frame(&*final(self)),
            old(self).turn_begun(tree, play, tc as int, flop_reach@, out.0@, &*final(self)),
            out.0@.len() == flop_reach@.len(),
            out.1@.len() == tree.size() * old(self).nh,
            rows_set(
                flat(T::s_zero(), tree.size() * old(self).nh),
                out.1@,
                old(self).nh as int,
                tree.size(),
                old(self).river_chance_children@,
                zero_row::<T>(old(self).nh as int),
            ),
    {
        self.prepare_turn(tree, play, tc);
        let reach = self.compute_reach_turn(tree, flop_reach);
        let mut rivers = self.value_buffer(tree);
        proof {
            self.lemma_marks(tree);
        }
        zero_rows(&self.river_chance_children, self.nh, tree.num_nodes(), &mut rivers);
        (reach, rivers)
    }

    /// Values the turn on top of its rivers, and adds what the turn deals are
    /// worth.
    pub fn end_turn<F: Fn(&TerminalSpot<T>) -> Vec<T>>(
        &mut self,
        at_: &Setting<T, F>,
        tc: usize,
        reach: &Vec<T>,
        rivers: &Vec<T>,
        acc: &mut Vec<T>,
    )
        requires
            old(self).wf(at_.tree),
            old(self).is_for(at_.table),
            at_.wf(),
            tc < old(self).n_turn,
            reach@.len() == at_.tree.size() * (at_.tree.np() * old(self).nh),
            rivers@.len() == at_.tree.size() * old(self).nh,
            old(acc)@.len() == at_.tree.size() * old(self).nh,
        ensures
            final(self).wf(at_.tree),
            final(self).is_for(at_.table),
            old(self).same_frame(&*final(self)),
            final(acc)@.len() == old(acc)@.len(),
            old(self).turn_ended(
                at_,
                tc as int,
                reach@,
                rivers@,
                old(acc)@,
                final(acc)@,
                &*final(self),
            ),
    {
        let ghost sr = *self;
        let tree = at_.tree;
        let nn: usize = tree.num_nodes();
        let nh: usize = self.nh;
        let mut turn_cfv = self.value_buffer(tree);
        proof {
            self.lemma_marks(tree);
        }
        copy_rows(&self.river_chance_children, nh, nn, rivers, &mut turn_cfv);
        let ghost was = turn_cfv@;
        self.bottom_up_zone(at_, reach, &mut turn_cfv, Zone::Turn, tc, 0);
        let weights = list_turn_chances(at_.table, tc);
        add_rows(&self.turn_chance_children, nh, nn, &weights, &turn_cfv, acc);
        proof {
            assert(sr.passed(at_, Zone::Turn, tc as int, 0, reach@, was, turn_cfv@, self));
        }
    }

    /// Plays one turn card with all its rivers and adds what the turn deals are
    /// worth.
    fn play_turn<F: Fn(&TerminalSpot<T>) -> Vec<T>>(
        &mut self,
        at_: &Setting<T, F>,
        play: &Play<T>,
        tc: usize,
        flop_reach: &Vec<T>,
        acc: &mut Vec<T>,
    )
        requires
            old(self).wf(at_.tree),
            old(self).is_for(at_.table),
            old(self).river_mode.in_memory(),
            at_.wf(),
            play_fits(play, at_.tree, old(self).zones@, old(self).nh as int),
            tc < old(self).n_turn,
            flop_reach@.len() == at_.tree.size() * (at_.tree.np() * old(self).nh),
            old(acc)@.len() == at_.tree.size() * old(self).nh,
        ensures
            final(self).wf(at_.tree),
            final(self).is_for(at_.table),
            old(self).same_frame(&*final(self)),
            final(acc)@.len() == old(acc)@.len(),
            old(self).turn_step(
                at_,
                play,
                tc as int,
                flop_reach@,
                old(acc)@,
                final(acc)@,
                &*final(self),
            ),
    {
        let ghost s0 = *self;
        let tree = at_.tree;
        let nh: usize = self.nh;
        let (reach, mut rivers) = self.begin_turn(tree, play, tc, flop_reach);
        let ghost sp = *self;
        let mut cfv = self.value_buffer(tree);
        let ghost r0 = flat(T::s_zero(), tree.size() * nh);
        let n: usize = self.river_counts[tc];
        let mut rc: usize = 0;
        while rc < n
            invariant
                rc <= n,
                tree == at_.tree,
                nh == sp.nh,
                n == sp.river_counts@[tc as int],
                tc < sp.n_turn,
                sp.river_counts@.len() == sp.n_turn,
                sp.river_mode.in_memory(),
                sp.same_frame(&*self),
                self.wf(tree),
                self.is_for(at_.table),
                at_.wf(),
                play_fits(play, tree, sp.zones@, nh as int),
                reach@.len() == tree.size() * (tree.np() * nh),
                cfv@.len() == tree.size() * nh,
                rivers@.len() == tree.size() * nh,
                sp.rivers_done(
                    at_,
                    play,
                    tc as int,
                    reach@,
                    r0,
                    rivers@,
                    &*self,
                    rc as nat,
                ),
            decreases n - rc,
        {
            let ghost sm = *self;
            let ghost mid = rivers@;
            self.play_river(at_, play, tc, rc, &reach, &mut cfv, &mut rivers);
            proof {
                let n = (rc + 1) as nat;
                assert((n - 1) as nat == rc as nat);
                assert(sm.river_step(at_, play, tc as int, n - 1, reach@, mid, rivers@, self));
            }
            rc += 1;
        }
        let ghost sr = *self;
        self.end_turn(at_, tc, &reach, &rivers, acc);
        proof {
            assert(sp.rivers_done(
                at_,
                play,
                tc as int,
                reach@,
                r0,
                rivers@,
                &sr,
                s0.river_counts@[tc as int] as nat,
            ));
        }
    }

    /// What the turn deals are worth: all turn and river cards are played, and
    /// their values added up by chance.
    pub fn continuation<F: Fn(&TerminalSpot<T>) -> Vec<T>>(
        &mut self,
        at_: &Setting<T, F>,
        play: &Play<T>,
        flop_reach: &Vec<T>,
    ) -> (acc: Vec<T>)
        requires
            old(self).wf(at_.tree),
            old(self).is_for(at_.table),
            old(self).river_mode.in_memory(),
            at_.wf(),
            play_fits(play, at_.tree, old(self).zones@, old(self).nh as int),
            flop_reach@.len() == at_.tree.size() * (at_.tree.np() * old(self).nh),
        ensures
            final(self).wf(at_.tree),
            final(self).is_for(at_.table),
            old(self).same_frame(&*final(self)),
            acc@.len() == at_.tree.size() * old(self).nh,
            old(self).turns_done(
                at_,
                play,
                flop_reach@,
                flat(T::s_zero(), at_.tree.size() * old(self).nh),
                acc@,
                &*final(self),
                old(self).n_turn as nat,
            ),
    {
        let ghost s0 = *self;
        let tree = at_.tree;
        let nn: usize = tree.num_nodes();
        let mut acc = self.value_buffer(tree);
        let ghost acc0 = acc@;
        proof {
            self.lemma_marks(tree);
        }
        zero_rows(&self.turn_chance_children, self.nh, nn, &mut acc);
        let n: usize = self.n_turn;
        let mut tc: usize = 0;
        while tc < n
            invariant
                tc <= n,
                tree == at_.tree,
                n == s0.n_turn,
                s0.river_mode.in_memory(),
                s0.same_frame(&*self),
                self.wf(tree),
                self.is_for(at_.table),
                at_.wf(),
                play_fits(play, tree, s0.zones@, s0.nh as int),
                flop_reach@.len() == tree.size() * (tree.np() * s0.nh),
                acc@.len() == tree.size() * s0.nh,
                s0.turns_done(at_, play, flop_reach@, acc0, acc@, &*self, tc as nat),
            decreases n - tc,
        {
            let ghost sm = *self;
            let ghost mid = acc@;
            self.play_turn(at_, play, tc, flop_reach, &mut acc);
            proof {
                let k = (tc + 1) as nat;
                assert((k - 1) as nat == tc as nat);
                assert(sm.turn_step(at_, play, k - 1, flop_reach@, mid, acc@, self));
            }
            tc += 1;
        }
        acc
    }
}

/// The setting of one traverser.
pub open spec fn setting<'a, T: Widen, F>(
    tree: &'a FlatTree,
    table: &'a FlopChanceTable<T>,
    showdown: &'a F,
    traverser: u8,
    params: DcfrParams<T>,
) -> Setting<'a, T, F> {
    Setting { tree, table, showdown, traverser, params }
}

/// Each row of `sums` plus the row of `roots` of the same player.
pub open spec fn plus_rows<T: Scalar>(sums: Seq<Seq<T>>, roots: Seq<Seq<T>>) -> Seq<Seq<T>> {
    Seq::new(sums.len(), |p: int| plus_row(sums[p], roots[p]))
}

impl<T: Widen> FlopStartVectorCfr<T> {
    /// The flop strategy is regret-matched, and `reach` is its reach.
    pub open spec fn flop_begun(
        &self,
        tree: &FlatTree,
        table: &FlopChanceTable<T>,
        reach: Seq<T>,
        s: &Self,
    ) -> bool {
        self.matched(tree, Zone::Flop, 0, 0, true, s) && s.is_flop_reach(tree, table, reach)
    }

    /// The flop was valued on top of what its turn deals are worth; `root` are
    /// the root's values.
    pub open spec fn flop_ended<F: Fn(&TerminalSpot<T>) -> Vec<T>>(
        &self,
        at_: &Setting<T, F>,
        reach: Seq<T>,
        turns: Seq<T>,
        root: Seq<T>,
        s: &Self,
    ) -> bool {
        exists|cfv: Seq<T>| #[trigger]
            self.passed(at_, Zone::Flop, 0, 0, reach, turns, cfv, s) && root == row(
                cfv,
                self.nh as int,
                0,
            )
    }

    /// One traverser's pass over the whole tree.
    pub open spec fn traversed<F: Fn(&TerminalSpot<T>) -> Vec<T>>(
        &self,
        at_: &Setting<T, F>,
        play: &Play<T>,
        root: Seq<T>,
        s: &Self,
    ) -> bool {
        exists|sp: Self, reach: Seq<T>, turns: Seq<T>, sc: Self|
            {
                &&& self.flop_begun(at_.tree, at_.table, reach, &sp)
                &&& #[trigger] sp.turns_done(
                    at_,
                    play,
                    reach,
                    flat(T::s_zero(), at_.tree.size() * self.nh),
                    turns,
                    &sc,
                    self.n_turn as nat,
                )
                &&& sc.flop_ended(at_, reach, turns, root, s)
            }
    }

    /// The passes of the first `n` traversers, one after the other.
    pub open spec fn round_done<F: Fn(&TerminalSpot<T>) -> Vec<T>>(
        &self,
        tree: &FlatTree,
        table: &FlopChanceTable<T>,
        showdown: &F,
        params: DcfrParams<T>,
        play: &Play<T>,
        roots: Seq<Seq<T>>,
        s: &Self,
        n: nat,
    ) -> bool
        decreases n,
    {
        if n == 0 {
            *s == *self && roots.len() == 0
        } else {
            exists|sm: Self, prev: Seq<Seq<T>>, root: Seq<T>|
                {
                    &&& self.round_done(
                        tree,
                        table,
                        showdown,
                        params,
                        play,
                        prev,
                        &sm,
                        (n - 1) as nat,
                    )
                    &&& roots == #[trigger] prev.push(root)
                    &&& #[trigger] sm.traversed(
                        &setting(tree, table, showdown, (n - 1) as u8, params),
                        play,
                        root,
                        s,
                    )
                }
        }
    }

    /// The iteration count goes on for `n` iterations, past none without discount
    /// factors.
    pub open spec fn can_count(&self, n: int) -> bool {
        if self.vanilla_mode {
            self.iteration + n <= u32::MAX
        } else {
            counts_on(self.iteration as int, n)
        }
    }

    /// `p` are the discount factors of the next iteration.
    pub open spec fn is_due(&self, p: DcfrParams<T>) -> bool {
        if self.vanilla_mode {
            p.alpha() == T::s_one() && p.beta() == T::s_one() && p.gamma() == T::s_one()
        } else {
            (p.alpha(), p.beta(), p.gamma()) == discounts::<T>(self.iteration as int)
        }
    }

    /// This solver with one more iteration on its count.
    pub open spec fn counted(&self) -> Self {
        FlopStartVectorCfr { iteration: (self.iteration + 1) as u32, ..*self }
    }

    /// `n` iterations; `sums` adds up every traverser's root values.
    pub open spec fn iterated<F: Fn(&TerminalSpot<T>) -> Vec<T>>(
        &self,
        tree: &FlatTree,
        table: &FlopChanceTable<T>,
        showdown: &F,
        play: &Play<T>,
        sums: Seq<Seq<T>>,
        s: &Self,
        n: nat,
    ) -> bool
        decreases n,
    {
        if n == 0 {
            *s == *self && sums == Seq::new(
                tree.np() as nat,
                |p: int| flat(T::s_zero(), self.nh as int),
            )
        } else {
            exists|sm: Self, prev: Seq<Seq<T>>, p: DcfrParams<T>, roots: Seq<Seq<T>>|
                {
                    &&& self.iterated(
                        tree,
                        table,
                        showdown,
                        play,
                        prev,
                        &sm,
                        (n - 1) as nat,
                    )
                    &&& sm.is_due(p)
                    &&& #[trigger] sm.counted().round_done(
                        tree,
                        table,
                        showdown,
                        p,
                        play,
                        roots,
                        s,
                        tree.np() as nat,
                    )
                    &&& sums == #[trigger] plus_rows(prev, roots)
                }
        }
    }

    /// Sets up the flop: its strategy and its reach.
    pub fn begin_flop(&mut self, tree: &FlatTree, table: &FlopChanceTable<T>) -> (reach: Vec<T>)
        requires
            old(self).wf(tree),
            old(self).is_for(table),
        ensures
            final(self).wf(tree),
            final(self).is_for(table),
            old(self).same_frame(&*final(self)),
            old(self).flop_begun(tree, table, reach@, &*final(self)),
            reach@.len() == tree.size() * (tree.np() * old(self).nh),
    {
        self.compute_flop_strategy(tree);
        self.compute_reach_flop(tree, table)
    }

    /// Values the flop on top of what its turn deals are worth.
    pub fn end_flop<F: Fn(&TerminalSpot<T>) -> Vec<T>>(
        &mut self,
        at_: &Setting<T, F>,
        reach: &Vec<T>,
        turns: Vec<T>,
    ) -> (root: Vec<T>)
        requires
            old(self).wf(at_.tree),
            old(self).is_for(at_.table),
            at_.wf(),
            reach@.len() == at_.tree.size() * (at_.tree.np() * old(self).nh),
            turns@.len() == at_.tree.size() * old(self).nh,
        ensures
            final(self).wf(at_.tree),
            final(self).is_for(at_.table),
            old(self).same_frame(&*final(self)),
            old(self).flop_ended(at_, reach@, turns@, root@, &*final(self)),
            root@.len() == old(self).nh,
    {
        let ghost was = turns@;
        let ghost sc = *self;
        let mut cfv = turns;
        self.bottom_up_zone(at_, reach, &mut cfv, Zone::Flop, 0, 0);
        let root = get_row(&cfv, self.nh, at_.tree.num_nodes(), 0);
        proof {
            assert(sc.passed(at_, Zone::Flop, 0, 0, reach@, was, cfv@, self));
        }
        root
    }

    /// One traverser's pass over the whole tree; the root's values.
    fn traverse<F: Fn(&TerminalSpot<T>) -> Vec<T>>(
        &mut self,
        at_: &Setting<T, F>,
        play: &Play<T>,
    ) -> (root: Vec<T>)
        requires
            old(self).wf(at_.tree),
            old(self).is_for(at_.table),
            old(self).river_mode.in_memory(),
            at_.wf(),
            play_fits(play, at_.tree, old(self).zones@, old(self).nh as int),
        ensures
            final(self).wf(at_.tree),
            final(self).is_for(at_.table),
            old(self).same_frame(&*final(self)),
            old(self).traversed(at_, play, root@, &*final(self)),
            root@.len() == old(self).nh,
    {
        let ghost s0 = *self;
        let reach = self.begin_flop(at_.tree, at_.table);
        let ghost sp = *self;
        let turns = self.continuation(at_, play, &reach);
        let ghost sc = *self;
        let ghost tv = turns@;
        let root = self.end_flop(at_, &reach, turns);
        proof {
            assert(sp.turns_done(
                at_,
                play,
                reach@,
                flat(T::s_zero(), at_.tree.size() * s0.nh),
                tv,
                &sc,
                s0.n_turn as nat,
            ));
        }
        root
    }

    /// One pass for every player.
    fn round<F: Fn(&TerminalSpot<T>) -> Vec<T>>(
        &mut self,
        tree: &FlatTree,
        table: &FlopChanceTable<T>,
        showdown: &F,
        params: DcfrParams<T>,
        play: &Play<T>,
    ) -> (roots: Vec<Vec<T>>)
        requires
            old(self).wf(tree),
            old(self).is_for(table),
            old(self).river_mode.in_memory(),
            is_evaluator(showdown, tree.np(), table.nh()),
            play_fits(play, tree, old(self).zones@, old(self).nh as int),
        ensures
            final(self).wf(tree),
            final(self).is_for(table),
            old(self).same_frame(&*final(self)),
            roots@.len() == tree.np(),
            forall|p: int| 0 <= p < tree.np() ==> (#[trigger] roots@[p])@.len() == old(self).nh,
            old(self).round_done(
                tree,
                table,
                showdown,
                params,
                play,
                views(roots@),
                &*final(self),
                tree.np() as nat,
            ),
    {
        let ghost s0 = *self;
        let np: u8 = self.num_players;
        let mut roots: Vec<Vec<T>> = Vec::new();
        assert(views(roots@) =~= Seq::<Seq<T>>::empty());
        let mut t: u8 = 0;
        while t < np
            invariant
                t <= np,
                np == tree.num_players,
                s0.same_frame(&*self),
                s0.river_mode.in_memory(),
                self.wf(tree),
                self.is_for(table),
                is_evaluator(showdown, tree.np(), table.nh()),
                play_fits(play, tree, s0.zones@, s0.nh as int),
                roots@.len() == t,
                forall|p: int| 0 <= p < t ==> (#[trigger] roots@[p])@.len() == s0.nh,
                s0.round_done(
                    tree,
                    table,
                    showdown,
                    params,
                    play,
                    views(roots@),
                    &*self,
                    t as nat,
                ),
            decreases np - t,
        {
            let ghost sm = *self;
            let ghost prev = views(roots@);
            let at_ = Setting { tree, table, showdown, traverser: t, params };
            let root = self.traverse(&at_, play);
            let ghost rv = root@;
            roots.push(root);
            proof {
                let n = (t + 1) as nat;
                assert((n - 1) as nat == t as nat);
                assert((n - 1) as u8 == t);
                assert(views(roots@) =~= prev.push(rv));
                assert(sm.traversed(
                    &setting(tree, table, showdown, (n - 1) as u8, params),
                    play,
                    rv,
                    self,
                ));
            }
            t += 1;
        }
        roots
    }

    /// The discount factors of the next iteration.
    pub fn due(&self) -> (p: DcfrParams<T>)
        requires
            self.can_count(1),
        ensures
            self.is_due(p),
    {
        if self.vanilla_mode {
            DcfrParams::vanilla()
        } else {
            DcfrParams::new(self.iteration)
        }
    }

    /// `num_iterations` rounds; every player's root values added up.
    fn iterate<F: Fn(&TerminalSpot<T>) -> Vec<T>>(
        &mut self,
        tree: &FlatTree,
        table: &FlopChanceTable<T>,
        showdown: &F,
        play: &Play<T>,
        num_iterations: u32,
    ) -> (sums: Vec<Vec<T>>)
        requires
            old(self).wf(tree),
            old(self).is_for(table),
            old(self).river_mode.in_memory(),
            is_evaluator(showdown, tree.np(), table.nh()),
            play_fits(play, tree, old(self).zones@, old(self).nh as int),
            old(self).can_count(num_iterations as int),
        ensures
            final(self).wf(tree),
            final(self).is_for(table),
            final(self).river_mode == old(self).river_mode,
            final(self).continuation_frozen == old(self).continuation_frozen,
            final(self).iteration == old(self).iteration + num_iterations,
            sums@.len() == tree.np(),
            forall|p: int| 0 <= p < tree.np() ==> (#[trigger] sums@[p])@.len() == old(self).nh,
            old(self).iterated(
                tree,
                table,
                showdown,
                play,
                views(sums@),
                &*final(self),
                num_iterations as nat,
            ),
    {
        let ghost s0 = *self;
        let np: usize = self.num_players as usize;
        let nh: usize = self.nh;
        let mut sums: Vec<Vec<T>> = Vec::new();
        let mut p: usize = 0;
        while p < np
            invariant
                p <= np,
                sums@.len() == p,
                forall|q: int| 0 <= q < p ==> (#[trigger] sums@[q])@ == flat(T::s_zero(), nh as int),
            decreases np - p,
        {
            let zeros = filled(T::zero(), nh);
            assert(zeros@ =~= flat(T::s_zero(), nh as int));
            sums.push(zeros);
            p += 1;
        }
        assert(views(sums@) =~= Seq::new(
            tree.np() as nat,
            |p: int| flat(T::s_zero(), s0.nh as int),
        ));
        let mut k: u32 = 0;
        while k < num_iterations
            invariant
                k <= num_iterations,
                nh == s0.nh,
                np == tree.np(),
                self.wf(tree),
                self.is_for(table),
                self.nh == s0.nh,
                self.zones@ == s0.zones@,
                self.river_mode == s0.river_mode,
                self.river_mode.in_memory(),
                self.continuation_frozen == s0.continuation_frozen,
                self.iteration == s0.iteration + k,
                s0.can_count(num_iterations as int),
                self.vanilla_mode == s0.vanilla_mode,
                is_evaluator(showdown, tree.np(), table.nh()),
                play_fits(play, tree, s0.zones@, s0.nh as int),
                sums@.len() == np,
                forall|q: int| 0 <= q < np ==> (#[trigger] sums@[q])@.len() == nh,
                s0.iterated(
                    tree,
                    table,
                    showdown,
                    play,
                    views(sums@),
                    &*self,
                    k as nat,
                ),
            decreases num_iterations - k,
        {
            let ghost sm = *self;
            let ghost prev = views(sums@);
            let params = self.due();
            self.iteration = self.iteration + 1;
            let ghost sc = *self;
            let roots = self.round(tree, table, showdown, params, play);
            let ghost rv = views(roots@);
            let mut q: usize = 0;
            let ghost sums0 = sums@;
            while q < np
                invariant
                    q <= np,
                    np == tree.np(),
                    sums@.len() == np,
                    sums0.len() == np,
                    roots@.len() == np,
                    forall|j: int| 0 <= j < np ==> (#[trigger] roots@[j])@.len() == nh,
                    forall|j: int| 0 <= j < np ==> (#[trigger] sums0[j])@.len() == nh,
                    forall|j: int| 0 <= j < np ==> (#[trigger] sums@[j])@.len() == nh,
                    forall|j: int|
                        0 <= j < q ==> (#[trigger] sums@[j])@ == plus_row(sums0[j]@, roots@[j]@),
                    forall|j: int| q <= j < np ==> (#[trigger] sums@[j]) == sums0[j],
                decreases np - q,
            {
                let s = row_sum(&sums[q], &roots[q]);
                sums[q] = s;
                q += 1;
            }
            proof {
                let n = (k + 1) as nat;
                assert((n - 1) as nat == k as nat);
                assert(views(sums@) =~= plus_rows(prev, rv));
                assert(sc == sm.counted());
                assert(sm.counted().round_done(
                    tree,
                    table,
                    showdown,
                    params,
                    play,
                    rv,
                    self,
                    tree.np() as nat,
                ));
            }
            k += 1;
        }
        sums
    }

    /// Runs CFR; returns the first player's root values, averaged over the
    /// iterations.
    pub fn run<F: Fn(&TerminalSpot<T>) -> Vec<T>>(
        &mut self,
        tree: &FlatTree,
        table: &FlopChanceTable<T>,
        showdown: &F,
        num_iterations: u32,
    ) -> (root: Vec<T>)
        requires
            old(self).wf(tree),
            old(self).is_for(table),
            old(self).river_mode.in_memory(),
            is_evaluator(showdown, tree.np(), table.nh()),
            old(self).can_count(num_iterations as int),
        ensures
            final(self).wf(tree),
            final(self).is_for(table),
            exists|sums: Seq<Seq<T>>| #[trigger]
                old(self).iterated(
                    tree,
                    table,
                    showdown,
                    &Play::Regrets,
                    sums,
                    &*final(self),
                    num_iterations as nat,
                ) && root@ == over_count(sums[0], num_iterations as int),
    {
        let ghost s0 = *self;
        let sums = self.iterate(tree, table, showdown, &Play::Regrets, num_iterations);
        proof {
            assert(s0.iterated(
                tree,
                table,
                showdown,
                &Play::Regrets,
                views(sums@),
                self,
                num_iterations as nat,
            ));
        }
        row_over(&sums[0], num_iterations as usize)
    }

    /// Runs CFR; returns every player's root values, averaged over the
    /// iterations. The first player's are those of [`FlopStartVectorCfr::run`].
    pub fn run_all_root_cfv<F: Fn(&TerminalSpot<T>) -> Vec<T>>(
        &mut self,
        tree: &FlatTree,
        table: &FlopChanceTable<T>,
        showdown: &F,
        num_iterations: u32,
    ) -> (roots: Vec<Vec<T>>)
        requires
            old(self).wf(tree),
            old(self).is_for(table),
            old(self).river_mode.in_memory(),
            is_evaluator(showdown, tree.np(), table.nh()),
            old(self).can_count(num_iterations as int),
        ensures
            final(self).wf(tree),
            final(self).is_for(table),
            exists|sums: Seq<Seq<T>>| #[trigger]
                old(self).iterated(
                    tree,
                    table,
                    showdown,
                    &Play::Regrets,
                    sums,
                    &*final(self),
                    num_iterations as nat,
                ) && views(roots@) == Seq::new(
                    tree.np() as nat,
                    |p: int| over_count(sums[p], num_iterations as int),
                ),
    {
        let ghost s0 = *self;
        let np: usize = self.num_players as usize;
        let sums = self.iterate(tree, table, showdown, &Play::Regrets, num_iterations);
        let ghost sv = views(sums@);
        let mut roots: Vec<Vec<T>> = Vec::new();
        let mut p: usize = 0;
        while p < np
            invariant
                p <= np,
                np == sums@.len(),
                sv == views(sums@),
                roots@.len() == p,
                forall|q: int|
                    0 <= q < p ==> (#[trigger] roots@[q])@ == over_count(
                        sv[q],
                        num_iterations as int,
                    ),
            decreases np - p,
        {
            roots.push(row_over(&sums[p], num_iterations as usize));
            p += 1;
        }
        proof {
            assert(s0.iterated(
                tree,
                table,
                showdown,
                &Play::Regrets,
                sv,
                self,
                num_iterations as nat,
            ));
            assert(views(roots@) =~= Seq::new(
                tree.np() as nat,
                |p: int| over_count(sv[p], num_iterations as int),
            ));
        }
        roots
    }

    /// This solver with turn and river frozen, or not.
    pub open spec fn with_frozen(&self, v: bool) -> Self {
        FlopStartVectorCfr { continuation_frozen: v, ..*self }
    }

    /// Searches the flop while turn and river play their averages so far and do
    /// not learn.
    pub fn run_flop_search<F: Fn(&TerminalSpot<T>) -> Vec<T>>(
        &mut self,
        tree: &FlatTree,
        table: &FlopChanceTable<T>,
        showdown: &F,
        num_iterations: u32,
    )
        requires
            old(self).wf(tree),
            old(self).is_for(table),
            old(self).river_mode.in_memory(),
            is_evaluator(showdown, tree.np(), table.nh()),
            old(self).can_count(num_iterations as int),
        ensures
            final(self).wf(tree),
            final(self).is_for(table),
            exists|s: Self, sums: Seq<Seq<T>>| #[trigger]
                old(self).with_frozen(true).iterated(
                    tree,
                    table,
                    showdown,
                    &Play::Average,
                    sums,
                    &s,
                    num_iterations as nat,
                ) && *final(self) == s.with_frozen(old(self).continuation_frozen),
            final(self).iteration == old(self).iteration + num_iterations,
            old(self).keeps_continuation(final(self)),
    {
        let ghost s0 = *self;
        let prev_frozen = self.continuation_frozen;
        self.continuation_frozen = true;
        let ghost start = *self;
        let sums = self.iterate(tree, table, showdown, &Play::Average, num_iterations);
        let ghost end = *self;
        self.continuation_frozen = prev_frozen;
        proof {
            assert(start == s0.with_frozen(true));
            assert(s0.with_frozen(true).iterated(
                tree,
                table,
                showdown,
                &Play::Average,
                views(sums@),
                &end,
                num_iterations as nat,
            ));
            start.law_search_keeps_the_continuation(
                tree,
                table,
                showdown,
                &Play::Average,
                views(sums@),
                &end,
                num_iterations as nat,
            );
        }
    }
}

} // verus!
