//! Read and write access to a flop-start solver's parts.
use vstd::prelude::*;

use crate::bank::{room, ZoneBank};
use crate::flop_start_vector_cfr::FlopStartVectorCfr;
use crate::scalar::Widen;
use crate::tree::UNUSED;
use crate::zones::{Zone, ZoneBook};

verus! {

/// The infoset number of a node, if it has one.
pub open spec fn local_of(book: &ZoneBook, idx: int) -> Option<usize> {
    let v = book.local_offset@[idx];
    if v == UNUSED {
        None
    } else {
        Some(v)
    }
}

impl<T: Widen> FlopStartVectorCfr<T> {
    pub fn iteration_count(&self) -> (r: u32)
        ensures
            r == self.iteration,
    {
        self.iteration
    }

    pub fn num_hands(&self) -> (r: usize)
        ensures
            r == self.nh,
    {
        self.nh
    }

    pub fn num_players(&self) -> (r: u8)
        ensures
            r == self.num_players,
    {
        self.num_players
    }

    pub fn flop_infosets(&self) -> (r: usize)
        ensures
            r == self.flop_book.infoset_count,
    {
        self.flop_book.infoset_count
    }

    pub fn turn_infosets(&self) -> (r: usize)
        ensures
            r == self.turn_book.infoset_count,
    {
        self.turn_book.infoset_count
    }

    pub fn river_infosets(&self) -> (r: usize)
        ensures
            r == self.river_book.infoset_count,
    {
        self.river_book.infoset_count
    }

    pub fn preflop_infoset_count(&self) -> (r: usize)
        ensures
            r == self.preflop_book.infoset_count,
    {
        self.preflop_book.infoset_count
    }

    pub fn n_turn_outcomes(&self) -> (r: usize)
        ensures
            r == self.n_turn,
    {
        self.n_turn
    }

    pub fn max_river_outcomes(&self) -> (r: usize)
        ensures
            r == self.max_n_river,
    {
        self.max_n_river
    }

    pub fn max_n_river(&self) -> (r: usize)
        ensures
            r == self.max_n_river,
    {
        self.max_n_river
    }

    /// Entries of one outcome of the flop.
    pub fn flop_stride(&self) -> (r: usize)
        requires
            self.flop.wf(),
        ensures
            r == self.flop.infosets * room(self.flop.width as int),
    {
        self.flop.stride()
    }

    /// Entries of one outcome of the turn.
    pub fn turn_stride(&self) -> (r: usize)
        requires
            self.turn.wf(),
        ensures
            r == self.turn.infosets * room(self.turn.width as int),
    {
        self.turn.stride()
    }

    /// Entries of one outcome of the river.
    pub fn river_stride(&self) -> (r: usize)
        requires
            self.river.wf(),
        ensures
            r == self.river.infosets * room(self.river.width as int),
    {
        self.river.stride()
    }

    pub fn zones(&self) -> (r: &[Zone])
        ensures
            r@ == self.zones@,
    {
        self.zones.as_slice()
    }

    pub fn turn_chance_children(&self) -> (r: &[u32])
        ensures
            r@ == self.turn_chance_children@,
    {
        self.turn_chance_children.as_slice()
    }

    pub fn river_chance_children(&self) -> (r: &[u32])
        ensures
            r@ == self.river_chance_children@,
    {
        self.river_chance_children.as_slice()
    }

    pub fn strategy_flop(&self) -> (r: &[T])
        ensures
            r@ == self.flop.strategy@,
    {
        self.flop.strategy.as_slice()
    }

    pub fn regrets_flop(&self) -> (r: &[T])
        ensures
            r@ == self.flop.regrets@,
    {
        self.flop.regrets.as_slice()
    }

    pub fn cum_strategy_flop(&self) -> (r: &[T])
        ensures
            r@ == self.flop.cum@,
    {
        self.flop.cum.as_slice()
    }

    pub fn flop_local_offset(&self) -> (r: &[usize])
        ensures
            r@ == self.flop_book.local_offset@,
    {
        self.flop_book.local_offset.as_slice()
    }

    pub fn strategy_turn(&self) -> (r: &[T])
        ensures
            r@ == self.turn.strategy@,
    {
        self.turn.strategy.as_slice()
    }

    pub fn regrets_turn(&self) -> (r: &[T])
        ensures
            r@ == self.turn.regrets@,
    {
        self.turn.regrets.as_slice()
    }

    pub fn cum_strategy_turn(&self) -> (r: &[T])
        ensures
            r@ == self.turn.cum@,
    {
        self.turn.cum.as_slice()
    }

    pub fn turn_local_offset(&self) -> (r: &[usize])
        ensures
            r@ == self.turn_book.local_offset@,
    {
        self.turn_book.local_offset.as_slice()
    }

    pub fn strategy_river(&self) -> (r: &[T])
        ensures
            r@ == self.river.strategy@,
    {
        self.river.strategy.as_slice()
    }

    pub fn regrets_river(&self) -> (r: &[T])
        ensures
            r@ == self.river.regrets@,
    {
        self.river.regrets.as_slice()
    }

    pub fn cum_strategy_river(&self) -> (r: &[T])
        ensures
            r@ == self.river.cum@,
    {
        self.river.cum.as_slice()
    }

    pub fn river_local_offset(&self) -> (r: &[usize])
        ensures
            r@ == self.river_book.local_offset@,
    {
        self.river_book.local_offset.as_slice()
    }

    /// The flop infoset number of a node, if it has one.
    pub fn flop_local_offset_at(&self, idx: usize) -> (r: Option<usize>)
        requires
            idx < self.flop_book.local_offset@.len(),
        ensures
            r == local_of(&self.flop_book, idx as int),
    {
        let v: usize = self.flop_book.local_offset[idx];
        if v == UNUSED {
            None
        } else {
            Some(v)
        }
    }

    /// The turn infoset number of a node, if it has one.
    pub fn turn_local_offset_at(&self, idx: usize) -> (r: Option<usize>)
        requires
            idx < self.turn_book.local_offset@.len(),
        ensures
            r == local_of(&self.turn_book, idx as int),
    {
        let v: usize = self.turn_book.local_offset[idx];
        if v == UNUSED {
            None
        } else {
            Some(v)
        }
    }

    /// The river infoset number of a node, if it has one.
    pub fn river_local_offset_at(&self, idx: usize) -> (r: Option<usize>)
        requires
            idx < self.river_book.local_offset@.len(),
        ensures
            r == local_of(&self.river_book, idx as int),
    {
        let v: usize = self.river_book.local_offset[idx];
        if v == UNUSED {
            None
        } else {
            Some(v)
        }
    }

    pub fn set_iteration(&mut self, v: u32)
        ensures
            *final(self) == (FlopStartVectorCfr { iteration: v, ..*old(self) }),
    {
        self.iteration = v;
    }

    pub fn set_debug(&mut self, v: bool)
        ensures
            *final(self) == (FlopStartVectorCfr { debug: v, ..*old(self) }),
    {
        self.debug = v;
    }

    pub fn set_vanilla_mode(&mut self, v: bool)
        ensures
            *final(self) == (FlopStartVectorCfr { vanilla_mode: v, ..*old(self) }),
    {
        self.vanilla_mode = v;
    }

    pub fn set_continuation_frozen(&mut self, v: bool)
        ensures
            *final(self) == (FlopStartVectorCfr { continuation_frozen: v, ..*old(self) }),
    {
        self.continuation_frozen = v;
    }

    pub fn strategy_flop_mut(&mut self) -> (r: &mut Vec<T>)
        ensures
            *r == old(self).flop.strategy,
            *final(self) == (FlopStartVectorCfr {
                flop: ZoneBank { strategy: *final(r), ..old(self).flop },
                ..*old(self)
            }),
    {
        &mut self.flop.strategy
    }

    pub fn regrets_flop_mut(&mut self) -> (r: &mut Vec<T>)
        ensures
            *r == old(self).flop.regrets,
            *final(self) == (FlopStartVectorCfr {
                flop: ZoneBank { regrets: *final(r), ..old(self).flop },
                ..*old(self)
            }),
    {
        &mut self.flop.regrets
    }

    pub fn cum_strategy_flop_mut(&mut self) -> (r: &mut Vec<T>)
        ensures
            *r == old(self).flop.cum,
            *final(self) == (FlopStartVectorCfr {
                flop: ZoneBank { cum: *final(r), ..old(self).flop },
                ..*old(self)
            }),
    {
        &mut self.flop.cum
    }

    pub fn strategy_turn_mut(&mut self) -> (r: &mut Vec<T>)
        ensures
            *r == old(self).turn.strategy,
            *final(self) == (FlopStartVectorCfr {
                turn: ZoneBank { strategy: *final(r), ..old(self).turn },
                ..*old(self)
            }),
    {
        &mut self.turn.strategy
    }

    pub fn regrets_turn_mut(&mut self) -> (r: &mut Vec<T>)
        ensures
            *r == old(self).turn.regrets,
            *final(self) == (FlopStartVectorCfr {
                turn: ZoneBank { regrets: *final(r), ..old(self).turn },
                ..*old(self)
            }),
    {
        &mut self.turn.regrets
    }

    pub fn cum_strategy_turn_mut(&mut self) -> (r: &mut Vec<T>)
        ensures
            *r == old(self).turn.cum,
            *final(self) == (FlopStartVectorCfr {
                turn: ZoneBank { cum: *final(r), ..old(self).turn },
                ..*old(self)
            }),
    {
        &mut self.turn.cum
    }

    pub fn strategy_river_mut(&mut self) -> (r: &mut Vec<T>)
        ensures
            *r == old(self).river.strategy,
            *final(self) == (FlopStartVectorCfr {
                river: ZoneBank { strategy: *final(r), ..old(self).river },
                ..*old(self)
            }),
    {
        &mut self.river.strategy
    }

    pub fn regrets_river_mut(&mut self) -> (r: &mut Vec<T>)
        ensures
            *r == old(self).river.regrets,
            *final(self) == (FlopStartVectorCfr {
                river: ZoneBank { regrets: *final(r), ..old(self).river },
                ..*old(self)
            }),
    {
        &mut self.river.regrets
    }

    pub fn cum_strategy_river_mut(&mut self) -> (r: &mut Vec<T>)
        ensures
            *r == old(self).river.cum,
            *final(self) == (FlopStartVectorCfr {
                river: ZoneBank { cum: *final(r), ..old(self).river },
                ..*old(self)
            }),
    {
        &mut self.river.cum
    }
}

} // verus!
