//! What the tree walkers ask of a game.
use vstd::prelude::*;

use crate::scalar::Widen;
use crate::terminal::views;
use crate::tree::FlatTree;

verus! {

/// The hands, payoffs and deals of a game on a betting tree.
///
/// A game is a state machine over its deals: [`GameSpec::set_chance_outcome`]
/// deals, [`GameSpec::clear_chance_outcome`] takes the last deal back.
pub trait GameSpec<T: Widen>: Sized {
    /// The parts of the game fit together.
    spec fn s_valid(&self) -> bool;

    spec fn s_players(&self) -> int;

    /// Number of hands of a player.
    spec fn s_hands(&self, player: int) -> int;

    /// The weights a player's hands start with.
    spec fn s_weight(&self, player: int) -> Seq<T>;

    /// The traverser's values at a terminal, under the players' reach.
    spec fn s_terminal(&self, traverser: u8, node: int, tree: &FlatTree, reach: Seq<Seq<T>>) -> Seq<
        T,
    >;

    /// The traverser's values at a depth limit, under the players' reach.
    spec fn s_continuation(
        &self,
        traverser: u8,
        node: int,
        tree: &FlatTree,
        reach: Seq<Seq<T>>,
    ) -> Seq<T>;

    /// The probability of an outcome of the next deal, seen by a hand.
    spec fn s_chance(&self, outcome: int, hand: int) -> T;

    /// [`GameSpec::s_chance`] of this outcome can be asked for.
    spec fn s_can_ask(&self, outcome: int) -> bool;

    spec fn s_combinations(&self) -> T::Wide;

    /// Number of outcomes of the next deal.
    spec fn s_outcomes(&self) -> int;

    /// This outcome can be dealt, whether or not the deal counts it.
    spec fn s_can_deal(&self, outcome: int) -> bool;

    /// Taking the next deal back leads here again.
    spec fn s_can_undo(&self) -> bool;

    /// The game after a deal.
    spec fn s_set(&self, outcome: int) -> Self;

    /// The game with the last deal taken back.
    spec fn s_clear(&self) -> Self;

    /// One deal at most: dealing again replaces it, and the outcomes to ask for
    /// are always the same.
    spec fn s_single_deal(&self) -> bool;

    /// Deals keep the game in shape.
    proof fn lemma_set(&self, outcome: int)
        requires
            self.s_valid(),
            0 <= outcome < self.s_outcomes() || self.s_can_deal(outcome),
        ensures
            self.s_set(outcome).s_valid(),
            self.s_set(outcome).s_players() == self.s_players(),
            forall|p: int| #[trigger] self.s_set(outcome).s_hands(p) == self.s_hands(p),
            self.s_single_deal() ==> self.s_set(outcome).s_single_deal(),
            self.s_single_deal() ==> self.s_set(outcome).s_outcomes() == self.s_outcomes(),
            self.s_single_deal() ==> self.s_set(outcome).s_can_ask(outcome),
            forall|k: int|
                self.s_single_deal() && self.s_can_ask(k) ==> #[trigger] self.s_set(
                    outcome,
                ).s_can_ask(k),
    ;

    /// Taking a deal back keeps the game in shape.
    proof fn lemma_clear(&self)
        requires
            self.s_valid(),
        ensures
            self.s_clear().s_valid(),
            self.s_clear().s_players() == self.s_players(),
            forall|p: int| #[trigger] self.s_clear().s_hands(p) == self.s_hands(p),
            self.s_single_deal() ==> self.s_clear().s_single_deal(),
            self.s_single_deal() ==> self.s_clear().s_outcomes() == self.s_outcomes(),
            forall|k: int|
                self.s_single_deal() && self.s_can_ask(k) ==> #[trigger] self.s_clear().s_can_ask(
                    k,
                ),
    ;

    /// A deal and its clear cancel out.
    proof fn lemma_undo(&self, outcome: int)
        requires
            self.s_valid(),
            self.s_can_undo(),
            0 <= outcome < self.s_outcomes() || self.s_can_deal(outcome),
        ensures
            self.s_set(outcome).s_clear() == *self,
    ;

    fn num_hands(&self, player: u8) -> (n: usize)
        requires
            self.s_valid(),
            player < self.s_players(),
        ensures
            n == self.s_hands(player as int),
    ;

    fn initial_weight(&self, player: u8) -> (w: Vec<T>)
        requires
            self.s_valid(),
            player < self.s_players(),
        ensures
            w@ == self.s_weight(player as int),
            w@.len() == self.s_hands(player as int),
    ;

    fn evaluate_terminal(
        &self,
        traverser: u8,
        node_idx: usize,
        tree: &FlatTree,
        cfreach: &Vec<Vec<T>>,
    ) -> (values: Vec<T>)
        requires
            tree.wf(),
            self.s_valid(),
            self.s_players() == tree.np(),
            tree.is_node(node_idx as int),
            traverser < self.s_players(),
            cfreach@.len() == self.s_players(),
            forall|p: int|
                0 <= p < cfreach@.len() ==> (#[trigger] cfreach@[p])@.len() == self.s_hands(p),
        ensures
            values@ == self.s_terminal(traverser, node_idx as int, tree, views(cfreach@)),
            values@.len() == self.s_hands(traverser as int),
    ;

    fn evaluate_continuation(
        &self,
        traverser: u8,
        node_idx: usize,
        tree: &FlatTree,
        cfreach: &Vec<Vec<T>>,
    ) -> (values: Vec<T>)
        requires
            tree.wf(),
            self.s_valid(),
            self.s_players() == tree.np(),
            tree.is_node(node_idx as int),
            traverser < self.s_players(),
            cfreach@.len() == self.s_players(),
            forall|p: int|
                0 <= p < cfreach@.len() ==> (#[trigger] cfreach@[p])@.len() == self.s_hands(p),
        ensures
            values@ == self.s_continuation(traverser, node_idx as int, tree, views(cfreach@)),
            values@.len() == self.s_hands(traverser as int),
    ;

    fn chance_probability(&self, outcome: usize, hand: usize) -> (x: T)
        requires
            self.s_valid(),
            self.s_can_ask(outcome as int),
            exists|p: int| 0 <= p < self.s_players() && hand < #[trigger] self.s_hands(p),
        ensures
            x == self.s_chance(outcome as int, hand as int),
    ;

    fn num_combinations(&self) -> (x: T::Wide)
        ensures
            x == self.s_combinations(),
    ;

    fn num_chance_outcomes(&self) -> (n: usize)
        requires
            self.s_valid(),
        ensures
            n == self.s_outcomes(),
    ;

    fn set_chance_outcome(&mut self, outcome: usize)
        requires
            old(self).s_valid(),
            outcome < old(self).s_outcomes() || old(self).s_can_deal(outcome as int),
        ensures
            *final(self) == old(self).s_set(outcome as int),
    ;

    fn clear_chance_outcome(&mut self)
        requires
            old(self).s_valid(),
        ensures
            *final(self) == old(self).s_clear(),
    ;
}

/// The game and the tree are of the same players.
pub open spec fn plays_on<T: Widen, G: GameSpec<T>>(game: &G, tree: &FlatTree) -> bool {
    tree.wf() && game.s_valid() && game.s_players() == tree.np()
}

/// One row per player, one entry per hand.
pub open spec fn is_reach<T: Widen, G: GameSpec<T>>(game: &G, reach: Seq<Seq<T>>) -> bool {
    &&& reach.len() == game.s_players()
    &&& forall|p: int|
        0 <= p < reach.len() ==> (#[trigger] reach[p]).len() == game.s_hands(p)
}

} // verus!
