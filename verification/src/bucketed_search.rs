//! A game whose depth limits are valued by buckets.
use vstd::prelude::*;

use crate::bucketed_showdown::BucketedRunoutTables;
use crate::buckets::{bucket_reach, pool, spread, spread_of, BucketLayer, FlopBucketing};
use crate::flop_start_game::FlopStartGame;
use crate::game::GameSpec;
use crate::layout::row_copy;
use crate::scalar::{Scalar, Widen};
use crate::sweep::{Lens, NO_BUCKET};
use crate::terminal::{opponent, rake_of, tree_rake, views, Rake, TerminalSpot};
use crate::tree::FlatTree;

verus! {

/// The street that a search starts on, by turn place and river place.
#[derive(Clone, Copy, Debug, PartialEq, Eq, Structural)]
pub enum ContStreet {
    Flop,
    Turn(usize),
    River(usize, usize),
}

/// A depth limit as its traverser's opponents stand there, by bucket.
pub struct SampleSpot<'a, T> {
    pub bucket_reach: Vec<Vec<T>>,
    pub tables: &'a BucketedRunoutTables<T>,
    pub contributions: Vec<i32>,
    pub fold_mask: u16,
    pub traverser: u8,
    pub num_players: u8,
    pub starting_pot: i32,
    pub rake: Rake<T>,
    /// No rake is taken of a pot that ends before the flop.
    pub flop_seen: bool,
    /// How many bucket tuples to draw; none for all of them.
    pub sample_m: u32,
    pub seed: u64,
}

/// The stream of random numbers that node `node` draws from.
pub open spec fn node_seed(seed: u64, node: usize) -> u64 {
    seed ^ (node as u64).wrapping_mul(0x9E37_79B9_7F4A_7C15)
}

impl<'a, T: Widen> SampleSpot<'a, T> {
    pub open spec fn fits(&self, np: int) -> bool {
        &&& self.num_players == np
        &&& self.traverser < np
        &&& self.contributions@.len() == np
        &&& self.tables.wf()
        &&& self.bucket_reach@.len() == np - 1
        &&& forall|q: int|
            0 <= q < np - 1 ==> (#[trigger] self.bucket_reach@[q])@.len() == self.tables.nb
    }

    /// This is node `node` seen by `traverser`, with the players' reach `rows`, under
    /// the buckets of `layer`.
    pub open spec fn is_at(
        &self,
        tree: &FlatTree,
        layer: &BucketLayer<T>,
        sample_m: u32,
        seed: u64,
        rows: Seq<Seq<T>>,
        traverser: u8,
        node: usize,
    ) -> bool {
        &&& self.num_players == tree.num_players
        &&& self.traverser == traverser
        &&& *self.tables == layer.tables
        &&& self.fold_mask == tree.folded_masks@[node as int]
        &&& self.starting_pot == tree.starting_pot
        &&& self.rake == tree_rake::<T>(tree)
        &&& self.flop_seen
        &&& self.sample_m == sample_m
        &&& self.seed == node_seed(seed, node)
        &&& self.contributions@ == Seq::new(
            tree.np() as nat,
            |p: int| tree.contribution(node as int, p) as i32,
        )
        &&& views(self.bucket_reach@) == Seq::new(
            (tree.np() - 1) as nat,
            |q: int| bucket_reach(&layer.lens, rows[opponent(traverser as int, q)]),
        )
    }
}

/// The two spots hold the same.
pub open spec fn same_spot<T>(a: &SampleSpot<T>, b: &SampleSpot<T>) -> bool {
    &&& views(a.bucket_reach@) == views(b.bucket_reach@)
    &&& *a.tables == *b.tables
    &&& a.contributions@ == b.contributions@
    &&& a.fold_mask == b.fold_mask
    &&& a.traverser == b.traverser
    &&& a.num_players == b.num_players
    &&& a.starting_pot == b.starting_pot
    &&& a.rake == b.rake
    &&& a.flop_seen == b.flop_seen
    &&& a.sample_m == b.sample_m
    &&& a.seed == b.seed
}

/// `f` answers every spot with one value per bucket, and always in the same way.
pub open spec fn is_sampler<T: Widen, S: Fn(&SampleSpot<T>) -> Vec<T>>(f: &S, np: int) -> bool {
    &&& forall|spot: &SampleSpot<T>| #[trigger] spot.fits(np) ==> call_requires(*f, (spot,))
    &&& forall|spot: &SampleSpot<T>, out: Vec<T>| #[trigger]
        call_ensures(*f, (spot,), out) && spot.fits(np) ==> out@.len() == spot.tables.nb
    &&& forall|a: &SampleSpot<T>, x: Vec<T>, b: &SampleSpot<T>, y: Vec<T>| #[trigger]
        call_ensures(*f, (a,), x) && #[trigger] call_ensures(*f, (b,), y) && same_spot(a, b)
            && a.fits(np) ==> x@ == y@
}

/// `values` is what `f` answers for the spot, hand by hand, per deal.
pub open spec fn is_sampled<T: Widen, S: Fn(&SampleSpot<T>) -> Vec<T>>(
    f: &S,
    layer: &BucketLayer<T>,
    nh: int,
    combinations: T::Wide,
    spot: &SampleSpot<T>,
    out: Vec<T>,
    values: Seq<T>,
) -> bool {
    call_ensures(*f, (spot,), out) && values == spread(&layer.lens, nh, out@, combinations)
}

/// A game that starts on a known flop, turn or river, whose depth limits are valued
/// by drawing bucket tuples of the opponents.
pub struct BucketedContinuationGame<'a, T: Widen, F, S> {
    pub inner: FlopStartGame<T, F>,
    pub bucketing: &'a FlopBucketing<T>,
    pub street: ContStreet,
    pub np: u8,
    pub sample_m: u32,
    pub rng_seed: u64,
    /// Every player's starting weights add up to one.
    pub normalize_reach: bool,
    /// Starting weights that replace the game's own, by player.
    pub reach_override: Vec<Option<Vec<T>>>,
    /// The turn place that was dealt inside the search.
    pub current_turn_ti: Option<usize>,
    pub sampler: S,
}

/// The weights of the hands that have a bucket; nothing for the others.
pub open spec fn masked<T: Scalar>(lens: &Lens, w: Seq<T>) -> Seq<T> {
    Seq::new(
        w.len(),
        |h: int|
            if lens.of@[h] == NO_BUCKET {
                T::s_zero()
            } else {
                w[h]
            },
    )
}

/// The first `n` weights, added up.
pub open spec fn weight_sum<T: Scalar>(w: Seq<T>, n: nat) -> T
    decreases n,
{
    if n == 0 {
        T::s_zero()
    } else {
        weight_sum(w, (n - 1) as nat).s_plus(w[n - 1])
    }
}

/// The weights scaled to a sum of one, if they have a positive sum.
pub open spec fn normalized<T: Scalar>(w: Seq<T>) -> Seq<T> {
    let s = weight_sum(w, w.len());
    if T::s_zero().s_below(s) {
        Seq::new(w.len(), |h: int| w[h].s_over(s))
    } else {
        w
    }
}

fn mask_weights<T: Scalar>(lens: &Lens, w: &Vec<T>) -> (out: Vec<T>)
    requires
        lens.of@.len() == w@.len(),
    ensures
        out@ == masked(lens, w@),
{
    let mut out: Vec<T> = Vec::new();
    let mut h: usize = 0;
    while h < w.len()
        invariant
            h <= w@.len(),
            lens.of@.len() == w@.len(),
            out@.len() == h,
            forall|k: int| 0 <= k < h ==> #[trigger] out@[k] == masked(lens, w@)[k],
        decreases w@.len() - h,
    {
        if lens.of[h] == NO_BUCKET {
            out.push(T::zero());
        } else {
            out.push(w[h]);
        }
        h += 1;
    }
    assert(out@ =~= masked(lens, w@));
    out
}

fn normalize<T: Scalar>(w: &Vec<T>) -> (out: Vec<T>)
    ensures
        out@ == normalized(w@),
{
    let mut s: T = T::zero();
    let mut h: usize = 0;
    while h < w.len()
        invariant
            h <= w@.len(),
            s == weight_sum(w@, h as nat),
        decreases w@.len() - h,
    {
        s = s.plus(w[h]);
        h += 1;
    }
    let scale = T::zero().below(s);
    let mut out: Vec<T> = Vec::new();
    let mut h: usize = 0;
    while h < w.len()
        invariant
            h <= w@.len(),
            s == weight_sum(w@, w@.len()),
            scale == T::s_zero().s_below(s),
            out@.len() == h,
            forall|k: int| 0 <= k < h ==> #[trigger] out@[k] == normalized(w@)[k],
        decreases w@.len() - h,
    {
        if scale {
            out.push(w[h].over(s));
        } else {
            out.push(w[h]);
        }
        h += 1;
    }
    assert(out@ =~= normalized(w@));
    out
}

impl<
    'a,
    T: Widen,
    F: Fn(&TerminalSpot<T>) -> Vec<T>,
    S: Fn(&SampleSpot<T>) -> Vec<T>,
> BucketedContinuationGame<'a, T, F, S> {
    /// A search that starts on the flop.
    pub fn new(
        inner: FlopStartGame<T, F>,
        bucketing: &'a FlopBucketing<T>,
        sample_m: u32,
        rng_seed: u64,
        sampler: S,
    ) -> (game: Self)
        ensures
            game.is_made(inner, bucketing, ContStreet::Flop, sample_m, rng_seed, sampler),
    {
        Self::new_street(inner, bucketing, ContStreet::Flop, sample_m, rng_seed, sampler)
    }

    /// A search that starts on `street`.
    pub fn new_street(
        inner: FlopStartGame<T, F>,
        bucketing: &'a FlopBucketing<T>,
        street: ContStreet,
        sample_m: u32,
        rng_seed: u64,
        sampler: S,
    ) -> (game: Self)
        ensures
            game.is_made(inner, bucketing, street, sample_m, rng_seed, sampler),
    {
        let np: u8 = inner.table.num_players;
        BucketedContinuationGame {
            inner,
            bucketing,
            street,
            np,
            sample_m,
            rng_seed,
            normalize_reach: false,
            reach_override: Vec::new(),
            current_turn_ti: None,
            sampler,
        }
    }

    /// The game as it is made.
    pub open spec fn is_made(
        &self,
        inner: FlopStartGame<T, F>,
        bucketing: &FlopBucketing<T>,
        street: ContStreet,
        sample_m: u32,
        rng_seed: u64,
        sampler: S,
    ) -> bool {
        &&& self.inner == inner
        &&& *self.bucketing == *bucketing
        &&& self.street == street
        &&& self.np == inner.table.num_players
        &&& self.sample_m == sample_m
        &&& self.rng_seed == rng_seed
        &&& !self.normalize_reach
        &&& self.reach_override@.len() == 0
        &&& self.current_turn_ti is None
        &&& self.sampler == sampler
    }

    /// The starting weights that replace the game's own for a player.
    pub open spec fn override_of(&self, player: int) -> Option<Seq<T>> {
        if 0 <= player < self.reach_override@.len() {
            match self.reach_override@[player] {
                Some(r) => Some(r@),
                None => None,
            }
        } else {
            None
        }
    }

    /// Sets a player's starting weights.
    pub fn set_reach_override(&mut self, player: usize, reach: Vec<T>)
        requires
            player < usize::MAX,
        ensures
            *final(self) == (BucketedContinuationGame {
                reach_override: final(self).reach_override,
                ..*old(self)
            }),
            forall|p: int|
                0 <= p ==> #[trigger] final(self).override_of(p) == if p == player {
                    Some(reach@)
                } else {
                    old(self).override_of(p)
                },
    {
        let ghost was = *self;
        while self.reach_override.len() <= player
            invariant
                player < usize::MAX,
                *self == (BucketedContinuationGame { reach_override: self.reach_override, ..was }),
                was.reach_override@.len() <= self.reach_override@.len(),
                forall|p: int|
                    0 <= p < was.reach_override@.len() ==> #[trigger] self.reach_override@[p]
                        == was.reach_override@[p],
                forall|p: int|
                    was.reach_override@.len() <= p < self.reach_override@.len() ==> (
                    #[trigger] self.reach_override@[p]) is None,
                was.reach_override@.len() < self.reach_override@.len()
                    ==> self.reach_override@.len() <= player + 1,
            decreases player + 1 - self.reach_override@.len(),
        {
            self.reach_override.push(None);
        }
        let ghost grown = self.reach_override@;
        self.reach_override.set(player, Some(reach));
        proof {
            assert(self.reach_override@ == grown.update(player as int, Some(reach)));
            assert forall|p: int| 0 <= p implies #[trigger] self.override_of(p) == if p == player {
                Some(reach@)
            } else {
                was.override_of(p)
            } by {
                if p != player && p < grown.len() {
                    assert(self.reach_override@[p] == grown[p]);
                }
            }
        }
    }

    /// Plays with fewer players than the inner game has.
    pub fn set_player_count(&mut self, np: u8)
        ensures
            *final(self) == (BucketedContinuationGame { np, ..*old(self) }),
    {
        self.np = np;
    }

    /// Turns the scaling of starting weights on or off.
    pub fn set_normalize_reach(&mut self, on: bool)
        ensures
            *final(self) == (BucketedContinuationGame { normalize_reach: on, ..*old(self) }),
    {
        self.normalize_reach = on;
    }

    /// The buckets that a depth limit is valued by: those of the street that the
    /// search starts on, or of the turn card that was dealt inside it.
    pub open spec fn layer(&self) -> BucketLayer<T> {
        match (self.street, self.current_turn_ti) {
            (ContStreet::Flop, Some(ti)) => self.bucketing.turn@[ti as int],
            (ContStreet::Flop, None) => self.bucketing.flop,
            (ContStreet::Turn(ti), _) => self.bucketing.turn@[ti as int],
            (ContStreet::River(ti, ri), _) => self.bucketing.river@[ti as int]@[ri as int],
        }
    }

    /// The buckets that rule out hands at the start.
    pub open spec fn start_layer(&self) -> Option<BucketLayer<T>> {
        match self.street {
            ContStreet::Flop => None,
            ContStreet::Turn(ti) => Some(self.bucketing.turn@[ti as int]),
            ContStreet::River(ti, ri) => Some(self.bucketing.river@[ti as int]@[ri as int]),
        }
    }

    /// The buckets know the street.
    pub open spec fn street_ok(&self) -> bool {
        match self.street {
            ContStreet::Flop => true,
            ContStreet::Turn(ti) => ti < self.bucketing.turn@.len(),
            ContStreet::River(ti, ri) => ti < self.bucketing.river@.len() && ri
                < self.bucketing.river@[ti as int]@.len(),
        }
    }

    /// `values` are the traverser's values at depth limit `node`.
    pub open spec fn is_continuation(
        &self,
        tree: &FlatTree,
        rows: Seq<Seq<T>>,
        traverser: u8,
        node: int,
        values: Seq<T>,
    ) -> bool {
        exists|spot: &SampleSpot<T>, out: Vec<T>|
            spot.is_at(
                tree,
                &self.layer(),
                self.sample_m,
                self.rng_seed,
                rows,
                traverser,
                node as usize,
            ) && #[trigger] is_sampled(
                &self.sampler,
                &self.layer(),
                self.inner.table.nh(),
                self.inner.table.num_combinations,
                spot,
                out,
                values,
            )
    }

    proof fn lemma_layer(&self)
        requires
            self.s_valid(),
        ensures
            self.layer().wf(self.inner.table.nh(), self.layer().tables.nb as int),
            self.start_layer() matches Some(l) ==> l.wf(
                self.inner.table.nh(),
                l.tables.nb as int,
            ),
    {
        let bk = self.bucketing;
        assert(forall|ti: int|
            0 <= ti < bk.turn@.len() ==> (#[trigger] bk.turn@[ti]).wf(
                bk.nh as int,
                bk.nb_turn as int,
            ));
        match self.street {
            ContStreet::River(ti, ri) => {
                assert(bk.river@[ti as int]@[ri as int].wf(bk.nh as int, bk.nb_river as int));
            },
            _ => {},
        }
    }

    /// A depth limit's values are a function of what they are asked for.
    proof fn lemma_continuation(
        &self,
        tree: &FlatTree,
        rows: Seq<Seq<T>>,
        traverser: u8,
        node: int,
        values: Seq<T>,
    )
        requires
            self.s_valid(),
            self.np == tree.num_players,
            traverser < self.np,
            self.is_continuation(tree, rows, traverser, node, values),
        ensures
            values == self.s_continuation(traverser, node, tree, rows),
            values.len() == self.inner.table.nh(),
    {
        self.lemma_layer();
        let layer = self.layer();
        let other = self.s_continuation(traverser, node, tree, rows);
        assert(self.is_continuation(tree, rows, traverser, node, other));
        let (s1, o1) = choose|spot: &SampleSpot<T>, out: Vec<T>|
            spot.is_at(
                tree,
                &layer,
                self.sample_m,
                self.rng_seed,
                rows,
                traverser,
                node as usize,
            ) && #[trigger] is_sampled(
                &self.sampler,
                &layer,
                self.inner.table.nh(),
                self.inner.table.num_combinations,
                spot,
                out,
                values,
            );
        let (s2, o2) = choose|spot: &SampleSpot<T>, out: Vec<T>|
            spot.is_at(
                tree,
                &layer,
                self.sample_m,
                self.rng_seed,
                rows,
                traverser,
                node as usize,
            ) && #[trigger] is_sampled(
                &self.sampler,
                &layer,
                self.inner.table.nh(),
                self.inner.table.num_combinations,
                spot,
                out,
                other,
            );
        assert(same_spot(s1, s2));
        assert(s1.fits(self.np as int)) by {
            assert(views(s1.bucket_reach@).len() == s1.bucket_reach@.len());
            assert forall|q: int| 0 <= q < self.np - 1 implies (
            #[trigger] s1.bucket_reach@[q])@.len() == s1.tables.nb by {
                assert(views(s1.bucket_reach@)[q] == s1.bucket_reach@[q]@);
            }
        }
        assert(call_ensures(self.sampler, (s1,), o1));
        assert(call_ensures(self.sampler, (s2,), o2));
        assert(o1@ == o2@);
    }
}

impl<
    'a,
    T: Widen,
    F: Fn(&TerminalSpot<T>) -> Vec<T>,
    S: Fn(&SampleSpot<T>) -> Vec<T>,
> GameSpec<T> for BucketedContinuationGame<'a, T, F, S> {
    open spec fn s_valid(&self) -> bool {
        &&& self.inner.s_valid()
        &&& 1 <= self.np <= self.inner.table.num_players
        &&& self.bucketing.wf(&self.inner.table)
        &&& self.street_ok()
        &&& forall|t: int|
            0 <= t < 52 ==> (#[trigger] self.inner.table.river_decks@[t])@.len()
                <= self.inner.table.remaining_deck@.len()
        &&& forall|p: int|
            0 <= p < self.np ==> (#[trigger] self.override_of(p) matches Some(r) ==> r.len()
                == self.inner.table.nh())
        &&& self.current_turn_ti matches Some(ti) ==> ti < self.bucketing.turn@.len()
        &&& is_sampler(&self.sampler, self.np as int)
    }

    open spec fn s_players(&self) -> int {
        self.np as int
    }

    open spec fn s_hands(&self, player: int) -> int {
        self.inner.table.nh()
    }

    open spec fn s_weight(&self, player: int) -> Seq<T> {
        match self.override_of(player) {
            Some(r) => r,
            None => {
                let own = self.inner.s_weight(player);
                let kept = match self.start_layer() {
                    Some(l) => masked(&l.lens, own),
                    None => own,
                };
                if self.normalize_reach {
                    normalized(kept)
                } else {
                    kept
                }
            },
        }
    }

    open spec fn s_terminal(
        &self,
        traverser: u8,
        node: int,
        tree: &FlatTree,
        reach: Seq<Seq<T>>,
    ) -> Seq<T> {
        if self.np <= 2 && self.np == self.inner.table.num_players {
            self.inner.s_terminal(traverser, node, tree, reach)
        } else {
            self.s_continuation(traverser, node, tree, reach)
        }
    }

    open spec fn s_continuation(
        &self,
        traverser: u8,
        node: int,
        tree: &FlatTree,
        reach: Seq<Seq<T>>,
    ) -> Seq<T> {
        choose|values: Seq<T>| self.is_continuation(tree, reach, traverser, node, values)
    }

    open spec fn s_chance(&self, outcome: int, hand: int) -> T {
        self.inner.s_chance(outcome, hand)
    }

    open spec fn s_can_ask(&self, outcome: int) -> bool {
        self.inner.s_can_ask(outcome)
    }

    open spec fn s_combinations(&self) -> T::Wide {
        self.inner.s_combinations()
    }

    open spec fn s_outcomes(&self) -> int {
        self.inner.s_outcomes()
    }

    open spec fn s_can_deal(&self, outcome: int) -> bool {
        self.inner.s_can_deal(outcome)
    }

    open spec fn s_can_undo(&self) -> bool {
        self.current_turn_ti is None && self.inner.s_can_undo()
    }

    open spec fn s_set(&self, outcome: int) -> Self {
        BucketedContinuationGame {
            inner: self.inner.s_set(outcome),
            current_turn_ti: if self.current_turn_ti is None {
                Some(outcome as usize)
            } else {
                self.current_turn_ti
            },
            ..*self
        }
    }

    open spec fn s_clear(&self) -> Self {
        BucketedContinuationGame { inner: self.inner.s_clear(), current_turn_ti: None, ..*self }
    }

    open spec fn s_single_deal(&self) -> bool {
        false
    }

    proof fn lemma_set(&self, outcome: int) {
        self.inner.lemma_set(outcome);
        let after = self.s_set(outcome);
        assert(after.inner.table == self.inner.table);
        assert forall|p: int| 0 <= p < after.np implies (
        #[trigger] after.override_of(p) matches Some(r) ==> r.len() == after.inner.table.nh()) by {
            assert(after.override_of(p) == self.override_of(p));
        }
        match self.inner.current_turn_card {
            Some(t) => {
                assert(self.inner.table.river_decks@[t as int]@.len()
                    <= self.inner.table.remaining_deck@.len());
            },
            None => {},
        }
    }

    proof fn lemma_clear(&self) {
        self.inner.lemma_clear();
        let after = self.s_clear();
        assert(after.inner.table == self.inner.table);
        assert forall|p: int| 0 <= p < after.np implies (
        #[trigger] after.override_of(p) matches Some(r) ==> r.len() == after.inner.table.nh()) by {
            assert(after.override_of(p) == self.override_of(p));
        }
    }

    proof fn lemma_undo(&self, outcome: int) {
    }

    fn num_hands(&self, player: u8) -> (n: usize) {
        self.inner.num_hands(player)
    }

    fn initial_weight(&self, player: u8) -> (w: Vec<T>) {
        let p: usize = player as usize;
        assert(self.override_of(p as int) matches Some(r) ==> r.len() == self.inner.table.nh());
        if p < self.reach_override.len() {
            if let Some(r) = &self.reach_override[p] {
                return row_copy(r);
            }
        }
        proof {
            self.lemma_layer();
        }
        let own = self.inner.initial_weight(player);
        let kept = match self.street {
            ContStreet::Flop => own,
            ContStreet::Turn(ti) => mask_weights(&self.bucketing.turn[ti].lens, &own),
            ContStreet::River(ti, ri) => mask_weights(&self.bucketing.river[ti][ri].lens, &own),
        };
        if self.normalize_reach {
            normalize(&kept)
        } else {
            kept
        }
    }

    fn evaluate_terminal(
        &self,
        traverser: u8,
        node_idx: usize,
        tree: &FlatTree,
        cfreach: &Vec<Vec<T>>,
    ) -> (values: Vec<T>) {
        if self.np <= 2 && self.np == self.inner.table.num_players {
            proof {
                assert forall|p: int| 0 <= p < cfreach@.len() implies (
                #[trigger] cfreach@[p])@.len() == self.inner.s_hands(p) by {
                    assert(cfreach@[p]@.len() == self.s_hands(p));
                }
            }
            self.inner.evaluate_terminal(traverser, node_idx, tree, cfreach)
        } else {
            self.evaluate_continuation(traverser, node_idx, tree, cfreach)
        }
    }

    fn evaluate_continuation(
        &self,
        traverser: u8,
        node_idx: usize,
        tree: &FlatTree,
        cfreach: &Vec<Vec<T>>,
    ) -> (values: Vec<T>) {
        proof {
            self.lemma_layer();
        }
        let layer: &BucketLayer<T> = match (self.street, self.current_turn_ti) {
            (ContStreet::Flop, Some(ti)) => &self.bucketing.turn[ti],
            (ContStreet::Flop, None) => &self.bucketing.flop,
            (ContStreet::Turn(ti), _) => &self.bucketing.turn[ti],
            (ContStreet::River(ti, ri), _) => &self.bucketing.river[ti][ri],
        };
        let np: u8 = self.np;
        let mut pooled: Vec<Vec<T>> = Vec::new();
        let mut contributions: Vec<i32> = Vec::new();
        let mut p: u8 = 0;
        while p < np
            invariant
                p <= np,
                np == tree.num_players,
                tree.wf(),
                tree.is_node(node_idx as int),
                traverser < np,
                cfreach@.len() == np,
                forall|q: int|
                    0 <= q < cfreach@.len() ==> (#[trigger] cfreach@[q])@.len()
                        == self.inner.table.nh(),
                layer.wf(self.inner.table.nh(), layer.tables.nb as int),
                contributions@.len() == p,
                forall|q: int|
                    0 <= q < p ==> (#[trigger] contributions@[q]) == tree.contribution(
                        node_idx as int,
                        q,
                    ),
                pooled@.len() == if p <= traverser {
                    p as int
                } else {
                    p - 1
                },
                forall|q: int|
                    0 <= q < pooled@.len() ==> (#[trigger] pooled@[q])@ == bucket_reach(
                        &layer.lens,
                        cfreach@[opponent(traverser as int, q)]@,
                    ),
            decreases np - p,
        {
            contributions.push(tree.get_contribution(node_idx, p));
            if p != traverser {
                assert(cfreach@[p as int]@.len() == self.inner.table.nh());
                assert(opponent(traverser as int, pooled@.len() as int) == p);
                pooled.push(pool(&layer.lens, &cfreach[p as usize]));
            }
            p += 1;
        }
        let spot = SampleSpot {
            bucket_reach: pooled,
            tables: &layer.tables,
            contributions,
            fold_mask: tree.get_folded_mask(node_idx),
            traverser,
            num_players: np,
            starting_pot: tree.starting_pot,
            rake: rake_of(tree),
            flop_seen: true,
            sample_m: self.sample_m,
            seed: self.rng_seed ^ (node_idx as u64).wrapping_mul(0x9E37_79B9_7F4A_7C15),
        };
        proof {
            let rows = views(cfreach@);
            assert(spot.contributions@ =~= Seq::new(
                tree.np() as nat,
                |p: int| tree.contribution(node_idx as int, p) as i32,
            ));
            assert(views(spot.bucket_reach@) =~= Seq::new(
                (tree.np() - 1) as nat,
                |q: int| bucket_reach(&layer.lens, rows[opponent(traverser as int, q)]),
            ));
            assert(spot.fits(np as int));
        }
        let out = (self.sampler)(&spot);
        let values = spread_of(&layer.lens, &out, self.inner.table.num_combinations);
        proof {
            let r = &spot;
            assert(is_sampled(
                &self.sampler,
                &self.layer(),
                self.inner.table.nh(),
                self.inner.table.num_combinations,
                r,
                out,
                values@,
            ));
            assert(self.is_continuation(
                tree,
                views(cfreach@),
                traverser,
                node_idx as int,
                values@,
            ));
            self.lemma_continuation(
                tree,
                views(cfreach@),
                traverser,
                node_idx as int,
                values@,
            );
        }
        values
    }

    fn chance_probability(&self, outcome: usize, hand: usize) -> (x: T) {
        proof {
            let p = choose|p: int| 0 <= p < self.s_players() && hand < #[trigger] self.s_hands(p);
            assert(hand < self.inner.s_hands(p));
        }
        self.inner.chance_probability(outcome, hand)
    }

    fn num_combinations(&self) -> (x: T::Wide) {
        self.inner.num_combinations()
    }

    fn num_chance_outcomes(&self) -> (n: usize) {
        self.inner.num_chance_outcomes()
    }

    fn set_chance_outcome(&mut self, outcome: usize) {
        if self.current_turn_ti.is_none() {
            self.current_turn_ti = Some(outcome);
        }
        self.inner.set_chance_outcome(outcome);
    }

    fn clear_chance_outcome(&mut self) {
        self.inner.clear_chance_outcome();
        self.current_turn_ti = None;
    }
}

/// One deal and its clear leave a game as it was before any deal.
pub proof fn law_continuation_clear_undoes_set<
    T: Widen,
    F: Fn(&TerminalSpot<T>) -> Vec<T>,
    S: Fn(&SampleSpot<T>) -> Vec<T>,
>(game: &BucketedContinuationGame<T, F, S>, outcome: int)
    requires
        game.s_valid(),
        game.current_turn_ti is None,
        game.inner.current_river_card is None,
        0 <= outcome < game.s_outcomes(),
    ensures
        game.s_set(outcome).s_clear() == *game,
{
}

/// Once a turn card was dealt inside a search that started on the flop, depth limits
/// are valued by the buckets of that turn card, and after the clear by those of the
/// flop again.
pub proof fn law_turn_deal_selects_its_buckets<
    T: Widen,
    F: Fn(&TerminalSpot<T>) -> Vec<T>,
    S: Fn(&SampleSpot<T>) -> Vec<T>,
>(game: &BucketedContinuationGame<T, F, S>, outcome: int)
    requires
        game.s_valid(),
        game.street == ContStreet::Flop,
        game.current_turn_ti is None,
        0 <= outcome < game.s_outcomes(),
    ensures
        game.layer() == game.bucketing.flop,
        game.s_set(outcome).layer() == game.bucketing.turn@[outcome],
        game.s_set(outcome).s_clear().layer() == game.bucketing.flop,
{
}

} // verus!
