//! Iterations of [`CpuMccfr`].
use vstd::prelude::*;

use crate::game::{plays_on, GameSpec};
use crate::layout::{flat, row_copy};
use crate::mccfr::{CpuMccfr, Ledger};
use crate::mccfr_par::{
    asks_fit, entered, entries_fit, entry_fits, lemma_sel_join, lemma_sel_len, noted, par_walk,
    sel_after, Entry, Note,
};
use crate::mccfr_steps::{add_discounted, add_floored, add_into, add_rows_of, add_scaled, row_sum};
use crate::mccfr_walk::{
    deals_fit, is_trip, lemma_only_ledger, lemma_same_rules, only_ledger, same_hands, trip_of, walk,
    Trip,
};
use crate::parallel::par_map;
use crate::scalar::{filled, Scalar, Widen};
use crate::tree::FlatTree;

verus! {

impl<T: Scalar> CpuMccfr<T> {
    /// Weight of an iteration's contributions, and the factors that what was accumulated
    /// before is discounted by: positive regret, negative regret, strategy. Without
    /// discounting, or on the live strategy, the weight is the iteration's number.
    pub open spec fn step(&self) -> (T, (T, T, T)) {
        let one = T::s_one();
        let t = T::s_of(self.iteration as int);
        if self.use_snapshot && self.dcfr is Some {
            let (alpha, beta, gamma) = self.dcfr->0;
            if t.s_at_most(one) {
                (one, (one, one, one))
            } else {
                let before = t.s_minus(one);
                let x = before.s_power(alpha);
                let y = before.s_power(beta);
                (
                    one,
                    (
                        x.s_over(x.s_plus(one)),
                        y.s_over(y.s_plus(one)),
                        before.s_over(t).s_power(gamma),
                    ),
                )
            }
        } else {
            (t, (one, one, one))
        }
    }

    /// Computes [`CpuMccfr::step`].
    fn dcfr_step(&self) -> (r: (T, (T, T, T)))
        ensures
            r == self.step(),
    {
        let one = T::one();
        let t = T::of_usize(self.iteration as usize);
        match self.dcfr {
            Some((alpha, beta, gamma)) => if self.use_snapshot {
                if t.at_most(one) {
                    return (one, (one, one, one));
                }
                let before = t.minus(one);
                let x = before.power(alpha);
                let y = before.power(beta);
                (
                    one,
                    (
                        x.over(x.plus(one)),
                        y.over(y.plus(one)),
                        before.over(t).power(gamma),
                    ),
                )
            } else {
                (t, (one, one, one))
            },
            None => (t, (one, one, one)),
        }
    }

    /// Enters all notes into the buffers.
    fn enter_notes(&mut self, notes: &Vec<Note<T>>, disc: (T, T, T), tree: &FlatTree)
        requires
            old(self).is_for(tree),
            entries_fit(&*old(self), noted(notes@)),
        ensures
            only_ledger(&*old(self), &*final(self)),
            final(self).is_for(tree),
            final(self).ledger() == entered(
                old(self).ledger(),
                noted(notes@),
                disc,
                noted(notes@).len(),
            ),
    {
        let ghost es = noted(notes@);
        let mut k: usize = 0;
        while k < notes.len()
            invariant
                k <= notes@.len(),
                es == noted(notes@),
                old(self).is_for(tree),
                entries_fit(&*old(self), es),
                only_ledger(&*old(self), &*self),
                self.ledger() == entered(old(self).ledger(), es, disc, k as nat),
            decreases notes@.len() - k,
        {
            let note = &notes[k];
            proof {
                assert(es[k as int] == note.entry());
                assert(entry_fits(&*old(self), es[k as int]));
            }
            if note.selection {
                add_floored(&mut self.sel_regret, note.from, &note.gained);
                add_into(&mut self.sel_cum, note.from, &note.taken);
            } else {
                add_discounted(&mut self.regrets, note.from, &note.gained, disc.0, disc.1);
                add_scaled(&mut self.cum_strategy, note.from, &note.taken, disc.2);
                add_into(&mut self.last_cfv, note.from, &note.seen);
            }
            k += 1;
            assert((k - 1) as nat == k - 1);
        }
        proof {
            lemma_only_ledger(&*old(self), &*self, tree);
        }
    }
}

/// A walk from the root: all players at their initial weights, nothing chosen yet.
pub open spec fn first_trip<T: Widen, G: GameSpec<T>>(g: &G, np: int, traverser: u8, weight: T) -> Trip<
    T,
> {
    Trip {
        traverser,
        weight,
        reach: Seq::new(np as nat, |p: int| g.s_weight(p)),
        mine: g.s_weight(traverser as int),
        var: flat(None, np),
    }
}

/// The first player's values and the ledger after the first `n` players have walked
/// the live strategy.
pub open spec fn walk_round<T: Widen, G: GameSpec<T>>(
    m: &CpuMccfr<T>,
    tree: &FlatTree,
    g: G,
    l: Ledger<T>,
    weight: T,
    n: nat,
) -> (Seq<T>, Ledger<T>)
    decreases n,
{
    if n == 0 {
        (Seq::empty(), l)
    } else {
        let (v, l1) = walk_round(m, tree, g, l, weight, (n - 1) as nat);
        let (w, l2) = walk(
            m,
            tree,
            g,
            l1,
            0,
            first_trip(&g, tree.np(), (n - 1) as u8, weight),
        );
        (
            if n == 1 {
                w
            } else {
                v
            },
            l2,
        )
    }
}

/// The first player's values and all notes after the first `n` players have walked the
/// snapshot. With continuations to choose from, each player sees the choices of those
/// before it.
pub open spec fn par_round<T: Widen, G: GameSpec<T>>(
    m: &CpuMccfr<T>,
    tree: &FlatTree,
    g: G,
    weight: T,
    n: nat,
) -> (Seq<T>, Seq<Entry<T>>)
    decreases n,
{
    if n == 0 {
        (Seq::empty(), Seq::empty())
    } else {
        let (v, es) = par_round(m, tree, g, weight, (n - 1) as nat);
        let sel = if m.num_variants > 1 {
            sel_after(m.sel_regret@, es, es.len())
        } else {
            m.sel_regret@
        };
        let (w, fs) = par_walk(
            m,
            tree,
            g,
            sel,
            0,
            first_trip(&g, tree.np(), (n - 1) as u8, weight),
        );
        (
            if n == 1 {
                w
            } else {
                v
            },
            es + fs,
        )
    }
}

/// One iteration leads from `m0` to `m1`, and gives the first player values `v` at the
/// root.
pub open spec fn is_iteration<T: Widen, G: GameSpec<T>>(
    m0: CpuMccfr<T>,
    m1: CpuMccfr<T>,
    tree: &FlatTree,
    g: G,
    v: Seq<T>,
) -> bool {
    let m = CpuMccfr { iteration: (m0.iteration + 1) as u32, snapshot: m1.snapshot, ..m0 };
    let (weight, disc) = m.step();
    &&& m1.same_rules(&m)
    &&& if m0.use_snapshot {
        let (w, es) = par_round(&m, tree, g, weight, tree.np() as nat);
        let timed = CpuMccfr { iteration: (m0.iteration + 1) as u32, ..m0 };
        &&& m1.snapshot@ == timed.snapshot_upto(tree, tree.size() as nat)
        &&& v == w
        &&& m1.ledger() == entered(m0.ledger(), es, disc, es.len())
    } else {
        &&& m1.snapshot == m0.snapshot
        &&& (v, m1.ledger()) == walk_round(&m, tree, g, m0.ledger(), weight, tree.np() as nat)
    }
}

/// `n` iterations lead from `m0` to `m1`; the first player's values at the root add up
/// to `sums`.
pub open spec fn are_iterations<T: Widen, G: GameSpec<T>>(
    m0: CpuMccfr<T>,
    m1: CpuMccfr<T>,
    tree: &FlatTree,
    g: G,
    sums: Seq<T>,
    n: nat,
) -> bool
    decreases n,
{
    if n == 0 {
        m1 == m0 && sums == flat(T::s_zero(), m0.num_hands@[0] as int)
    } else {
        exists|m: CpuMccfr<T>, prev: Seq<T>, v: Seq<T>|
            #![trigger is_iteration(m, m1, tree, g, v), row_sum(prev, v)]
            {
                &&& is_iteration(m, m1, tree, g, v)
                &&& are_iterations(m0, m, tree, g, prev, (n - 1) as nat)
                &&& sums == row_sum(prev, v)
            }
    }
}

impl<T: Widen + Send + Sync> CpuMccfr<T> {
    /// One player's walk of the snapshot.
    fn one_traverser<G: GameSpec<T> + Sync>(
        &self,
        tree: &FlatTree,
        game: &G,
        traverser: u8,
        weight: T,
        sel: &Vec<T>,
    ) -> (r: (Vec<T>, Vec<Note<T>>))
        requires
            self.is_for(tree),
            self.use_snapshot,
            plays_on(game, tree),
            same_hands(self, game),
            traverser < tree.num_players,
            sel@.len() == self.sel_regret@.len(),
            asks_fit(self.depth_limit@, tree, *game, 0),
        ensures
            is_traversal(self, tree, game, traverser, weight, sel, &r),
    {
        let (reach, mine, var) = self.start(tree, game, traverser, weight);
        let mut reach = reach;
        let mut mine = mine;
        let mut var = var;
        let mut sel2 = row_copy(sel);
        self.walk_cfr_par(
            tree,
            game,
            traverser,
            0,
            &mut reach,
            &mut mine,
            weight,
            &mut sel2,
            &mut var,
        )
    }

    /// Sets up [`first_trip`].
    fn start<G: GameSpec<T>>(&self, tree: &FlatTree, game: &G, traverser: u8, weight: T) -> (r: (
        Vec<Vec<T>>,
        Vec<T>,
        Vec<Option<usize>>,
    ))
        requires
            self.is_for(tree),
            plays_on(game, tree),
            same_hands(self, game),
            traverser < tree.num_players,
        ensures
            trip_of(traverser, weight, &r.0, &r.1, &r.2) == first_trip(
                game,
                tree.np(),
                traverser,
                weight,
            ),
            is_trip(self, trip_of(traverser, weight, &r.0, &r.1, &r.2)),
    {
        let np: u8 = tree.num_players;
        let mut reach: Vec<Vec<T>> = Vec::new();
        let mut p: u8 = 0;
        while p < np
            invariant
                p <= np,
                np == game.s_players(),
                game.s_valid(),
                reach@.len() == p,
                forall|q: int|
                    0 <= q < p ==> (#[trigger] reach@[q])@ == game.s_weight(q) && reach@[q]@.len()
                        == game.s_hands(q),
            decreases np - p,
        {
            reach.push(game.initial_weight(p));
            p += 1;
        }
        let mine = game.initial_weight(traverser);
        let var: Vec<Option<usize>> = filled(None, np as usize);
        proof {
            let t = trip_of(traverser, weight, &reach, &mine, &var);
            assert(t.reach =~= Seq::new(tree.np() as nat, |p: int| game.s_weight(p)));
            assert(t.var =~= flat(None, tree.np()));
            assert forall|q: int| 0 <= q < t.reach.len() implies (#[trigger] t.reach[q]).len()
                == self.num_hands@[q] by {
                assert(t.reach[q] == reach@[q]@);
                assert(game.s_hands(q) == self.num_hands@[q]);
            }
            assert(game.s_hands(traverser as int) == self.num_hands@[traverser as int]);
        }
        (reach, mine, var)
    }

    /// All players walk the snapshot.
    #[verifier::rlimit(30)]
    fn snapshot_round<G: GameSpec<T> + Sync>(&self, tree: &FlatTree, game: &G, weight: T) -> (r: (
        Vec<T>,
        Vec<Note<T>>,
    ))
        requires
            self.is_for(tree),
            self.use_snapshot,
            plays_on(game, tree),
            same_hands(self, game),
            asks_fit(self.depth_limit@, tree, *game, 0),
        ensures
            (r.0@, noted(r.1@)) == par_round(self, tree, *game, weight, tree.np() as nat),
            r.0@.len() == self.num_hands@[0],
            entries_fit(self, noted(r.1@)),
    {
        let np: u8 = tree.num_players;
        let mut first: Vec<T> = Vec::new();
        let mut notes: Vec<Note<T>> = Vec::new();
        assert(noted(notes@) =~= Seq::empty());
        if self.num_variants > 1 {
            let mut sel = row_copy(&self.sel_regret);
            let mut p: u8 = 0;
            while p < np
                invariant
                    p <= np,
                    np == tree.num_players,
                    self.num_variants > 1,
                    self.is_for(tree),
                    self.use_snapshot,
                    plays_on(game, tree),
                    same_hands(self, game),
                    asks_fit(self.depth_limit@, tree, *game, 0),
                    p > 0 ==> first@.len() == self.num_hands@[0],
                    sel@.len() == self.sel_regret@.len(),
                    sel@ == sel_after(self.sel_regret@, noted(notes@), noted(notes@).len()),
                    entries_fit(self, noted(notes@)),
                    (first@, noted(notes@)) == par_round(self, tree, *game, weight, p as nat),
                decreases np - p,
            {
                let (reach, mine, var) = self.start(tree, game, p, weight);
                let mut reach = reach;
                let mut mine = mine;
                let mut var = var;
                let (w, new) = self.walk_cfr_par(
                    tree,
                    game,
                    p,
                    0,
                    &mut reach,
                    &mut mine,
                    weight,
                    &mut sel,
                    &mut var,
                );
                let ghost es = noted(notes@);
                let ghost fs = noted(new@);
                let ghost (a, b) = (notes@, new@);
                let mut new = new;
                notes.append(&mut new);
                if p == 0 {
                    first = w;
                }
                proof {
                    assert(notes@ =~= a + b);
                    assert(noted(notes@) =~= es + fs);
                    lemma_sel_join(self.sel_regret@, es, fs, fs.len());
                    lemma_sel_len(self.sel_regret@, es + fs, (es + fs).len());
                    lemma_fits_join(self, es, fs);
                }
                p += 1;
                assert((p - 1) as nat == p - 1);
            }
        } else {
            let sel: &Vec<T> = &self.sel_regret;
            let walk_one = |p: usize| -> (r: (Vec<T>, Vec<Note<T>>))
                requires
                    p < np,
                ensures
                    is_traversal(self, tree, game, p as u8, weight, sel, &r),
                { self.one_traverser(tree, game, p as u8, weight, sel) };
            let results = par_map(np as usize, walk_one);
            proof {
                assert forall|p: int| 0 <= p < np implies is_traversal(
                    self,
                    tree,
                    game,
                    p as u8,
                    weight,
                    sel,
                    &#[trigger] results@[p],
                ) by {
                    assert(call_ensures(walk_one, (p as usize,), results@[p]));
                }
            }
            let mut results = results;
            let mut p: u8 = 0;
            while p < np
                invariant
                    p <= np,
                    np == tree.num_players,
                    self.num_variants <= 1,
                    self.is_for(tree),
                    sel == self.sel_regret,
                    results@.len() == np - p,
                    forall|k: int|
                        0 <= k < results@.len() ==> is_traversal(
                            self,
                            tree,
                            game,
                            (p + k) as u8,
                            weight,
                            sel,
                            &#[trigger] results@[k],
                        ),
                    p > 0 ==> first@.len() == self.num_hands@[0],
                    entries_fit(self, noted(notes@)),
                    (first@, noted(notes@)) == par_round(self, tree, *game, weight, p as nat),
                decreases np - p,
            {
                let ghost before = results@;
                assert(is_traversal(self, tree, game, (p + 0) as u8, weight, sel, &before[0]));
                let (w, new) = results.remove(0);
                proof {
                    assert(before[0].0 == w && before[0].1 == new);
                    assert forall|k: int| 0 <= k < results@.len() implies is_traversal(
                        self,
                        tree,
                        game,
                        (p + 1 + k) as u8,
                        weight,
                        sel,
                        &#[trigger] results@[k],
                    ) by {
                        assert(results@[k] == before[k + 1]);
                    }
                }
                let ghost es = noted(notes@);
                let ghost fs = noted(new@);
                let ghost (a, b) = (notes@, new@);
                let mut new = new;
                notes.append(&mut new);
                if p == 0 {
                    first = w;
                }
                proof {
                    assert(notes@ =~= a + b);
                    assert(noted(notes@) =~= es + fs);
                    lemma_fits_join(self, es, fs);
                }
                p += 1;
                assert((p - 1) as nat == p - 1);
            }
        }
        (first, notes)
    }

    /// All players walk the live strategy, one after the other.
    #[verifier::rlimit(30)]
    fn live_round<G: GameSpec<T>>(&mut self, tree: &FlatTree, game: &mut G, weight: T) -> (first: Vec<
        T,
    >)
        requires
            old(self).is_for(tree),
            plays_on(&*old(game), tree),
            same_hands(&*old(self), &*old(game)),
            deals_fit(old(self).depth_limit@, tree, *old(game), 0),
        ensures
            (first@, final(self).ledger()) == walk_round(
                &*old(self),
                tree,
                *old(game),
                old(self).ledger(),
                weight,
                tree.np() as nat,
            ),
            first@.len() == old(self).num_hands@[0],
            only_ledger(&*old(self), &*final(self)),
            final(self).is_for(tree),
            *final(game) == *old(game),
    {
        let np: u8 = tree.num_players;
        let ghost g = *game;
        let mut first: Vec<T> = Vec::new();
        let mut p: u8 = 0;
        while p < np
            invariant
                p <= np,
                np == tree.num_players,
                old(self).is_for(tree),
                self.is_for(tree),
                only_ledger(&*old(self), &*self),
                *game == g,
                g == *old(game),
                plays_on(&g, tree),
                same_hands(&*old(self), &g),
                deals_fit(old(self).depth_limit@, tree, g, 0),
                p > 0 ==> first@.len() == old(self).num_hands@[0],
                (first@, self.ledger()) == walk_round(
                    &*old(self),
                    tree,
                    g,
                    old(self).ledger(),
                    weight,
                    p as nat,
                ),
            decreases np - p,
        {
            let (reach, mine, var) = self.start(tree, game, p, weight);
            let mut reach = reach;
            let mut mine = mine;
            let mut var = var;
            proof {
                lemma_same_rules(
                    &*self,
                    &*old(self),
                    tree,
                    g,
                    self.ledger(),
                    0,
                    first_trip(&g, tree.np(), p, weight),
                );
            }
            let w = self.walk_cfr(
                tree,
                game,
                p,
                0,
                &mut reach,
                &mut mine,
                weight,
                &mut var,
            );
            if p == 0 {
                first = w;
            }
            p += 1;
            assert((p - 1) as nat == p - 1);
        }
        first
    }

    /// One iteration.
    #[verifier::rlimit(30)]
    fn iterate<G: GameSpec<T> + Sync>(&mut self, tree: &FlatTree, game: &mut G) -> (v: Vec<T>)
        requires
            old(self).is_for(tree),
            plays_on(&*old(game), tree),
            same_hands(&*old(self), &*old(game)),
            old(self).use_snapshot ==> asks_fit(old(self).depth_limit@, tree, *old(game), 0),
            !old(self).use_snapshot ==> deals_fit(old(self).depth_limit@, tree, *old(game), 0),
            old(self).iteration < u32::MAX,
        ensures
            is_iteration(*old(self), *final(self), tree, *old(game), v@),
            v@.len() == old(self).num_hands@[0],
            final(self).is_for(tree),
            *final(game) == *old(game),
    {
        self.iteration = self.iteration + 1;
        let (weight, disc) = self.dcfr_step();
        if self.use_snapshot {
            self.compute_snapshot(tree);
            let (first, notes) = self.snapshot_round(tree, &*game, weight);
            self.enter_notes(&notes, disc, tree);
            first
        } else {
            self.live_round(tree, game, weight)
        }
    }

    /// Runs iterations; returns the first player's values at the root, averaged over
    /// them.
    pub fn run<G: GameSpec<T> + Sync>(
        &mut self,
        tree: &FlatTree,
        game: &mut G,
        num_iterations: u32,
    ) -> (values: Vec<T>)
        requires
            old(self).is_for(tree),
            plays_on(&*old(game), tree),
            same_hands(&*old(self), &*old(game)),
            old(self).use_snapshot ==> asks_fit(old(self).depth_limit@, tree, *old(game), 0),
            !old(self).use_snapshot ==> deals_fit(old(self).depth_limit@, tree, *old(game), 0),
            old(self).iteration + num_iterations <= u32::MAX,
        ensures
            exists|sums: Seq<T>|
                {
                    &&& #[trigger] are_iterations(
                        *old(self),
                        *final(self),
                        tree,
                        *old(game),
                        sums,
                        num_iterations as nat,
                    )
                    &&& values@ == Seq::new(
                        old(self).num_hands@[0] as nat,
                        |h: int| sums[h].s_over(T::s_of(num_iterations as int)),
                    )
                },
            final(self).is_for(tree),
            final(self).iteration == old(self).iteration + num_iterations,
            *final(game) == *old(game),
    {
        let nh: usize = self.num_hands[0];
        let ghost g = *game;
        let mut sums: Vec<T> = filled(T::zero(), nh);
        assert(sums@ =~= flat(T::s_zero(), nh as int));
        let mut k: u32 = 0;
        while k < num_iterations
            invariant
                k <= num_iterations,
                *game == g,
                g == *old(game),
                plays_on(&g, tree),
                same_hands(&*old(self), &g),
                self.num_hands == old(self).num_hands,
                self.depth_limit == old(self).depth_limit,
                self.use_snapshot == old(self).use_snapshot,
                self.is_for(tree),
                self.use_snapshot ==> asks_fit(self.depth_limit@, tree, g, 0),
                !self.use_snapshot ==> deals_fit(self.depth_limit@, tree, g, 0),
                self.iteration == old(self).iteration + k,
                old(self).iteration + num_iterations <= u32::MAX,
                nh == self.num_hands@[0],
                sums@.len() == nh,
                are_iterations(*old(self), *self, tree, g, sums@, k as nat),
            decreases num_iterations - k,
        {
            let ghost before = *self;
            let ghost prev = sums@;
            let v = self.iterate(tree, game);
            add_rows_of(&mut sums, &v);
            k += 1;
            proof {
                assert((k - 1) as nat == k - 1);
                assert(is_iteration(before, *self, tree, g, v@));
                assert(sums@ == row_sum(prev, v@));
            }
        }
        let count = T::of_usize(num_iterations as usize);
        let mut values: Vec<T> = Vec::new();
        let mut h: usize = 0;
        while h < nh
            invariant
                h <= nh,
                sums@.len() == nh,
                count == T::s_of(num_iterations as int),
                values@.len() == h,
                forall|x: int| 0 <= x < h ==> #[trigger] values@[x] == sums@[x].s_over(count),
            decreases nh - h,
        {
            values.push(sums[h].over(count));
            h += 1;
        }
        proof {
            let all = sums@;
            assert(are_iterations(
                *old(self),
                *self,
                tree,
                *old(game),
                all,
                num_iterations as nat,
            ));
            assert(values@ =~= Seq::new(
                old(self).num_hands@[0] as nat,
                |h: int| all[h].s_over(T::s_of(num_iterations as int)),
            ));
        }
        values
    }
}

/// `r` is what a player's walk of the snapshot gives.
pub open spec fn is_traversal<T: Widen, G: GameSpec<T>>(
    m: &CpuMccfr<T>,
    tree: &FlatTree,
    game: &G,
    traverser: u8,
    weight: T,
    sel: &Vec<T>,
    r: &(Vec<T>, Vec<Note<T>>),
) -> bool {
    &&& (r.0@, noted(r.1@)) == par_walk(
        m,
        tree,
        *game,
        sel@,
        0,
        first_trip(game, tree.np(), traverser, weight),
    )
    &&& r.0@.len() == m.num_hands@[traverser as int]
    &&& entries_fit(m, noted(r.1@))
}

proof fn lemma_fits_join<T: Scalar>(m: &CpuMccfr<T>, a: Seq<Entry<T>>, b: Seq<Entry<T>>)
    requires
        entries_fit(m, a),
        entries_fit(m, b),
    ensures
        entries_fit(m, a + b),
{
    assert forall|k: int| 0 <= k < (a + b).len() implies entry_fits(m, #[trigger] (a + b)[k]) by {
        if k < a.len() {
            assert(entry_fits(m, a[k]));
        } else {
            assert(entry_fits(m, b[k - a.len()]));
        }
    }
}

} // verus!
