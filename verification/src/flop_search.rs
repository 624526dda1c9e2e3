//! Flop searches against opponents that may choose how turn and river go on.
use vstd::prelude::*;

use crate::best_response::entries_of;
use crate::flop_run::{setting, Play};
use crate::flop_start_game::FlopChanceTable;
use crate::flop_start_vector_cfr::{FlopStartVectorCfr, Setting};
use crate::layout::{
    at, flat, get_row, lemma_at_inj, lemma_other_row, lemma_row_inside, put_row, row,
};
use crate::learn::DcfrParams;
use crate::rows::{are_marks, lemma_no_marks, lemma_row_put, rows_set};
use crate::scalar::{filled, sum_upto, Scalar, Widen};
use crate::terminal::{is_evaluator, views, TerminalSpot};
use crate::tree::{BOARD_TURN, FlatTree, UNUSED};
use crate::variants::{lean_fits, leaned, lemma_mix_bound, mix_at, mix_covers, Lean};
use crate::zones::{
    below_deal, deal_children, dealt, lemma_deal_children, mark_descendants, zone_of, Zone,
    ZoneBook,
};

verus! {

impl<T: Widen> FlopStartVectorCfr<T> {
    /// What the turn deals are worth under each of the first `n` leans.
    pub open spec fn variants_done<F: Fn(&TerminalSpot<T>) -> Vec<T>>(
        &self,
        at_: &Setting<T, F>,
        leans: Seq<Lean<T>>,
        reach: Seq<T>,
        worths: Seq<Seq<T>>,
        s: &Self,
        n: nat,
    ) -> bool
        decreases n,
    {
        if n == 0 {
            *s == *self && worths.len() == 0
        } else {
            exists|sm: Self, prev: Seq<Seq<T>>, acc: Seq<T>|
                {
                    &&& self.variants_done(at_, leans, reach, prev, &sm, (n - 1) as nat)
                    &&& worths == #[trigger] prev.push(acc)
                    &&& #[trigger] sm.turns_done(
                        at_,
                        &Play::Leaning(&leans[n - 1]),
                        reach,
                        flat(T::s_zero(), at_.tree.size() * self.nh),
                        acc,
                        s,
                        self.n_turn as nat,
                    )
                }
        }
    }

    /// Plays all turn and river cards once per lean.
    fn variant_worths<F: Fn(&TerminalSpot<T>) -> Vec<T>>(
        &mut self,
        at_: &Setting<T, F>,
        leans: &Vec<Lean<T>>,
        reach: &Vec<T>,
    ) -> (worths: Vec<Vec<T>>)
        requires
            old(self).wf(at_.tree),
            old(self).is_for(at_.table),
            old(self).river_mode.in_memory(),
            at_.wf(),
            forall|k: int|
                0 <= k < leans@.len() ==> lean_fits(
                    &#[trigger] leans@[k],
                    at_.tree,
                    old(self).zones@,
                    Zone::Turn,
                    old(self).nh as int,
                ) && lean_fits(
                    &leans@[k],
                    at_.tree,
                    old(self).zones@,
                    Zone::River,
                    old(self).nh as int,
                ),
            reach@.len() == at_.tree.size() * (at_.tree.np() * old(self).nh),
        ensures
            final(self).wf(at_.tree),
            final(self).is_for(at_.table),
            old(self).same_frame(&*final(self)),
            worths@.len() == leans@.len(),
            forall|k: int|
                0 <= k < worths@.len() ==> (#[trigger] worths@[k])@.len() == at_.tree.size() * old(
                    self,
                ).nh,
            old(self).variants_done(
                at_,
                leans@,
                reach@,
                views(worths@),
                &*final(self),
                leans@.len(),
            ),
    {
        let ghost s0 = *self;
        let mut worths: Vec<Vec<T>> = Vec::new();
        assert(views(worths@) =~= Seq::<Seq<T>>::empty());
        let mut k: usize = 0;
        while k < leans.len()
            invariant
                k <= leans@.len(),
                s0.same_frame(&*self),
                s0.river_mode.in_memory(),
                self.wf(at_.tree),
                self.is_for(at_.table),
                at_.wf(),
                forall|j: int|
                    0 <= j < leans@.len() ==> lean_fits(
                        &#[trigger] leans@[j],
                        at_.tree,
                        s0.zones@,
                        Zone::Turn,
                        s0.nh as int,
                    ) && lean_fits(&leans@[j], at_.tree, s0.zones@, Zone::River, s0.nh as int),
                reach@.len() == at_.tree.size() * (at_.tree.np() * s0.nh),
                worths@.len() == k,
                forall|j: int|
                    0 <= j < k ==> (#[trigger] worths@[j])@.len() == at_.tree.size() * s0.nh,
                s0.variants_done(at_, leans@, reach@, views(worths@), &*self, k as nat),
            decreases leans@.len() - k,
        {
            let ghost sm = *self;
            let ghost prev = views(worths@);
            assert(lean_fits(&leans@[k as int], at_.tree, s0.zones@, Zone::Turn, s0.nh as int));
            let play = Play::Leaning(&leans[k]);
            let acc = self.continuation(at_, &play, reach);
            let ghost av = acc@;
            worths.push(acc);
            proof {
                let n = (k + 1) as nat;
                assert((n - 1) as nat == k as nat);
                assert(views(worths@) =~= prev.push(av));
                assert(sm.turns_done(
                    at_,
                    &Play::Leaning(&leans@[n - 1]),
                    reach@,
                    flat(T::s_zero(), at_.tree.size() * s0.nh),
                    av,
                    self,
                    s0.n_turn as nat,
                ));
            }
            k += 1;
        }
        worths
    }
}

/// Of the first `n` variants, the one under which row `c` adds up to least, the
/// first of them on a tie: its total and the row itself.
pub open spec fn worst_for<T: Scalar>(worths: Seq<Seq<T>>, w: int, c: int, n: nat) -> (T, Seq<T>)
    decreases n,
{
    if n == 0 {
        (T::s_highest(), flat(T::s_zero(), w))
    } else {
        let prev = worst_for(worths, w, c, (n - 1) as nat);
        let here = row(worths[n - 1], w, c);
        let total = sum_upto(entries_of(here), w as nat);
        if total.s_below(prev.0) {
            (total, here)
        } else {
            prev
        }
    }
}

/// The worst rows, by node.
pub open spec fn worst_row<T: Scalar>(worths: Seq<Seq<T>>, w: int) -> spec_fn(int) -> Seq<T> {
    |c: int| worst_for(worths, w, c, worths.len()).1
}

/// Takes each marked row from the variant under which it adds up to least.
fn pick_worst<T: Scalar>(marks: &Vec<u32>, w: usize, n: usize, worths: &Vec<Vec<T>>, buf: &mut Vec<T>)
    requires
        are_marks(marks@, n as int),
        n <= u32::MAX,
        old(buf)@.len() == n * w,
        forall|k: int| 0 <= k < worths@.len() ==> (#[trigger] worths@[k])@.len() == n * w,
    ensures
        rows_set(
            old(buf)@,
            final(buf)@,
            w as int,
            n as int,
            marks@,
            worst_row(views(worths@), w as int),
        ),
{
    let ghost start = buf@;
    let ghost f = worst_row(views(worths@), w as int);
    let ghost vv = views(worths@);
    let mut m: usize = 0;
    proof {
        lemma_no_marks(buf@, w as int, n as int, marks@, f);
    }
    while m < marks.len()
        invariant
            m <= marks@.len(),
            are_marks(marks@, n as int),
            n <= u32::MAX,
            start.len() == n * w,
            vv == views(worths@),
            f == worst_row(vv, w as int),
            forall|k: int| 0 <= k < worths@.len() ==> (#[trigger] worths@[k])@.len() == n * w,
            rows_set(start, buf@, w as int, n as int, marks@.take(m as int), f),
        decreases marks@.len() - m,
    {
        let ghost was = buf@;
        let c: usize = marks[m] as usize;
        assert(marks@[m as int] < n);
        let mut best = T::highest();
        let mut pick: Vec<T> = filled(T::zero(), w);
        assert(pick@ =~= flat(T::s_zero(), w as int));
        let mut k: usize = 0;
        while k < worths.len()
            invariant
                k <= worths@.len(),
                c < n,
                vv == views(worths@),
                forall|j: int| 0 <= j < worths@.len() ==> (#[trigger] worths@[j])@.len() == n * w,
                pick@.len() == w,
                (best, pick@) == worst_for(vv, w as int, c as int, k as nat),
            decreases worths@.len() - k,
        {
            let here = get_row(&worths[k], w, n, c);
            assert(vv[k as int] == worths@[k as int]@);
            let mut total = T::zero();
            let mut h: usize = 0;
            while h < w
                invariant
                    h <= w,
                    here@.len() == w,
                    total == sum_upto(entries_of(here@), h as nat),
                decreases w - h,
            {
                total = total.plus(here[h]);
                h += 1;
            }
            if total.below(best) {
                best = total;
                pick = here;
            }
            k += 1;
        }
        put_row(buf, w, n, c, &pick);
        proof {
            lemma_row_put(start, was, buf@, w as int, n as int, marks@, m as int, f);
        }
        m += 1;
    }
    assert(marks@.take(m as int) =~= marks@);
}

/// The three ways on: the average, leaning to the first action, and leaning to
/// the last one.
pub open spec fn robust_leans<'a, T: Scalar>(traverser: u8, eps: T) -> Seq<Lean<'a, T>> {
    seq![
        Lean::One { traverser: traverser as usize, target: 0, eps: T::s_zero() },
        Lean::One { traverser: traverser as usize, target: 0, eps },
        Lean::One { traverser: traverser as usize, target: usize::MAX, eps },
    ]
}

impl<T: Widen> FlopStartVectorCfr<T> {
    /// One traverser's pass in which the opponents choose, at every turn deal,
    /// the way on that is worst for the traverser.
    pub open spec fn robust_traversed<F: Fn(&TerminalSpot<T>) -> Vec<T>>(
        &self,
        at_: &Setting<T, F>,
        eps: T,
        s: &Self,
    ) -> bool {
        exists|
            sp: Self,
            reach: Seq<T>,
            worths: Seq<Seq<T>>,
            sc: Self,
            turns: Seq<T>,
            root: Seq<T>,
        |
            {
                &&& self.flop_begun(at_.tree, at_.table, reach, &sp)
                &&& #[trigger] sp.variants_done(
                    at_,
                    robust_leans(at_.traverser, eps),
                    reach,
                    worths,
                    &sc,
                    3,
                )
                &&& rows_set(
                    flat(T::s_zero(), at_.tree.size() * self.nh),
                    turns,
                    self.nh as int,
                    at_.tree.size(),
                    self.turn_chance_children@,
                    worst_row(worths, self.nh as int),
                )
                &&& #[trigger] sc.flop_ended(at_, reach, turns, root, s)
            }
    }

    /// The passes of the first `n` traversers.
    pub open spec fn robust_round<F: Fn(&TerminalSpot<T>) -> Vec<T>>(
        &self,
        tree: &FlatTree,
        table: &FlopChanceTable<T>,
        showdown: &F,
        params: DcfrParams<T>,
        eps: T,
        s: &Self,
        n: nat,
    ) -> bool
        decreases n,
    {
        if n == 0 {
            *s == *self
        } else {
            exists|sm: Self|
                self.robust_round(tree, table, showdown, params, eps, &sm, (n - 1) as nat)
                    && #[trigger] sm.robust_traversed(
                    &setting(tree, table, showdown, (n - 1) as u8, params),
                    eps,
                    s,
                )
        }
    }

    /// `n` iterations of the robust search.
    pub open spec fn robust_iterated<F: Fn(&TerminalSpot<T>) -> Vec<T>>(
        &self,
        tree: &FlatTree,
        table: &FlopChanceTable<T>,
        showdown: &F,
        eps: T,
        s: &Self,
        n: nat,
    ) -> bool
        decreases n,
    {
        if n == 0 {
            *s == *self
        } else {
            exists|sm: Self, p: DcfrParams<T>|
                {
                    &&& self.robust_iterated(
                        tree,
                        table,
                        showdown,
                        eps,
                        &sm,
                        (n - 1) as nat,
                    )
                    &&& sm.is_due(p)
                    &&& #[trigger] sm.counted().robust_round(
                        tree,
                        table,
                        showdown,
                        p,
                        eps,
                        s,
                        tree.np() as nat,
                    )
                }
        }
    }

    fn robust_traverse<F: Fn(&TerminalSpot<T>) -> Vec<T>>(&mut self, at_: &Setting<T, F>, eps: T)
        requires
            old(self).wf(at_.tree),
            old(self).is_for(at_.table),
            old(self).river_mode.in_memory(),
            at_.wf(),
        ensures
            final(self).wf(at_.tree),
            final(self).is_for(at_.table),
            old(self).same_frame(&*final(self)),
            old(self).robust_traversed(at_, eps, &*final(self)),
    {
        let ghost s0 = *self;
        let t: usize = at_.traverser as usize;
        let reach = self.begin_flop(at_.tree, at_.table);
        let ghost sp = *self;
        let mut leans: Vec<Lean<T>> = Vec::new();
        leans.push(Lean::One { traverser: t, target: 0, eps: T::zero() });
        leans.push(Lean::One { traverser: t, target: 0, eps });
        leans.push(Lean::One { traverser: t, target: usize::MAX, eps });
        assert(leans@ =~= robust_leans(at_.traverser, eps));
        let worths = self.variant_worths(at_, &leans, &reach);
        let ghost sc = *self;
        let mut turns = self.value_buffer(at_.tree);
        proof {
            self.lemma_marks(at_.tree);
        }
        pick_worst(
            &self.turn_chance_children,
            self.nh,
            at_.tree.num_nodes(),
            &worths,
            &mut turns,
        );
        let ghost tv = turns@;
        let root = self.end_flop(at_, &reach, turns);
        proof {
            assert(sp.variants_done(
                at_,
                robust_leans(at_.traverser, eps),
                reach@,
                views(worths@),
                &sc,
                3,
            ));
            assert(sc.flop_ended(at_, reach@, tv, root@, self));
        }
    }

    /// Searches the flop while, at every turn deal, the opponents go on in the
    /// way that is worst for the traverser: with the average, or leaning `eps`
    /// toward the first or the last action. Turn and river do not learn.
    pub fn run_flop_search_robust<F: Fn(&TerminalSpot<T>) -> Vec<T>>(
        &mut self,
        tree: &FlatTree,
        table: &FlopChanceTable<T>,
        showdown: &F,
        num_iterations: u32,
        eps: T,
    )
        requires
            old(self).wf(tree),
            old(self).is_for(table),
            old(self).river_mode.in_memory(),
            is_evaluator(showdown, tree.np(), table.nh()),
            old(self).can_count(num_iterations as int),
        ensures
            final(self).wf(tree),
            final(self).is_for(table),
            exists|s: Self| #[trigger]
                old(self).with_frozen(true).robust_iterated(
                    tree,
                    table,
                    showdown,
                    eps,
                    &s,
                    num_iterations as nat,
                ) && *final(self) == s.with_frozen(old(self).continuation_frozen),
            final(self).iteration == old(self).iteration + num_iterations,
            old(self).keeps_continuation(final(self)),
    {
        let ghost first = *self;
        let prev_frozen = self.continuation_frozen;
        self.continuation_frozen = true;
        let ghost s0 = *self;
        let np: u8 = self.num_players;
        let mut k: u32 = 0;
        while k < num_iterations
            invariant
                k <= num_iterations,
                np == tree.num_players,
                self.wf(tree),
                self.is_for(table),
                self.river_mode.in_memory(),
                self.iteration == s0.iteration + k,
                s0.can_count(num_iterations as int),
                self.vanilla_mode == s0.vanilla_mode,
                is_evaluator(showdown, tree.np(), table.nh()),
                s0.robust_iterated(tree, table, showdown, eps, &*self, k as nat),
            decreases num_iterations - k,
        {
            let ghost sm = *self;
            let params = self.due();
            self.iteration = self.iteration + 1;
            let ghost sc = *self;
            let mut t: u8 = 0;
            while t < np
                invariant
                    t <= np,
                    np == tree.num_players,
                    self.wf(tree),
                    self.is_for(table),
                    self.river_mode.in_memory(),
                    self.iteration == sc.iteration,
                    self.vanilla_mode == sc.vanilla_mode,
                    is_evaluator(showdown, tree.np(), table.nh()),
                    sc.robust_round(tree, table, showdown, params, eps, &*self, t as nat),
                decreases np - t,
            {
                let ghost st = *self;
                let at_ = Setting { tree, table, showdown, traverser: t, params };
                self.robust_traverse(&at_, eps);
                proof {
                    let n = (t + 1) as nat;
                    assert((n - 1) as nat == t as nat);
                    assert((n - 1) as u8 == t);
                    assert(st.robust_traversed(
                        &setting(tree, table, showdown, (n - 1) as u8, params),
                        eps,
                        self,
                    ));
                }
                t += 1;
            }
            proof {
                let n = (k + 1) as nat;
                assert((n - 1) as nat == k as nat);
                assert(sc == sm.counted());
                assert(sm.counted().robust_round(
                    tree,
                    table,
                    showdown,
                    params,
                    eps,
                    self,
                    tree.np() as nat,
                ));
            }
            k += 1;
        }
        let ghost end = *self;
        self.continuation_frozen = prev_frozen;
        proof {
            assert(s0 == first.with_frozen(true));
            assert(first.with_frozen(true).robust_iterated(
                tree,
                table,
                showdown,
                eps,
                &end,
                num_iterations as nat,
            ));
            s0.law_robust_search_keeps_the_continuation(
                tree,
                table,
                showdown,
                eps,
                &end,
                num_iterations as nat,
            );
        }
    }
}

/// The first of the first `n` roots whose subtree holds node `i`.
pub open spec fn first_root(tree: &FlatTree, roots: Seq<u32>, n: nat, i: int) -> Option<int>
    decreases n,
{
    if n == 0 {
        None
    } else {
        match first_root(tree, roots, (n - 1) as nat, i) {
            Some(d) => Some(d),
            None => if tree.in_subtree(roots[n - 1] as int, i) {
                Some(n - 1)
            } else {
                None
            },
        }
    }
}

/// Where [`first_root`] stands in a list of numbers, with `UNUSED` for none.
pub open spec fn is_boundary_map(tree: &FlatTree, roots: Seq<u32>, map: Seq<usize>) -> bool {
    &&& map.len() == tree.size()
    &&& forall|i: int|
        tree.is_node(i) ==> #[trigger] map[i] == match first_root(tree, roots, roots.len(), i) {
            Some(d) => d as usize,
            None => UNUSED,
        }
}

proof fn lemma_first_root(tree: &FlatTree, roots: Seq<u32>, n: nat, i: int, k: int)
    requires
        0 <= k < n,
        tree.in_subtree(roots[k] as int, i),
    ensures
        first_root(tree, roots, n, i) is Some,
        0 <= first_root(tree, roots, n, i)->0 < n,
    decreases n,
{
    if k < n - 1 {
        lemma_first_root(tree, roots, (n - 1) as nat, i, k);
    } else if n > 1 {
        lemma_first_root_bound(tree, roots, (n - 1) as nat, i);
    }
}

proof fn lemma_first_root_bound(tree: &FlatTree, roots: Seq<u32>, n: nat, i: int)
    ensures
        first_root(tree, roots, n, i) matches Some(d) ==> 0 <= d < n,
    decreases n,
{
    if n > 0 {
        lemma_first_root_bound(tree, roots, (n - 1) as nat, i);
    }
}

/// Every turn and river decision comes after a turn deal.
pub open spec fn turn_comes_first(tree: &FlatTree) -> bool {
    forall|i: int|
        tree.is_node(i) && (#[trigger] zone_of(tree, i) == Zone::River) ==> dealt(
            tree,
            BOARD_TURN,
            i,
        )
}

/// A node after a turn deal lies under one of the deal's children.
proof fn lemma_has_root(tree: &FlatTree, i: int)
    requires
        tree.wf(),
        dealt(tree, BOARD_TURN, i),
    ensures
        first_root(
            tree,
            deal_children(tree, BOARD_TURN, tree.size() as nat),
            deal_children(tree, BOARD_TURN, tree.size() as nat).len(),
            i,
        ) matches Some(d) && 0 <= d < deal_children(tree, BOARD_TURN, tree.size() as nat).len(),
{
    let roots = deal_children(tree, BOARD_TURN, tree.size() as nat);
    lemma_deal_children(tree, BOARD_TURN, tree.size() as nat);
    let (c, a) = choose|c: int, a: int| below_deal(tree, BOARD_TURN, c, a, i);
    assert(tree.edge_ok(c, a));
    let child = tree.child(c, a);
    assert(tree.is_parent(c, a, child as u32 as int));
    assert(roots.contains(child as u32));
    let k = choose|k: int| 0 <= k < roots.len() && roots[k] == child as u32;
    lemma_first_root(tree, roots, roots.len(), i, k);
}

/// Where `mix_at` would put two different entries.
proof fn lemma_mix_inj(
    np: int,
    kk: int,
    nh: int,
    b: int,
    p: int,
    k: int,
    h: int,
    b2: int,
    p2: int,
    k2: int,
    h2: int,
)
    requires
        0 <= p < np,
        0 <= p2 < np,
        0 <= k < kk,
        0 <= k2 < kk,
        0 <= h < nh,
        0 <= h2 < nh,
        mix_at(b, np, p, kk, k, nh, h) == mix_at(b2, np, p2, kk, k2, nh, h2),
    ensures
        b == b2,
        p == p2,
        k == k2,
        h == h2,
{
    lemma_at_inj(nh, at(kk, at(np, b, p), k), h, at(kk, at(np, b2, p2), k2), h2);
    lemma_at_inj(kk, at(np, b, p), k, at(np, b2, p2), k2);
    lemma_at_inj(np, b, p, b2, p2);
}

/// The positive parts of one player's choice regrets at a boundary, by variant.
pub open spec fn positive_parts<T: Scalar>(
    regret: Seq<T>,
    b: int,
    np: int,
    p: int,
    kk: int,
    nh: int,
    h: int,
) -> spec_fn(int) -> T {
    |k: int| regret[mix_at(b, np, p, kk, k, nh, h)].s_larger(T::s_zero())
}

/// The weight of variant `k` in a player's choice, from the choice regrets.
pub open spec fn choice_share<T: Scalar>(
    regret: Seq<T>,
    b: int,
    np: int,
    p: int,
    kk: int,
    k: int,
    nh: int,
    h: int,
) -> T {
    let all = sum_upto(positive_parts(regret, b, np, p, kk, nh, h), kk as nat);
    if T::s_zero().s_below(all) {
        regret[mix_at(b, np, p, kk, k, nh, h)].s_larger(T::s_zero()).s_over(all)
    } else {
        T::s_one().s_over(T::s_of(kk))
    }
}

/// `strat` holds the choices that the choice regrets ask for.
pub open spec fn choices_matched<T: Scalar>(
    regret: Seq<T>,
    strat: Seq<T>,
    n_b: int,
    np: int,
    kk: int,
    nh: int,
) -> bool {
    &&& strat.len() == n_b * np * kk * nh
    &&& forall|b: int, p: int, k: int, h: int|
        0 <= b < n_b && 0 <= p < np && 0 <= k < kk && 0 <= h < nh ==> #[trigger] strat[mix_at(
            b,
            np,
            p,
            kk,
            k,
            nh,
            h,
        )] == choice_share(regret, b, np, p, kk, k, nh, h)
}

/// The sizes of the choice buffers.
pub struct ChoiceDims {
    pub n_b: usize,
    pub np: usize,
    pub kk: usize,
    pub nh: usize,
}

impl ChoiceDims {
    pub open spec fn len(&self) -> int {
        self.n_b * self.np * self.kk * self.nh
    }

    pub open spec fn wf(&self) -> bool {
        &&& self.n_b * self.np <= usize::MAX
        &&& self.n_b * self.np * self.kk <= usize::MAX
        &&& self.len() <= usize::MAX
    }

    /// Where the entry of boundary `b`, player `p`, variant `k`, hand `h` stands.
    fn place(&self, b: usize, p: usize, k: usize, h: usize) -> (i: usize)
        requires
            self.wf(),
            b < self.n_b,
            p < self.np,
            k < self.kk,
            h < self.nh,
        ensures
            i == mix_at(
                b as int,
                self.np as int,
                p as int,
                self.kk as int,
                k as int,
                self.nh as int,
                h as int,
            ),
            i < self.len(),
    {
        proof {
            lemma_mix_bound(
                self.n_b as int,
                b as int,
                self.np as int,
                p as int,
                self.kk as int,
                k as int,
                self.nh as int,
                h as int,
            );
        }
        ((b * self.np + p) * self.kk + k) * self.nh + h
    }
}

/// Where the entry stands, as a mathematical number.
pub open spec fn spot_of(d: &ChoiceDims, b: int, p: int, k: int, h: int) -> int {
    mix_at(b, d.np as int, p, d.kk as int, k, d.nh as int, h)
}

/// Regret-matches every player's choice at every boundary.
fn match_choices<T: Scalar>(d: &ChoiceDims, regret: &Vec<T>) -> (strat: Vec<T>)
    requires
        d.wf(),
        regret@.len() == d.len(),
    ensures
        choices_matched(
            regret@,
            strat@,
            d.n_b as int,
            d.np as int,
            d.kk as int,
            d.nh as int,
        ),
{
    let len: usize = regret.len();
    let mut strat: Vec<T> = filled(T::zero(), len);
    let mut b: usize = 0;
    while b < d.n_b
        invariant
            b <= d.n_b,
            d.wf(),
            len == d.len(),
            regret@.len() == len,
            strat@.len() == len,
            forall|b2: int, p2: int, k2: int, h2: int|
                0 <= b2 < b && 0 <= p2 < d.np && 0 <= k2 < d.kk && 0 <= h2 < d.nh
                    ==> #[trigger] strat@[spot_of(d, b2, p2, k2, h2)] == choice_share(
                    regret@,
                    b2,
                    d.np as int,
                    p2,
                    d.kk as int,
                    k2,
                    d.nh as int,
                    h2,
                ),
        decreases d.n_b - b,
    {
        let mut p: usize = 0;
        while p < d.np
            invariant
                p <= d.np,
                b < d.n_b,
                d.wf(),
                len == d.len(),
                regret@.len() == len,
                strat@.len() == len,
                forall|b2: int, p2: int, k2: int, h2: int|
                    (0 <= b2 < b && 0 <= p2 < d.np || b2 == b && 0 <= p2 < p) && 0 <= k2 < d.kk && 0
                        <= h2 < d.nh ==> #[trigger] strat@[spot_of(d, b2, p2, k2, h2)]
                        == choice_share(
                        regret@,
                        b2,
                        d.np as int,
                        p2,
                        d.kk as int,
                        k2,
                        d.nh as int,
                        h2,
                    ),
            decreases d.np - p,
        {
            let mut h: usize = 0;
            while h < d.nh
                invariant
                    h <= d.nh,
                    p < d.np,
                    b < d.n_b,
                    d.wf(),
                    len == d.len(),
                    regret@.len() == len,
                    strat@.len() == len,
                    forall|b2: int, p2: int, k2: int, h2: int|
                        (0 <= b2 < b && 0 <= p2 < d.np || b2 == b && 0 <= p2 < p) && 0 <= k2 < d.kk
                            && 0 <= h2 < d.nh || b2 == b && p2 == p && 0 <= k2 < d.kk && 0 <= h2 < h
                            ==> #[trigger] strat@[spot_of(d, b2, p2, k2, h2)] == choice_share(
                            regret@,
                            b2,
                            d.np as int,
                            p2,
                            d.kk as int,
                            k2,
                            d.nh as int,
                            h2,
                        ),
                decreases d.nh - h,
            {
                let mut all = T::zero();
                let mut k: usize = 0;
                while k < d.kk
                    invariant
                        k <= d.kk,
                        h < d.nh,
                        p < d.np,
                        b < d.n_b,
                        d.wf(),
                        regret@.len() == d.len(),
                        all == sum_upto(
                            positive_parts(
                                regret@,
                                b as int,
                                d.np as int,
                                p as int,
                                d.kk as int,
                                d.nh as int,
                                h as int,
                            ),
                            k as nat,
                        ),
                    decreases d.kk - k,
                {
                    let i: usize = d.place(b, p, k, h);
                    all = all.plus(regret[i].larger(T::zero()));
                    k += 1;
                }
                let mut k: usize = 0;
                while k < d.kk
                    invariant
                        k <= d.kk,
                        h < d.nh,
                        p < d.np,
                        b < d.n_b,
                        d.wf(),
                        len == d.len(),
                        regret@.len() == len,
                        strat@.len() == len,
                        all == sum_upto(
                            positive_parts(
                                regret@,
                                b as int,
                                d.np as int,
                                p as int,
                                d.kk as int,
                                d.nh as int,
                                h as int,
                            ),
                            d.kk as nat,
                        ),
                        forall|b2: int, p2: int, k2: int, h2: int|
                            (0 <= b2 < b && 0 <= p2 < d.np || b2 == b && 0 <= p2 < p) && 0 <= k2
                                < d.kk && 0 <= h2 < d.nh || b2 == b && p2 == p && 0 <= k2 < d.kk
                                && 0 <= h2 < h || b2 == b && p2 == p && 0 <= k2 < k && h2 == h
                                ==> #[trigger] strat@[spot_of(d, b2, p2, k2, h2)] == choice_share(
                                regret@,
                                b2,
                                d.np as int,
                                p2,
                                d.kk as int,
                                k2,
                                d.nh as int,
                                h2,
                            ),
                    decreases d.kk - k,
                {
                    let i: usize = d.place(b, p, k, h);
                    let ghost was = strat@;
                    let x = if T::zero().below(all) {
                        regret[i].larger(T::zero()).over(all)
                    } else {
                        T::one().over(T::of_usize(d.kk))
                    };
                    strat[i] = x;
                    proof {
                        assert forall|b2: int, p2: int, k2: int, h2: int|
                            (0 <= b2 < b && 0 <= p2 < d.np || b2 == b && 0 <= p2 < p) && 0 <= k2
                                < d.kk && 0 <= h2 < d.nh || b2 == b && p2 == p && 0 <= k2 < d.kk
                                && 0 <= h2 < h || b2 == b && p2 == p && 0 <= k2 < k + 1 && h2
                                == h implies #[trigger] strat@[spot_of(d, b2, p2, k2, h2)]
                            == choice_share(
                            regret@,
                            b2,
                            d.np as int,
                            p2,
                            d.kk as int,
                            k2,
                            d.nh as int,
                            h2,
                        ) by {
                            if spot_of(d, b2, p2, k2, h2) == i {
                                lemma_mix_inj(
                                    d.np as int,
                                    d.kk as int,
                                    d.nh as int,
                                    b2,
                                    p2,
                                    k2,
                                    h2,
                                    b as int,
                                    p as int,
                                    k as int,
                                    h as int,
                                );
                            } else {
                                lemma_mix_bound(
                                    d.n_b as int,
                                    b2,
                                    d.np as int,
                                    p2,
                                    d.kk as int,
                                    k2,
                                    d.nh as int,
                                    h2,
                                );
                                assert(was[spot_of(d, b2, p2, k2, h2)] == strat@[spot_of(
                                    d,
                                    b2,
                                    p2,
                                    k2,
                                    h2,
                                )]);
                            }
                        }
                    }
                    k += 1;
                }
                h += 1;
            }
            p += 1;
        }
        b += 1;
    }
    proof {
        assert forall|b2: int, p2: int, k2: int, h2: int|
            0 <= b2 < d.n_b && 0 <= p2 < d.np && 0 <= k2 < d.kk && 0 <= h2
                < d.nh implies #[trigger] strat@[mix_at(
            b2,
            d.np as int,
            p2,
            d.kk as int,
            k2,
            d.nh as int,
            h2,
        )] == choice_share(
            regret@,
            b2,
            d.np as int,
            p2,
            d.kk as int,
            k2,
            d.nh as int,
            h2,
        ) by {
            assert(strat@[spot_of(d, b2, p2, k2, h2)] == choice_share(
                regret@,
                b2,
                d.np as int,
                p2,
                d.kk as int,
                k2,
                d.nh as int,
                h2,
            ));
        }
    }
    strat
}

/// What hand `h` is worth at root `c` under each variant, weighted by the
/// traverser's choice at boundary `b`.
pub open spec fn chosen_values<T: Scalar>(
    d: &ChoiceDims,
    strat: Seq<T>,
    worths: Seq<Seq<T>>,
    t: int,
    b: int,
    c: int,
    h: int,
) -> spec_fn(int) -> T {
    |k: int| strat[spot_of(d, b, t, k, h)].s_times(row(worths[k], d.nh as int, c)[h])
}

/// The value of hand `h` at boundary `b` under the traverser's choice.
pub open spec fn mixed_value<T: Scalar>(
    d: &ChoiceDims,
    strat: Seq<T>,
    worths: Seq<Seq<T>>,
    roots: Seq<u32>,
    t: int,
    b: int,
    h: int,
) -> T {
    sum_upto(chosen_values(d, strat, worths, t, b, roots[b] as int, h), d.kk as nat)
}

/// `turns` holds the mixed values at the boundaries; its other rows, of `n`, are those
/// of `was`.
pub open spec fn turns_mixed<T: Scalar>(
    d: &ChoiceDims,
    strat: Seq<T>,
    worths: Seq<Seq<T>>,
    roots: Seq<u32>,
    t: int,
    n: int,
    was: Seq<T>,
    turns: Seq<T>,
) -> bool {
    &&& turns.len() == was.len()
    &&& forall|i: int|
        0 <= i < n && !roots.contains(i as u32) ==> #[trigger] row(turns, d.nh as int, i) == row(
            was,
            d.nh as int,
            i,
        )
    &&& forall|b: int|
        0 <= b < roots.len() ==> row(turns, d.nh as int, (#[trigger] roots[b]) as int) == Seq::new(
            d.nh as nat,
            |h: int| mixed_value(d, strat, worths, roots, t, b, h),
        )
}

/// A choice regret after discounting the old one and adding the new.
pub open spec fn next_choice<T: Scalar>(p: &DcfrParams<T>, r: T, inst: T) -> T {
    (if T::s_zero().s_at_most(r) {
        p.alpha()
    } else {
        p.beta()
    }).s_times(r).s_plus(inst)
}

/// Player `t`'s choice regrets were updated, all others stayed.
pub open spec fn choices_learned<T: Scalar>(
    d: &ChoiceDims,
    strat: Seq<T>,
    worths: Seq<Seq<T>>,
    roots: Seq<u32>,
    t: int,
    p: &DcfrParams<T>,
    was: Seq<T>,
    regret: Seq<T>,
) -> bool {
    &&& regret.len() == was.len()
    &&& forall|b: int, q: int, k: int, h: int|
        0 <= b < d.n_b && 0 <= q < d.np && 0 <= k < d.kk && 0 <= h < d.nh
            ==> #[trigger] regret[spot_of(d, b, q, k, h)] == if q == t {
            next_choice(
                p,
                was[spot_of(d, b, q, k, h)],
                row(worths[k], d.nh as int, roots[b] as int)[h].s_minus(
                    mixed_value(d, strat, worths, roots, t, b, h),
                ),
            )
        } else {
            was[spot_of(d, b, q, k, h)]
        }
}

/// One boundary: the row of mixed values, and the regret updates of it.
fn learn_boundary<T: Scalar>(
    d: &ChoiceDims,
    strat: &Vec<T>,
    worths: &Vec<Vec<T>>,
    t: usize,
    p: &DcfrParams<T>,
    b: usize,
    c: usize,
    n: usize,
    regret: &mut Vec<T>,
    Ghost(roots): Ghost<Seq<u32>>,
) -> (mixed: Vec<T>)
    requires
        d.wf(),
        b < d.n_b,
        t < d.np,
        c < n,
        roots.len() == d.n_b,
        roots[b as int] == c,
        strat@.len() == d.len(),
        old(regret)@.len() == d.len(),
        worths@.len() == d.kk,
        forall|k: int| 0 <= k < worths@.len() ==> (#[trigger] worths@[k])@.len() == n * d.nh,
    ensures
        mixed@ == Seq::new(
            d.nh as nat,
            |h: int| mixed_value(d, strat@, views(worths@), roots, t as int, b as int, h),
        ),
        final(regret)@.len() == old(regret)@.len(),
        forall|b2: int, q: int, k: int, h: int|
            0 <= b2 < d.n_b && 0 <= q < d.np && 0 <= k < d.kk && 0 <= h < d.nh
                ==> #[trigger] final(regret)@[spot_of(d, b2, q, k, h)] == if b2 == b && q == t {
                next_choice(
                    p,
                    old(regret)@[spot_of(d, b2, q, k, h)],
                    row(views(worths@)[k], d.nh as int, c as int)[h].s_minus(
                        mixed_value(d, strat@, views(worths@), roots, t as int, b2, h),
                    ),
                )
            } else {
                old(regret)@[spot_of(d, b2, q, k, h)]
            },
{
    let ghost was = regret@;
    let ghost vv = views(worths@);
    let ghost nh = d.nh as int;
    let ghost bi = b as int;
    let ghost ti = t as int;
    let mut rows: Vec<Vec<T>> = Vec::new();
    let mut k: usize = 0;
    while k < d.kk
        invariant
            k <= d.kk,
            c < n,
            nh == d.nh,
            vv == views(worths@),
            worths@.len() == d.kk,
            forall|j: int| 0 <= j < worths@.len() ==> (#[trigger] worths@[j])@.len() == n * d.nh,
            rows@.len() == k,
            forall|j: int|
                0 <= j < k ==> (#[trigger] rows@[j])@ == row(vv[j], nh, c as int) && rows@[j]@.len()
                    == d.nh,
        decreases d.kk - k,
    {
        assert(vv[k as int] == worths@[k as int]@);
        rows.push(get_row(&worths[k], d.nh, n, c));
        k += 1;
    }
    let mut mixed: Vec<T> = Vec::new();
    let mut h: usize = 0;
    while h < d.nh
        invariant
            h <= d.nh,
            d.wf(),
            b < d.n_b,
            t < d.np,
            nh == d.nh,
            bi == b,
            ti == t,
            vv == views(worths@),
            roots.len() == d.n_b,
            roots[bi] == c,
            strat@.len() == d.len(),
            was.len() == d.len(),
            regret@.len() == d.len(),
            rows@.len() == d.kk,
            forall|j: int|
                0 <= j < d.kk ==> (#[trigger] rows@[j])@ == row(vv[j], nh, c as int)
                    && rows@[j]@.len() == d.nh,
            mixed@.len() == h,
            forall|g: int|
                0 <= g < h ==> #[trigger] mixed@[g] == mixed_value(
                    d,
                    strat@,
                    vv,
                    roots,
                    ti,
                    bi,
                    g,
                ),
            forall|b2: int, q: int, k: int, g: int|
                0 <= b2 < d.n_b && 0 <= q < d.np && 0 <= k < d.kk && 0 <= g < d.nh
                    ==> #[trigger] regret@[spot_of(d, b2, q, k, g)] == if b2 == b && q == t && g
                    < h {
                    next_choice(
                        p,
                        was[spot_of(d, b2, q, k, g)],
                        row(vv[k], nh, c as int)[g].s_minus(
                            mixed_value(d, strat@, vv, roots, ti, b2, g),
                        ),
                    )
                } else {
                    was[spot_of(d, b2, q, k, g)]
                },
        decreases d.nh - h,
    {
        let ghost hi = h as int;
        let mut m = T::zero();
        let mut k: usize = 0;
        while k < d.kk
            invariant
                k <= d.kk,
                h < d.nh,
                hi == h,
                d.wf(),
                b < d.n_b,
                t < d.np,
                nh == d.nh,
                bi == b,
                ti == t,
                strat@.len() == d.len(),
                rows@.len() == d.kk,
                forall|j: int|
                    0 <= j < d.kk ==> (#[trigger] rows@[j])@ == row(vv[j], nh, c as int)
                        && rows@[j]@.len() == d.nh,
                m == sum_upto(
                    chosen_values(d, strat@, vv, ti, bi, c as int, hi),
                    k as nat,
                ),
            decreases d.kk - k,
        {
            let i: usize = d.place(b, t, k, h);
            m = m.plus(strat[i].times(rows[k][h]));
            k += 1;
        }
        mixed.push(m);
        assert(m == mixed_value(d, strat@, vv, roots, ti, bi, hi));
        let mut k: usize = 0;
        while k < d.kk
            invariant
                k <= d.kk,
                h < d.nh,
                hi == h,
                d.wf(),
                b < d.n_b,
                t < d.np,
                nh == d.nh,
                bi == b,
                ti == t,
                roots.len() == d.n_b,
                roots[bi] == c,
                was.len() == d.len(),
                regret@.len() == d.len(),
                rows@.len() == d.kk,
                m == mixed_value(d, strat@, vv, roots, ti, bi, hi),
                forall|j: int|
                    0 <= j < d.kk ==> (#[trigger] rows@[j])@ == row(vv[j], nh, c as int)
                        && rows@[j]@.len() == d.nh,
                forall|b2: int, q: int, j: int, g: int|
                    0 <= b2 < d.n_b && 0 <= q < d.np && 0 <= j < d.kk && 0 <= g < d.nh
                        ==> #[trigger] regret@[spot_of(d, b2, q, j, g)] == if b2 == b && q == t && (
                    g < h || g == h && j < k) {
                        next_choice(
                            p,
                            was[spot_of(d, b2, q, j, g)],
                            row(vv[j], nh, c as int)[g].s_minus(
                                mixed_value(d, strat@, vv, roots, ti, b2, g),
                            ),
                        )
                    } else {
                        was[spot_of(d, b2, q, j, g)]
                    },
            decreases d.kk - k,
        {
            let i: usize = d.place(b, t, k, h);
            let ghost before = regret@;
            assert(before[spot_of(d, bi, ti, k as int, hi)] == was[spot_of(
                d,
                bi,
                ti,
                k as int,
                hi,
            )]);
            let inst = rows[k][h].minus(m);
            let r = regret[i];
            let coef = if T::zero().at_most(r) {
                p.alpha_t()
            } else {
                p.beta_t()
            };
            regret[i] = coef.times(r).plus(inst);
            proof {
                assert forall|b2: int, q: int, j: int, g: int|
                    0 <= b2 < d.n_b && 0 <= q < d.np && 0 <= j < d.kk && 0 <= g
                        < d.nh implies #[trigger] regret@[spot_of(d, b2, q, j, g)] == if b2 == b
                    && q == t && (g < h || g == h && j < k + 1) {
                    next_choice(
                        p,
                        was[spot_of(d, b2, q, j, g)],
                        row(vv[j], nh, c as int)[g].s_minus(
                            mixed_value(d, strat@, vv, roots, ti, b2, g),
                        ),
                    )
                } else {
                    was[spot_of(d, b2, q, j, g)]
                } by {
                    if spot_of(d, b2, q, j, g) == i {
                        lemma_mix_inj(
                            d.np as int,
                            d.kk as int,
                            nh,
                            b2,
                            q,
                            j,
                            g,
                            bi,
                            ti,
                            k as int,
                            hi,
                        );
                    } else {
                        lemma_mix_bound(
                            d.n_b as int,
                            b2,
                            d.np as int,
                            q,
                            d.kk as int,
                            j,
                            nh,
                            g,
                        );
                        assert(before[spot_of(d, b2, q, j, g)] == regret@[spot_of(
                            d,
                            b2,
                            q,
                            j,
                            g,
                        )]);
                    }
                }
            }
            k += 1;
        }
        h += 1;
    }
    assert(mixed@ =~= Seq::new(
        d.nh as nat,
        |h: int| mixed_value(d, strat@, vv, roots, ti, bi, h),
    ));
    mixed
}

/// Mixes the values at every boundary by the traverser's choice, and updates
/// that player's choice regrets.
fn mix_and_learn<T: Scalar>(
    d: &ChoiceDims,
    strat: &Vec<T>,
    worths: &Vec<Vec<T>>,
    roots: &Vec<u32>,
    t: usize,
    p: &DcfrParams<T>,
    n: usize,
    regret: &mut Vec<T>,
    turns: &mut Vec<T>,
)
    requires
        d.wf(),
        t < d.np,
        roots@.len() == d.n_b,
        are_marks(roots@, n as int),
        n <= u32::MAX,
        strat@.len() == d.len(),
        old(regret)@.len() == d.len(),
        old(turns)@.len() == n * d.nh,
        worths@.len() == d.kk,
        forall|k: int| 0 <= k < worths@.len() ==> (#[trigger] worths@[k])@.len() == n * d.nh,
    ensures
        turns_mixed(
            d,
            strat@,
            views(worths@),
            roots@,
            t as int,
            n as int,
            old(turns)@,
            final(turns)@,
        ),
        choices_learned(
            d,
            strat@,
            views(worths@),
            roots@,
            t as int,
            p,
            old(regret)@,
            final(regret)@,
        ),
{
    let ghost was = regret@;
    let ghost start = turns@;
    let ghost vv = views(worths@);
    let ghost nh = d.nh as int;
    let ghost ti = t as int;
    let mut b: usize = 0;
    while b < d.n_b
        invariant
            start.len() == n * d.nh,
            n <= u32::MAX,
            forall|i: int|
                0 <= i < n && !roots@.contains(i as u32) ==> #[trigger] row(turns@, nh, i) == row(
                    start,
                    nh,
                    i,
                ),
            b <= d.n_b,
            d.wf(),
            t < d.np,
            ti == t,
            nh == d.nh,
            vv == views(worths@),
            roots@.len() == d.n_b,
            are_marks(roots@, n as int),
            strat@.len() == d.len(),
            was.len() == d.len(),
            regret@.len() == d.len(),
            turns@.len() == n * d.nh,
            worths@.len() == d.kk,
            forall|k: int| 0 <= k < worths@.len() ==> (#[trigger] worths@[k])@.len() == n * d.nh,
            forall|c: int|
                0 <= c < b ==> row(turns@, nh, (#[trigger] roots@[c]) as int) == Seq::new(
                    d.nh as nat,
                    |h: int| mixed_value(d, strat@, vv, roots@, ti, c, h),
                ),
            forall|b2: int, q: int, k: int, h: int|
                0 <= b2 < d.n_b && 0 <= q < d.np && 0 <= k < d.kk && 0 <= h < d.nh
                    ==> #[trigger] regret@[spot_of(d, b2, q, k, h)] == if q == t && b2 < b {
                    next_choice(
                        p,
                        was[spot_of(d, b2, q, k, h)],
                        row(vv[k], nh, roots@[b2] as int)[h].s_minus(
                            mixed_value(d, strat@, vv, roots@, ti, b2, h),
                        ),
                    )
                } else {
                    was[spot_of(d, b2, q, k, h)]
                },
        decreases d.n_b - b,
    {
        let c: usize = roots[b] as usize;
        assert(roots@[b as int] < n);
        let ghost mid = regret@;
        let mixed = learn_boundary(
            d,
            strat,
            worths,
            t,
            p,
            b,
            c,
            n,
            regret,
            Ghost(roots@),
        );
        let ghost tw = turns@;
        put_row(turns, d.nh, n, c, &mixed);
        proof {
            assert forall|i: int| 0 <= i < n && !roots@.contains(i as u32) implies #[trigger] row(
                turns@,
                nh,
                i,
            ) == row(start, nh, i) by {
                assert(roots@.contains(roots@[b as int]));
                lemma_row_inside(nh, n as int, i);
                lemma_other_row(tw, turns@, nh, c as int, i);
                assert(row(tw, nh, i) == row(start, nh, i));
            }
            assert forall|e: int| 0 <= e < b + 1 implies row(
                turns@,
                nh,
                (#[trigger] roots@[e]) as int,
            ) == Seq::new(
                d.nh as nat,
                |h: int| mixed_value(d, strat@, vv, roots@, ti, e, h),
            ) by {
                if e < b {
                    assert(roots@[e] != roots@[b as int]);
                    lemma_row_inside(nh, n as int, roots@[e] as int);
                    lemma_other_row(tw, turns@, nh, c as int, roots@[e] as int);
                }
            }
            assert forall|b2: int, q: int, k: int, h: int|
                0 <= b2 < d.n_b && 0 <= q < d.np && 0 <= k < d.kk && 0 <= h
                    < d.nh implies #[trigger] regret@[spot_of(d, b2, q, k, h)] == if q == t && b2
                < b + 1 {
                next_choice(
                    p,
                    was[spot_of(d, b2, q, k, h)],
                    row(vv[k], nh, roots@[b2] as int)[h].s_minus(
                        mixed_value(d, strat@, vv, roots@, ti, b2, h),
                    ),
                )
            } else {
                was[spot_of(d, b2, q, k, h)]
            } by {
                assert(mid[spot_of(d, b2, q, k, h)] == if q == t && b2 < b {
                    next_choice(
                        p,
                        was[spot_of(d, b2, q, k, h)],
                        row(vv[k], nh, roots@[b2] as int)[h].s_minus(
                            mixed_value(d, strat@, vv, roots@, ti, b2, h),
                        ),
                    )
                } else {
                    was[spot_of(d, b2, q, k, h)]
                });
            }
        }
        b += 1;
    }
}

/// One mixed lean per variant of the traverser's own.
pub open spec fn mixed_leans<'a, T>(
    traverser: usize,
    variants: &'a Vec<(usize, T)>,
    strat: &'a Vec<T>,
    boundary: &'a Vec<usize>,
) -> Seq<Lean<'a, T>> {
    Seq::new(
        variants@.len(),
        |k: int| Lean::Mixed { traverser, own: k as usize, variants, mix: strat, boundary },
    )
}

proof fn lemma_mix_fits<T: Scalar>(
    traverser: usize,
    own: usize,
    variants: &Vec<(usize, T)>,
    mix: &Vec<T>,
    boundary: &Vec<usize>,
    tree: &FlatTree,
    zones: Seq<Zone>,
    zone: Zone,
    nh: int,
    n_b: int,
)
    requires
        mix_covers(mix@, tree, zones, zone, nh, variants@.len() as int, boundary@, n_b),
    ensures
        lean_fits(
            &Lean::Mixed { traverser, own, variants, mix, boundary },
            tree,
            zones,
            zone,
            nh,
        ),
{
    assert(exists|n: int| #[trigger]
        mix_covers(mix@, tree, zones, zone, nh, variants@.len() as int, boundary@, n));
    let lean = Lean::Mixed { traverser, own, variants, mix, boundary };
    assert(lean->mix@ == mix@);
    assert(lean->variants@ == variants@);
    assert(lean->boundary@ == boundary@);
    assert(lean is Mixed);
    assert(lean_fits(&lean, tree, zones, zone, nh));
}

impl<T: Widen> FlopStartVectorCfr<T> {
    /// Which turn deal's child every node lies under, by place; `UNUSED` for the
    /// nodes before the turn.
    pub fn build_node_boundary(&self, tree: &FlatTree) -> (map: Vec<usize>)
        requires
            self.wf(tree),
        ensures
            is_boundary_map(tree, self.turn_chance_children@, map@),
    {
        let nn: usize = tree.num_nodes();
        let ghost roots = self.turn_chance_children@;
        let mut map: Vec<usize> = filled(UNUSED, nn);
        let mut d: usize = 0;
        let total: usize = self.turn_chance_children.len();
        proof {
            self.lemma_marks(tree);
        }
        while d < total
            invariant
                d <= total,
                total == roots.len(),
                roots == self.turn_chance_children@,
                nn == tree.size(),
                tree.wf(),
                are_marks(roots, tree.size()),
                map@.len() == tree.size(),
                forall|i: int|
                    tree.is_node(i) ==> #[trigger] map@[i] == match first_root(
                        tree,
                        roots,
                        d as nat,
                        i,
                    ) {
                        Some(e) => e as usize,
                        None => UNUSED,
                    },
            decreases total - d,
        {
            let mut below: Vec<bool> = filled(false, nn);
            let r: usize = self.turn_chance_children[d] as usize;
            assert(roots[d as int] < tree.size());
            mark_descendants(tree, r, &mut below);
            let ghost was = map@;
            let mut i: usize = 0;
            while i < nn
                invariant
                    i <= nn,
                    nn == tree.size(),
                    d < total,
                    total == roots.len(),
                    r == roots[d as int],
                    below@.len() == nn,
                    map@.len() == nn,
                    was.len() == nn,
                    forall|j: int|
                        tree.is_node(j) ==> #[trigger] below@[j] == tree.in_subtree(r as int, j),
                    forall|j: int|
                        tree.is_node(j) ==> #[trigger] was[j] == match first_root(
                            tree,
                            roots,
                            d as nat,
                            j,
                        ) {
                            Some(e) => e as usize,
                            None => UNUSED,
                        },
                    forall|j: int|
                        0 <= j < i ==> #[trigger] map@[j] == match first_root(
                            tree,
                            roots,
                            (d + 1) as nat,
                            j,
                        ) {
                            Some(e) => e as usize,
                            None => UNUSED,
                        },
                    forall|j: int| i <= j < nn ==> #[trigger] map@[j] == was[j],
                decreases nn - i,
            {
                proof {
                    lemma_first_root_bound(tree, roots, d as nat, i as int);
                }
                assert(was[i as int] == map@[i as int]);
                assert(below@[i as int] == tree.in_subtree(r as int, i as int));
                if below[i] && map[i] == UNUSED {
                    map[i] = d;
                }
                i += 1;
            }
            d += 1;
        }
        map
    }

    /// One traverser's pass in which every player mixes the variants by choice,
    /// and the traverser's choice regrets are updated.
    pub open spec fn choice_traversed<F: Fn(&TerminalSpot<T>) -> Vec<T>>(
        &self,
        at_: &Setting<T, F>,
        d: &ChoiceDims,
        variants: &Vec<(usize, T)>,
        boundary: &Vec<usize>,
        strat: &Vec<T>,
        was: Seq<T>,
        regret: Seq<T>,
        s: &Self,
    ) -> bool {
        exists|
            sp: Self,
            reach: Seq<T>,
            worths: Seq<Seq<T>>,
            sc: Self,
            turns: Seq<T>,
            root: Seq<T>,
        |
            {
                &&& self.flop_begun(at_.tree, at_.table, reach, &sp)
                &&& #[trigger] sp.variants_done(
                    at_,
                    mixed_leans(at_.traverser as usize, variants, strat, boundary),
                    reach,
                    worths,
                    &sc,
                    variants@.len(),
                )
                &&& turns_mixed(
                    d,
                    strat@,
                    worths,
                    self.turn_chance_children@,
                    at_.traverser as int,
                    at_.tree.size(),
                    flat(T::s_zero(), at_.tree.size() * self.nh),
                    turns,
                )
                &&& choices_learned(
                    d,
                    strat@,
                    worths,
                    self.turn_chance_children@,
                    at_.traverser as int,
                    &at_.params,
                    was,
                    regret,
                )
                &&& #[trigger] sc.flop_ended(at_, reach, turns, root, s)
            }
    }

    /// The passes of the first `n` traversers.
    pub open spec fn choice_round<F: Fn(&TerminalSpot<T>) -> Vec<T>>(
        &self,
        tree: &FlatTree,
        table: &FlopChanceTable<T>,
        showdown: &F,
        params: DcfrParams<T>,
        d: &ChoiceDims,
        variants: &Vec<(usize, T)>,
        boundary: &Vec<usize>,
        strat: &Vec<T>,
        was: Seq<T>,
        regret: Seq<T>,
        s: &Self,
        n: nat,
    ) -> bool
        decreases n,
    {
        if n == 0 {
            *s == *self && regret == was
        } else {
            exists|sm: Self, mid: Seq<T>|
                self.choice_round(
                    tree,
                    table,
                    showdown,
                    params,
                    d,
                    variants,
                    boundary,
                    strat,
                    was,
                    mid,
                    &sm,
                    (n - 1) as nat,
                ) && #[trigger] sm.choice_traversed(
                    &setting(tree, table, showdown, (n - 1) as u8, params),
                    d,
                    variants,
                    boundary,
                    strat,
                    mid,
                    regret,
                    s,
                )
        }
    }

    /// `n` iterations of the two-sided search, starting without choice regrets.
    pub open spec fn choice_iterated<F: Fn(&TerminalSpot<T>) -> Vec<T>>(
        &self,
        tree: &FlatTree,
        table: &FlopChanceTable<T>,
        showdown: &F,
        d: &ChoiceDims,
        variants: &Vec<(usize, T)>,
        boundary: &Vec<usize>,
        regret: Seq<T>,
        s: &Self,
        n: nat,
    ) -> bool
        decreases n,
    {
        if n == 0 {
            *s == *self && regret == flat(T::s_zero(), d.len())
        } else {
            exists|sm: Self, was: Seq<T>, p: DcfrParams<T>, strat: Vec<T>|
                {
                    &&& self.choice_iterated(
                        tree,
                        table,
                        showdown,
                        d,
                        variants,
                        boundary,
                        was,
                        &sm,
                        (n - 1) as nat,
                    )
                    &&& sm.is_due(p)
                    &&& choices_matched(
                        was,
                        strat@,
                        d.n_b as int,
                        d.np as int,
                        d.kk as int,
                        d.nh as int,
                    )
                    &&& #[trigger] sm.counted().choice_round(
                        tree,
                        table,
                        showdown,
                        p,
                        d,
                        variants,
                        boundary,
                        &strat,
                        was,
                        regret,
                        s,
                        tree.np() as nat,
                    )
                }
        }
    }

    /// The sizes of the choice buffers for `kk` variants.
    pub open spec fn choice_dims(&self, kk: usize) -> ChoiceDims {
        ChoiceDims {
            n_b: self.turn_chance_children@.len() as usize,
            np: self.num_players as usize,
            kk,
            nh: self.nh,
        }
    }

    fn choice_traverse<F: Fn(&TerminalSpot<T>) -> Vec<T>>(
        &mut self,
        at_: &Setting<T, F>,
        d: &ChoiceDims,
        variants: &Vec<(usize, T)>,
        boundary: &Vec<usize>,
        strat: &Vec<T>,
        regret: &mut Vec<T>,
    )
        requires
            old(self).wf(at_.tree),
            old(self).is_for(at_.table),
            old(self).river_mode.in_memory(),
            at_.wf(),
            turn_comes_first(at_.tree),
            d.wf(),
            *d == old(self).choice_dims(variants.len()),
            d.n_b == old(self).turn_chance_children@.len(),
            is_boundary_map(at_.tree, old(self).turn_chance_children@, boundary@),
            strat@.len() == d.len(),
            old(regret)@.len() == d.len(),
        ensures
            final(self).wf(at_.tree),
            final(self).is_for(at_.table),
            old(self).same_frame(&*final(self)),
            final(regret)@.len() == d.len(),
            old(self).choice_traversed(
                at_,
                d,
                variants,
                boundary,
                strat,
                old(regret)@,
                final(regret)@,
                &*final(self),
            ),
    {
        let ghost s0 = *self;
        let ghost was = regret@;
        let t: usize = at_.traverser as usize;
        let tree = at_.tree;
        let reach = self.begin_flop(tree, at_.table);
        let ghost sp = *self;
        let mut leans: Vec<Lean<T>> = Vec::new();
        let mut k: usize = 0;
        while k < variants.len()
            invariant
                k <= variants@.len(),
                t == at_.traverser,
                leans@.len() == k,
                forall|j: int|
                    0 <= j < k ==> #[trigger] leans@[j] == mixed_leans(
                        t,
                        variants,
                        strat,
                        boundary,
                    )[j],
            decreases variants@.len() - k,
        {
            leans.push(Lean::Mixed { traverser: t, own: k, variants, mix: strat, boundary });
            k += 1;
        }
        proof {
            assert(leans@ =~= mixed_leans(t, variants, strat, boundary));
            assert forall|z: Zone| z == Zone::Turn || z == Zone::River implies #[trigger] mix_covers(
                strat@,
                tree,
                s0.zones@,
                z,
                s0.nh as int,
                variants@.len() as int,
                boundary@,
                d.n_b as int,
            ) by {
                assert forall|i: int| #[trigger] ZoneBook::owns(
                    tree,
                    s0.zones@,
                    z,
                    i,
                ) implies boundary@[i] < d.n_b by {
                    assert(s0.zones@[i] == zone_of(tree, i));
                    assert(dealt(tree, BOARD_TURN, i));
                    lemma_has_root(tree, i);
                }
            }
            assert forall|k: int| 0 <= k < leans@.len() implies lean_fits(
                &#[trigger] leans@[k],
                tree,
                s0.zones@,
                Zone::Turn,
                s0.nh as int,
            ) && lean_fits(&leans@[k], tree, s0.zones@, Zone::River, s0.nh as int) by {
                assert(leans@[k] == mixed_leans(t, variants, strat, boundary)[k]);
                lemma_mix_fits(
                    t,
                    k as usize,
                    variants,
                    strat,
                    boundary,
                    tree,
                    s0.zones@,
                    Zone::Turn,
                    s0.nh as int,
                    d.n_b as int,
                );
                lemma_mix_fits(
                    t,
                    k as usize,
                    variants,
                    strat,
                    boundary,
                    tree,
                    s0.zones@,
                    Zone::River,
                    s0.nh as int,
                    d.n_b as int,
                );
            }
        }
        let worths = self.variant_worths(at_, &leans, &reach);
        let ghost sc = *self;
        let mut turns = self.value_buffer(tree);
        proof {
            self.lemma_marks(tree);
        }
        mix_and_learn(
            d,
            strat,
            &worths,
            &self.turn_chance_children,
            t,
            &at_.params,
            tree.num_nodes(),
            regret,
            &mut turns,
        );
        let ghost tv = turns@;
        let root = self.end_flop(at_, &reach, turns);
        proof {
            assert(sp.variants_done(
                at_,
                mixed_leans(t, variants, strat, boundary),
                reach@,
                views(worths@),
                &sc,
                variants@.len(),
            ));
            assert(sc.flop_ended(at_, reach@, tv, root@, self));
        }
    }

    /// Searches the flop while every player, at every turn deal, chooses among
    /// the `variants` of how turn and river go on; the choices are learned by
    /// regret matching beside the flop. Turn and river do not learn.
    pub fn run_flop_search_two_sided<F: Fn(&TerminalSpot<T>) -> Vec<T>>(
        &mut self,
        tree: &FlatTree,
        table: &FlopChanceTable<T>,
        showdown: &F,
        num_iterations: u32,
        variants: &Vec<(usize, T)>,
    )
        requires
            old(self).wf(tree),
            old(self).is_for(table),
            old(self).river_mode.in_memory(),
            is_evaluator(showdown, tree.np(), table.nh()),
            turn_comes_first(tree),
            old(self).choice_dims(variants.len()).wf(),
            old(self).can_count(num_iterations as int),
        ensures
            final(self).wf(tree),
            final(self).is_for(table),
            exists|s: Self, boundary: Vec<usize>, regret: Seq<T>|
                is_boundary_map(tree, old(self).turn_chance_children@, boundary@)
                    && #[trigger] old(self).with_frozen(true).choice_iterated(
                    tree,
                    table,
                    showdown,
                    &old(self).choice_dims(variants.len()),
                    variants,
                    &boundary,
                    regret,
                    &s,
                    num_iterations as nat,
                ) && *final(self) == s.with_frozen(old(self).continuation_frozen),
            final(self).iteration == old(self).iteration + num_iterations,
            old(self).keeps_continuation(final(self)),
    {
        let ghost first = *self;
        let boundary = self.build_node_boundary(tree);
        let prev_frozen = self.continuation_frozen;
        self.continuation_frozen = true;
        let ghost s0 = *self;
        let np: u8 = self.num_players;
        let d = ChoiceDims {
            n_b: self.turn_chance_children.len(),
            np: np as usize,
            kk: variants.len(),
            nh: self.nh,
        };
        let mut regret: Vec<T> = filled(T::zero(), d.n_b * d.np * d.kk * d.nh);
        assert(regret@ =~= flat(T::s_zero(), d.len()));
        let mut k: u32 = 0;
        while k < num_iterations
            invariant
                k <= num_iterations,
                np == tree.num_players,
                self.wf(tree),
                self.is_for(table),
                self.river_mode.in_memory(),
                self.turn_chance_children == s0.turn_chance_children,
                self.nh == s0.nh,
                self.num_players == s0.num_players,
                d == s0.choice_dims(variants.len()),
                d.n_b == s0.turn_chance_children@.len(),
                d.wf(),
                turn_comes_first(tree),
                is_boundary_map(tree, s0.turn_chance_children@, boundary@),
                regret@.len() == d.len(),
                self.iteration == s0.iteration + k,
                s0.can_count(num_iterations as int),
                self.vanilla_mode == s0.vanilla_mode,
                is_evaluator(showdown, tree.np(), table.nh()),
                s0.choice_iterated(
                    tree,
                    table,
                    showdown,
                    &d,
                    variants,
                    &boundary,
                    regret@,
                    &*self,
                    k as nat,
                ),
            decreases num_iterations - k,
        {
            let ghost sm = *self;
            let ghost was = regret@;
            let params = self.due();
            self.iteration = self.iteration + 1;
            let ghost sc = *self;
            let strat = match_choices(&d, &regret);
            let mut t: u8 = 0;
            while t < np
                invariant
                    t <= np,
                    np == tree.num_players,
                    self.wf(tree),
                    self.is_for(table),
                    self.river_mode.in_memory(),
                    self.iteration == sc.iteration,
                    self.vanilla_mode == sc.vanilla_mode,
                    self.turn_chance_children == s0.turn_chance_children,
                    self.nh == s0.nh,
                    self.num_players == s0.num_players,
                    d == s0.choice_dims(variants.len()),
                    d.n_b == s0.turn_chance_children@.len(),
                    d.wf(),
                    turn_comes_first(tree),
                    is_boundary_map(tree, s0.turn_chance_children@, boundary@),
                    strat@.len() == d.len(),
                    regret@.len() == d.len(),
                    is_evaluator(showdown, tree.np(), table.nh()),
                    sc.choice_round(
                        tree,
                        table,
                        showdown,
                        params,
                        &d,
                        variants,
                        &boundary,
                        &strat,
                        was,
                        regret@,
                        &*self,
                        t as nat,
                    ),
                decreases np - t,
            {
                let ghost st = *self;
                let ghost mid = regret@;
                let at_ = Setting { tree, table, showdown, traverser: t, params };
                self.choice_traverse(&at_, &d, variants, &boundary, &strat, &mut regret);
                proof {
                    let n = (t + 1) as nat;
                    assert((n - 1) as nat == t as nat);
                    assert((n - 1) as u8 == t);
                    assert(st.choice_traversed(
                        &setting(tree, table, showdown, (n - 1) as u8, params),
                        &d,
                        variants,
                        &boundary,
                        &strat,
                        mid,
                        regret@,
                        self,
                    ));
                }
                t += 1;
            }
            proof {
                let n = (k + 1) as nat;
                assert((n - 1) as nat == k as nat);
                assert(sc == sm.counted());
                assert(sm.counted().choice_round(
                    tree,
                    table,
                    showdown,
                    params,
                    &d,
                    variants,
                    &boundary,
                    &strat,
                    was,
                    regret@,
                    self,
                    tree.np() as nat,
                ));
            }
            k += 1;
        }
        let ghost end = *self;
        self.continuation_frozen = prev_frozen;
        proof {
            assert(s0 == first.with_frozen(true));
            assert(first.with_frozen(true).choice_iterated(
                tree,
                table,
                showdown,
                &first.choice_dims(variants.len()),
                variants,
                &boundary,
                regret@,
                &end,
                num_iterations as nat,
            ));
            s0.law_two_sided_search_keeps_the_continuation(
                tree,
                table,
                showdown,
                &first.choice_dims(variants.len()),
                variants,
                &boundary,
                regret@,
                &end,
                num_iterations as nat,
            );
        }
    }
}

/// Leaning by nothing is the average: with no step, and for a choice among one
/// variant.
pub proof fn law_no_lean_is_average<T: Scalar>(
    lean: &Lean<T>,
    np: int,
    nh: int,
    owner: int,
    i: int,
    na: int,
    a: int,
    h: int,
    bp: T,
)
    requires
        !T::s_zero().s_below(T::s_zero()),
        match lean {
            Lean::One { eps, .. } => *eps == T::s_zero(),
            Lean::Mixed { variants, .. } => variants@.len() <= 1,
        },
    ensures
        leaned(lean, np, nh, owner, i, na, a, h, bp) == bp,
{
}

} // verus!
