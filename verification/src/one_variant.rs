//! A choice of one variant is no choice.
use vstd::prelude::*;

use crate::bank::{block, room, strategy_at};
use crate::buckets::has_units;
use crate::flop_pairs::lemma_arity_room;
use crate::flop_run::{plus_rows, river_chances, setting, Play};
use crate::flop_search::{
    choice_share, choices_matched, chosen_values, is_boundary_map, mixed_leans, mixed_value,
    positive_parts, spot_of, turns_mixed, ChoiceDims,
};
use crate::flop_start_game::FlopChanceTable;
use crate::flop_start_vector_cfr::{FlopStartVectorCfr, Setting};
use crate::layout::{flat, lemma_row_inside, lemma_rows_ext, row};
use crate::learn::DcfrParams;
use crate::rows::{rows_set, sum_row};
use crate::scalar::{sum_upto, Scalar, Widen};
use crate::terminal::TerminalSpot;
use crate::tree::FlatTree;
use crate::variants::{leaned, Lean};
use crate::zones::{Zone, ZoneBook};

verus! {

/// A mix of one variant.
pub open spec fn is_single<T>(lean: &Lean<T>) -> bool {
    lean matches Lean::Mixed { variants, .. } && variants@.len() == 1
}

/// Zero and one are neutral, a number above zero goes into itself once, one counts one,
/// and zero is not below itself.
pub open spec fn has_whole_shares<T: Scalar>() -> bool {
    &&& has_units::<T>()
    &&& forall|t: T| T::s_zero().s_below(t) ==> #[trigger] t.s_over(t) == T::s_one()
    &&& T::s_of(1) == T::s_one()
    &&& !T::s_zero().s_below(T::s_zero())
}

/// A single variant moves nothing.
proof fn lemma_single<T: Scalar>(
    lean: &Lean<T>,
    np: int,
    nh: int,
    owner: int,
    i: int,
    na: int,
    a: int,
    h: int,
    bp: T,
)
    requires
        has_whole_shares::<T>(),
        is_single(lean),
    ensures
        leaned(lean, np, nh, owner, i, na, a, h, bp) == bp,
{
}

/// The weight of the only variant is one.
proof fn lemma_only_share<T: Scalar>(regret: Seq<T>, b: int, np: int, p: int, nh: int, h: int)
    requires
        has_whole_shares::<T>(),
    ensures
        choice_share(regret, b, np, p, 1, 0, nh, h) == T::s_one(),
{
    let f = positive_parts(regret, b, np, p, 1, nh, h);
    let x = f(0);
    reveal_with_fuel(sum_upto, 2);
    assert(T::s_zero().s_plus(x) == x);
    assert(sum_upto(f, 1) == x);
}

impl<T: Widen> FlopStartVectorCfr<T> {
    /// The strategy of a single variant is the average.
    proof fn lemma_single_is_average(
        &self,
        tree: &FlatTree,
        lean: &Lean<T>,
        zone: Zone,
        tc: int,
        rc: int,
        s: &Self,
    )
        requires
            has_whole_shares::<T>(),
            is_single(lean),
            self.wf(tree),
            zone == Zone::Turn || zone == Zone::River,
            self.prepared(tree, &Play::Leaning(lean), zone, tc, rc, s),
        ensures
            self.prepared(tree, &Play::Average, zone, tc, rc, s),
            s.wf(tree),
            self.same_frame(s),
    {
        let book = self.book(zone);
        let w = self.nh as int;
        let strategy = s.bank(zone).strategy@;
        assert forall|i: int| #[trigger]
            ZoneBook::owns(tree, self.zones@, zone, i) implies strategy_at(
            tree,
            &book,
            w,
            self.outcome(zone, tc, rc),
            self.bank(zone).cum@,
            T::s_zero(),
            self.bank(zone).strategy@,
            strategy,
            i,
        ) by {
            let n = tree.arity(i);
            let g = book.local(i);
            book.lemma_local(tree, self.zones@, zone, i);
            lemma_arity_room(tree, i, w);
            lemma_row_inside(room(w), book.infoset_count as int, g);
            assert(block(strategy, w, g, n).len() == n * w);
            assert forall|a: int, h: int, bp: T| #[trigger]
                leaned(
                    lean,
                    tree.np(),
                    w,
                    tree.nodes@[i].player_id as int,
                    i,
                    n,
                    a,
                    h,
                    bp,
                ) == bp by {
                lemma_single(
                    lean,
                    tree.np(),
                    w,
                    tree.nodes@[i].player_id as int,
                    i,
                    n,
                    a,
                    h,
                    bp,
                );
            }
        }
    }

    proof fn lemma_single_river<F: Fn(&TerminalSpot<T>) -> Vec<T>>(
        &self,
        at_: &Setting<T, F>,
        lean: &Lean<T>,
        tc: int,
        rc: int,
        turn_reach: Seq<T>,
        acc0: Seq<T>,
        acc: Seq<T>,
        s: &Self,
    )
        requires
            has_whole_shares::<T>(),
            is_single(lean),
            self.wf(at_.tree),
            self.river_step(at_, &Play::Leaning(lean), tc, rc, turn_reach, acc0, acc, s),
        ensures
            self.river_step(at_, &Play::Average, tc, rc, turn_reach, acc0, acc, s),
            s.wf(at_.tree),
            self.same_frame(s),
    {
        let tree = at_.tree;
        let nh = self.nh as int;
        let chances = river_chances(at_.table, at_.table.remaining_deck@[tc] as int, rc);
        let (sp, reach, was, cfv) = choose|sp: Self, reach: Seq<T>, was: Seq<T>, cfv: Seq<T>|
            {
                &&& self.prepared(tree, &Play::Leaning(lean), Zone::River, tc, rc, &sp)
                &&& sp.is_river_reach(tree, turn_reach, reach)
                &&& was.len() == tree.size() * self.nh
                &&& #[trigger] sp.passed(at_, Zone::River, tc, rc, reach, was, cfv, s)
                &&& rows_set(
                    acc0,
                    acc,
                    nh,
                    tree.size(),
                    self.river_chance_children@,
                    sum_row(acc0, chances, cfv, nh),
                )
            };
        self.lemma_single_is_average(tree, lean, Zone::River, tc, rc, &sp);
        assert(sp.passed(at_, Zone::River, tc, rc, reach, was, cfv, s));
    }

    proof fn lemma_single_rivers<F: Fn(&TerminalSpot<T>) -> Vec<T>>(
        &self,
        at_: &Setting<T, F>,
        lean: &Lean<T>,
        tc: int,
        turn_reach: Seq<T>,
        acc0: Seq<T>,
        acc: Seq<T>,
        s: &Self,
        n: nat,
    )
        requires
            has_whole_shares::<T>(),
            is_single(lean),
            self.wf(at_.tree),
            self.rivers_done(at_, &Play::Leaning(lean), tc, turn_reach, acc0, acc, s, n),
        ensures
            self.rivers_done(at_, &Play::Average, tc, turn_reach, acc0, acc, s, n),
            s.wf(at_.tree),
            self.same_frame(s),
        decreases n,
    {
        if n > 0 {
            let play = Play::Leaning(lean);
            let (sm, mid) = choose|sm: Self, mid: Seq<T>|
                self.rivers_done(at_, &play, tc, turn_reach, acc0, mid, &sm, (n - 1) as nat)
                    && #[trigger] sm.river_step(at_, &play, tc, n - 1, turn_reach, mid, acc, s);
            self.lemma_single_rivers(at_, lean, tc, turn_reach, acc0, mid, &sm, (n - 1) as nat);
            sm.lemma_single_river(at_, lean, tc, n - 1, turn_reach, mid, acc, s);
        }
    }

    proof fn lemma_single_turn<F: Fn(&TerminalSpot<T>) -> Vec<T>>(
        &self,
        at_: &Setting<T, F>,
        lean: &Lean<T>,
        tc: int,
        flop_reach: Seq<T>,
        acc0: Seq<T>,
        acc: Seq<T>,
        s: &Self,
    )
        requires
            has_whole_shares::<T>(),
            is_single(lean),
            self.wf(at_.tree),
            self.turn_step(at_, &Play::Leaning(lean), tc, flop_reach, acc0, acc, s),
        ensures
            self.turn_step(at_, &Play::Average, tc, flop_reach, acc0, acc, s),
            s.wf(at_.tree),
            self.same_frame(s),
            acc.len() == acc0.len(),
            forall|i: int|
                0 <= i < at_.tree.size() && !self.turn_chance_children@.contains(i as u32)
                    ==> #[trigger] row(acc, self.nh as int, i) == row(acc0, self.nh as int, i),
    {
        let play = Play::Leaning(lean);
        let k = self.river_counts@[tc] as nat;
        let (sp, reach, r0, rivers, sr) = choose|
            sp: Self,
            reach: Seq<T>,
            r0: Seq<T>,
            rivers: Seq<T>,
            sr: Self,
        |
            {
                &&& self.turn_begun(at_.tree, &play, tc, flop_reach, reach, &sp)
                &&& #[trigger] sp.rivers_done(at_, &play, tc, reach, r0, rivers, &sr, k)
                &&& sr.turn_ended(at_, tc, reach, rivers, acc0, acc, s)
            };
        self.lemma_single_is_average(at_.tree, lean, Zone::Turn, tc, 0, &sp);
        sp.lemma_single_rivers(at_, lean, tc, reach, r0, rivers, &sr, k);
        assert(self.turn_begun(at_.tree, &Play::Average, tc, flop_reach, reach, &sp));
        assert(sp.rivers_done(at_, &Play::Average, tc, reach, r0, rivers, &sr, k));
    }

    proof fn lemma_single_turns<F: Fn(&TerminalSpot<T>) -> Vec<T>>(
        &self,
        at_: &Setting<T, F>,
        lean: &Lean<T>,
        flop_reach: Seq<T>,
        acc0: Seq<T>,
        acc: Seq<T>,
        s: &Self,
        n: nat,
    )
        requires
            has_whole_shares::<T>(),
            is_single(lean),
            self.wf(at_.tree),
            self.turns_done(at_, &Play::Leaning(lean), flop_reach, acc0, acc, s, n),
        ensures
            self.turns_done(at_, &Play::Average, flop_reach, acc0, acc, s, n),
            s.wf(at_.tree),
            self.same_frame(s),
            acc.len() == acc0.len(),
            forall|i: int|
                0 <= i < at_.tree.size() && !self.turn_chance_children@.contains(i as u32)
                    ==> #[trigger] row(acc, self.nh as int, i) == row(acc0, self.nh as int, i),
        decreases n,
    {
        if n > 0 {
            let play = Play::Leaning(lean);
            let (sm, mid) = choose|sm: Self, mid: Seq<T>|
                self.turns_done(at_, &play, flop_reach, acc0, mid, &sm, (n - 1) as nat)
                    && #[trigger] sm.turn_step(at_, &play, n - 1, flop_reach, mid, acc, s);
            self.lemma_single_turns(at_, lean, flop_reach, acc0, mid, &sm, (n - 1) as nat);
            sm.lemma_single_turn(at_, lean, n - 1, flop_reach, mid, acc, s);
            assert forall|i: int|
                0 <= i < at_.tree.size() && !self.turn_chance_children@.contains(
                    i as u32,
                ) implies #[trigger] row(acc, self.nh as int, i) == row(
                acc0,
                self.nh as int,
                i,
            ) by {
                assert(row(mid, self.nh as int, i) == row(acc0, self.nh as int, i));
            }
        }
    }

    /// Mixed by a single choice, the values are those of the only variant.
    proof fn lemma_single_mix(
        &self,
        tree: &FlatTree,
        d: &ChoiceDims,
        strat: Seq<T>,
        regret: Seq<T>,
        worths: Seq<Seq<T>>,
        t: int,
        zeros: Seq<T>,
        turns: Seq<T>,
    )
        requires
            has_whole_shares::<T>(),
            self.wf(tree),
            *d == self.choice_dims(1),
            0 <= t < d.np,
            choices_matched(regret, strat, d.n_b as int, d.np as int, 1, d.nh as int),
            worths.len() == 1,
            zeros.len() == tree.size() * self.nh,
            worths[0].len() == zeros.len(),
            forall|i: int|
                0 <= i < tree.size() && !self.turn_chance_children@.contains(i as u32)
                    ==> #[trigger] row(worths[0], self.nh as int, i) == row(
                    zeros,
                    self.nh as int,
                    i,
                ),
            turns_mixed(
                d,
                strat,
                worths,
                self.turn_chance_children@,
                t,
                tree.size(),
                zeros,
                turns,
            ),
        ensures
            turns == worths[0],
    {
        let roots = self.turn_chance_children@;
        let nh = self.nh as int;
        assert(self.turn_chance_children.len() == roots.len());
        assert(d.n_b == roots.len());
        assert forall|i: int| 0 <= i < tree.size() implies #[trigger] row(turns, nh, i) == row(
            worths[0],
            nh,
            i,
        ) by {
            if roots.contains(i as u32) {
                let b = choose|b: int| 0 <= b < roots.len() && roots[b] == i as u32;
                assert(roots[b] as int == i);
                lemma_row_inside(nh, tree.size(), i);
                assert forall|h: int| 0 <= h < nh implies #[trigger] row(turns, nh, i)[h] == row(
                    worths[0],
                    nh,
                    i,
                )[h] by {
                    let x = row(worths[0], nh, i)[h];
                    let f = chosen_values(d, strat, worths, t, b, i, h);
                    lemma_only_share(regret, b, d.np as int, t, nh, h);
                    assert(strat[spot_of(d, b, t, 0, h)] == T::s_one());
                    reveal_with_fuel(sum_upto, 2);
                    assert(T::s_one().s_times(x) == x && T::s_zero().s_plus(x) == x);
                    assert(f(0) == x);
                    assert(mixed_value(d, strat, worths, roots, t, b, h) == x);
                }
                assert(row(turns, nh, i) =~= row(worths[0], nh, i));
            } else {
                assert(row(worths[0], nh, i) == row(zeros, nh, i));
            }
        }
        lemma_rows_ext(turns, worths[0], nh, tree.size());
    }

    proof fn lemma_single_traversed<F: Fn(&TerminalSpot<T>) -> Vec<T>>(
        &self,
        at_: &Setting<T, F>,
        d: &ChoiceDims,
        variants: &Vec<(usize, T)>,
        boundary: &Vec<usize>,
        strat: &Vec<T>,
        matched: Seq<T>,
        was: Seq<T>,
        regret: Seq<T>,
        s: &Self,
    ) -> (root: Seq<T>)
        requires
            has_whole_shares::<T>(),
            self.wf(at_.tree),
            *d == self.choice_dims(1),
            at_.traverser < self.num_players,
            variants@.len() == 1,
            choices_matched(matched, strat@, d.n_b as int, d.np as int, 1, d.nh as int),
            self.choice_traversed(at_, d, variants, boundary, strat, was, regret, s),
        ensures
            self.traversed(at_, &Play::Average, root, s),
            s.wf(at_.tree),
            self.same_frame(s),
    {
        let tree = at_.tree;
        let zeros = flat(T::s_zero(), tree.size() * self.nh);
        let leans = mixed_leans(at_.traverser as usize, variants, strat, boundary);
        assert(0 <= tree.size() * self.nh) by (nonlinear_arith)
            requires
                0 <= tree.size(),
                0 <= self.nh,
        ;
        let (sp, reach, worths, sc, turns, root) = choose|
            sp: Self,
            reach: Seq<T>,
            worths: Seq<Seq<T>>,
            sc: Self,
            turns: Seq<T>,
            root: Seq<T>,
        |
            {
                &&& self.flop_begun(tree, at_.table, reach, &sp)
                &&& #[trigger] sp.variants_done(at_, leans, reach, worths, &sc, 1)
                &&& turns_mixed(
                    d,
                    strat@,
                    worths,
                    self.turn_chance_children@,
                    at_.traverser as int,
                    tree.size(),
                    zeros,
                    turns,
                )
                &&& #[trigger] sc.flop_ended(at_, reach, turns, root, s)
            };
        reveal_with_fuel(FlopStartVectorCfr::variants_done, 2);
        let (sm, prev, acc) = choose|sm: Self, prev: Seq<Seq<T>>, acc: Seq<T>|
            {
                &&& sp.variants_done(at_, leans, reach, prev, &sm, 0)
                &&& worths == #[trigger] prev.push(acc)
                &&& #[trigger] sm.turns_done(
                    at_,
                    &Play::Leaning(&leans[0]),
                    reach,
                    zeros,
                    acc,
                    &sc,
                    sp.n_turn as nat,
                )
            };
        assert(worths[0] == acc);
        assert(is_single(&leans[0]));
        sp.lemma_single_turns(at_, &leans[0], reach, zeros, acc, &sc, sp.n_turn as nat);
        self.lemma_single_mix(
            tree,
            d,
            strat@,
            matched,
            worths,
            at_.traverser as int,
            zeros,
            turns,
        );
        assert(sp.turns_done(
            at_,
            &Play::Average,
            reach,
            zeros,
            turns,
            &sc,
            self.n_turn as nat,
        ));
        root
    }

    proof fn lemma_single_round<F: Fn(&TerminalSpot<T>) -> Vec<T>>(
        &self,
        tree: &FlatTree,
        table: &FlopChanceTable<T>,
        showdown: &F,
        params: DcfrParams<T>,
        d: &ChoiceDims,
        variants: &Vec<(usize, T)>,
        boundary: &Vec<usize>,
        strat: &Vec<T>,
        was: Seq<T>,
        regret: Seq<T>,
        s: &Self,
        n: nat,
    ) -> (roots: Seq<Seq<T>>)
        requires
            has_whole_shares::<T>(),
            self.wf(tree),
            *d == self.choice_dims(1),
            n <= tree.np(),
            variants@.len() == 1,
            choices_matched(was, strat@, d.n_b as int, d.np as int, 1, d.nh as int),
            self.choice_round(
                tree,
                table,
                showdown,
                params,
                d,
                variants,
                boundary,
                strat,
                was,
                regret,
                s,
                n,
            ),
        ensures
            self.round_done(tree, table, showdown, params, &Play::Average, roots, s, n),
            s.wf(tree),
            self.same_frame(s),
        decreases n,
    {
        if n == 0 {
            Seq::empty()
        } else {
            let at_ = setting(tree, table, showdown, (n - 1) as u8, params);
            let (sm, mid) = choose|sm: Self, mid: Seq<T>|
                self.choice_round(
                    tree,
                    table,
                    showdown,
                    params,
                    d,
                    variants,
                    boundary,
                    strat,
                    was,
                    mid,
                    &sm,
                    (n - 1) as nat,
                ) && #[trigger] sm.choice_traversed(
                    &at_,
                    d,
                    variants,
                    boundary,
                    strat,
                    mid,
                    regret,
                    s,
                );
            let prev = self.lemma_single_round(
                tree,
                table,
                showdown,
                params,
                d,
                variants,
                boundary,
                strat,
                was,
                mid,
                &sm,
                (n - 1) as nat,
            );
            let root = sm.lemma_single_traversed(
                &at_,
                d,
                variants,
                boundary,
                strat,
                was,
                mid,
                regret,
                s,
            );
            let roots = prev.push(root);
            assert(sm.traversed(&at_, &Play::Average, root, s));
            roots
        }
    }

    /// A two-sided search over a single variant goes through the states of the plain
    /// search.
    pub proof fn law_single_choice_is_the_average<F: Fn(&TerminalSpot<T>) -> Vec<T>>(
        &self,
        tree: &FlatTree,
        table: &FlopChanceTable<T>,
        showdown: &F,
        variants: &Vec<(usize, T)>,
        boundary: &Vec<usize>,
        regret: Seq<T>,
        s: &Self,
        n: nat,
    ) -> (sums: Seq<Seq<T>>)
        requires
            has_whole_shares::<T>(),
            self.wf(tree),
            variants@.len() == 1,
            self.choice_iterated(
                tree,
                table,
                showdown,
                &self.choice_dims(1),
                variants,
                boundary,
                regret,
                s,
                n,
            ),
        ensures
            self.iterated(tree, table, showdown, &Play::Average, sums, s, n),
            s.wf(tree),
            s.choice_dims(1) == self.choice_dims(1),
            s.nh == self.nh,
        decreases n,
    {
        let d = self.choice_dims(1);
        if n == 0 {
            Seq::new(tree.np() as nat, |p: int| flat(T::s_zero(), self.nh as int))
        } else {
            let (sm, was, p, strat) = choose|
                sm: Self,
                was: Seq<T>,
                p: DcfrParams<T>,
                strat: Vec<T>,
            |
                {
                    &&& self.choice_iterated(
                        tree,
                        table,
                        showdown,
                        &d,
                        variants,
                        boundary,
                        was,
                        &sm,
                        (n - 1) as nat,
                    )
                    &&& sm.is_due(p)
                    &&& choices_matched(
                        was,
                        strat@,
                        d.n_b as int,
                        d.np as int,
                        d.kk as int,
                        d.nh as int,
                    )
                    &&& #[trigger] sm.counted().choice_round(
                        tree,
                        table,
                        showdown,
                        p,
                        &d,
                        variants,
                        boundary,
                        &strat,
                        was,
                        regret,
                        s,
                        tree.np() as nat,
                    )
                };
            let prev = self.law_single_choice_is_the_average(
                tree,
                table,
                showdown,
                variants,
                boundary,
                was,
                &sm,
                (n - 1) as nat,
            );
            let roots = sm.counted().lemma_single_round(
                tree,
                table,
                showdown,
                p,
                &d,
                variants,
                boundary,
                &strat,
                was,
                regret,
                s,
                tree.np() as nat,
            );
            let sums = plus_rows(prev, roots);
            assert(sm.counted().round_done(
                tree,
                table,
                showdown,
                p,
                &Play::Average,
                roots,
                s,
                tree.np() as nat,
            ));
            sums
        }
    }

    /// What [`FlopStartVectorCfr::run_flop_search_two_sided`] leaves with a single variant
    /// holds the numbers that [`FlopStartVectorCfr::run_flop_search`] leaves.
    pub proof fn law_single_variant_is_the_search<F: Fn(&TerminalSpot<T>) -> Vec<T>>(
        &self,
        tree: &FlatTree,
        table: &FlopChanceTable<T>,
        showdown: &F,
        variants: &Vec<(usize, T)>,
        num_iterations: u32,
        two_sided: &Self,
        plain: &Self,
    )
        requires
            has_whole_shares::<T>(),
            self.wf(tree),
            self.river_mode.in_memory(),
            variants@.len() == 1,
            exists|s: Self, boundary: Vec<usize>, regret: Seq<T>|
                is_boundary_map(tree, self.turn_chance_children@, boundary@)
                    && #[trigger] self.with_frozen(true).choice_iterated(
                    tree,
                    table,
                    showdown,
                    &self.choice_dims(1),
                    variants,
                    &boundary,
                    regret,
                    &s,
                    num_iterations as nat,
                ) && *two_sided == s.with_frozen(self.continuation_frozen),
            exists|s: Self, sums: Seq<Seq<T>>| #[trigger]
                self.with_frozen(true).iterated(
                    tree,
                    table,
                    showdown,
                    &Play::Average,
                    sums,
                    &s,
                    num_iterations as nat,
                ) && *plain == s.with_frozen(self.continuation_frozen),
        ensures
            two_sided.like(plain),
    {
        let n = num_iterations as nat;
        let start = self.with_frozen(true);
        let (s, boundary, regret) = choose|s: Self, boundary: Vec<usize>, regret: Seq<T>|
            is_boundary_map(tree, self.turn_chance_children@, boundary@)
                && #[trigger] start.choice_iterated(
                tree,
                table,
                showdown,
                &self.choice_dims(1),
                variants,
                &boundary,
                regret,
                &s,
                n,
            ) && *two_sided == s.with_frozen(self.continuation_frozen);
        let (t, tums) = choose|t: Self, tums: Seq<Seq<T>>| #[trigger]
            start.iterated(tree, table, showdown, &Play::Average, tums, &t, n) && *plain
                == t.with_frozen(self.continuation_frozen);
        let sums = start.law_single_choice_is_the_average(
            tree,
            table,
            showdown,
            variants,
            &boundary,
            regret,
            &s,
            n,
        );
        start.law_run_is_determined(
            &start,
            tree,
            table,
            showdown,
            &Play::Average,
            sums,
            &s,
            tums,
            &t,
            n,
        );
    }
}

} // verus!
