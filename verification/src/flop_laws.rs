//! What a search of the flop leaves alone.
use vstd::prelude::*;

use crate::flop_run::{plus_rows, setting, Play};
use crate::flop_search::{mixed_leans, robust_leans, ChoiceDims};
use crate::flop_start_game::FlopChanceTable;
use crate::flop_start_vector_cfr::{FlopStartVectorCfr, Setting};
use crate::layout::flat;
use crate::learn::DcfrParams;
use crate::scalar::Widen;
use crate::terminal::TerminalSpot;
use crate::tree::FlatTree;
use crate::variants::Lean;
use crate::zones::Zone;

verus! {

impl<T: Widen> FlopStartVectorCfr<T> {
    /// `s` has learned nothing about turn and river that this solver does not know.
    pub open spec fn keeps_continuation(&self, s: &Self) -> bool {
        &&& s.turn.regrets@ == self.turn.regrets@
        &&& s.turn.cum@ == self.turn.cum@
        &&& s.river.regrets@ == self.river.regrets@
        &&& s.river.cum@ == self.river.cum@
        &&& s.continuation_frozen == self.continuation_frozen
    }

    proof fn lemma_rivers_keep<F: Fn(&TerminalSpot<T>) -> Vec<T>>(
        &self,
        at_: &Setting<T, F>,
        play: &Play<T>,
        tc: int,
        turn_reach: Seq<T>,
        acc0: Seq<T>,
        acc: Seq<T>,
        s: &Self,
        n: nat,
    )
        requires
            self.continuation_frozen,
            self.rivers_done(at_, play, tc, turn_reach, acc0, acc, s, n),
        ensures
            self.keeps_continuation(s),
        decreases n,
    {
        if n > 0 {
            let (sm, mid) = choose|sm: Self, mid: Seq<T>|
                self.rivers_done(at_, play, tc, turn_reach, acc0, mid, &sm, (n - 1) as nat)
                    && #[trigger] sm.river_step(at_, play, tc, n - 1, turn_reach, mid, acc, s);
            self.lemma_rivers_keep(at_, play, tc, turn_reach, acc0, mid, &sm, (n - 1) as nat);
            let (sp, reach, was, cfv) = choose|sp: Self, reach: Seq<T>, was: Seq<T>, cfv: Seq<T>|
                {
                    &&& sm.prepared(at_.tree, play, Zone::River, tc, n - 1, &sp)
                    &&& sp.is_river_reach(at_.tree, turn_reach, reach)
                    &&& #[trigger] sp.passed(at_, Zone::River, tc, n - 1, reach, was, cfv, s)
                };
            assert(sm.keeps_continuation(&sp));
        }
    }

    proof fn lemma_turns_keep<F: Fn(&TerminalSpot<T>) -> Vec<T>>(
        &self,
        at_: &Setting<T, F>,
        play: &Play<T>,
        flop_reach: Seq<T>,
        acc0: Seq<T>,
        acc: Seq<T>,
        s: &Self,
        n: nat,
    )
        requires
            self.continuation_frozen,
            self.turns_done(at_, play, flop_reach, acc0, acc, s, n),
        ensures
            self.keeps_continuation(s),
        decreases n,
    {
        if n > 0 {
            let (sm, mid) = choose|sm: Self, mid: Seq<T>|
                self.turns_done(at_, play, flop_reach, acc0, mid, &sm, (n - 1) as nat)
                    && #[trigger] sm.turn_step(at_, play, n - 1, flop_reach, mid, acc, s);
            self.lemma_turns_keep(at_, play, flop_reach, acc0, mid, &sm, (n - 1) as nat);
            let (sp, reach, r0, rivers, sr) = choose|
                sp: Self,
                reach: Seq<T>,
                r0: Seq<T>,
                rivers: Seq<T>,
                sr: Self,
            |
                {
                    &&& sm.turn_begun(at_.tree, play, n - 1, flop_reach, reach, &sp)
                    &&& #[trigger] sp.rivers_done(
                        at_,
                        play,
                        n - 1,
                        reach,
                        r0,
                        rivers,
                        &sr,
                        sm.river_counts@[n - 1] as nat,
                    )
                    &&& sr.turn_ended(at_, n - 1, reach, rivers, mid, acc, s)
                };
            assert(sm.keeps_continuation(&sp));
            sp.lemma_rivers_keep(
                at_,
                play,
                n - 1,
                reach,
                r0,
                rivers,
                &sr,
                sm.river_counts@[n - 1] as nat,
            );
        }
    }

    proof fn lemma_round_keeps<F: Fn(&TerminalSpot<T>) -> Vec<T>>(
        &self,
        tree: &FlatTree,
        table: &FlopChanceTable<T>,
        showdown: &F,
        params: DcfrParams<T>,
        play: &Play<T>,
        roots: Seq<Seq<T>>,
        s: &Self,
        n: nat,
    )
        requires
            self.continuation_frozen,
            self.round_done(tree, table, showdown, params, play, roots, s, n),
        ensures
            self.keeps_continuation(s),
        decreases n,
    {
        if n > 0 {
            let (sm, prev, root) = choose|sm: Self, prev: Seq<Seq<T>>, root: Seq<T>|
                {
                    &&& self.round_done(
                        tree,
                        table,
                        showdown,
                        params,
                        play,
                        prev,
                        &sm,
                        (n - 1) as nat,
                    )
                    &&& roots == #[trigger] prev.push(root)
                    &&& #[trigger] sm.traversed(
                        &setting(tree, table, showdown, (n - 1) as u8, params),
                        play,
                        root,
                        s,
                    )
                };
            self.lemma_round_keeps(
                tree,
                table,
                showdown,
                params,
                play,
                prev,
                &sm,
                (n - 1) as nat,
            );
            let at_ = setting(tree, table, showdown, (n - 1) as u8, params);
            let zeros = flat(T::s_zero(), at_.tree.size() * sm.nh);
            let (sp, reach, turns, sc) = choose|sp: Self, reach: Seq<T>, turns: Seq<T>, sc: Self|
                {
                    &&& sm.flop_begun(at_.tree, at_.table, reach, &sp)
                    &&& #[trigger] sp.turns_done(
                        &at_,
                        play,
                        reach,
                        zeros,
                        turns,
                        &sc,
                        sm.n_turn as nat,
                    )
                    &&& sc.flop_ended(&at_, reach, turns, root, s)
                };
            assert(sm.keeps_continuation(&sp));
            sp.lemma_turns_keep(&at_, play, reach, zeros, turns, &sc, sm.n_turn as nat);
        }
    }

    /// With turn and river frozen, iterations learn about the flop alone: the regrets
    /// and the averages of turn and river stay as they are.
    pub proof fn law_search_keeps_the_continuation<F: Fn(&TerminalSpot<T>) -> Vec<T>>(
        &self,
        tree: &FlatTree,
        table: &FlopChanceTable<T>,
        showdown: &F,
        play: &Play<T>,
        sums: Seq<Seq<T>>,
        s: &Self,
        n: nat,
    )
        requires
            self.continuation_frozen,
            self.iterated(tree, table, showdown, play, sums, s, n),
        ensures
            self.keeps_continuation(s),
        decreases n,
    {
        if n > 0 {
            let (sm, prev, p, roots) = choose|
                sm: Self,
                prev: Seq<Seq<T>>,
                p: DcfrParams<T>,
                roots: Seq<Seq<T>>,
            |
                {
                    &&& self.iterated(
                        tree,
                        table,
                        showdown,
                        play,
                        prev,
                        &sm,
                        (n - 1) as nat,
                    )
                    &&& sm.is_due(p)
                    &&& #[trigger] sm.counted().round_done(
                        tree,
                        table,
                        showdown,
                        p,
                        play,
                        roots,
                        s,
                        tree.np() as nat,
                    )
                    &&& sums == #[trigger] plus_rows(prev, roots)
                };
            self.law_search_keeps_the_continuation(
                tree,
                table,
                showdown,
                play,
                prev,
                &sm,
                (n - 1) as nat,
            );
            sm.counted().lemma_round_keeps(
                tree,
                table,
                showdown,
                p,
                play,
                roots,
                s,
                tree.np() as nat,
            );
        }
    }

    proof fn lemma_variants_keep<F: Fn(&TerminalSpot<T>) -> Vec<T>>(
        &self,
        at_: &Setting<T, F>,
        leans: Seq<Lean<T>>,
        reach: Seq<T>,
        worths: Seq<Seq<T>>,
        s: &Self,
        n: nat,
    )
        requires
            self.continuation_frozen,
            self.variants_done(at_, leans, reach, worths, s, n),
        ensures
            self.keeps_continuation(s),
        decreases n,
    {
        if n > 0 {
            let zeros = flat(T::s_zero(), at_.tree.size() * self.nh);
            let (sm, prev, acc) = choose|sm: Self, prev: Seq<Seq<T>>, acc: Seq<T>|
                {
                    &&& self.variants_done(at_, leans, reach, prev, &sm, (n - 1) as nat)
                    &&& worths == #[trigger] prev.push(acc)
                    &&& #[trigger] sm.turns_done(
                        at_,
                        &Play::Leaning(&leans[n - 1]),
                        reach,
                        zeros,
                        acc,
                        s,
                        self.n_turn as nat,
                    )
                };
            self.lemma_variants_keep(at_, leans, reach, prev, &sm, (n - 1) as nat);
            sm.lemma_turns_keep(
                at_,
                &Play::Leaning(&leans[n - 1]),
                reach,
                zeros,
                acc,
                s,
                self.n_turn as nat,
            );
        }
    }

    proof fn lemma_robust_traverse_keeps<F: Fn(&TerminalSpot<T>) -> Vec<T>>(
        &self,
        at_: &Setting<T, F>,
        eps: T,
        s: &Self,
    )
        requires
            self.continuation_frozen,
            self.robust_traversed(at_, eps, s),
        ensures
            self.keeps_continuation(s),
    {
        let leans = robust_leans(at_.traverser, eps);
        let (sp, reach, worths, sc, turns, root) = choose|
            sp: Self,
            reach: Seq<T>,
            worths: Seq<Seq<T>>,
            sc: Self,
            turns: Seq<T>,
            root: Seq<T>,
        |
            {
                &&& self.flop_begun(at_.tree, at_.table, reach, &sp)
                &&& #[trigger] sp.variants_done(at_, leans, reach, worths, &sc, 3)
                &&& #[trigger] sc.flop_ended(at_, reach, turns, root, s)
            };
        assert(self.keeps_continuation(&sp));
        sp.lemma_variants_keep(at_, leans, reach, worths, &sc, 3);
    }

    proof fn lemma_robust_round_keeps<F: Fn(&TerminalSpot<T>) -> Vec<T>>(
        &self,
        tree: &FlatTree,
        table: &FlopChanceTable<T>,
        showdown: &F,
        params: DcfrParams<T>,
        eps: T,
        s: &Self,
        n: nat,
    )
        requires
            self.continuation_frozen,
            self.robust_round(tree, table, showdown, params, eps, s, n),
        ensures
            self.keeps_continuation(s),
        decreases n,
    {
        if n > 0 {
            let at_ = setting(tree, table, showdown, (n - 1) as u8, params);
            let sm = choose|sm: Self|
                self.robust_round(tree, table, showdown, params, eps, &sm, (n - 1) as nat)
                    && #[trigger] sm.robust_traversed(&at_, eps, s);
            self.lemma_robust_round_keeps(
                tree,
                table,
                showdown,
                params,
                eps,
                &sm,
                (n - 1) as nat,
            );
            sm.lemma_robust_traverse_keeps(&at_, eps, s);
        }
    }

    /// The robust search, too, learns about the flop alone.
    pub proof fn law_robust_search_keeps_the_continuation<F: Fn(&TerminalSpot<T>) -> Vec<T>>(
        &self,
        tree: &FlatTree,
        table: &FlopChanceTable<T>,
        showdown: &F,
        eps: T,
        s: &Self,
        n: nat,
    )
        requires
            self.continuation_frozen,
            self.robust_iterated(tree, table, showdown, eps, s, n),
        ensures
            self.keeps_continuation(s),
        decreases n,
    {
        if n > 0 {
            let (sm, p) = choose|sm: Self, p: DcfrParams<T>|
                {
                    &&& self.robust_iterated(
                        tree,
                        table,
                        showdown,
                        eps,
                        &sm,
                        (n - 1) as nat,
                    )
                    &&& sm.is_due(p)
                    &&& #[trigger] sm.counted().robust_round(
                        tree,
                        table,
                        showdown,
                        p,
                        eps,
                        s,
                        tree.np() as nat,
                    )
                };
            self.law_robust_search_keeps_the_continuation(
                tree,
                table,
                showdown,
                eps,
                &sm,
                (n - 1) as nat,
            );
            sm.counted().lemma_robust_round_keeps(
                tree,
                table,
                showdown,
                p,
                eps,
                s,
                tree.np() as nat,
            );
        }
    }

    proof fn lemma_choice_traverse_keeps<F: Fn(&TerminalSpot<T>) -> Vec<T>>(
        &self,
        at_: &Setting<T, F>,
        d: &ChoiceDims,
        variants: &Vec<(usize, T)>,
        boundary: &Vec<usize>,
        strat: &Vec<T>,
        was: Seq<T>,
        regret: Seq<T>,
        s: &Self,
    )
        requires
            self.continuation_frozen,
            self.choice_traversed(at_, d, variants, boundary, strat, was, regret, s),
        ensures
            self.keeps_continuation(s),
    {
        let leans = mixed_leans(at_.traverser as usize, variants, strat, boundary);
        let k = variants@.len();
        let (sp, reach, worths, sc, turns, root) = choose|
            sp: Self,
            reach: Seq<T>,
            worths: Seq<Seq<T>>,
            sc: Self,
            turns: Seq<T>,
            root: Seq<T>,
        |
            {
                &&& self.flop_begun(at_.tree, at_.table, reach, &sp)
                &&& #[trigger] sp.variants_done(at_, leans, reach, worths, &sc, k)
                &&& #[trigger] sc.flop_ended(at_, reach, turns, root, s)
            };
        assert(self.keeps_continuation(&sp));
        sp.lemma_variants_keep(at_, leans, reach, worths, &sc, k);
    }

    proof fn lemma_choice_round_keeps<F: Fn(&TerminalSpot<T>) -> Vec<T>>(
        &self,
        tree: &FlatTree,
        table: &FlopChanceTable<T>,
        showdown: &F,
        params: DcfrParams<T>,
        d: &ChoiceDims,
        variants: &Vec<(usize, T)>,
        boundary: &Vec<usize>,
        strat: &Vec<T>,
        was: Seq<T>,
        regret: Seq<T>,
        s: &Self,
        n: nat,
    )
        requires
            self.continuation_frozen,
            self.choice_round(
                tree,
                table,
                showdown,
                params,
                d,
                variants,
                boundary,
                strat,
                was,
                regret,
                s,
                n,
            ),
        ensures
            self.keeps_continuation(s),
        decreases n,
    {
        if n > 0 {
            let at_ = setting(tree, table, showdown, (n - 1) as u8, params);
            let (sm, mid) = choose|sm: Self, mid: Seq<T>|
                self.choice_round(
                    tree,
                    table,
                    showdown,
                    params,
                    d,
                    variants,
                    boundary,
                    strat,
                    was,
                    mid,
                    &sm,
                    (n - 1) as nat,
                ) && #[trigger] sm.choice_traversed(
                    &at_,
                    d,
                    variants,
                    boundary,
                    strat,
                    mid,
                    regret,
                    s,
                );
            self.lemma_choice_round_keeps(
                tree,
                table,
                showdown,
                params,
                d,
                variants,
                boundary,
                strat,
                was,
                mid,
                &sm,
                (n - 1) as nat,
            );
            sm.lemma_choice_traverse_keeps(&at_, d, variants, boundary, strat, mid, regret, s);
        }
    }

    /// The two-sided search, too, learns about the flop alone.
    pub proof fn law_two_sided_search_keeps_the_continuation<F: Fn(&TerminalSpot<T>) -> Vec<T>>(
        &self,
        tree: &FlatTree,
        table: &FlopChanceTable<T>,
        showdown: &F,
        d: &ChoiceDims,
        variants: &Vec<(usize, T)>,
        boundary: &Vec<usize>,
        regret: Seq<T>,
        s: &Self,
        n: nat,
    )
        requires
            self.continuation_frozen,
            self.choice_iterated(
                tree,
                table,
                showdown,
                d,
                variants,
                boundary,
                regret,
                s,
                n,
            ),
        ensures
            self.keeps_continuation(s),
        decreases n,
    {
        if n > 0 {
            let (sm, was, p, strat) = choose|
                sm: Self,
                was: Seq<T>,
                p: DcfrParams<T>,
                strat: Vec<T>,
            |
                {
                    &&& self.choice_iterated(
                        tree,
                        table,
                        showdown,
                        d,
                        variants,
                        boundary,
                        was,
                        &sm,
                        (n - 1) as nat,
                    )
                    &&& sm.is_due(p)
                    &&& #[trigger] sm.counted().choice_round(
                        tree,
                        table,
                        showdown,
                        p,
                        d,
                        variants,
                        boundary,
                        &strat,
                        was,
                        regret,
                        s,
                        tree.np() as nat,
                    )
                };
            self.law_two_sided_search_keeps_the_continuation(
                tree,
                table,
                showdown,
                d,
                variants,
                boundary,
                was,
                &sm,
                (n - 1) as nat,
            );
            sm.counted().lemma_choice_round_keeps(
                tree,
                table,
                showdown,
                p,
                d,
                variants,
                boundary,
                &strat,
                was,
                regret,
                s,
                tree.np() as nat,
            );
        }
    }
}

} // verus!
