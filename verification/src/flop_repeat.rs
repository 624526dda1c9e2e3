//! A run is determined by where it starts.
use vstd::prelude::*;

use crate::bank::{room, ZoneBank};
use crate::flop_pairs::{
    lemma_learner_row, lemma_river_is_closed, lemma_river_marks, lemma_same_learned,
    lemma_same_reach, lemma_same_strategy, lemma_same_value, same_beyond,
};
use crate::flop_run::{agree_at, plus_rows, river_chances, setting, turn_chances, Play};
use crate::flop_start_game::FlopChanceTable;
use crate::flop_start_vector_cfr::{dealt_in, from_marks, from_root, FlopStartVectorCfr, Setting};
use crate::layout::{at, flat, lemma_rows_ext, row};
use crate::learn::DcfrParams;
use crate::rows::{over_count, rows_set, same_row, sum_row};
use crate::scalar::{s_match_eps, Widen};
use crate::terminal::TerminalSpot;
use crate::tree::FlatTree;
use crate::zones::Zone;

verus! {

/// The two banks hold the same numbers.
pub open spec fn same_numbers<T>(a: &ZoneBank<T>, b: &ZoneBank<T>) -> bool {
    &&& a.infosets == b.infosets
    &&& a.width == b.width
    &&& a.outcomes == b.outcomes
    &&& a.regrets@ == b.regrets@
    &&& a.cum@ == b.cum@
    &&& a.strategy@ == b.strategy@
}

/// The strategies of these plays come from the solver's own numbers.
pub open spec fn plays_own<T>(play: &Play<T>) -> bool {
    *play is Regrets || *play is Average
}

impl<T: Widen> FlopStartVectorCfr<T> {
    /// The two solvers hold the same numbers.
    pub open spec fn like(&self, b: &Self) -> bool {
        &&& self.same_frame(b)
        &&& same_numbers(&self.flop, &b.flop)
        &&& same_numbers(&self.turn, &b.turn)
        &&& same_numbers(&self.river, &b.river)
    }

    /// Like solvers set up like strategies.
    proof fn lemma_matched_alike(
        &self,
        b: &Self,
        tree: &FlatTree,
        zone: Zone,
        tc: int,
        rc: int,
        from_regrets: bool,
        s: &Self,
        t: &Self,
    )
        requires
            self.wf(tree),
            b.wf(tree),
            self.like(b),
            zone != Zone::Preflop,
            self.matched(tree, zone, tc, rc, from_regrets, s),
            b.matched(tree, zone, tc, rc, from_regrets, t),
        ensures
            s.like(t),
            s.wf(tree),
            t.wf(tree),
    {
        let src = if from_regrets {
            self.bank(zone).regrets@
        } else {
            self.bank(zone).cum@
        };
        let threshold = if from_regrets {
            s_match_eps::<T>()
        } else {
            T::s_zero()
        };
        lemma_same_strategy(
            tree,
            self.zones@,
            zone,
            &self.book(zone),
            self.nh as int,
            self.outcome(zone, tc, rc),
            self.outcome(zone, tc, rc),
            src,
            src,
            threshold,
            self.bank(zone).strategy@,
            s.bank(zone).strategy@,
            t.bank(zone).strategy@,
        );
    }

    /// Like solvers set up like strategies, whichever of their own numbers they play.
    proof fn lemma_prepared_alike(
        &self,
        b: &Self,
        tree: &FlatTree,
        play: &Play<T>,
        zone: Zone,
        tc: int,
        rc: int,
        s: &Self,
        t: &Self,
    )
        requires
            self.wf(tree),
            b.wf(tree),
            self.like(b),
            plays_own(play),
            zone != Zone::Preflop,
            self.prepared(tree, play, zone, tc, rc, s),
            b.prepared(tree, play, zone, tc, rc, t),
        ensures
            s.like(t),
            s.wf(tree),
            t.wf(tree),
    {
        self.lemma_matched_alike(b, tree, zone, tc, rc, *play is Regrets, s, t);
    }

    /// Like solvers learn alike from like values, in every outcome.
    proof fn lemma_learned_alike<F: Fn(&TerminalSpot<T>) -> Vec<T>>(
        &self,
        b: &Self,
        at_: &Setting<T, F>,
        zone: Zone,
        tc: int,
        rc: int,
        reach: Seq<T>,
        wx: Seq<T>,
        x: Seq<T>,
        s: &Self,
        wy: Seq<T>,
        y: Seq<T>,
        t: &Self,
    )
        requires
            self.wf(at_.tree),
            b.wf(at_.tree),
            self.like(b),
            zone != Zone::Preflop,
            self.holds_outcome(zone, tc, rc),
            !self.is_frozen(zone),
            x.len() == at_.tree.size() * self.nh,
            y.len() == at_.tree.size() * self.nh,
            self.passed(at_, zone, tc, rc, reach, wx, x, s),
            b.passed(at_, zone, tc, rc, reach, wy, y, t),
            same_beyond(at_.tree, self.zones@, zone, self.nh as int, x, y),
            forall|i: int|
                at_.tree.is_node(i) && self.zones@[i] == zone ==> #[trigger] row(
                    x,
                    self.nh as int,
                    i,
                ) == row(y, self.nh as int, i),
        ensures
            same_numbers(&s.bank(zone), &t.bank(zone)),
    {
        let tree = at_.tree;
        let zones = self.zones@;
        let nh = self.nh as int;
        let book = self.book(zone);
        let o = self.outcome(zone, tc, rc);
        let m = book.infoset_count as int;
        let was = self.bank(zone);
        let was_b = b.bank(zone);
        let sb = s.bank(zone);
        let tb = t.bank(zone);
        let n = was.outcomes as int;
        self.lemma_outcome(tree, zone, tc, rc);
        lemma_same_learned(
            tree,
            zones,
            zone,
            &book,
            &self.lens,
            nh,
            at_.traverser,
            &at_.params,
            x,
            y,
            o,
            o,
            &was,
            &was_b,
            &sb,
            &tb,
        );
        assert forall|r: int| 0 <= r < n * m implies #[trigger] row(sb.regrets@, room(nh), r)
            == row(tb.regrets@, room(nh), r) && row(sb.cum@, room(nh), r) == row(
            tb.cum@,
            room(nh),
            r,
        ) by {
            let e = r / m;
            let g = r % m;
            assert(0 <= e < n && 0 <= g < m && r == e * m + g) by (nonlinear_arith)
                requires
                    0 <= r < n * m,
                    0 <= m,
                    e == r / m,
                    g == r % m,
            ;
            assert(r == at(m, e, g));
            lemma_learner_row(tree, zones, zone, &book, at_.traverser, o, e, g);
            if e != o {
                assert(row(sb.regrets@, room(nh), r) == row(was.regrets@, room(nh), r));
                assert(row(tb.regrets@, room(nh), r) == row(was_b.regrets@, room(nh), r));
                assert(row(sb.cum@, room(nh), r) == row(was.cum@, room(nh), r));
                assert(row(tb.cum@, room(nh), r) == row(was_b.cum@, room(nh), r));
            } else {
                assert(row(sb.regrets@, room(nh), at(m, o, g)) == row(
                    tb.regrets@,
                    room(nh),
                    at(m, o, g),
                ));
                assert(row(sb.cum@, room(nh), at(m, o, g)) == row(
                    tb.cum@,
                    room(nh),
                    at(m, o, g),
                ));
            }
        }
        assert forall|r: int| 0 <= r < n * m implies #[trigger] row(sb.cum@, room(nh), r) == row(
            tb.cum@,
            room(nh),
            r,
        ) by {
            assert(row(sb.regrets@, room(nh), r) == row(tb.regrets@, room(nh), r));
        }
        lemma_rows_ext(sb.regrets@, tb.regrets@, room(nh), n * m);
        lemma_rows_ext(sb.cum@, tb.cum@, room(nh), n * m);
    }

    /// Like solvers find like values and learn alike, given what lies below the zone.
    proof fn lemma_passed_alike<F: Fn(&TerminalSpot<T>) -> Vec<T>>(
        &self,
        b: &Self,
        at_: &Setting<T, F>,
        zone: Zone,
        tc: int,
        rc: int,
        reach: Seq<T>,
        wx: Seq<T>,
        x: Seq<T>,
        s: &Self,
        wy: Seq<T>,
        y: Seq<T>,
        t: &Self,
    )
        requires
            self.wf(at_.tree),
            b.wf(at_.tree),
            self.like(b),
            zone != Zone::Preflop,
            self.holds_outcome(zone, tc, rc),
            wx.len() == at_.tree.size() * self.nh,
            wy.len() == at_.tree.size() * self.nh,
            zone == Zone::River || wx == wy,
            self.passed(at_, zone, tc, rc, reach, wx, x, s),
            b.passed(at_, zone, tc, rc, reach, wy, y, t),
        ensures
            s.like(t),
            s.wf(at_.tree),
            t.wf(at_.tree),
            forall|i: int|
                at_.tree.is_node(i) && self.zones@[i] == zone ==> #[trigger] row(
                    x,
                    self.nh as int,
                    i,
                ) == row(y, self.nh as int, i),
            wx == wy ==> x == y,
    {
        let tree = at_.tree;
        let zones = self.zones@;
        let nh = self.nh as int;
        lemma_river_is_closed(tree);
        assert forall|i: int, a: int| #[trigger]
            tree.is_edge(i, a) && zones[i] == zone && zones[tree.child(i, a)] != zone implies row(
            x,
            nh,
            tree.child(i, a),
        ) == row(y, nh, tree.child(i, a)) by {
            assert(tree.edge_ok(i, a));
            let c = tree.child(i, a);
            assert(row(x, nh, c) == row(wx, nh, c));
            assert(row(y, nh, c) == row(wy, nh, c));
        }
        let tv = at_.terminal_row(dealt_in(at_.table, zone, tc, rc), reach);
        assert forall|i: int| tree.is_node(i) && zones[i] == zone implies #[trigger] row(x, nh, i)
            == row(y, nh, i) by {
            lemma_same_value(
                tree,
                zones,
                zone,
                &self.book(zone),
                &self.lens,
                self.bank(zone).strategy@,
                nh,
                at_.traverser,
                tv,
                wx,
                x,
                wy,
                y,
                i,
            );
        }
        if wx == wy {
            assert forall|i: int| 0 <= i < tree.size() implies #[trigger] row(x, nh, i) == row(
                y,
                nh,
                i,
            ) by {
                if zones[i] != zone {
                    assert(row(x, nh, i) == row(wx, nh, i));
                    assert(row(y, nh, i) == row(wy, nh, i));
                }
            }
            lemma_rows_ext(x, y, nh, tree.size());
        }
        if !self.is_frozen(zone) {
            self.lemma_learned_alike(b, at_, zone, tc, rc, reach, wx, x, s, wy, y, t);
        }
    }

    /// Like solvers play a river card alike.
    proof fn lemma_river_alike<F: Fn(&TerminalSpot<T>) -> Vec<T>>(
        &self,
        b: &Self,
        at_: &Setting<T, F>,
        play: &Play<T>,
        tc: int,
        rc: int,
        turn_reach: Seq<T>,
        acc0: Seq<T>,
        acc: Seq<T>,
        s: &Self,
        bcc0: Seq<T>,
        bcc: Seq<T>,
        t: &Self,
    )
        requires
            self.wf(at_.tree),
            b.wf(at_.tree),
            self.like(b),
            plays_own(play),
            self.holds_outcome(Zone::River, tc, rc),
            agree_at(acc0, bcc0, self.nh as int, at_.tree.size(), self.river_chance_children@),
            self.river_step(at_, play, tc, rc, turn_reach, acc0, acc, s),
            b.river_step(at_, play, tc, rc, turn_reach, bcc0, bcc, t),
        ensures
            s.like(t),
            s.wf(at_.tree),
            t.wf(at_.tree),
            self.same_frame(s),
            agree_at(acc, bcc, self.nh as int, at_.tree.size(), self.river_chance_children@),
    {
        let tree = at_.tree;
        let nh = self.nh as int;
        let chances = river_chances(at_.table, at_.table.remaining_deck@[tc] as int, rc);
        let (a1, ra, wa, x) = choose|a1: Self, ra: Seq<T>, wa: Seq<T>, x: Seq<T>|
            {
                &&& self.prepared(tree, play, Zone::River, tc, rc, &a1)
                &&& a1.is_river_reach(tree, turn_reach, ra)
                &&& wa.len() == tree.size() * self.nh
                &&& #[trigger] a1.passed(at_, Zone::River, tc, rc, ra, wa, x, s)
                &&& rows_set(
                    acc0,
                    acc,
                    nh,
                    tree.size(),
                    self.river_chance_children@,
                    sum_row(acc0, chances, x, nh),
                )
            };
        let (b1, rb, wb, y) = choose|b1: Self, rb: Seq<T>, wb: Seq<T>, y: Seq<T>|
            {
                &&& b.prepared(tree, play, Zone::River, tc, rc, &b1)
                &&& b1.is_river_reach(tree, turn_reach, rb)
                &&& wb.len() == tree.size() * b.nh
                &&& #[trigger] b1.passed(at_, Zone::River, tc, rc, rb, wb, y, t)
                &&& rows_set(
                    bcc0,
                    bcc,
                    nh,
                    tree.size(),
                    b.river_chance_children@,
                    sum_row(bcc0, chances, y, nh),
                )
            };
        self.lemma_prepared_alike(b, tree, play, Zone::River, tc, rc, &a1, &b1);
        lemma_same_reach(
            tree,
            self.zones@,
            Zone::River,
            false,
            &self.river_book,
            &self.lens,
            a1.river.strategy@,
            nh,
            from_marks(self.river_chance_children@, turn_reach, tree.np() * nh),
            ra,
            rb,
        );
        a1.lemma_passed_alike(&b1, at_, Zone::River, tc, rc, ra, wa, x, s, wb, y, t);
        assert forall|i: int|
            0 <= i < tree.size() && self.river_chance_children@.contains(
                i as u32,
            ) implies #[trigger] row(acc, nh, i) == row(bcc, nh, i) by {
            lemma_river_marks(tree, self.river_chance_children@, i);
            assert(row(x, nh, i) == row(y, nh, i));
            assert(row(acc0, nh, i) == row(bcc0, nh, i));
        }
    }

    /// Like solvers play the rivers of a turn card alike.
    proof fn lemma_rivers_alike<F: Fn(&TerminalSpot<T>) -> Vec<T>>(
        &self,
        b: &Self,
        at_: &Setting<T, F>,
        play: &Play<T>,
        tc: int,
        turn_reach: Seq<T>,
        acc0: Seq<T>,
        acc: Seq<T>,
        s: &Self,
        bcc0: Seq<T>,
        bcc: Seq<T>,
        t: &Self,
        n: nat,
    )
        requires
            self.wf(at_.tree),
            b.wf(at_.tree),
            self.like(b),
            plays_own(play),
            self.river_mode.in_memory(),
            0 <= tc < self.n_turn,
            n <= self.river_counts@[tc],
            self.rivers_done(at_, play, tc, turn_reach, acc0, acc, s, n),
            b.rivers_done(at_, play, tc, turn_reach, bcc0, bcc, t, n),
        ensures
            s.like(t),
            s.wf(at_.tree),
            t.wf(at_.tree),
            self.same_frame(s),
            agree_at(acc, bcc, self.nh as int, at_.tree.size(), self.river_chance_children@),
        decreases n,
    {
        if n > 0 {
            let (sm, mid) = choose|sm: Self, mid: Seq<T>|
                self.rivers_done(at_, play, tc, turn_reach, acc0, mid, &sm, (n - 1) as nat)
                    && #[trigger] sm.river_step(at_, play, tc, n - 1, turn_reach, mid, acc, s);
            let (tm, nid) = choose|tm: Self, nid: Seq<T>|
                b.rivers_done(at_, play, tc, turn_reach, bcc0, nid, &tm, (n - 1) as nat)
                    && #[trigger] tm.river_step(at_, play, tc, n - 1, turn_reach, nid, bcc, t);
            self.lemma_rivers_alike(
                b,
                at_,
                play,
                tc,
                turn_reach,
                acc0,
                mid,
                &sm,
                bcc0,
                nid,
                &tm,
                (n - 1) as nat,
            );
            sm.lemma_river_alike(
                &tm,
                at_,
                play,
                tc,
                n - 1,
                turn_reach,
                mid,
                acc,
                s,
                nid,
                bcc,
                t,
            );
        }
    }

    /// Like solvers play a turn card alike.
    proof fn lemma_turn_alike<F: Fn(&TerminalSpot<T>) -> Vec<T>>(
        &self,
        b: &Self,
        at_: &Setting<T, F>,
        play: &Play<T>,
        tc: int,
        flop_reach: Seq<T>,
        acc0: Seq<T>,
        acc: Seq<T>,
        s: &Self,
        bcc: Seq<T>,
        t: &Self,
    )
        requires
            self.wf(at_.tree),
            b.wf(at_.tree),
            self.like(b),
            plays_own(play),
            self.river_mode.in_memory(),
            0 <= tc < self.n_turn,
            acc0.len() == at_.tree.size() * self.nh,
            self.turn_step(at_, play, tc, flop_reach, acc0, acc, s),
            b.turn_step(at_, play, tc, flop_reach, acc0, bcc, t),
        ensures
            s.like(t),
            s.wf(at_.tree),
            t.wf(at_.tree),
            self.same_frame(s),
            acc == bcc,
            acc.len() == acc0.len(),
    {
        let tree = at_.tree;
        let nh = self.nh as int;
        let k = self.river_counts@[tc] as nat;
        let (a1, ra, r0, rivers, a2) = choose|
            a1: Self,
            ra: Seq<T>,
            r0: Seq<T>,
            rivers: Seq<T>,
            a2: Self,
        |
            {
                &&& self.turn_begun(tree, play, tc, flop_reach, ra, &a1)
                &&& #[trigger] a1.rivers_done(at_, play, tc, ra, r0, rivers, &a2, k)
                &&& a2.turn_ended(at_, tc, ra, rivers, acc0, acc, s)
            };
        let (b1, rb, q0, sivers, b2) = choose|
            b1: Self,
            rb: Seq<T>,
            q0: Seq<T>,
            sivers: Seq<T>,
            b2: Self,
        |
            {
                &&& b.turn_begun(tree, play, tc, flop_reach, rb, &b1)
                &&& #[trigger] b1.rivers_done(at_, play, tc, rb, q0, sivers, &b2, k)
                &&& b2.turn_ended(at_, tc, rb, sivers, acc0, bcc, t)
            };
        self.lemma_prepared_alike(b, tree, play, Zone::Turn, tc, 0, &a1, &b1);
        lemma_same_reach(
            tree,
            self.zones@,
            Zone::Turn,
            true,
            &self.turn_book,
            &self.lens,
            a1.turn.strategy@,
            nh,
            from_marks(self.turn_chance_children@, flop_reach, tree.np() * nh),
            ra,
            rb,
        );
        a1.lemma_rivers_alike(&b1, at_, play, tc, ra, r0, rivers, &a2, q0, sivers, &b2, k);
        let zeros = flat(T::s_zero(), tree.size() * self.nh);
        let chances = turn_chances(at_.table, tc);
        let (wa, x) = choose|wa: Seq<T>, x: Seq<T>|
            {
                &&& wa.len() == tree.size() * a2.nh
                &&& rows_set(
                    zeros,
                    wa,
                    nh,
                    tree.size(),
                    a2.river_chance_children@,
                    same_row(rivers, nh),
                )
                &&& #[trigger] a2.passed(at_, Zone::Turn, tc, 0, ra, wa, x, s)
                &&& rows_set(
                    acc0,
                    acc,
                    nh,
                    tree.size(),
                    a2.turn_chance_children@,
                    sum_row(acc0, chances, x, nh),
                )
            };
        let (wb, y) = choose|wb: Seq<T>, y: Seq<T>|
            {
                &&& wb.len() == tree.size() * b2.nh
                &&& rows_set(
                    zeros,
                    wb,
                    nh,
                    tree.size(),
                    b2.river_chance_children@,
                    same_row(sivers, nh),
                )
                &&& #[trigger] b2.passed(at_, Zone::Turn, tc, 0, rb, wb, y, t)
                &&& rows_set(
                    acc0,
                    bcc,
                    nh,
                    tree.size(),
                    b2.turn_chance_children@,
                    sum_row(acc0, chances, y, nh),
                )
            };
        assert forall|i: int| 0 <= i < tree.size() implies #[trigger] row(wa, nh, i) == row(
            wb,
            nh,
            i,
        ) by {
            if self.river_chance_children@.contains(i as u32) {
                assert(row(rivers, nh, i) == row(sivers, nh, i));
            }
        }
        lemma_rows_ext(wa, wb, nh, tree.size());
        a2.lemma_passed_alike(&b2, at_, Zone::Turn, tc, 0, ra, wa, x, s, wb, y, t);
        assert forall|i: int| 0 <= i < tree.size() implies #[trigger] row(acc, nh, i) == row(
            bcc,
            nh,
            i,
        ) by {}
        lemma_rows_ext(acc, bcc, nh, tree.size());
    }

    /// Like solvers play the turn cards alike.
    proof fn lemma_turns_alike<F: Fn(&TerminalSpot<T>) -> Vec<T>>(
        &self,
        b: &Self,
        at_: &Setting<T, F>,
        play: &Play<T>,
        flop_reach: Seq<T>,
        acc0: Seq<T>,
        acc: Seq<T>,
        s: &Self,
        bcc: Seq<T>,
        t: &Self,
        n: nat,
    )
        requires
            self.wf(at_.tree),
            b.wf(at_.tree),
            self.like(b),
            plays_own(play),
            self.river_mode.in_memory(),
            n <= self.n_turn,
            acc0.len() == at_.tree.size() * self.nh,
            self.turns_done(at_, play, flop_reach, acc0, acc, s, n),
            b.turns_done(at_, play, flop_reach, acc0, bcc, t, n),
        ensures
            s.like(t),
            s.wf(at_.tree),
            t.wf(at_.tree),
            self.same_frame(s),
            acc == bcc,
            acc.len() == acc0.len(),
        decreases n,
    {
        if n > 0 {
            let (sm, mid) = choose|sm: Self, mid: Seq<T>|
                self.turns_done(at_, play, flop_reach, acc0, mid, &sm, (n - 1) as nat)
                    && #[trigger] sm.turn_step(at_, play, n - 1, flop_reach, mid, acc, s);
            let (tm, nid) = choose|tm: Self, nid: Seq<T>|
                b.turns_done(at_, play, flop_reach, acc0, nid, &tm, (n - 1) as nat)
                    && #[trigger] tm.turn_step(at_, play, n - 1, flop_reach, nid, bcc, t);
            self.lemma_turns_alike(
                b,
                at_,
                play,
                flop_reach,
                acc0,
                mid,
                &sm,
                nid,
                &tm,
                (n - 1) as nat,
            );
            sm.lemma_turn_alike(&tm, at_, play, n - 1, flop_reach, mid, acc, s, bcc, t);
        } else {
            let nh = self.nh as int;
            assert forall|i: int| 0 <= i < at_.tree.size() implies #[trigger] row(acc, nh, i)
                == row(bcc, nh, i) by {}
            lemma_rows_ext(acc, bcc, nh, at_.tree.size());
        }
    }

    /// Like solvers make a traverser's pass alike.
    proof fn lemma_traversed_alike<F: Fn(&TerminalSpot<T>) -> Vec<T>>(
        &self,
        b: &Self,
        at_: &Setting<T, F>,
        play: &Play<T>,
        root: Seq<T>,
        s: &Self,
        soot: Seq<T>,
        t: &Self,
    )
        requires
            self.wf(at_.tree),
            b.wf(at_.tree),
            self.like(b),
            plays_own(play),
            self.river_mode.in_memory(),
            self.traversed(at_, play, root, s),
            b.traversed(at_, play, soot, t),
        ensures
            s.like(t),
            s.wf(at_.tree),
            t.wf(at_.tree),
            self.same_frame(s),
            root == soot,
    {
        let tree = at_.tree;
        let nh = self.nh as int;
        let zeros = flat(T::s_zero(), tree.size() * self.nh);
        let k = self.n_turn as nat;
        assert(0 <= tree.size() * self.nh) by (nonlinear_arith)
            requires
                0 <= tree.size(),
                0 <= self.nh,
        ;
        let (a1, ra, x, a2) = choose|a1: Self, ra: Seq<T>, x: Seq<T>, a2: Self|
            {
                &&& self.flop_begun(tree, at_.table, ra, &a1)
                &&& #[trigger] a1.turns_done(at_, play, ra, zeros, x, &a2, k)
                &&& a2.flop_ended(at_, ra, x, root, s)
            };
        let (b1, rb, y, b2) = choose|b1: Self, rb: Seq<T>, y: Seq<T>, b2: Self|
            {
                &&& b.flop_begun(tree, at_.table, rb, &b1)
                &&& #[trigger] b1.turns_done(at_, play, rb, zeros, y, &b2, k)
                &&& b2.flop_ended(at_, rb, y, soot, t)
            };
        self.lemma_matched_alike(b, tree, Zone::Flop, 0, 0, true, &a1, &b1);
        lemma_same_reach(
            tree,
            self.zones@,
            Zone::Flop,
            true,
            &self.flop_book,
            &self.lens,
            a1.flop.strategy@,
            nh,
            from_root(at_.table, tree.np() * nh),
            ra,
            rb,
        );
        a1.lemma_turns_alike(&b1, at_, play, ra, zeros, x, &a2, y, &b2, k);
        let v = choose|v: Seq<T>| #[trigger]
            a2.passed(at_, Zone::Flop, 0, 0, ra, x, v, s) && root == row(v, nh, 0);
        let w = choose|w: Seq<T>| #[trigger]
            b2.passed(at_, Zone::Flop, 0, 0, rb, y, w, t) && soot == row(w, nh, 0);
        a2.lemma_passed_alike(&b2, at_, Zone::Flop, 0, 0, ra, x, v, s, y, w, t);
    }

    /// Like solvers make the traversers' passes alike.
    proof fn lemma_round_alike<F: Fn(&TerminalSpot<T>) -> Vec<T>>(
        &self,
        b: &Self,
        tree: &FlatTree,
        table: &FlopChanceTable<T>,
        showdown: &F,
        params: DcfrParams<T>,
        play: &Play<T>,
        roots: Seq<Seq<T>>,
        s: &Self,
        soots: Seq<Seq<T>>,
        t: &Self,
        n: nat,
    )
        requires
            self.wf(tree),
            b.wf(tree),
            self.like(b),
            plays_own(play),
            self.river_mode.in_memory(),
            self.round_done(tree, table, showdown, params, play, roots, s, n),
            b.round_done(tree, table, showdown, params, play, soots, t, n),
        ensures
            s.like(t),
            s.wf(tree),
            t.wf(tree),
            self.same_frame(s),
            roots == soots,
        decreases n,
    {
        if n > 0 {
            let at_ = setting(tree, table, showdown, (n - 1) as u8, params);
            let (sm, prev, root) = choose|sm: Self, prev: Seq<Seq<T>>, root: Seq<T>|
                {
                    &&& self.round_done(
                        tree,
                        table,
                        showdown,
                        params,
                        play,
                        prev,
                        &sm,
                        (n - 1) as nat,
                    )
                    &&& roots == #[trigger] prev.push(root)
                    &&& #[trigger] sm.traversed(&at_, play, root, s)
                };
            let (tm, qrev, soot) = choose|tm: Self, qrev: Seq<Seq<T>>, soot: Seq<T>|
                {
                    &&& b.round_done(
                        tree,
                        table,
                        showdown,
                        params,
                        play,
                        qrev,
                        &tm,
                        (n - 1) as nat,
                    )
                    &&& soots == #[trigger] qrev.push(soot)
                    &&& #[trigger] tm.traversed(&at_, play, soot, t)
                };
            self.lemma_round_alike(
                b,
                tree,
                table,
                showdown,
                params,
                play,
                prev,
                &sm,
                qrev,
                &tm,
                (n - 1) as nat,
            );
            sm.lemma_traversed_alike(&tm, &at_, play, root, s, soot, t);
        } else {
            assert(roots =~= soots);
        }
    }

    /// Two runs from the same numbers on give the same values and leave the same
    /// numbers.
    pub proof fn law_run_is_determined<F: Fn(&TerminalSpot<T>) -> Vec<T>>(
        &self,
        b: &Self,
        tree: &FlatTree,
        table: &FlopChanceTable<T>,
        showdown: &F,
        play: &Play<T>,
        sums: Seq<Seq<T>>,
        s: &Self,
        tums: Seq<Seq<T>>,
        t: &Self,
        n: nat,
    )
        requires
            self.wf(tree),
            b.wf(tree),
            self.like(b),
            plays_own(play),
            self.river_mode.in_memory(),
            self.iterated(tree, table, showdown, play, sums, s, n),
            b.iterated(tree, table, showdown, play, tums, t, n),
        ensures
            s.like(t),
            sums == tums,
            s.wf(tree),
            t.wf(tree),
            s.river_mode == self.river_mode,
            s.nh == self.nh,
        decreases n,
    {
        if n > 0 {
            let np = tree.np() as nat;
            let (sm, prev, p, roots) = choose|
                sm: Self,
                prev: Seq<Seq<T>>,
                p: DcfrParams<T>,
                roots: Seq<Seq<T>>,
            |
                {
                    &&& self.iterated(tree, table, showdown, play, prev, &sm, (n - 1) as nat)
                    &&& sm.is_due(p)
                    &&& #[trigger] sm.counted().round_done(
                        tree,
                        table,
                        showdown,
                        p,
                        play,
                        roots,
                        s,
                        np,
                    )
                    &&& sums == #[trigger] plus_rows(prev, roots)
                };
            let (tm, qrev, q, soots) = choose|
                tm: Self,
                qrev: Seq<Seq<T>>,
                q: DcfrParams<T>,
                soots: Seq<Seq<T>>,
            |
                {
                    &&& b.iterated(tree, table, showdown, play, qrev, &tm, (n - 1) as nat)
                    &&& tm.is_due(q)
                    &&& #[trigger] tm.counted().round_done(
                        tree,
                        table,
                        showdown,
                        q,
                        play,
                        soots,
                        t,
                        np,
                    )
                    &&& tums == #[trigger] plus_rows(qrev, soots)
                };
            self.law_run_is_determined(
                b,
                tree,
                table,
                showdown,
                play,
                prev,
                &sm,
                qrev,
                &tm,
                (n - 1) as nat,
            );
            p.lemma_same_factors(&q);
            sm.counted().lemma_round_alike(
                &tm.counted(),
                tree,
                table,
                showdown,
                p,
                play,
                roots,
                s,
                soots,
                t,
                np,
            );
        } else {
            assert(sums =~= tums);
        }
    }

    /// The first player's values among those of all players are the values that
    /// [`FlopStartVectorCfr::run`] returns, and both runs leave the same numbers.
    pub proof fn law_first_root_is_the_runs<F: Fn(&TerminalSpot<T>) -> Vec<T>>(
        &self,
        tree: &FlatTree,
        table: &FlopChanceTable<T>,
        showdown: &F,
        num_iterations: u32,
        root: Seq<T>,
        s: &Self,
        roots: Seq<Seq<T>>,
        t: &Self,
    )
        requires
            self.wf(tree),
            self.river_mode.in_memory(),
            exists|sums: Seq<Seq<T>>| #[trigger]
                self.iterated(
                    tree,
                    table,
                    showdown,
                    &Play::Regrets,
                    sums,
                    s,
                    num_iterations as nat,
                ) && root == over_count(sums[0], num_iterations as int),
            exists|sums: Seq<Seq<T>>| #[trigger]
                self.iterated(
                    tree,
                    table,
                    showdown,
                    &Play::Regrets,
                    sums,
                    t,
                    num_iterations as nat,
                ) && roots == Seq::new(
                    tree.np() as nat,
                    |p: int| over_count(sums[p], num_iterations as int),
                ),
        ensures
            roots[0] == root,
            s.like(t),
    {
        let n = num_iterations as nat;
        let play = Play::Regrets;
        let x = choose|x: Seq<Seq<T>>| #[trigger]
            self.iterated(tree, table, showdown, &play, x, s, n) && root == over_count(
                x[0],
                num_iterations as int,
            );
        let y = choose|y: Seq<Seq<T>>| #[trigger]
            self.iterated(tree, table, showdown, &play, y, t, n) && roots == Seq::new(
                tree.np() as nat,
                |p: int| over_count(y[p], num_iterations as int),
            );
        self.law_run_is_determined(self, tree, table, showdown, &play, x, s, y, t, n);
    }
}

} // verus!
