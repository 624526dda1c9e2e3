//! Solving with a bucket per hand.
use vstd::prelude::*;

use crate::bank::{block, room, ZoneBank};
use crate::bucketed_flop_cfr::{bucket_setting, layer_of, BucketSetting, BucketedFlopCfr};
use crate::bucketed_showdown::WtlMatrices;
use crate::buckets::{
    bucket_terminal, has_units, law_singletons_weigh_one, own_map, river_deck, FlopBucketing,
    WtlSpot,
};
use crate::flop_repeat::same_numbers;
use crate::flop_run::{plus_rows, river_chances, setting, turn_chances, Play};
use crate::flop_start_game::FlopChanceTable;
use crate::flop_start_vector_cfr::{
    dealt_in, from_marks, from_root, is_zone_reach, seats, FlopStartVectorCfr, Setting,
};
use crate::layout::{at, flat, lemma_row_inside, row};
use crate::learn::{
    discounts, gain, is_learner_row, learned_at, learns, next_regret, pooled_gain, DcfrParams,
};
use crate::rows::{rows_set, same_row, sum_row};
use crate::scalar::{Scalar, Widen};
use crate::sweep::{acted_row, fed_from, passed_row, passes_on, seat, settled, value_of, Lens};
use crate::terminal::{terminal_value_of, TerminalSpot};
use crate::tree::FlatTree;
use crate::zone_pass::{bank_learned, zone_valued};
use crate::zones::{Zone, ZoneBook};

verus! {

/// Every weight is one.
pub open spec fn all_ones<T: Scalar>(omega: Seq<T>, nh: int) -> bool {
    forall|h: int| 0 <= h < nh ==> #[trigger] omega[h] == T::s_one()
}

/// Every hand is a bucket of its own, with full weight.
pub open spec fn is_singles<T: Widen>(bk: &FlopBucketing<T>, nh: int) -> bool {
    &&& bk.flop.lens.is_identity(nh) && all_ones(bk.flop.omega@, nh)
    &&& forall|ti: int|
        0 <= ti < bk.turn@.len() ==> (#[trigger] bk.turn@[ti]).lens.is_identity(nh) && all_ones(
            bk.turn@[ti].omega@,
            nh,
        )
    &&& forall|ti: int, ri: int|
        #![trigger bk.river@[ti]@[ri]]
        0 <= ti < bk.river@.len() && 0 <= ri < bk.river@[ti]@.len()
            ==> bk.river@[ti]@[ri].lens.is_identity(nh) && all_ones(bk.river@[ti]@[ri].omega@, nh)
}

/// The two books number the decisions of the zone alike.
pub open spec fn same_numbers_of(
    tree: &FlatTree,
    zones: Seq<Zone>,
    zone: Zone,
    a: &ZoneBook,
    b: &ZoneBook,
) -> bool {
    &&& a.infoset_count == b.infoset_count
    &&& forall|i: int| #[trigger]
        ZoneBook::owns(tree, zones, zone, i) ==> a.local(i) == b.local(i)
}

/// Books of the same zone number its decisions alike.
proof fn lemma_same_books(tree: &FlatTree, zones: Seq<Zone>, zone: Zone, a: &ZoneBook, b: &ZoneBook)
    requires
        tree.wf(),
        a.of(tree, zones, zone),
        b.of(tree, zones, zone),
    ensures
        same_numbers_of(tree, zones, zone, a, b),
{
    let ids = tree.decision_node_ids@;
    assert forall|i: int| #[trigger] ZoneBook::owns(tree, zones, zone, i) implies a.local(i)
        == b.local(i) by {
        assert(ids.contains(i as u32));
        let k = choose|k: int| 0 <= k < ids.len() && ids[k] == i as u32;
        assert(ids[k] as int == i);
    }
}

/// The deck has turn place `tc` and river place `rc`, as far as the zone needs them.
pub open spec fn is_dealt<T: Widen>(table: &FlopChanceTable<T>, zone: Zone, tc: int, rc: int) -> bool {
    match zone {
        Zone::Turn => 0 <= tc < table.remaining_deck@.len(),
        Zone::River => 0 <= tc < table.remaining_deck@.len() && 0 <= rc < river_deck(
            table,
            tc,
        ).len(),
        Zone::Flop => true,
        Zone::Preflop => false,
    }
}

/// A row of hands per player.
pub open spec fn are_rows<T>(rows: Seq<Seq<T>>, np: int, nh: int) -> bool {
    rows.len() == np && forall|p: int| 0 <= p < np ==> (#[trigger] rows[p]).len() == nh
}

/// The showdown values every terminal as the buckets do.
pub open spec fn values_alike<T: Widen, F: Fn(&TerminalSpot<T>) -> Vec<T>>(
    showdown: &F,
    tree: &FlatTree,
    table: &FlopChanceTable<T>,
    bk: &FlopBucketing<T>,
) -> bool {
    forall|zone: Zone, tc: int, rc: int, rows: Seq<Seq<T>>, traverser: u8, i: int|
        tree.is_node(i) && tree.nodes@[i].is_terminal() && traverser < tree.np() && is_dealt(
            table,
            zone,
            tc,
            rc,
        ) && are_rows(rows, tree.np(), table.nh()) ==> #[trigger] bucket_terminal(
            &layer_of(bk, zone, tc, rc),
            tree,
            table,
            &dealt_in(table, zone, tc, rc),
            rows,
            traverser,
            i,
        ) == terminal_value_of(
            showdown,
            tree,
            table,
            &dealt_in(table, zone, tc, rc),
            rows,
            traverser,
            i,
        )
}

/// Through either lens that keeps the hands apart, the reach is the same.
proof fn lemma_reach_through<T: Scalar>(
    tree: &FlatTree,
    zones: Seq<Zone>,
    zone: Zone,
    through_deals: bool,
    book: &ZoneBook,
    twin: &ZoneBook,
    x: &Lens,
    y: &Lens,
    strategy: Seq<T>,
    nh: int,
    start: spec_fn(int) -> Seq<T>,
    reach: Seq<T>,
)
    requires
        same_numbers_of(tree, zones, zone, book, twin),
        tree.wf(),
        0 <= nh,
        x.is_identity(nh),
        y.is_identity(nh),
        nh <= 1326,
        is_zone_reach(tree, zones, zone, through_deals, book, x, strategy, nh, start, reach),
    ensures
        is_zone_reach(tree, zones, zone, through_deals, twin, y, strategy, nh, start, reach),
{
    let np = tree.np();
    assert(0 <= np * nh) by (nonlinear_arith)
        requires
            0 <= np,
            0 <= nh,
    ;
    assert forall|i: int| #[trigger]
        passes_on(tree, zones, zone, through_deals, i) implies fed_from(
        tree,
        twin,
        y,
        strategy,
        np,
        nh,
        reach,
        i,
    ) by {
        assert(fed_from(tree, book, x, strategy, np, nh, reach, i));
        assert forall|a: int, p: int| 0 <= a < tree.arity(i) && 0 <= p < np implies #[trigger] seat(
            reach,
            np,
            nh,
            tree.child(i, a),
            p,
        ) == passed_row(tree, twin, y, strategy, np, nh, reach, i, a, p) by {
            lemma_row_inside(np * nh, tree.size(), i);
            lemma_row_inside(nh, np, p);
            if tree.nodes@[i].is_player() {
                assert(ZoneBook::owns(tree, zones, zone, i));
            }
            let before = seat(reach, np, nh, i, p);
            assert(before.len() == nh);
            assert forall|h: int| 0 <= h < nh implies x.column(h) == y.column(h) by {
                assert(x.of@[h] == h && y.of@[h] == h);
            }
            assert(acted_row(x, strategy, book.local(i), a, before) =~= acted_row(
                y,
                strategy,
                book.local(i),
                a,
                before,
            ));
        }
    }
}

/// Through either lens that keeps the hands apart, the values are the same.
proof fn lemma_values_through<T: Scalar>(
    tree: &FlatTree,
    zones: Seq<Zone>,
    zone: Zone,
    book: &ZoneBook,
    twin: &ZoneBook,
    x: &Lens,
    y: &Lens,
    strategy: Seq<T>,
    nh: int,
    traverser: u8,
    tx: spec_fn(int) -> Seq<T>,
    ty: spec_fn(int) -> Seq<T>,
    was: Seq<T>,
    cfv: Seq<T>,
)
    requires
        same_numbers_of(tree, zones, zone, book, twin),
        x.is_identity(nh),
        y.is_identity(nh),
        forall|i: int|
            tree.is_node(i) && tree.nodes@[i].is_terminal() ==> #[trigger] tx(i) == ty(i),
        zone_valued(tree, zones, zone, book, x, strategy, nh, traverser, tx, was, cfv),
    ensures
        zone_valued(tree, zones, zone, twin, y, strategy, nh, traverser, ty, was, cfv),
{
    assert forall|i: int| tree.is_node(i) && zones[i] == zone implies #[trigger] settled(
        tree,
        twin,
        y,
        strategy,
        nh,
        traverser,
        cfv,
        cfv,
        i,
    ) by {
        assert(settled(tree, book, x, strategy, nh, traverser, cfv, cfv, i));
        assert forall|h: int| 0 <= h < nh implies #[trigger] cfv[at(nh, i, h)] == value_of(
            tree,
            twin,
            y,
            strategy,
            nh,
            traverser,
            cfv,
            cfv,
            i,
            h,
        ) by {
            assert(x.of@[h] == h && y.of@[h] == h);
            if tree.nodes@[i].is_player() {
                assert(ZoneBook::owns(tree, zones, zone, i));
            }
        }
    }
    assert forall|i: int|
        tree.is_node(i) && zones[i] == zone && tree.nodes@[i].is_terminal() implies #[trigger] row(
        cfv,
        nh,
        i,
    ) == ty(i) by {
        assert(tx(i) == ty(i));
    }
}

/// A bucket of one hand gains what the hand gains.
proof fn lemma_single_gain<T: Scalar>(
    x: &Lens,
    omega: Seq<T>,
    v: Seq<T>,
    nh: int,
    i: int,
    c: int,
    b: int,
    n: nat,
)
    requires
        has_units::<T>(),
        x.is_identity(nh),
        nh <= 1326,
        all_ones(omega, nh),
        0 <= b < nh,
        n <= nh,
    ensures
        pooled_gain(x, omega, v, nh, i, c, b, n) == if n <= b {
            T::s_zero()
        } else {
            v[at(nh, c, b)].s_minus(v[at(nh, i, b)])
        },
    decreases n,
{
    if n > 0 {
        lemma_single_gain(x, omega, v, nh, i, c, b, (n - 1) as nat);
        assert(x.of@[n - 1] == n - 1);
        let g = v[at(nh, c, b)].s_minus(v[at(nh, i, b)]);
        assert(T::s_one().s_times(g) == g && T::s_zero().s_plus(g) == g);
        if n - 1 == b {
            assert(omega[b] == T::s_one());
        }
    }
}

/// A bank with a bucket per hand learns what the bank of the hands learns.
proof fn lemma_learned_through<T: Scalar>(
    tree: &FlatTree,
    zones: Seq<Zone>,
    zone: Zone,
    book: &ZoneBook,
    twin: &ZoneBook,
    x: &Lens,
    y: &Lens,
    omega: Seq<T>,
    v: Seq<T>,
    nh: int,
    traverser: u8,
    p: &DcfrParams<T>,
    o: int,
    was: &ZoneBank<T>,
    bank: &ZoneBank<T>,
)
    requires
        same_numbers_of(tree, zones, zone, book, twin),
        has_units::<T>(),
        x.is_identity(nh),
        y.is_identity(nh),
        0 <= nh <= 1326,
        all_ones(omega, nh),
        bank_learned(tree, zones, zone, book, x, Some(omega), v, nh, traverser, p, o, was, bank),
    ensures
        bank_learned(tree, zones, zone, twin, y, None, v, nh, traverser, p, o, was, bank),
{
    assert forall|i: int, a: int, b: int| 0 <= b < nh implies #[trigger] gain(
        tree,
        y,
        None,
        v,
        nh,
        i,
        a,
        b,
    ) == gain(tree, x, Some(omega), v, nh, i, a, b) by {
        lemma_single_gain(x, omega, v, nh, i, tree.child(i, a), b, nh as nat);
    }
    assert forall|i: int| #[trigger] learns(tree, zones, zone, traverser, i) implies learned_at(
        tree,
        y,
        None,
        v,
        nh,
        p,
        was.strategy@,
        twin.local(i),
        at(twin.infoset_count as int, o, twin.local(i)),
        i,
        was.regrets@,
        was.cum@,
        bank.regrets@,
        bank.cum@,
    ) by {
        assert(ZoneBook::owns(tree, zones, zone, i));
        let g = at(book.infoset_count as int, o, book.local(i));
        assert(learned_at(
            tree,
            x,
            Some(omega),
            v,
            nh,
            p,
            was.strategy@,
            book.local(i),
            g,
            i,
            was.regrets@,
            was.cum@,
            bank.regrets@,
            bank.cum@,
        ));
        assert forall|a: int, b: int| 0 <= a < tree.arity(i) && 0 <= b < nh implies #[trigger] block(
            bank.regrets@,
            nh,
            g,
            tree.arity(i),
        )[at(nh, a, b)] == next_regret(
            p,
            block(was.regrets@, nh, g, tree.arity(i))[at(nh, a, b)],
            gain(tree, y, None, v, nh, i, a, b),
        ) by {
            assert(gain(tree, y, None, v, nh, i, a, b) == gain(
                tree,
                x,
                Some(omega),
                v,
                nh,
                i,
                a,
                b,
            ));
        }
    }
    assert forall|g: int| is_learner_row(tree, zones, zone, book, traverser, o, g)
        == #[trigger] is_learner_row(tree, zones, zone, twin, traverser, o, g) by {
        let m = book.infoset_count as int;
        if is_learner_row(tree, zones, zone, book, traverser, o, g) {
            let i = choose|i: int| #[trigger]
                learns(tree, zones, zone, traverser, i) && at(m, o, book.local(i)) == g;
            assert(ZoneBook::owns(tree, zones, zone, i));
            assert(at(m, o, twin.local(i)) == g);
        }
        if is_learner_row(tree, zones, zone, twin, traverser, o, g) {
            let i = choose|i: int| #[trigger]
                learns(tree, zones, zone, traverser, i) && at(m, o, twin.local(i)) == g;
            assert(ZoneBook::owns(tree, zones, zone, i));
            assert(at(m, o, book.local(i)) == g);
        }
    }
}

impl<T: Widen> BucketedFlopCfr<T> {
    /// The exact solver `e` with these numbers.
    pub open spec fn as_exact(&self, e: &FlopStartVectorCfr<T>) -> FlopStartVectorCfr<T> {
        FlopStartVectorCfr {
            flop: self.flop,
            turn: self.turn,
            river: self.river,
            iteration: self.iteration,
            ..*e
        }
    }

    /// The buckets of `bk` are single hands, and `e` learns exactly on every street.
    pub open spec fn mirrors(
        &self,
        tree: &FlatTree,
        table: &FlopChanceTable<T>,
        bk: &FlopBucketing<T>,
        e: &FlopStartVectorCfr<T>,
    ) -> bool {
        &&& self.wf(tree)
        &&& self.is_for(table, bk)
        &&& is_singles(bk, self.nh as int)
        &&& self.flop.width == self.nh
        &&& self.turn.width == self.nh
        &&& self.river.width == self.nh
        &&& e.wf(tree)
        &&& e.is_for(table)
        &&& e.max_n_river == self.max_n_river
        &&& e.river_mode.in_memory()
        &&& !e.continuation_frozen
        &&& !e.vanilla_mode
    }

    proof fn lemma_mirror_frame(
        &self,
        tree: &FlatTree,
        table: &FlopChanceTable<T>,
        bk: &FlopBucketing<T>,
        e: &FlopStartVectorCfr<T>,
    )
        requires
            self.mirrors(tree, table, bk, e),
        ensures
            e.zones@ == self.zones@,
            e.nh == self.nh,
            e.n_turn == self.n_turn,
            e.river_counts@ == self.river_counts@,
            e.turn_chance_children@ == self.turn_chance_children@,
            e.river_chance_children@ == self.river_chance_children@,
            self.as_exact(e).wf(tree),
            self.as_exact(e).is_for(table),
    {
        lemma_same_books(tree, self.zones@, Zone::Flop, &self.flop_book, &e.flop_book);
        lemma_same_books(tree, self.zones@, Zone::Turn, &self.turn_book, &e.turn_book);
        lemma_same_books(tree, self.zones@, Zone::River, &self.river_book, &e.river_book);
        assert forall|k: int| 0 <= k < self.n_turn implies e.river_counts@[k]
            == self.river_counts@[k] by {}
        assert(e.river_counts@ =~= self.river_counts@);
    }

    proof fn lemma_mirror_layer(
        &self,
        tree: &FlatTree,
        table: &FlopChanceTable<T>,
        bk: &FlopBucketing<T>,
        e: &FlopStartVectorCfr<T>,
        zone: Zone,
        tc: int,
        rc: int,
    )
        requires
            self.mirrors(tree, table, bk, e),
            self.holds_outcome(zone, tc, rc),
        ensures
            layer_of(bk, zone, tc, rc).lens.is_identity(self.nh as int),
            all_ones(layer_of(bk, zone, tc, rc).omega@, self.nh as int),
            self.bank(zone).width == self.nh,
            same_numbers_of(tree, self.zones@, zone, &self.book(zone), &e.book(zone)),
            e.zones@ == self.zones@,
            e.nh == self.nh,
            e.n_turn == self.n_turn,
            e.river_counts@ == self.river_counts@,
            self.as_exact(e).wf(tree),
    {
        self.lemma_layer(table, bk, zone, tc, rc);
        self.lemma_mirror_frame(tree, table, bk, e);
        lemma_same_books(tree, self.zones@, zone, &self.book(zone), &e.book(zone));
    }

    proof fn lemma_mirror_matched(
        &self,
        tree: &FlatTree,
        table: &FlopChanceTable<T>,
        bk: &FlopBucketing<T>,
        e: &FlopStartVectorCfr<T>,
        zone: Zone,
        tc: int,
        rc: int,
        s: &Self,
    )
        requires
            self.mirrors(tree, table, bk, e),
            self.holds_outcome(zone, tc, rc),
            self.matched(tree, zone, tc, rc, s),
        ensures
            self.as_exact(e).matched(tree, zone, tc, rc, true, &s.as_exact(e)),
            s.mirrors(tree, table, bk, e),
            self.same_frame(s),
    {
        self.lemma_mirror_layer(tree, table, bk, e, zone, tc, rc);
    }

    proof fn lemma_mirror_passed<F: Fn(&TerminalSpot<T>) -> Vec<T>>(
        &self,
        e: &FlopStartVectorCfr<T>,
        at_: &BucketSetting<T>,
        x: &Setting<T, F>,
        zone: Zone,
        tc: int,
        rc: int,
        reach: Seq<T>,
        was: Seq<T>,
        cfv: Seq<T>,
        s: &Self,
    )
        requires
            has_units::<T>(),
            self.mirrors(at_.tree, at_.table, at_.bk, e),
            self.holds_outcome(zone, tc, rc),
            same_setting(at_, x),
            at_.traverser < at_.tree.np(),
            values_alike(x.showdown, at_.tree, at_.table, at_.bk),
            reach.len() == at_.tree.size() * (at_.tree.np() * self.nh),
            self.passed(at_, zone, tc, rc, reach, was, cfv, s),
        ensures
            self.as_exact(e).passed(x, zone, tc, rc, reach, was, cfv, &s.as_exact(e)),
            s.mirrors(at_.tree, at_.table, at_.bk, e),
            self.same_frame(s),
    {
        let nh = self.nh as int;
        let layer = layer_of(at_.bk, zone, tc, rc);
        let dealt = dealt_in(at_.table, zone, tc, rc);
        self.lemma_mirror_layer(at_.tree, at_.table, at_.bk, e, zone, tc, rc);
        let tx = at_.terminal_row(layer, dealt, reach);
        let ty = x.terminal_row(dealt, reach);
        assert forall|i: int|
            at_.tree.is_node(i) && at_.tree.nodes@[i].is_terminal() implies #[trigger] tx(i) == ty(
            i,
        ) by {
            let np = at_.tree.np();
            let rows = seats(reach, np, nh, i);
            assert(0 <= np * nh) by (nonlinear_arith)
                requires
                    0 <= np,
                    0 <= nh,
            ;
            lemma_row_inside(np * nh, at_.tree.size(), i);
            assert forall|p: int| 0 <= p < np implies (#[trigger] rows[p]).len() == nh by {
                lemma_row_inside(nh, np, p);
            }
            assert(is_dealt(at_.table, zone, tc, rc));
            assert(bucket_terminal(
                &layer_of(at_.bk, zone, tc, rc),
                at_.tree,
                at_.table,
                &dealt_in(at_.table, zone, tc, rc),
                seats(reach, at_.tree.np(), at_.table.nh(), i),
                at_.traverser,
                i,
            ) == ty(i));
        }
        lemma_values_through(
            at_.tree,
            self.zones@,
            zone,
            &self.book(zone),
            &e.book(zone),
            &layer.lens,
            &e.lens,
            self.bank(zone).strategy@,
            nh,
            at_.traverser,
            tx,
            ty,
            was,
            cfv,
        );
        lemma_learned_through(
            at_.tree,
            self.zones@,
            zone,
            &self.book(zone),
            &e.book(zone),
            &layer.lens,
            &e.lens,
            layer.omega@,
            cfv,
            nh,
            at_.traverser,
            &at_.params,
            self.outcome(zone, tc, rc),
            &self.bank(zone),
            &s.bank(zone),
        );
    }
}

/// The two settings differ in the showdown alone.
pub open spec fn same_setting<T: Widen, F>(a: &BucketSetting<T>, x: &Setting<T, F>) -> bool {
    a.tree == x.tree && a.table == x.table && a.traverser == x.traverser && a.params == x.params
}

impl<T: Widen> BucketedFlopCfr<T> {
    proof fn lemma_mirror_rivers<F: Fn(&TerminalSpot<T>) -> Vec<T>>(
        &self,
        e: &FlopStartVectorCfr<T>,
        at_: &BucketSetting<T>,
        x: &Setting<T, F>,
        tc: int,
        turn_reach: Seq<T>,
        acc0: Seq<T>,
        acc: Seq<T>,
        s: &Self,
        n: nat,
    )
        requires
            has_units::<T>(),
            self.mirrors(at_.tree, at_.table, at_.bk, e),
            same_setting(at_, x),
            at_.traverser < at_.tree.np(),
            values_alike(x.showdown, at_.tree, at_.table, at_.bk),
            0 <= tc < self.n_turn,
            n <= self.river_counts@[tc],
            self.rivers_done(at_, tc, turn_reach, acc0, acc, s, n),
        ensures
            self.as_exact(e).rivers_done(
                x,
                &Play::Regrets,
                tc,
                turn_reach,
                acc0,
                acc,
                &s.as_exact(e),
                n,
            ),
            s.mirrors(at_.tree, at_.table, at_.bk, e),
            self.same_frame(s),
        decreases n,
    {
        if n > 0 {
            let tree = at_.tree;
            let nh = self.nh as int;
            let rc = n - 1;
            let (sm, mid) = choose|sm: Self, mid: Seq<T>|
                self.rivers_done(at_, tc, turn_reach, acc0, mid, &sm, (n - 1) as nat)
                    && #[trigger] sm.river_step(at_, tc, n - 1, turn_reach, mid, acc, s);
            self.lemma_mirror_rivers(e, at_, x, tc, turn_reach, acc0, mid, &sm, (n - 1) as nat);
            let chances = river_chances(at_.table, at_.table.remaining_deck@[tc] as int, rc);
            let (sp, reach, was, cfv) = choose|sp: Self, reach: Seq<T>, was: Seq<T>, cfv: Seq<T>|
                {
                    &&& sm.matched(tree, Zone::River, tc, rc, &sp)
                    &&& sp.is_river_reach(tree, at_.bk, tc, rc, turn_reach, reach)
                    &&& was.len() == tree.size() * sm.nh
                    &&& #[trigger] sp.passed(at_, Zone::River, tc, rc, reach, was, cfv, s)
                    &&& rows_set(
                        mid,
                        acc,
                        nh,
                        tree.size(),
                        sm.river_chance_children@,
                        sum_row(mid, chances, cfv, nh),
                    )
                };
            sm.lemma_mirror_matched(tree, at_.table, at_.bk, e, Zone::River, tc, rc, &sp);
            sp.lemma_mirror_layer(tree, at_.table, at_.bk, e, Zone::River, tc, rc);
            lemma_reach_through(
                tree,
                self.zones@,
                Zone::River,
                false,
                &self.river_book,
                &e.river_book,
                &layer_of(at_.bk, Zone::River, tc, rc).lens,
                &e.lens,
                sp.river.strategy@,
                nh,
                from_marks(self.river_chance_children@, turn_reach, tree.np() * nh),
                reach,
            );
            sp.lemma_mirror_passed(e, at_, x, Zone::River, tc, rc, reach, was, cfv, s);
            assert(sp.as_exact(e).passed(
                x,
                Zone::River,
                tc,
                rc,
                reach,
                was,
                cfv,
                &s.as_exact(e),
            ));
            assert(sm.as_exact(e).river_step(
                x,
                &Play::Regrets,
                tc,
                n - 1,
                turn_reach,
                mid,
                acc,
                &s.as_exact(e),
            ));
        }
    }

    proof fn lemma_mirror_turn<F: Fn(&TerminalSpot<T>) -> Vec<T>>(
        &self,
        e: &FlopStartVectorCfr<T>,
        at_: &BucketSetting<T>,
        x: &Setting<T, F>,
        tc: int,
        flop_reach: Seq<T>,
        acc0: Seq<T>,
        acc: Seq<T>,
        s: &Self,
    )
        requires
            has_units::<T>(),
            self.mirrors(at_.tree, at_.table, at_.bk, e),
            same_setting(at_, x),
            at_.traverser < at_.tree.np(),
            values_alike(x.showdown, at_.tree, at_.table, at_.bk),
            0 <= tc < self.n_turn,
            self.turn_step(at_, tc, flop_reach, acc0, acc, s),
        ensures
            self.as_exact(e).turn_step(
                x,
                &Play::Regrets,
                tc,
                flop_reach,
                acc0,
                acc,
                &s.as_exact(e),
            ),
            s.mirrors(at_.tree, at_.table, at_.bk, e),
            self.same_frame(s),
    {
        let tree = at_.tree;
        let nh = self.nh as int;
        let k = self.river_counts@[tc] as nat;
        let (sp, reach, r0, rivers, sr) = choose|
            sp: Self,
            reach: Seq<T>,
            r0: Seq<T>,
            rivers: Seq<T>,
            sr: Self,
        |
            {
                &&& self.turn_begun(tree, at_.bk, tc, flop_reach, reach, &sp)
                &&& #[trigger] sp.rivers_done(at_, tc, reach, r0, rivers, &sr, k)
                &&& sr.turn_ended(at_, tc, reach, rivers, acc0, acc, s)
            };
        self.lemma_mirror_matched(tree, at_.table, at_.bk, e, Zone::Turn, tc, 0, &sp);
        sp.lemma_mirror_layer(tree, at_.table, at_.bk, e, Zone::Turn, tc, 0);
        lemma_reach_through(
            tree,
            self.zones@,
            Zone::Turn,
            true,
            &self.turn_book,
            &e.turn_book,
            &layer_of(at_.bk, Zone::Turn, tc, 0).lens,
            &e.lens,
            sp.turn.strategy@,
            nh,
            from_marks(self.turn_chance_children@, flop_reach, tree.np() * nh),
            reach,
        );
        sp.lemma_mirror_rivers(e, at_, x, tc, reach, r0, rivers, &sr, k);
        let (was, cfv) = choose|was: Seq<T>, cfv: Seq<T>|
            {
                &&& was.len() == tree.size() * sr.nh
                &&& rows_set(
                    flat(T::s_zero(), tree.size() * sr.nh),
                    was,
                    nh,
                    tree.size(),
                    sr.river_chance_children@,
                    same_row(rivers, nh),
                )
                &&& #[trigger] sr.passed(at_, Zone::Turn, tc, 0, reach, was, cfv, s)
                &&& rows_set(
                    acc0,
                    acc,
                    nh,
                    tree.size(),
                    sr.turn_chance_children@,
                    sum_row(acc0, turn_chances(at_.table, tc), cfv, nh),
                )
            };
        sr.lemma_mirror_passed(e, at_, x, Zone::Turn, tc, 0, reach, was, cfv, s);
        assert(sr.as_exact(e).passed(x, Zone::Turn, tc, 0, reach, was, cfv, &s.as_exact(e)));
        assert(self.as_exact(e).turn_begun(
            tree,
            &Play::Regrets,
            tc,
            flop_reach,
            reach,
            &sp.as_exact(e),
        ));
        assert(sr.as_exact(e).turn_ended(x, tc, reach, rivers, acc0, acc, &s.as_exact(e)));
        assert(sp.as_exact(e).rivers_done(
            x,
            &Play::Regrets,
            tc,
            reach,
            r0,
            rivers,
            &sr.as_exact(e),
            k,
        ));
    }

    proof fn lemma_mirror_turns<F: Fn(&TerminalSpot<T>) -> Vec<T>>(
        &self,
        e: &FlopStartVectorCfr<T>,
        at_: &BucketSetting<T>,
        x: &Setting<T, F>,
        flop_reach: Seq<T>,
        acc0: Seq<T>,
        acc: Seq<T>,
        s: &Self,
        n: nat,
    )
        requires
            has_units::<T>(),
            self.mirrors(at_.tree, at_.table, at_.bk, e),
            same_setting(at_, x),
            at_.traverser < at_.tree.np(),
            values_alike(x.showdown, at_.tree, at_.table, at_.bk),
            n <= self.n_turn,
            self.turns_done(at_, flop_reach, acc0, acc, s, n),
        ensures
            self.as_exact(e).turns_done(
                x,
                &Play::Regrets,
                flop_reach,
                acc0,
                acc,
                &s.as_exact(e),
                n,
            ),
            s.mirrors(at_.tree, at_.table, at_.bk, e),
            self.same_frame(s),
        decreases n,
    {
        if n > 0 {
            let (sm, mid) = choose|sm: Self, mid: Seq<T>|
                self.turns_done(at_, flop_reach, acc0, mid, &sm, (n - 1) as nat)
                    && #[trigger] sm.turn_step(at_, n - 1, flop_reach, mid, acc, s);
            self.lemma_mirror_turns(e, at_, x, flop_reach, acc0, mid, &sm, (n - 1) as nat);
            sm.lemma_mirror_turn(e, at_, x, n - 1, flop_reach, mid, acc, s);
        }
    }
}

impl<T: Widen> BucketedFlopCfr<T> {
    proof fn lemma_mirror_round<F: Fn(&TerminalSpot<T>) -> Vec<T>>(
        &self,
        e: &FlopStartVectorCfr<T>,
        tree: &FlatTree,
        table: &FlopChanceTable<T>,
        bk: &FlopBucketing<T>,
        showdown: &F,
        params: DcfrParams<T>,
        roots: Seq<Seq<T>>,
        s: &Self,
        n: nat,
    )
        requires
            has_units::<T>(),
            self.mirrors(tree, table, bk, e),
            n <= tree.np(),
            values_alike(showdown, tree, table, bk),
            self.round_done(tree, table, bk, params, roots, s, n),
        ensures
            self.as_exact(e).round_done(
                tree,
                table,
                showdown,
                params,
                &Play::Regrets,
                roots,
                &s.as_exact(e),
                n,
            ),
            s.mirrors(tree, table, bk, e),
            self.same_frame(s),
        decreases n,
    {
        if n > 0 {
            let at_ = bucket_setting(tree, table, bk, (n - 1) as u8, params);
            let x = setting(tree, table, showdown, (n - 1) as u8, params);
            let (sm, prev, root) = choose|sm: Self, prev: Seq<Seq<T>>, root: Seq<T>|
                {
                    &&& self.round_done(tree, table, bk, params, prev, &sm, (n - 1) as nat)
                    &&& roots == #[trigger] prev.push(root)
                    &&& #[trigger] sm.traversed(&at_, root, s)
                };
            self.lemma_mirror_round(
                e,
                tree,
                table,
                bk,
                showdown,
                params,
                prev,
                &sm,
                (n - 1) as nat,
            );
            let nh = sm.nh as int;
            let zeros = flat(T::s_zero(), tree.size() * sm.nh);
            let k = sm.n_turn as nat;
            let (sp, reach, turns, sc) = choose|sp: Self, reach: Seq<T>, turns: Seq<T>, sc: Self|
                {
                    &&& sm.flop_begun(tree, table, bk, reach, &sp)
                    &&& #[trigger] sp.turns_done(&at_, reach, zeros, turns, &sc, k)
                    &&& sc.flop_ended(&at_, reach, turns, root, s)
                };
            sm.lemma_mirror_matched(tree, table, bk, e, Zone::Flop, 0, 0, &sp);
            sp.lemma_mirror_layer(tree, table, bk, e, Zone::Flop, 0, 0);
            lemma_reach_through(
                tree,
                sm.zones@,
                Zone::Flop,
                true,
                &sm.flop_book,
                &e.flop_book,
                &layer_of(bk, Zone::Flop, 0, 0).lens,
                &e.lens,
                sp.flop.strategy@,
                nh,
                from_root(table, tree.np() * nh),
                reach,
            );
            sp.lemma_mirror_turns(e, &at_, &x, reach, zeros, turns, &sc, k);
            let cfv = choose|cfv: Seq<T>| #[trigger]
                sc.passed(&at_, Zone::Flop, 0, 0, reach, turns, cfv, s) && root == row(cfv, nh, 0);
            sc.lemma_mirror_passed(e, &at_, &x, Zone::Flop, 0, 0, reach, turns, cfv, s);
            assert(sc.as_exact(e).passed(
                &x,
                Zone::Flop,
                0,
                0,
                reach,
                turns,
                cfv,
                &s.as_exact(e),
            ));
            assert(sm.as_exact(e).flop_begun(tree, table, reach, &sp.as_exact(e)));
            assert(sp.as_exact(e).turns_done(
                &x,
                &Play::Regrets,
                reach,
                zeros,
                turns,
                &sc.as_exact(e),
                k,
            ));
            assert(sm.as_exact(e).traversed(&x, &Play::Regrets, root, &s.as_exact(e)));
        }
    }

    proof fn lemma_mirror_run<F: Fn(&TerminalSpot<T>) -> Vec<T>>(
        &self,
        e: &FlopStartVectorCfr<T>,
        tree: &FlatTree,
        table: &FlopChanceTable<T>,
        bk: &FlopBucketing<T>,
        showdown: &F,
        sums: Seq<Seq<T>>,
        s: &Self,
        n: nat,
    )
        requires
            has_units::<T>(),
            self.mirrors(tree, table, bk, e),
            values_alike(showdown, tree, table, bk),
            self.iterated(tree, table, bk, sums, s, n),
        ensures
            self.as_exact(e).iterated(
                tree,
                table,
                showdown,
                &Play::Regrets,
                sums,
                &s.as_exact(e),
                n,
            ),
            s.mirrors(tree, table, bk, e),
            s.nh == self.nh,
        decreases n,
    {
        if n > 0 {
            let np = tree.np() as nat;
            let (sm, prev, p, roots) = choose|
                sm: Self,
                prev: Seq<Seq<T>>,
                p: DcfrParams<T>,
                roots: Seq<Seq<T>>,
            |
                {
                    &&& self.iterated(tree, table, bk, prev, &sm, (n - 1) as nat)
                    &&& (p.alpha(), p.beta(), p.gamma()) == discounts::<T>(sm.iteration as int)
                    &&& #[trigger] sm.counted().round_done(tree, table, bk, p, roots, s, np)
                    &&& sums == #[trigger] plus_rows(prev, roots)
                };
            self.lemma_mirror_run(e, tree, table, bk, showdown, prev, &sm, (n - 1) as nat);
            sm.counted().lemma_mirror_round(
                e,
                tree,
                table,
                bk,
                showdown,
                p,
                roots,
                s,
                np,
            );
            assert(sm.counted().as_exact(e) == sm.as_exact(e).counted());
            assert(sm.as_exact(e).counted().round_done(
                tree,
                table,
                showdown,
                p,
                &Play::Regrets,
                roots,
                &s.as_exact(e),
                np,
            ));
        }
    }

    /// With a bucket per hand, a run over buckets is a run of the exact solver from the
    /// same numbers, if the showdown values terminals as the buckets do: the values add
    /// up to the same, and every regret and average is the same.
    pub proof fn law_own_buckets_solve_exactly<
        F: Fn(&TerminalSpot<T>) -> Vec<T>,
        G: Fn(&WtlSpot<T::Wide>) -> WtlMatrices<T::Wide>,
    >(
        &self,
        e: &FlopStartVectorCfr<T>,
        tree: &FlatTree,
        table: &FlopChanceTable<T>,
        bk: &FlopBucketing<T>,
        masses: &G,
        showdown: &F,
        sums: Seq<Seq<T>>,
        s: &Self,
        tums: Seq<Seq<T>>,
        t: &FlopStartVectorCfr<T>,
        n: nat,
    )
        requires
            has_units::<T>(),
            self.wf(tree),
            self.is_for(table, bk),
            bk.is_identity(table, masses),
            e.wf(tree),
            e.is_for(table),
            e.max_n_river == self.max_n_river,
            e.river_mode.in_memory(),
            !e.continuation_frozen,
            !e.vanilla_mode,
            self.holds_numbers_of(e),
            values_alike(showdown, tree, table, bk),
            self.iterated(tree, table, bk, sums, s, n),
            e.iterated(tree, table, showdown, &Play::Regrets, tums, t, n),
        ensures
            sums == tums,
            s.holds_numbers_of(t),
    {
        let nh = self.nh as int;
        law_singletons_weigh_one::<T>(nh);
        assert forall|h: int| 0 <= h < nh implies #[trigger] own_map(nh)[h] == h by {}
        assert(bk.flop.lens.is_identity(nh));
        assert forall|ti: int| 0 <= ti < bk.turn@.len() implies (#[trigger] bk.turn@[ti])
            .lens.is_identity(nh) && all_ones(bk.turn@[ti].omega@, nh) by {}
        assert forall|ti: int, ri: int|
            #![trigger bk.river@[ti]@[ri]]
            0 <= ti < bk.river@.len() && 0 <= ri
                < bk.river@[ti]@.len() implies bk.river@[ti]@[ri].lens.is_identity(nh) && all_ones(
            bk.river@[ti]@[ri].omega@,
            nh,
        ) by {}
        self.lemma_mirror_run(e, tree, table, bk, showdown, sums, s, n);
        self.lemma_mirror_frame(tree, table, bk, e);
        self.as_exact(e).law_run_is_determined(
            e,
            tree,
            table,
            showdown,
            &Play::Regrets,
            sums,
            &s.as_exact(e),
            tums,
            t,
            n,
        );
    }

    /// Fresh solvers of both kinds hold the same numbers, none.
    pub proof fn law_fresh_solvers_are_alike(
        &self,
        e: &FlopStartVectorCfr<T>,
        tree: &FlatTree,
        table: &FlopChanceTable<T>,
        bk: &FlopBucketing<T>,
    )
        requires
            self.wf(tree),
            self.is_for(table, bk),
            e.wf(tree),
            e.is_for(table),
            bk.nb_flop == self.nh,
            bk.nb_turn == self.nh,
            bk.nb_river == self.nh,
            self.max_n_river == e.max_n_river,
            e.river_mode.in_memory(),
            self.iteration == 0,
            e.iteration == 0,
            forall|zone: Zone| zone != Zone::Preflop ==> is_blank(&#[trigger] self.bank(zone)),
            forall|zone: Zone| zone != Zone::Preflop ==> is_blank(&#[trigger] e.bank(zone)),
        ensures
            self.holds_numbers_of(e),
    {
        lemma_same_books(tree, self.zones@, Zone::Flop, &self.flop_book, &e.flop_book);
        lemma_same_books(tree, self.zones@, Zone::Turn, &self.turn_book, &e.turn_book);
        lemma_same_books(tree, self.zones@, Zone::River, &self.river_book, &e.river_book);
        assert(is_blank(&self.bank(Zone::Flop)) && is_blank(&e.bank(Zone::Flop)));
        assert(is_blank(&self.bank(Zone::Turn)) && is_blank(&e.bank(Zone::Turn)));
        assert(is_blank(&self.bank(Zone::River)) && is_blank(&e.bank(Zone::River)));
    }

    /// The two solvers hold the same regrets, averages, strategies and iteration count.
    pub open spec fn holds_numbers_of(&self, e: &FlopStartVectorCfr<T>) -> bool {
        &&& same_numbers(&self.flop, &e.flop)
        &&& same_numbers(&self.turn, &e.turn)
        &&& same_numbers(&self.river, &e.river)
        &&& self.iteration == e.iteration
    }
}

/// The bank holds zeros.
pub open spec fn is_blank<T: Scalar>(b: &ZoneBank<T>) -> bool {
    &&& b.regrets@ == flat(T::s_zero(), b.outcomes * b.infosets * room(b.width as int))
    &&& b.cum@ == flat(T::s_zero(), b.outcomes * b.infosets * room(b.width as int))
    &&& b.strategy@ == flat(T::s_zero(), b.infosets * room(b.width as int))
}

} // verus!
