//! Playing one turn and river pair from its own entries.
use vstd::prelude::*;

use crate::bank::{block, room, spare, strategy_of, ZoneBank};
use crate::flop_run::{river_chances, Play};
use crate::flop_start_vector_cfr::{
    dealt_in, from_marks, is_zone_reach, zone_map, FlopStartVectorCfr, Setting,
};
use crate::layout::{
    at, lemma_at_bound, lemma_at_inj, lemma_row_inside, lemma_row_of_row, lemma_rows_ext, row,
};
use crate::learn::{is_learner_row, learned_at, learns, DcfrParams};
use crate::rows::{rows_set, sum_row};
use crate::scalar::{lemma_sum_ext, s_match_eps, Scalar, Widen};
use crate::sweep::{
    fed_from, is_fed, kid_values, passed_row, passes_on, played_values, seat, settled, Lens,
};
use crate::terminal::TerminalSpot;
use crate::tree::{BOARD_RIVER, FlatTree, MAX_NA_POSTFLOP};
use crate::zone_pass::{bank_learned, zone_valued};
use crate::zones::{below_deal, deal_children, deals, dealt, lemma_deal_children, Zone, ZoneBook};

verus! {

/// Two sequences that agree before `k` and from `k` on are equal.
proof fn lemma_two_parts<T>(x: Seq<T>, y: Seq<T>, k: int)
    requires
        x.len() == y.len(),
        0 <= k <= x.len(),
        x.take(k) == y.take(k),
        x.skip(k) == y.skip(k),
    ensures
        x == y,
{
    assert(x =~= x.take(k) + x.skip(k));
    assert(y =~= y.take(k) + y.skip(k));
}

/// Two lists of `n` rows of `w` that agree entry by entry are equal.
proof fn lemma_entries_ext<T>(x: Seq<T>, y: Seq<T>, w: int, n: int)
    requires
        0 <= w,
        0 <= n,
        x.len() == n * w,
        y.len() == n * w,
        forall|a: int, h: int|
            0 <= a < n && 0 <= h < w ==> #[trigger] x[at(w, a, h)] == y[at(w, a, h)],
    ensures
        x == y,
{
    assert forall|k: int| 0 <= k < x.len() implies x[k] == y[k] by {
        let a = k / w;
        let h = k % w;
        assert(0 <= a < n && 0 <= h < w && k == a * w + h) by (nonlinear_arith)
            requires
                0 <= k < n * w,
                0 <= w,
                a == k / w,
                h == k % w,
        ;
        assert(x[at(w, a, h)] == y[at(w, a, h)]);
    }
    assert(x =~= y);
}

/// The actions of a decision fit its infoset's entries.
pub(crate) proof fn lemma_arity_room(tree: &FlatTree, i: int, w: int)
    requires
        tree.fits_postflop(),
        tree.is_node(i),
        tree.nodes@[i].is_player(),
        0 <= w,
    ensures
        0 <= tree.arity(i) * w <= room(w),
{
    assert(tree.arity(i) <= MAX_NA_POSTFLOP);
    assert(0 <= tree.arity(i) * w <= MAX_NA_POSTFLOP * w) by (nonlinear_arith)
        requires
            0 <= tree.arity(i) <= MAX_NA_POSTFLOP,
            0 <= w,
    ;
}

/// The entries of outcome `oa` in `a` are those of outcome `ob` in `b`.
pub open spec fn same_outcome<T>(
    a: Seq<T>,
    b: Seq<T>,
    w: int,
    infosets: int,
    oa: int,
    ob: int,
) -> bool {
    forall|g: int|
        0 <= g < infosets ==> #[trigger] row(a, room(w), at(infosets, oa, g)) == row(
            b,
            room(w),
            at(infosets, ob, g),
        )
}

/// The same entries give the same strategy.
pub(crate) proof fn lemma_same_strategy<T: Scalar>(
    tree: &FlatTree,
    zones: Seq<Zone>,
    zone: Zone,
    book: &ZoneBook,
    w: int,
    oa: int,
    ob: int,
    a: Seq<T>,
    b: Seq<T>,
    threshold: T,
    was: Seq<T>,
    sa: Seq<T>,
    sb: Seq<T>,
)
    requires
        tree.wf(),
        tree.fits_postflop(),
        book.of(tree, zones, zone),
        0 <= w,
        was.len() == book.infoset_count * room(w),
        same_outcome(a, b, w, book.infoset_count as int, oa, ob),
        strategy_of(tree, zones, zone, book, w, oa, a, threshold, was, sa),
        strategy_of(tree, zones, zone, book, w, ob, b, threshold, was, sb),
    ensures
        sa == sb,
{
    let infosets = book.infoset_count as int;
    assert forall|g: int| 0 <= g < infosets implies #[trigger] row(sa, room(w), g) == row(
        sb,
        room(w),
        g,
    ) by {
        let i = book.lemma_local_onto(tree, zones, zone, g);
        let n = tree.arity(i);
        assert(ZoneBook::owns(tree, zones, zone, i));
        assert(row(a, room(w), at(infosets, oa, g)) == row(b, room(w), at(infosets, ob, g)));
        lemma_arity_room(tree, i, w);
        lemma_row_inside(room(w), infosets, g);
        let x = block(sa, w, g, n);
        let y = block(sb, w, g, n);
        assert forall|c: int, h: int| 0 <= c < n && 0 <= h < w implies #[trigger] x[at(w, c, h)]
            == y[at(w, c, h)] by {}
        lemma_entries_ext(x, y, w, n);
        lemma_two_parts(row(sa, room(w), g), row(sb, room(w), g), n * w);
    }
    lemma_rows_ext(sa, sb, room(w), infosets);
}

/// The reach row of node `c` is the same in both.
proof fn lemma_same_reach_row<T: Scalar>(
    tree: &FlatTree,
    zones: Seq<Zone>,
    zone: Zone,
    through_deals: bool,
    book: &ZoneBook,
    lens: &Lens,
    strategy: Seq<T>,
    nh: int,
    start: spec_fn(int) -> Seq<T>,
    x: Seq<T>,
    y: Seq<T>,
    c: int,
)
    requires
        tree.wf(),
        tree.is_node(c),
        0 <= nh,
        is_zone_reach(tree, zones, zone, through_deals, book, lens, strategy, nh, start, x),
        is_zone_reach(tree, zones, zone, through_deals, book, lens, strategy, nh, start, y),
    ensures
        row(x, tree.np() * nh, c) == row(y, tree.np() * nh, c),
    decreases tree.level(c),
{
    let np = tree.np();
    let w = np * nh;
    if is_fed(tree, zones, zone, through_deals, c) {
        let (i, a) = choose|i: int, a: int| #[trigger]
            tree.is_parent(i, a, c) && passes_on(tree, zones, zone, through_deals, i);
        assert(tree.is_edge(i, a));
        assert(tree.edge_ok(i, a));
        lemma_same_reach_row(
            tree,
            zones,
            zone,
            through_deals,
            book,
            lens,
            strategy,
            nh,
            start,
            x,
            y,
            i,
        );
        assert(fed_from(tree, book, lens, strategy, np, nh, x, i));
        assert(fed_from(tree, book, lens, strategy, np, nh, y, i));
        assert(0 <= w) by (nonlinear_arith)
            requires
                0 <= np,
                0 <= nh,
                w == np * nh,
        ;
        lemma_row_inside(w, tree.size(), c);
        assert forall|p: int| 0 <= p < np implies #[trigger] row(row(x, w, c), nh, p) == row(
            row(y, w, c),
            nh,
            p,
        ) by {
            assert(seat(x, np, nh, tree.child(i, a), p) == passed_row(
                tree,
                book,
                lens,
                strategy,
                np,
                nh,
                x,
                i,
                a,
                p,
            ));
            assert(seat(y, np, nh, tree.child(i, a), p) == passed_row(
                tree,
                book,
                lens,
                strategy,
                np,
                nh,
                y,
                i,
                a,
                p,
            ));
        }
        lemma_rows_ext(row(x, w, c), row(y, w, c), nh, np);
    }
}

/// The same strategy gives the same reach.
pub(crate) proof fn lemma_same_reach<T: Scalar>(
    tree: &FlatTree,
    zones: Seq<Zone>,
    zone: Zone,
    through_deals: bool,
    book: &ZoneBook,
    lens: &Lens,
    strategy: Seq<T>,
    nh: int,
    start: spec_fn(int) -> Seq<T>,
    x: Seq<T>,
    y: Seq<T>,
)
    requires
        tree.wf(),
        0 <= nh,
        is_zone_reach(tree, zones, zone, through_deals, book, lens, strategy, nh, start, x),
        is_zone_reach(tree, zones, zone, through_deals, book, lens, strategy, nh, start, y),
    ensures
        x == y,
{
    let w = tree.np() * nh;
    assert(0 <= w) by (nonlinear_arith)
        requires
            0 <= tree.np(),
            0 <= nh,
            w == tree.np() * nh,
    ;
    assert forall|c: int| 0 <= c < tree.size() implies #[trigger] row(x, w, c) == row(y, w, c) by {
        lemma_same_reach_row(
            tree,
            zones,
            zone,
            through_deals,
            book,
            lens,
            strategy,
            nh,
            start,
            x,
            y,
            c,
        );
    }
    lemma_rows_ext(x, y, w, tree.size());
}

/// Every child of a node of the zone lies in the zone.
pub open spec fn is_closed(tree: &FlatTree, zones: Seq<Zone>, zone: Zone) -> bool {
    forall|i: int, a: int| #[trigger]
        tree.is_edge(i, a) && zones[i] == zone ==> zones[tree.child(i, a)] == zone
}

/// Below the zone, the two buffers hold the same values.
pub open spec fn same_beyond<T>(
    tree: &FlatTree,
    zones: Seq<Zone>,
    zone: Zone,
    nh: int,
    x: Seq<T>,
    y: Seq<T>,
) -> bool {
    forall|i: int, a: int| #[trigger]
        tree.is_edge(i, a) && zones[i] == zone && zones[tree.child(i, a)] != zone ==> row(
            x,
            nh,
            tree.child(i, a),
        ) == row(y, nh, tree.child(i, a))
}

/// Nothing is dealt after the river.
pub(crate) proof fn lemma_river_is_closed(tree: &FlatTree)
    requires
        tree.wf(),
    ensures
        is_closed(tree, zone_map(tree), Zone::River),
{
    assert forall|i: int, a: int| #[trigger]
        tree.is_edge(i, a) && zone_map(tree)[i] == Zone::River implies zone_map(tree)[tree.child(
        i,
        a,
    )] == Zone::River by {
        assert(tree.edge_ok(i, a));
        assert(dealt(tree, BOARD_RIVER, i));
        let (c, b) = choose|c: int, b: int| below_deal(tree, BOARD_RIVER, c, b, i);
        assert(tree.edge_ok(c, b));
        tree.lemma_subtree_step(tree.child(c, b), i, a);
        assert(below_deal(tree, BOARD_RIVER, c, b, tree.child(i, a)));
    }
}

/// The children of river deals lie in the river's zone.
pub(crate) proof fn lemma_river_marks(tree: &FlatTree, marks: Seq<u32>, c: int)
    requires
        tree.wf(),
        tree.is_node(c),
        marks.contains(c as u32),
        marks == deal_children(tree, BOARD_RIVER, tree.size() as nat),
    ensures
        zone_map(tree)[c] == Zone::River,
{
    lemma_deal_children(tree, BOARD_RIVER, tree.size() as nat);
    let (i, a) = choose|i: int, a: int|
        0 <= i < tree.size() && deals(tree, BOARD_RIVER, i) && #[trigger] tree.is_parent(i, a, c);
    assert(tree.is_edge(i, a));
    assert(tree.edge_ok(i, a));
    assert(tree.in_subtree(c, c));
    assert(below_deal(tree, BOARD_RIVER, i, a, c));
}

/// The values of node `i` are the same in both.
pub(crate) proof fn lemma_same_value<T: Scalar>(
    tree: &FlatTree,
    zones: Seq<Zone>,
    zone: Zone,
    book: &ZoneBook,
    lens: &Lens,
    strategy: Seq<T>,
    nh: int,
    traverser: u8,
    tv: spec_fn(int) -> Seq<T>,
    was_x: Seq<T>,
    x: Seq<T>,
    was_y: Seq<T>,
    y: Seq<T>,
    i: int,
)
    requires
        tree.wf(),
        same_beyond(tree, zones, zone, nh, x, y),
        0 <= nh,
        x.len() == tree.size() * nh,
        y.len() == tree.size() * nh,
        zone_valued(tree, zones, zone, book, lens, strategy, nh, traverser, tv, was_x, x),
        zone_valued(tree, zones, zone, book, lens, strategy, nh, traverser, tv, was_y, y),
        tree.is_node(i),
        zones[i] == zone,
    ensures
        row(x, nh, i) == row(y, nh, i),
    decreases tree.max_depth + 1 - tree.level(i),
{
    if !tree.nodes@[i].is_terminal() {
        let n = tree.arity(i) as nat;
        assert forall|a: int, h: int| 0 <= a < n && 0 <= h < nh implies #[trigger] x[at(
            nh,
            tree.child(i, a),
            h,
        )] == y[at(nh, tree.child(i, a), h)] by {
            assert(tree.is_edge(i, a));
            assert(tree.edge_ok(i, a));
            let c = tree.child(i, a);
            if zones[c] == zone {
                lemma_same_value(
                    tree,
                    zones,
                    zone,
                    book,
                    lens,
                    strategy,
                    nh,
                    traverser,
                    tv,
                    was_x,
                    x,
                    was_y,
                    y,
                    c,
                );
            }
            lemma_at_bound(nh, tree.size(), c, h);
            assert(row(x, nh, c)[h] == x[at(nh, c, h)]);
            assert(row(y, nh, c)[h] == y[at(nh, c, h)]);
        }
        lemma_row_inside(nh, tree.size(), i);
        assert forall|h: int| 0 <= h < nh implies row(x, nh, i)[h] == row(y, nh, i)[h] by {
            assert(settled(tree, book, lens, strategy, nh, traverser, x, x, i));
            assert(settled(tree, book, lens, strategy, nh, traverser, y, y, i));
            let kx = kid_values(tree, x, nh, i, h);
            let ky = kid_values(tree, y, nh, i, h);
            assert forall|a: int| 0 <= a < n implies #[trigger] kx(a) == ky(a) by {
                assert(x[at(nh, tree.child(i, a), h)] == y[at(nh, tree.child(i, a), h)]);
            }
            lemma_sum_ext(kx, ky, n);
            if let Some(b) = lens.column(h) {
                let w = lens.width as int;
                let px = played_values(tree, book.local(i), w, strategy, x, nh, i, h, b);
                let py = played_values(tree, book.local(i), w, strategy, y, nh, i, h, b);
                assert forall|a: int| 0 <= a < n implies #[trigger] px(a) == py(a) by {
                    assert(x[at(nh, tree.child(i, a), h)] == y[at(nh, tree.child(i, a), h)]);
                }
                lemma_sum_ext(px, py, n);
            }
            assert(x[at(nh, i, h)] == y[at(nh, i, h)]);
        }
        assert(row(x, nh, i) =~= row(y, nh, i));
    }
}

/// A row of outcome `o` belongs to a learner if its infoset does.
pub(crate) proof fn lemma_learner_row(
    tree: &FlatTree,
    zones: Seq<Zone>,
    zone: Zone,
    book: &ZoneBook,
    traverser: u8,
    o: int,
    o2: int,
    g: int,
)
    requires
        tree.wf(),
        book.of(tree, zones, zone),
        0 <= g < book.infoset_count,
    ensures
        is_learner_row(
            tree,
            zones,
            zone,
            book,
            traverser,
            o,
            at(book.infoset_count as int, o2, g),
        ) <==> o == o2 && (exists|i: int| #[trigger]
            learns(tree, zones, zone, traverser, i) && book.local(i) == g),
{
    let w = book.infoset_count as int;
    if is_learner_row(tree, zones, zone, book, traverser, o, at(w, o2, g)) {
        let i = choose|i: int| #[trigger]
            learns(tree, zones, zone, traverser, i) && at(w, o, book.local(i)) == at(w, o2, g);
        book.lemma_local(tree, zones, zone, i);
        lemma_at_inj(w, o, book.local(i), o2, g);
    }
}

/// From the same entries and the same values, the same is learned.
pub(crate) proof fn lemma_same_learned<T: Scalar>(
    tree: &FlatTree,
    zones: Seq<Zone>,
    zone: Zone,
    book: &ZoneBook,
    lens: &Lens,
    nh: int,
    traverser: u8,
    p: &DcfrParams<T>,
    x: Seq<T>,
    y: Seq<T>,
    oa: int,
    ob: int,
    a: &ZoneBank<T>,
    b: &ZoneBank<T>,
    a2: &ZoneBank<T>,
    b2: &ZoneBank<T>,
)
    requires
        tree.wf(),
        tree.fits_postflop(),
        book.of(tree, zones, zone),
        same_beyond(tree, zones, zone, nh, x, y),
        lens.width == nh,
        x.len() == tree.size() * nh,
        y.len() == tree.size() * nh,
        forall|i: int|
            tree.is_node(i) && zones[i] == zone ==> #[trigger] row(x, nh, i) == row(y, nh, i),
        a.for_book(book),
        b.for_book(book),
        a.width == nh,
        b.width == nh,
        0 <= oa < a.outcomes,
        0 <= ob < b.outcomes,
        a.strategy@ == b.strategy@,
        same_outcome(a.regrets@, b.regrets@, nh, book.infoset_count as int, oa, ob),
        same_outcome(a.cum@, b.cum@, nh, book.infoset_count as int, oa, ob),
        bank_learned(tree, zones, zone, book, lens, None, x, nh, traverser, p, oa, a, a2),
        bank_learned(tree, zones, zone, book, lens, None, y, nh, traverser, p, ob, b, b2),
    ensures
        same_outcome(a2.regrets@, b2.regrets@, nh, book.infoset_count as int, oa, ob),
        same_outcome(a2.cum@, b2.cum@, nh, book.infoset_count as int, oa, ob),
{
    let m = book.infoset_count as int;
    assert forall|g: int| 0 <= g < m implies #[trigger] row(a2.regrets@, room(nh), at(m, oa, g))
        == row(b2.regrets@, room(nh), at(m, ob, g)) && row(a2.cum@, room(nh), at(m, oa, g)) == row(
        b2.cum@,
        room(nh),
        at(m, ob, g),
    ) by {
        let ga = at(m, oa, g);
        let gb = at(m, ob, g);
        lemma_at_bound(m, a.outcomes as int, oa, g);
        lemma_at_bound(m, b.outcomes as int, ob, g);
        lemma_row_inside(room(nh), a.outcomes * m, ga);
        lemma_row_inside(room(nh), b.outcomes * m, gb);
        lemma_learner_row(tree, zones, zone, book, traverser, oa, oa, g);
        lemma_learner_row(tree, zones, zone, book, traverser, ob, ob, g);
        assert(row(a.regrets@, room(nh), ga) == row(b.regrets@, room(nh), gb));
        assert(row(a.cum@, room(nh), ga) == row(b.cum@, room(nh), gb));
        if is_learner_row(tree, zones, zone, book, traverser, oa, ga) {
            let i = choose|i: int| #[trigger]
                learns(tree, zones, zone, traverser, i) && book.local(i) == g;
            let n = tree.arity(i);
            lemma_arity_room(tree, i, nh);
            lemma_same_update(
                tree,
                zones,
                zone,
                lens,
                nh,
                p,
                x,
                y,
                a.strategy@,
                g,
                ga,
                gb,
                i,
                (a.regrets@, a.cum@),
                (b.regrets@, b.cum@),
                (a2.regrets@, a2.cum@),
                (b2.regrets@, b2.cum@),
            );
        } else {
            assert(row(a2.regrets@, room(nh), ga) == row(a.regrets@, room(nh), ga));
            assert(row(b2.regrets@, room(nh), gb) == row(b.regrets@, room(nh), gb));
            assert(row(a2.cum@, room(nh), ga) == row(a.cum@, room(nh), ga));
            assert(row(b2.cum@, room(nh), gb) == row(b.cum@, room(nh), gb));
        }
    }
    assert forall|g: int| 0 <= g < m implies #[trigger] row(a2.cum@, room(nh), at(m, oa, g)) == row(
        b2.cum@,
        room(nh),
        at(m, ob, g),
    ) by {
        assert(row(a2.regrets@, room(nh), at(m, oa, g)) == row(b2.regrets@, room(nh), at(m, ob, g)));
    }
}

/// One decision learns the same from the same.
proof fn lemma_same_update<T: Scalar>(
    tree: &FlatTree,
    zones: Seq<Zone>,
    zone: Zone,
    lens: &Lens,
    nh: int,
    p: &DcfrParams<T>,
    x: Seq<T>,
    y: Seq<T>,
    strategy: Seq<T>,
    local: int,
    ga: int,
    gb: int,
    i: int,
    a: (Seq<T>, Seq<T>),
    b: (Seq<T>, Seq<T>),
    a2: (Seq<T>, Seq<T>),
    b2: (Seq<T>, Seq<T>),
)
    requires
        tree.wf(),
        tree.fits_postflop(),
        same_beyond(tree, zones, zone, nh, x, y),
        lens.width == nh,
        ZoneBook::owns(tree, zones, zone, i),
        x.len() == tree.size() * nh,
        y.len() == tree.size() * nh,
        forall|j: int|
            tree.is_node(j) && zones[j] == zone ==> #[trigger] row(x, nh, j) == row(y, nh, j),
        row(a.0, room(nh), ga) == row(b.0, room(nh), gb),
        row(a.1, room(nh), ga) == row(b.1, room(nh), gb),
        row(a2.0, room(nh), ga).len() == room(nh),
        row(b2.0, room(nh), gb).len() == room(nh),
        row(a2.1, room(nh), ga).len() == room(nh),
        row(b2.1, room(nh), gb).len() == room(nh),
        learned_at(tree, lens, None, x, nh, p, strategy, local, ga, i, a.0, a.1, a2.0, a2.1),
        learned_at(tree, lens, None, y, nh, p, strategy, local, gb, i, b.0, b.1, b2.0, b2.1),
    ensures
        row(a2.0, room(nh), ga) == row(b2.0, room(nh), gb),
        row(a2.1, room(nh), ga) == row(b2.1, room(nh), gb),
{
    let n = tree.arity(i);
    lemma_arity_room(tree, i, nh);
    assert forall|c: int, h: int| 0 <= c < n && 0 <= h < nh implies #[trigger] block(
        a2.0,
        nh,
        ga,
        n,
    )[at(nh, c, h)] == block(b2.0, nh, gb, n)[at(nh, c, h)] by {
        assert(tree.is_edge(i, c));
        assert(tree.edge_ok(i, c));
        let k = tree.child(i, c);
        lemma_at_bound(nh, tree.size(), k, h);
        lemma_at_bound(nh, tree.size(), i, h);
        assert(row(x, nh, k)[h] == x[at(nh, k, h)] && row(y, nh, k)[h] == y[at(nh, k, h)]);
        assert(row(x, nh, i)[h] == x[at(nh, i, h)] && row(y, nh, i)[h] == y[at(nh, i, h)]);
        assert(row(x, nh, k) == row(y, nh, k));
        assert(row(x, nh, i) == row(y, nh, i));
        assert(block(b2.0, nh, gb, n)[at(nh, c, h)] == block(b2.0, nh, gb, n)[at(nh, c, h)]);
    }
    lemma_entries_ext(block(a2.0, nh, ga, n), block(b2.0, nh, gb, n), nh, n);
    assert forall|c: int, h: int| 0 <= c < n && 0 <= h < nh implies #[trigger] block(
        a2.1,
        nh,
        ga,
        n,
    )[at(nh, c, h)] == block(b2.1, nh, gb, n)[at(nh, c, h)] by {
        assert(block(b2.1, nh, gb, n)[at(nh, c, h)] == block(b2.1, nh, gb, n)[at(nh, c, h)]);
    }
    lemma_entries_ext(block(a2.1, nh, ga, n), block(b2.1, nh, gb, n), nh, n);
    assert(spare(a2.0, nh, ga, n) == spare(b2.0, nh, gb, n));
    assert(spare(a2.1, nh, ga, n) == spare(b2.1, nh, gb, n));
    lemma_two_parts(row(a2.0, room(nh), ga), row(b2.0, room(nh), gb), n * nh);
    lemma_two_parts(row(a2.1, room(nh), ga), row(b2.1, room(nh), gb), n * nh);
}

/// A slice of one outcome holds the outcome's entries.
proof fn lemma_slice_outcome<T>(slice: Seq<T>, big: Seq<T>, w: int, infosets: int, outcomes: int, o: int)
    requires
        0 <= w,
        0 <= infosets,
        0 <= o < outcomes,
        big.len() == outcomes * infosets * room(w),
        slice.len() == infosets * room(w),
    ensures
        slice == row(big, infosets * room(w), o) <==> same_outcome(slice, big, w, infosets, 0, o),
{
    assert forall|g: int| 0 <= g < infosets implies #[trigger] row(
        slice,
        room(w),
        at(infosets, 0, g),
    ) == row(slice, room(w), g) by {}
    assert forall|g: int| 0 <= g < infosets implies row(big, room(w), at(infosets, o, g)) == row(
        #[trigger] row(big, infosets * room(w), o),
        room(w),
        g,
    ) by {
        lemma_row_of_row(big, room(w), infosets, outcomes, o, g);
    }
    if same_outcome(slice, big, w, infosets, 0, o) {
        let mine = row(big, infosets * room(w), o);
        assert forall|g: int| 0 <= g < infosets implies #[trigger] row(slice, room(w), g) == row(
            mine,
            room(w),
            g,
        ) by {
            lemma_row_of_row(big, room(w), infosets, outcomes, o, g);
            assert(row(slice, room(w), at(infosets, 0, g)) == row(
                big,
                room(w),
                at(infosets, o, g),
            ));
        }
        assert(0 <= infosets * room(w)) by (nonlinear_arith)
            requires
                0 <= infosets,
                0 <= room(w),
        ;
        assert(outcomes * infosets * room(w) == outcomes * (infosets * room(w)))
            by (nonlinear_arith);
        lemma_row_inside(infosets * room(w), outcomes, o);
        lemma_rows_ext(slice, mine, room(w), infosets);
    }
}

/// What is learned in one outcome leaves the others alone.
proof fn lemma_other_outcome<T: Scalar>(
    tree: &FlatTree,
    zones: Seq<Zone>,
    zone: Zone,
    book: &ZoneBook,
    lens: &Lens,
    nh: int,
    traverser: u8,
    p: &DcfrParams<T>,
    v: Seq<T>,
    o: int,
    e: int,
    was: &ZoneBank<T>,
    bank: &ZoneBank<T>,
)
    requires
        tree.wf(),
        book.of(tree, zones, zone),
        was.for_book(book),
        was.width == nh,
        0 <= e < was.outcomes,
        e != o,
        bank_learned(tree, zones, zone, book, lens, None, v, nh, traverser, p, o, was, bank),
    ensures
        row(bank.regrets@, was.infosets * room(nh), e) == row(
            was.regrets@,
            was.infosets * room(nh),
            e,
        ),
        row(bank.cum@, was.infosets * room(nh), e) == row(was.cum@, was.infosets * room(nh), e),
{
    let k = was.infosets as int;
    let n = was.outcomes as int;
    let size = k * room(nh);
    assert(n * k * room(nh) == n * size) by (nonlinear_arith)
        requires
            size == k * room(nh),
    ;
    assert(0 <= size) by (nonlinear_arith)
        requires
            size == k * room(nh),
            0 <= k,
            0 <= room(nh),
    ;
    lemma_row_inside(size, n, e);
    let x = (row(bank.regrets@, size, e), row(bank.cum@, size, e));
    let y = (row(was.regrets@, size, e), row(was.cum@, size, e));
    assert forall|g: int| 0 <= g < k implies #[trigger] row(x.0, room(nh), g) == row(
        y.0,
        room(nh),
        g,
    ) by {
        lemma_row_of_row(bank.regrets@, room(nh), k, n, e, g);
        lemma_row_of_row(was.regrets@, room(nh), k, n, e, g);
        lemma_learner_row(tree, zones, zone, book, traverser, o, e, g);
        lemma_at_bound(k, n, e, g);
    }
    assert forall|g: int| 0 <= g < k implies #[trigger] row(x.1, room(nh), g) == row(
        y.1,
        room(nh),
        g,
    ) by {
        lemma_row_of_row(bank.cum@, room(nh), k, n, e, g);
        lemma_row_of_row(was.cum@, room(nh), k, n, e, g);
        lemma_learner_row(tree, zones, zone, book, traverser, o, e, g);
        lemma_at_bound(k, n, e, g);
    }
    lemma_rows_ext(x.0, y.0, room(nh), k);
    lemma_rows_ext(x.1, y.1, room(nh), k);
}

impl<T: Widen> FlopStartVectorCfr<T> {
    /// The entries of one turn and river pair in a buffer of all pairs.
    pub open spec fn pair_row(&self, buf: Seq<T>, o: int) -> Seq<T> {
        row(buf, self.river.infosets * room(self.nh as int), o)
    }

    /// This solver is `m`, but holds the river entries of one pair only.
    pub open spec fn is_pair_of(&self, m: &Self, tc: int, rc: int) -> bool {
        let o = at(m.max_n_river as int, tc, rc);
        &&& *self == (FlopStartVectorCfr {
            river: self.river,
            river_mode: self.river_mode,
            current_river_pair: self.current_river_pair,
            ..*m
        })
        &&& m.river_mode.in_memory()
        &&& !self.river_mode.in_memory()
        &&& self.holds_outcome(Zone::River, tc, rc)
        &&& self.river.strategy@ == m.river.strategy@
        &&& self.river.regrets@ == m.pair_row(m.river.regrets@, o)
        &&& self.river.cum@ == m.pair_row(m.river.cum@, o)
    }

    /// Playing one pair from its own entries is playing it in memory: the same values
    /// come out, the same is learned, and in memory no other pair's entries change.
    pub proof fn law_pair_plays_as_in_memory<F: Fn(&TerminalSpot<T>) -> Vec<T>>(
        &self,
        m: &Self,
        at_: &Setting<T, F>,
        tc: int,
        rc: int,
        turn_reach: Seq<T>,
        acc0: Seq<T>,
        acc: Seq<T>,
        s: &Self,
        acc_m: Seq<T>,
        sm: &Self,
    )
        requires
            self.wf(at_.tree),
            m.wf(at_.tree),
            self.is_pair_of(m, tc, rc),
            acc0.len() == at_.tree.size() * self.nh,
            self.river_step(at_, &Play::Regrets, tc, rc, turn_reach, acc0, acc, s),
            m.river_step(at_, &Play::Regrets, tc, rc, turn_reach, acc0, acc_m, sm),
            s.wf(at_.tree),
            sm.wf(at_.tree),
        ensures
            acc == acc_m,
            s.is_pair_of(sm, tc, rc),
            forall|o: int|
                0 <= o < m.n_turn * m.max_n_river && o != at(m.max_n_river as int, tc, rc)
                    ==> #[trigger] m.pair_row(sm.river.regrets@, o) == m.pair_row(
                    m.river.regrets@,
                    o,
                ),
            forall|o: int|
                0 <= o < m.n_turn * m.max_n_river && o != at(m.max_n_river as int, tc, rc)
                    ==> #[trigger] m.pair_row(sm.river.cum@, o) == m.pair_row(m.river.cum@, o),
    {
        let tree = at_.tree;
        let play = Play::Regrets;
        let nh = self.nh as int;
        let zones = self.zones@;
        let infosets = self.river.infosets as int;
        let o = at(m.max_n_river as int, tc, rc);
        self.lemma_outcome(tree, Zone::River, tc, rc);
        m.lemma_outcome(tree, Zone::River, tc, rc);
        lemma_slice_outcome(
            self.river.regrets@,
            m.river.regrets@,
            nh,
            infosets,
            m.river.outcomes as int,
            o,
        );
        lemma_slice_outcome(
            self.river.cum@,
            m.river.cum@,
            nh,
            infosets,
            m.river.outcomes as int,
            o,
        );
        let (a, ra, wa, x) = choose|a: Self, ra: Seq<T>, wa: Seq<T>, x: Seq<T>|
            {
                &&& self.prepared(tree, &play, Zone::River, tc, rc, &a)
                &&& a.is_river_reach(tree, turn_reach, ra)
                &&& wa.len() == tree.size() * self.nh
                &&& #[trigger] a.passed(at_, Zone::River, tc, rc, ra, wa, x, s)
                &&& rows_set(
                    acc0,
                    acc,
                    nh,
                    tree.size(),
                    self.river_chance_children@,
                    sum_row(
                        acc0,
                        river_chances(at_.table, at_.table.remaining_deck@[tc] as int, rc),
                        x,
                        nh,
                    ),
                )
            };
        let (b, rb, wb, y) = choose|b: Self, rb: Seq<T>, wb: Seq<T>, y: Seq<T>|
            {
                &&& m.prepared(tree, &play, Zone::River, tc, rc, &b)
                &&& b.is_river_reach(tree, turn_reach, rb)
                &&& wb.len() == tree.size() * m.nh
                &&& #[trigger] b.passed(at_, Zone::River, tc, rc, rb, wb, y, sm)
                &&& rows_set(
                    acc0,
                    acc_m,
                    nh,
                    tree.size(),
                    m.river_chance_children@,
                    sum_row(
                        acc0,
                        river_chances(at_.table, at_.table.remaining_deck@[tc] as int, rc),
                        y,
                        nh,
                    ),
                )
            };
        lemma_same_strategy(
            tree,
            zones,
            Zone::River,
            &self.river_book,
            nh,
            0,
            o,
            self.river.regrets@,
            m.river.regrets@,
            s_match_eps::<T>(),
            self.river.strategy@,
            a.river.strategy@,
            b.river.strategy@,
        );
        lemma_same_reach(
            tree,
            zones,
            Zone::River,
            false,
            &self.river_book,
            &self.lens,
            a.river.strategy@,
            nh,
            from_marks(self.river_chance_children@, turn_reach, tree.np() * nh),
            ra,
            rb,
        );
        lemma_river_is_closed(tree);
        let tv = at_.terminal_row(dealt_in(at_.table, Zone::River, tc, rc), ra);
        assert forall|i: int| tree.is_node(i) && zones[i] == Zone::River implies #[trigger] row(
            x,
            nh,
            i,
        ) == row(y, nh, i) by {
            lemma_same_value(
                tree,
                zones,
                Zone::River,
                &self.river_book,
                &self.lens,
                a.river.strategy@,
                nh,
                at_.traverser,
                tv,
                wa,
                x,
                wb,
                y,
                i,
            );
        }
        assert forall|i: int| 0 <= i < tree.size() implies #[trigger] row(acc, nh, i) == row(
            acc_m,
            nh,
            i,
        ) by {
            if self.river_chance_children@.contains(i as u32) {
                lemma_river_marks(tree, self.river_chance_children@, i);
                assert(row(x, nh, i) == row(y, nh, i));
            }
        }
        lemma_rows_ext(acc, acc_m, nh, tree.size());
        if !self.continuation_frozen {
            lemma_same_learned(
                tree,
                zones,
                Zone::River,
                &self.river_book,
                &self.lens,
                nh,
                at_.traverser,
                &at_.params,
                x,
                y,
                0,
                o,
                &a.river,
                &b.river,
                &s.river,
                &sm.river,
            );
        }
        lemma_slice_outcome(
            s.river.regrets@,
            sm.river.regrets@,
            nh,
            infosets,
            m.river.outcomes as int,
            o,
        );
        lemma_slice_outcome(
            s.river.cum@,
            sm.river.cum@,
            nh,
            infosets,
            m.river.outcomes as int,
            o,
        );
        assert forall|e: int| 0 <= e < m.n_turn * m.max_n_river && e != o implies #[trigger] m.pair_row(
            sm.river.regrets@,
            e,
        ) == m.pair_row(m.river.regrets@, e) && m.pair_row(sm.river.cum@, e) == m.pair_row(
            m.river.cum@,
            e,
        ) by {
            if !self.continuation_frozen {
                lemma_other_outcome(
                    tree,
                    zones,
                    Zone::River,
                    &self.river_book,
                    &self.lens,
                    nh,
                    at_.traverser,
                    &at_.params,
                    y,
                    o,
                    e,
                    &b.river,
                    &sm.river,
                );
            }
        }
        assert forall|e: int| 0 <= e < m.n_turn * m.max_n_river && e != o implies #[trigger] m.pair_row(
            sm.river.cum@,
            e,
        ) == m.pair_row(m.river.cum@, e) by {
            assert(m.pair_row(sm.river.regrets@, e) == m.pair_row(m.river.regrets@, e));
        }
    }
}

} // verus!
