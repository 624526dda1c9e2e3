//! Top-down and bottom-up sweeps over one zone.
//!
//! Reach keeps, per node, one row of hands for each player; values keep one row
//! of hands per node. Strategies are looked up through a [`Lens`], which says
//! which strategy column a hand plays.
use vstd::prelude::*;

use crate::bank::room;
use crate::layout::{
    at, cell, copy_run, lemma_at_bound, lemma_cell_bound, lemma_other_row, lemma_row_inside,
    only_row, row,
};
use crate::scalar::{filled, lemma_sum_ext, sum_upto, Scalar};
use crate::tree::{FlatTree, MAX_NA_POSTFLOP};
use crate::zones::{Zone, ZoneBook};

verus! {

/// The column of a hand that has none.
pub const NO_BUCKET: u16 = u16::MAX;

/// Which strategy column each hand plays.
pub struct Lens {
    pub width: usize,
    pub of: Vec<u16>,
}

impl Lens {
    /// One entry per hand, each a column or [`NO_BUCKET`].
    pub open spec fn wf(&self, nh: int) -> bool {
        &&& self.of@.len() == nh
        &&& forall|h: int|
            0 <= h < nh ==> (#[trigger] self.of@[h]) == NO_BUCKET || self.of@[h] < self.width
    }

    /// The column of hand `h`.
    pub open spec fn column(&self, h: int) -> Option<int> {
        if self.of@[h] == NO_BUCKET {
            None
        } else {
            Some(self.of@[h] as int)
        }
    }

    /// Every hand has a column of its own.
    pub open spec fn is_identity(&self, nh: int) -> bool {
        &&& self.width == nh
        &&& self.of@.len() == nh
        &&& forall|h: int| 0 <= h < nh ==> (#[trigger] self.of@[h]) == h
    }

    /// The lens that keeps `nh` hands apart.
    pub fn identity(nh: usize) -> (lens: Lens)
        requires
            nh <= NO_BUCKET,
        ensures
            lens.is_identity(nh as int),
            lens.wf(nh as int),
    {
        let mut of: Vec<u16> = Vec::new();
        let mut h: usize = 0;
        while h < nh
            invariant
                h <= nh <= NO_BUCKET,
                of@.len() == h,
                forall|g: int| 0 <= g < h ==> (#[trigger] of@[g]) == g,
            decreases nh - h,
        {
            of.push(h as u16);
            h += 1;
        }
        Lens { width: nh, of }
    }
}

/// The reach row of player `p` at node `i`.
pub open spec fn seat<T>(reach: Seq<T>, np: int, nh: int, i: int, p: int) -> Seq<T> {
    row(row(reach, np * nh, i), nh, p)
}

/// The strategy entry that hand `h` plays action `a` with at infoset `local`.
pub open spec fn played<T: Scalar>(
    lens: &Lens,
    strategy: Seq<T>,
    local: int,
    a: int,
    h: int,
) -> Option<T> {
    match lens.column(h) {
        Some(b) => Some(strategy[cell(lens.width as int, local, a, b)]),
        None => None,
    }
}

/// A reach row after its owner took action `a`: every hand times the
/// probability that it takes it, zero for a hand without a column.
pub open spec fn acted_row<T: Scalar>(
    lens: &Lens,
    strategy: Seq<T>,
    local: int,
    a: int,
    before: Seq<T>,
) -> Seq<T> {
    Seq::new(
        before.len(),
        |h: int|
            match played(lens, strategy, local, a, h) {
                Some(s) => before[h].s_times(s),
                None => T::s_zero(),
            },
    )
}

/// The reach row that player `p` has at child `a` of node `i`.
pub open spec fn passed_row<T: Scalar>(
    tree: &FlatTree,
    book: &ZoneBook,
    lens: &Lens,
    strategy: Seq<T>,
    np: int,
    nh: int,
    reach: Seq<T>,
    i: int,
    a: int,
    p: int,
) -> Seq<T> {
    if tree.nodes@[i].is_player() && tree.nodes@[i].player_id == p {
        acted_row(lens, strategy, book.local(i), a, seat(reach, np, nh, i, p))
    } else {
        seat(reach, np, nh, i, p)
    }
}

/// Node `i` hands its reach on to its children.
pub open spec fn passes_on(
    tree: &FlatTree,
    zones: Seq<Zone>,
    zone: Zone,
    through_deals: bool,
    i: int,
) -> bool {
    tree.is_node(i) && zones[i] == zone && (tree.nodes@[i].is_player() || (through_deals
        && tree.nodes@[i].is_chance()))
}

/// Node `c` gets its reach from its parent.
pub open spec fn is_fed(
    tree: &FlatTree,
    zones: Seq<Zone>,
    zone: Zone,
    through_deals: bool,
    c: int,
) -> bool {
    exists|i: int, a: int| #[trigger]
        tree.is_parent(i, a, c) && passes_on(tree, zones, zone, through_deals, i)
}

/// The children of node `i` have the reach that `i` hands on.
pub open spec fn fed_from<T: Scalar>(
    tree: &FlatTree,
    book: &ZoneBook,
    lens: &Lens,
    strategy: Seq<T>,
    np: int,
    nh: int,
    reach: Seq<T>,
    i: int,
) -> bool {
    forall|a: int, p: int|
        0 <= a < tree.arity(i) && 0 <= p < np ==> #[trigger] seat(
            reach,
            np,
            nh,
            tree.child(i, a),
            p,
        ) == passed_row(tree, book, lens, strategy, np, nh, reach, i, a, p)
}

/// Hands the reach of node `src` on to node `dst`, through action `a` of
/// infoset `local` for player `player`, if there is one.
fn push_reach<T: Scalar>(
    lens: &Lens,
    strategy: &Vec<T>,
    reach: &mut Vec<T>,
    np: usize,
    nh: usize,
    nodes: usize,
    src: usize,
    dst: usize,
    player: Option<usize>,
    local: usize,
    a: usize,
    infosets: usize,
)
    requires
        lens.wf(nh as int),
        src < nodes,
        dst < nodes,
        src != dst,
        old(reach)@.len() == nodes * (np * nh),
        player matches Some(q) ==> q < np && local < infosets && a < MAX_NA_POSTFLOP
            && strategy@.len() == infosets * room(lens.width as int),
    ensures
        only_row(old(reach)@, final(reach)@, np * nh, dst as int),
        forall|p: int|
            0 <= p < np ==> #[trigger] seat(final(reach)@, np as int, nh as int, dst as int, p)
                == if player == Some(p as usize) {
                acted_row(
                    lens,
                    strategy@,
                    local as int,
                    a as int,
                    seat(old(reach)@, np as int, nh as int, src as int, p),
                )
            } else {
                seat(old(reach)@, np as int, nh as int, src as int, p)
            },
{
    let ghost before = reach@;
    let ghost npi = np as int;
    let ghost nhi = nh as int;
    let ghost big = npi * nhi;
    let ghost w = lens.width as int;
    let total: usize = reach.len();
    let str_total: usize = strategy.len();
    proof {
        lemma_row_inside(big, nodes as int, src as int);
        lemma_row_inside(big, nodes as int, dst as int);
        assert(0 <= big) by (nonlinear_arith)
            requires
                big == npi * nhi,
                0 <= npi,
                0 <= nhi,
        ;
        if src < dst {
            assert(src * big + big <= dst * big) by (nonlinear_arith)
                requires
                    src < dst,
                    0 <= big,
            ;
        } else {
            assert(dst * big + big <= src * big) by (nonlinear_arith)
                requires
                    dst < src,
                    0 <= big,
            ;
        }
    }
    let one: usize = np * nh;
    let s0: usize = src * one;
    let d0: usize = dst * one;
    let mut p: usize = 0;
    while p < np
        invariant
            p <= np,
            npi == np,
            nhi == nh,
            big == npi * nhi,
            one == big,
            w == lens.width,
            0 <= big,
            s0 == src * big,
            d0 == dst * big,
            s0 + big <= total,
            d0 + big <= total,
            s0 + big <= d0 || d0 + big <= s0,
            total == reach@.len(),
            reach@.len() == before.len(),
            str_total == strategy@.len(),
            lens.wf(nhi),
            player matches Some(q) ==> q < np && local < infosets && a < MAX_NA_POSTFLOP
                && strategy@.len() == infosets * room(w),
            only_row(before, reach@, big, dst as int),
            forall|q: int|
                0 <= q < p ==> #[trigger] seat(reach@, npi, nhi, dst as int, q) == if player
                    == Some(q as usize) {
                    acted_row(
                        lens,
                        strategy@,
                        local as int,
                        a as int,
                        seat(before, npi, nhi, src as int, q),
                    )
                } else {
                    seat(before, npi, nhi, src as int, q)
                },
        decreases np - p,
    {
        let acts: bool = match player {
            Some(q) => q == p,
            None => false,
        };
        let ghost start = reach@;
        let ghost from = seat(before, npi, nhi, src as int, p as int);
        let ghost goal = if player == Some(p) {
            acted_row(lens, strategy@, local as int, a as int, from)
        } else {
            from
        };
        proof {
            lemma_row_inside(nhi, npi, p as int);
        }
        let mut h: usize = 0;
        while h < nh
            invariant
                h <= nh,
                p < np,
                npi == np,
                nhi == nh,
                big == npi * nhi,
                w == lens.width,
                s0 == src * big,
                d0 == dst * big,
                s0 + big <= total,
                d0 + big <= total,
                s0 + big <= d0 || d0 + big <= s0,
                0 <= p * nhi,
                p * nhi + nhi <= big,
                total == reach@.len(),
                reach@.len() == before.len(),
                start.len() == before.len(),
                str_total == strategy@.len(),
                lens.wf(nhi),
                acts == (player == Some(p)),
                player matches Some(q) ==> q < np && local < infosets && a < MAX_NA_POSTFLOP
                    && strategy@.len() == infosets * room(w),
                only_row(before, start, big, dst as int),
                from == seat(before, npi, nhi, src as int, p as int),
                from.len() == nhi,
                goal.len() == nhi,
                goal == if player == Some(p) {
                    acted_row(lens, strategy@, local as int, a as int, from)
                } else {
                    from
                },
                forall|j: int|
                    0 <= j < total && !(d0 + p * nhi <= j < d0 + p * nhi + h)
                        ==> #[trigger] reach@[j] == start[j],
                forall|j: int|
                    d0 + p * nhi <= j < d0 + p * nhi + h ==> #[trigger] reach@[j] == goal[j - (d0 + p
                        * nhi)],
            decreases nh - h,
        {
            let v = reach[s0 + (p * nh + h)];
            assert(v == from[h as int]);
            let x = if acts {
                let c: u16 = lens.of[h];
                if c == NO_BUCKET {
                    T::zero()
                } else {
                    proof {
                        lemma_cell_bound(w, infosets as int, local as int, a as int, c as int);
                        assert(infosets * MAX_NA_POSTFLOP * w == infosets * room(w))
                            by (nonlinear_arith)
                            requires
                                room(w) == MAX_NA_POSTFLOP * w,
                        ;
                        assert(local * MAX_NA_POSTFLOP + a <= usize::MAX) by {
                            assert(local * MAX_NA_POSTFLOP + a <= (local * MAX_NA_POSTFLOP + a) * w)
                                by (nonlinear_arith)
                                requires
                                    w >= 1,
                                    local >= 0,
                                    a >= 0,
                            ;
                        }
                    }
                    let s = strategy[(local * MAX_NA_POSTFLOP + a) * lens.width + c as usize];
                    v.times(s)
                }
            } else {
                v
            };
            assert(x == goal[h as int]);
            reach[d0 + (p * nh + h)] = x;
            h += 1;
        }
        proof {
            assert(seat(reach@, npi, nhi, dst as int, p as int) =~= goal);
            assert forall|q: int| 0 <= q < p implies #[trigger] seat(
                reach@,
                npi,
                nhi,
                dst as int,
                q,
            ) == seat(start, npi, nhi, dst as int, q) by {
                lemma_row_inside(nhi, npi, q);
                assert(q * nhi + nhi <= p * nhi) by (nonlinear_arith)
                    requires
                        q < p,
                        0 <= nhi,
                ;
                assert(seat(reach@, npi, nhi, dst as int, q) =~= seat(
                    start,
                    npi,
                    nhi,
                    dst as int,
                    q,
                ));
            }
        }
        p += 1;
    }
}

/// Node `i` comes before place `k` of level `d` in level order.
spec fn seen(tree: &FlatTree, d: int, k: int, i: int) -> bool {
    tree.level(i) < d || exists|m: int| 0 <= m < k && tree.at_level(d, m, i)
}

/// A node of level `d` that was seen is one of the first `k`.
proof fn lemma_seen_level(tree: &FlatTree, d: int, i: int)
    requires
        tree.wf(),
        tree.is_node(i),
        0 <= d <= tree.max_depth,
    ensures
        seen(tree, d, tree.levels@[d]@.len() as int, i) == seen(tree, d + 1, 0, i),
        seen(tree, d, tree.levels@[d]@.len() as int, i) == (tree.level(i) <= d),
{
    if tree.level(i) == d {
        assert(tree.levels@[tree.level(i)]@.contains(i as u32));
        let m = choose|m: int|
            0 <= m < tree.levels@[d]@.len() && tree.levels@[d]@[m] == i as u32;
        assert(tree.at_level(d, m, i));
    }
    if exists|m: int| 0 <= m < tree.levels@[d]@.len() && tree.at_level(d, m, i) {
        let m = choose|m: int| 0 <= m < tree.levels@[d]@.len() && tree.at_level(d, m, i);
        assert(tree.level_entry_ok(d, m));
    }
}

/// Node `c` hangs under a node that has already handed its reach on.
spec fn fed_by_seen(
    tree: &FlatTree,
    zones: Seq<Zone>,
    zone: Zone,
    through_deals: bool,
    d: int,
    k: int,
    c: int,
) -> bool {
    exists|i: int, a: int| #[trigger]
        tree.is_parent(i, a, c) && passes_on(tree, zones, zone, through_deals, i) && seen(
            tree,
            d,
            k,
            i,
        )
}

/// Hands reach down through a zone: every child of a zone decision gets its
/// parent's reach, the acting player's part times the probability of the
/// action; with `through_deals`, children of deals get their parent's reach as
/// it is.
pub fn propagate<T: Scalar>(
    tree: &FlatTree,
    zones: &Vec<Zone>,
    zone: Zone,
    through_deals: bool,
    book: &ZoneBook,
    lens: &Lens,
    strategy: &Vec<T>,
    nh: usize,
    reach: &mut Vec<T>,
)
    requires
        tree.wf(),
        tree.fits_postflop(),
        zones@.len() == tree.size(),
        book.of(tree, zones@, zone),
        lens.wf(nh as int),
        strategy@.len() == book.infoset_count * room(lens.width as int),
        old(reach)@.len() == tree.size() * (tree.np() * nh),
    ensures
        final(reach)@.len() == old(reach)@.len(),
        forall|i: int| #[trigger]
            passes_on(tree, zones@, zone, through_deals, i) ==> fed_from(
                tree,
                book,
                lens,
                strategy@,
                tree.np(),
                nh as int,
                final(reach)@,
                i,
            ),
        forall|c: int|
            tree.is_node(c) && !is_fed(tree, zones@, zone, through_deals, c) ==> #[trigger] row(
                final(reach)@,
                tree.np() * nh,
                c,
            ) == row(old(reach)@, tree.np() * nh, c),
{
    let ghost np = tree.np();
    let ghost nhi = nh as int;
    let ghost big = np * nhi;
    let ghost old_reach = reach@;
    let ghost zs = zones@;
    let nn: usize = tree.num_nodes();
    let npu: usize = tree.num_players as usize;
    assert(0 <= big) by (nonlinear_arith)
        requires
            big == np * nhi,
            0 <= np,
            0 <= nhi,
    ;
    proof {
        assert forall|c: int| !fed_by_seen(tree, zs, zone, through_deals, 0, 0, c) by {
            if fed_by_seen(tree, zs, zone, through_deals, 0, 0, c) {
                let (i, a) = choose|i: int, a: int| #[trigger]
                    tree.is_parent(i, a, c) && passes_on(tree, zs, zone, through_deals, i) && seen(
                        tree,
                        0,
                        0,
                        i,
                    );
            }
        }
    }
    let mut d: usize = 0;
    while d < tree.levels.len()
        invariant
            d <= tree.levels@.len(),
            tree.wf(),
            tree.fits_postflop(),
            zs == zones@,
            zs.len() == tree.size(),
            book.of(tree, zs, zone),
            lens.wf(nhi),
            np == tree.np(),
            npu == np,
            nhi == nh,
            nn == tree.size(),
            big == np * nhi,
            0 <= big,
            strategy@.len() == book.infoset_count * room(lens.width as int),
            reach@.len() == nn * big,
            old_reach.len() == nn * big,
            forall|i: int| #[trigger]
                passes_on(tree, zs, zone, through_deals, i) && seen(tree, d as int, 0, i)
                    ==> fed_from(tree, book, lens, strategy@, np, nhi, reach@, i),
            forall|c: int|
                tree.is_node(c) && !fed_by_seen(tree, zs, zone, through_deals, d as int, 0, c)
                    ==> #[trigger] row(reach@, big, c) == row(old_reach, big, c),
        decreases tree.levels@.len() - d,
    {
        let level = &tree.levels[d];
        let mut k: usize = 0;
        while k < level.len()
            invariant
                k <= level@.len(),
                d < tree.levels@.len(),
                level@ == tree.levels@[d as int]@,
                tree.wf(),
                tree.fits_postflop(),
                zs == zones@,
                zs.len() == tree.size(),
                book.of(tree, zs, zone),
                lens.wf(nhi),
                np == tree.np(),
                npu == np,
                nhi == nh,
                nn == tree.size(),
                big == np * nhi,
                0 <= big,
                strategy@.len() == book.infoset_count * room(lens.width as int),
                reach@.len() == nn * big,
                old_reach.len() == nn * big,
                forall|i: int| #[trigger]
                    passes_on(tree, zs, zone, through_deals, i) && seen(
                        tree,
                        d as int,
                        k as int,
                        i,
                    ) ==> fed_from(tree, book, lens, strategy@, np, nhi, reach@, i),
                forall|c: int|
                    tree.is_node(c) && !fed_by_seen(
                        tree,
                        zs,
                        zone,
                        through_deals,
                        d as int,
                        k as int,
                        c,
                    ) ==> #[trigger] row(reach@, big, c) == row(old_reach, big, c),
            decreases level@.len() - k,
        {
            let idx: usize = level[k] as usize;
            let ghost x = idx as int;
            assert(tree.level_entry_ok(d as int, k as int));
            assert(tree.node_ok(x));
            let ghost start = reach@;
            let plays: bool = tree.nodes[idx].is_player();
            let passes: bool = zones[idx] == zone && (plays || (through_deals
                && tree.nodes[idx].is_chance()));
            assert(passes == passes_on(tree, zs, zone, through_deals, x));
            if passes {
                let player: Option<usize> = if plays {
                    Some(tree.nodes[idx].player_id as usize)
                } else {
                    None
                };
                let local: usize = book.local_offset[idx];
                proof {
                    if plays {
                        assert(ZoneBook::owns(tree, zs, zone, x));
                        book.lemma_local(tree, zs, zone, x);
                    }
                }
                let n: usize = tree.nodes[idx].num_children as usize;
                let mut a: usize = 0;
                while a < n
                    invariant
                        a <= n,
                        n == tree.arity(x),
                        x == idx,
                        tree.wf(),
                        tree.fits_postflop(),
                        tree.is_node(x),
                        lens.wf(nhi),
                        np == tree.np(),
                        npu == np,
                        nhi == nh,
                        nn == tree.size(),
                        big == np * nhi,
                        0 <= big,
                        plays == tree.nodes@[x].is_player(),
                        player == (if plays {
                            Some(tree.nodes@[x].player_id as usize)
                        } else {
                            None
                        }),
                        local == book.local(x),
                        plays ==> local < book.infoset_count && tree.nodes@[x].player_id < np && n
                            <= MAX_NA_POSTFLOP,
                        strategy@.len() == book.infoset_count * room(lens.width as int),
                        reach@.len() == nn * big,
                        start.len() == nn * big,
                        forall|b: int, p: int|
                            0 <= b < a && 0 <= p < np ==> #[trigger] seat(
                                reach@,
                                np,
                                nhi,
                                tree.child(x, b),
                                p,
                            ) == passed_row(
                                tree,
                                book,
                                lens,
                                strategy@,
                                np,
                                nhi,
                                start,
                                x,
                                b,
                                p,
                            ),
                        forall|c: int|
                            tree.is_node(c) && (forall|b: int|
                                0 <= b < a ==> #[trigger] tree.child(x, b) != c)
                                ==> #[trigger] row(reach@, big, c) == row(start, big, c),
                    decreases n - a,
                {
                    assert(tree.is_edge(x, a as int));
                    assert(tree.edge_ok(x, a as int));
                    let child: usize = tree.node_children(idx)[a] as usize;
                    let ghost mid = reach@;
                    let ghost c = child as int;
                    proof {
                        assert forall|b: int| 0 <= b < a implies #[trigger] tree.child(x, b) != x by {
                            assert(tree.is_edge(x, b));
                            assert(tree.edge_ok(x, b));
                        }
                        assert(row(mid, big, x) == row(start, big, x));
                    }
                    push_reach(
                        lens,
                        strategy,
                        reach,
                        npu,
                        nh,
                        nn,
                        idx,
                        child,
                        player,
                        local,
                        a,
                        book.infoset_count,
                    );
                    proof {
                        assert forall|e: int| tree.is_node(e) && e != c implies #[trigger] row(
                            reach@,
                            big,
                            e,
                        ) == row(mid, big, e) by {
                            lemma_row_inside(big, nn as int, e);
                            lemma_other_row(mid, reach@, big, c, e);
                        }
                        assert forall|b: int, p: int|
                            0 <= b < a + 1 && 0 <= p < np implies #[trigger] seat(
                            reach@,
                            np,
                            nhi,
                            tree.child(x, b),
                            p,
                        ) == passed_row(tree, book, lens, strategy@, np, nhi, start, x, b, p) by {
                            if b < a {
                                assert(tree.is_edge(x, b) && tree.is_edge(x, a as int));
                                assert(tree.edge_ok(x, b));
                                assert(tree.child(x, b) != c);
                                assert(row(reach@, big, tree.child(x, b)) == row(
                                    mid,
                                    big,
                                    tree.child(x, b),
                                ));
                                assert(seat(mid, np, nhi, tree.child(x, b), p) == passed_row(
                                    tree,
                                    book,
                                    lens,
                                    strategy@,
                                    np,
                                    nhi,
                                    start,
                                    x,
                                    b,
                                    p,
                                ));
                            } else {
                                assert(seat(mid, np, nhi, x, p) == seat(start, np, nhi, x, p));
                            }
                        }
                        assert forall|e: int|
                            tree.is_node(e) && (forall|b: int|
                                0 <= b < a + 1 ==> #[trigger] tree.child(x, b) != e) implies #[trigger] row(
                            reach@,
                            big,
                            e,
                        ) == row(start, big, e) by {
                            assert(tree.child(x, a as int) != e);
                            assert(row(reach@, big, e) == row(mid, big, e));
                        }
                    }
                    a += 1;
                }
            }
            proof {
                let di = d as int;
                let ki = k as int;
                assert(tree.at_level(di, ki, x));
                assert forall|i: int| tree.is_node(i) implies #[trigger] seen(tree, di, ki + 1, i)
                    == (seen(tree, di, ki, i) || i == x) by {
                    if seen(tree, di, ki + 1, i) && tree.level(i) >= di {
                        let m = choose|m: int| 0 <= m < ki + 1 && tree.at_level(di, m, i);
                        if m < ki {
                            assert(0 <= m < ki && tree.at_level(di, m, i));
                        }
                    }
                    if seen(tree, di, ki, i) && tree.level(i) >= di {
                        let m = choose|m: int| 0 <= m < ki && tree.at_level(di, m, i);
                        assert(0 <= m < ki + 1 && tree.at_level(di, m, i));
                    }
                    if i == x {
                        assert(0 <= ki < ki + 1 && tree.at_level(di, ki, i));
                    }
                }
                assert(!seen(tree, di, ki, x)) by {
                    if seen(tree, di, ki, x) {
                        let m = choose|m: int| 0 <= m < ki && tree.at_level(di, m, x);
                        assert(tree.levels@[di]@.no_duplicates());
                        assert(tree.levels@[di]@[m] == tree.levels@[di]@[ki]);
                    }
                }
                assert forall|i: int|
                    tree.is_node(i) && tree.level(i) <= di implies #[trigger] row(reach@, big, i)
                    == row(start, big, i) by {
                    assert forall|b: int| 0 <= b < tree.arity(x) implies #[trigger] tree.child(x, b)
                        != i by {
                        assert(tree.is_edge(x, b));
                        assert(tree.edge_ok(x, b));
                    }
                }
                assert forall|i: int| #[trigger]
                    passes_on(tree, zs, zone, through_deals, i) && seen(
                        tree,
                        di,
                        ki + 1,
                        i,
                    ) implies fed_from(tree, book, lens, strategy@, np, nhi, reach@, i) by {
                    assert(tree.level(i) <= di) by {
                        if tree.level(i) >= di {
                            let m = choose|m: int| 0 <= m < ki + 1 && tree.at_level(di, m, i);
                            assert(tree.level_entry_ok(di, m));
                        }
                    }
                    assert(row(reach@, big, i) == row(start, big, i));
                    assert forall|a: int, p: int|
                        0 <= a < tree.arity(i) && 0 <= p < np implies #[trigger] seat(
                        reach@,
                        np,
                        nhi,
                        tree.child(i, a),
                        p,
                    ) == passed_row(tree, book, lens, strategy@, np, nhi, reach@, i, a, p) by {
                        assert(seat(reach@, np, nhi, i, p) == seat(start, np, nhi, i, p));
                        if i != x {
                            assert(seen(tree, di, ki, i));
                            assert(fed_from(tree, book, lens, strategy@, np, nhi, start, i));
                            let e = tree.child(i, a);
                            assert(tree.is_edge(i, a));
                            assert(tree.edge_ok(i, a));
                            assert forall|b: int|
                                0 <= b < tree.arity(x) implies #[trigger] tree.child(x, b) != e by {
                                assert(tree.is_edge(x, b));
                            }
                            assert(row(reach@, big, e) == row(start, big, e));
                            assert(seat(start, np, nhi, e, p) == passed_row(
                                tree,
                                book,
                                lens,
                                strategy@,
                                np,
                                nhi,
                                start,
                                i,
                                a,
                                p,
                            ));
                        }
                    }
                }
                assert forall|c: int|
                    tree.is_node(c) && !fed_by_seen(
                        tree,
                        zs,
                        zone,
                        through_deals,
                        di,
                        ki + 1,
                        c,
                    ) implies #[trigger] row(reach@, big, c) == row(old_reach, big, c) by {
                    if fed_by_seen(tree, zs, zone, through_deals, di, ki, c) {
                        let (i, a) = choose|i: int, a: int| #[trigger]
                            tree.is_parent(i, a, c) && passes_on(
                                tree,
                                zs,
                                zone,
                                through_deals,
                                i,
                            ) && seen(tree, di, ki, i);
                        assert(tree.is_parent(i, a, c) && seen(tree, di, ki + 1, i));
                    }
                    if passes {
                        assert forall|b: int| 0 <= b < tree.arity(x) implies #[trigger] tree.child(
                            x,
                            b,
                        ) != c by {
                            if tree.child(x, b) == c {
                                assert(tree.is_parent(x, b, c));
                                assert(seen(tree, di, ki + 1, x));
                            }
                        }
                    }
                    assert(row(reach@, big, c) == row(start, big, c));
                }
            }
            k += 1;
        }
        proof {
            let di = d as int;
            assert forall|i: int| #[trigger]
                passes_on(tree, zs, zone, through_deals, i) && seen(tree, di + 1, 0, i) implies fed_from(
            tree, book, lens, strategy@, np, nhi, reach@, i) by {
                lemma_seen_level(tree, di, i);
            }
            assert forall|c: int|
                tree.is_node(c) && !fed_by_seen(tree, zs, zone, through_deals, di + 1, 0, c) implies #[trigger] row(
            reach@, big, c) == row(old_reach, big, c) by {
                if fed_by_seen(tree, zs, zone, through_deals, di, level@.len() as int, c) {
                    let (i, a) = choose|i: int, a: int| #[trigger]
                        tree.is_parent(i, a, c) && passes_on(tree, zs, zone, through_deals, i)
                            && seen(tree, di, level@.len() as int, i);
                    lemma_seen_level(tree, di, i);
                    assert(tree.is_parent(i, a, c) && seen(tree, di + 1, 0, i));
                }
            }
        }
        d += 1;
    }
    proof {
        let last = tree.levels@.len() as int;
        assert forall|i: int| #[trigger] passes_on(tree, zs, zone, through_deals, i) implies fed_from(
        tree, book, lens, strategy@, np, nhi, reach@, i) by {
            assert(tree.node_ok(i));
            assert(seen(tree, last, 0, i));
        }
        assert forall|c: int|
            tree.is_node(c) && !is_fed(tree, zs, zone, through_deals, c) implies #[trigger] row(
            reach@,
            big,
            c,
        ) == row(old_reach, big, c) by {
            if fed_by_seen(tree, zs, zone, through_deals, last, 0, c) {
                let (i, a) = choose|i: int, a: int| #[trigger]
                    tree.is_parent(i, a, c) && passes_on(tree, zs, zone, through_deals, i) && seen(
                        tree,
                        last,
                        0,
                        i,
                    );
                assert(tree.is_parent(i, a, c));
            }
        }
    }
}

/// The values of hand `h` at the children of node `i`.
pub open spec fn kid_values<T: Scalar>(tree: &FlatTree, v: Seq<T>, nh: int, i: int, h: int) -> spec_fn(
    int,
) -> T {
    |a: int| v[at(nh, tree.child(i, a), h)]
}

/// The same, each times the probability that column `b` takes the action.
pub open spec fn played_values<T: Scalar>(
    tree: &FlatTree,
    local: int,
    w: int,
    strategy: Seq<T>,
    v: Seq<T>,
    nh: int,
    i: int,
    h: int,
    b: int,
) -> spec_fn(int) -> T {
    |a: int| strategy[cell(w, local, a, b)].s_times(v[at(nh, tree.child(i, a), h)])
}

/// The value of hand `h` at node `i`, from the values `v` of its children: at
/// the traverser's own decisions weighted by the strategy, elsewhere summed (the
/// others' strategies are already in the reach).
pub open spec fn value_of<T: Scalar>(
    tree: &FlatTree,
    book: &ZoneBook,
    lens: &Lens,
    strategy: Seq<T>,
    nh: int,
    traverser: u8,
    terminal: Seq<T>,
    v: Seq<T>,
    i: int,
    h: int,
) -> T {
    let n = tree.nodes@[i];
    if n.is_terminal() {
        terminal[at(nh, i, h)]
    } else if n.is_player() && n.player_id == traverser {
        match lens.column(h) {
            Some(b) => sum_upto(
                played_values(tree, book.local(i), lens.width as int, strategy, v, nh, i, h, b),
                tree.arity(i) as nat,
            ),
            None => T::s_zero(),
        }
    } else {
        sum_upto(kid_values(tree, v, nh, i, h), tree.arity(i) as nat)
    }
}

/// The row of node `i` in `v` holds its values.
pub open spec fn settled<T: Scalar>(
    tree: &FlatTree,
    book: &ZoneBook,
    lens: &Lens,
    strategy: Seq<T>,
    nh: int,
    traverser: u8,
    terminal: Seq<T>,
    v: Seq<T>,
    i: int,
) -> bool {
    forall|h: int|
        0 <= h < nh ==> #[trigger] v[at(nh, i, h)] == value_of(
            tree,
            book,
            lens,
            strategy,
            nh,
            traverser,
            terminal,
            v,
            i,
            h,
        )
}

proof fn lemma_value_frame<T: Scalar>(
    tree: &FlatTree,
    book: &ZoneBook,
    lens: &Lens,
    strategy: Seq<T>,
    nh: int,
    traverser: u8,
    terminal: Seq<T>,
    v: Seq<T>,
    v2: Seq<T>,
    x: int,
    i: int,
    h: int,
)
    requires
        tree.wf(),
        tree.is_node(i),
        tree.is_node(x),
        0 <= h < nh,
        v.len() == tree.size() * nh,
        only_row(v, v2, nh, x),
        tree.level(x) <= tree.level(i),
    ensures
        value_of(tree, book, lens, strategy, nh, traverser, terminal, v2, i, h) == value_of(
            tree,
            book,
            lens,
            strategy,
            nh,
            traverser,
            terminal,
            v,
            i,
            h,
        ),
{
    let n = tree.arity(i) as nat;
    assert forall|a: int| 0 <= a < n implies #[trigger] v2[at(nh, tree.child(i, a), h)] == v[at(
        nh,
        tree.child(i, a),
        h,
    )] by {
        assert(tree.is_edge(i, a));
        assert(tree.edge_ok(i, a));
        let c = tree.child(i, a);
        lemma_at_bound(nh, tree.size(), c, h);
        lemma_row_inside(nh, tree.size(), x);
        if c < x {
            assert(c * nh + nh <= x * nh) by (nonlinear_arith)
                requires
                    c < x,
                    0 <= nh,
            ;
        } else {
            assert(x * nh + nh <= c * nh) by (nonlinear_arith)
                requires
                    x < c,
                    0 <= nh,
            ;
        }
    }
    let k1 = kid_values(tree, v, nh, i, h);
    let k2 = kid_values(tree, v2, nh, i, h);
    assert forall|a: int| 0 <= a < n implies #[trigger] k1(a) == k2(a) by {
        assert(v2[at(nh, tree.child(i, a), h)] == v[at(nh, tree.child(i, a), h)]);
    }
    lemma_sum_ext(k1, k2, n);
    if let Some(b) = lens.column(h) {
        let w = lens.width as int;
        let p1 = played_values(tree, book.local(i), w, strategy, v, nh, i, h, b);
        let p2 = played_values(tree, book.local(i), w, strategy, v2, nh, i, h, b);
        assert forall|a: int| 0 <= a < n implies #[trigger] p1(a) == p2(a) by {
            assert(v2[at(nh, tree.child(i, a), h)] == v[at(nh, tree.child(i, a), h)]);
        }
        lemma_sum_ext(p1, p2, n);
    }
}

/// The values of node `idx`, from those of its children in `cfv`.
fn node_values<T: Scalar>(
    tree: &FlatTree,
    book: &ZoneBook,
    lens: &Lens,
    strategy: &Vec<T>,
    nh: usize,
    traverser: u8,
    terminal: &Vec<T>,
    cfv: &Vec<T>,
    idx: usize,
) -> (out: Vec<T>)
    requires
        tree.wf(),
        tree.fits_postflop(),
        tree.is_node(idx as int),
        lens.wf(nh as int),
        tree.nodes@[idx as int].is_player() ==> 0 <= book.local(idx as int) < book.infoset_count,
        book.local_offset@.len() == tree.size(),
        strategy@.len() == book.infoset_count * room(lens.width as int),
        terminal@.len() == tree.size() * nh,
        cfv@.len() == tree.size() * nh,
    ensures
        out@.len() == nh,
        forall|h: int|
            0 <= h < nh ==> #[trigger] out@[h] == value_of(
                tree,
                book,
                lens,
                strategy@,
                nh as int,
                traverser,
                terminal@,
                cfv@,
                idx as int,
                h,
            ),
{
    let ghost i = idx as int;
    let ghost nhi = nh as int;
    let ghost w = lens.width as int;
    let ghost count = book.infoset_count as int;
    let total: usize = cfv.len();
    let t_total: usize = terminal.len();
    let s_total: usize = strategy.len();
    let mut out: Vec<T> = filled(T::zero(), nh);
    proof {
        lemma_row_inside(nhi, tree.size(), i);
        assert(tree.node_ok(i));
    }
    if tree.nodes[idx].is_terminal() {
        copy_run(terminal.as_slice(), idx * nh, &mut out, 0, nh);
        proof {
            assert forall|h: int| 0 <= h < nh implies #[trigger] out@[h] == terminal@[at(
                nhi,
                i,
                h,
            )] by {
                assert(out@.subrange(0, nhi)[h] == terminal@.subrange(i * nhi, i * nhi + nhi)[h]);
            }
        }
        return out;
    }
    let n: usize = tree.nodes[idx].num_children as usize;
    let own: bool = tree.nodes[idx].is_player() && tree.nodes[idx].player_id == traverser;
    let local: usize = book.local_offset[idx];
    let mut a: usize = 0;
    while a < n
        invariant
            a <= n,
            n == tree.arity(i),
            i == idx,
            nhi == nh,
            w == lens.width,
            count == book.infoset_count,
            tree.wf(),
            tree.fits_postflop(),
            tree.is_node(i),
            lens.wf(nhi),
            own == (tree.nodes@[i].is_player() && tree.nodes@[i].player_id == traverser),
            local == book.local(i),
            own ==> 0 <= local < count,
            s_total == strategy@.len(),
            strategy@.len() == count * room(w),
            cfv@.len() == tree.size() * nhi,
            total == cfv@.len(),
            out@.len() == nh,
            own ==> forall|h: int|
                0 <= h < nhi ==> #[trigger] out@[h] == match lens.column(h) {
                    Some(b) => sum_upto(
                        played_values(tree, local as int, w, strategy@, cfv@, nhi, i, h, b),
                        a as nat,
                    ),
                    None => T::s_zero(),
                },
            !own ==> forall|h: int|
                0 <= h < nhi ==> #[trigger] out@[h] == sum_upto(
                    kid_values(tree, cfv@, nhi, i, h),
                    a as nat,
                ),
        decreases n - a,
    {
        assert(tree.is_edge(i, a as int));
        assert(tree.edge_ok(i, a as int));
        let child: usize = tree.node_children(idx)[a] as usize;
        let ghost c = child as int;
        let ghost start = out@;
        proof {
            lemma_row_inside(nhi, tree.size(), c);
        }
        let base: usize = child * nh;
        let mut h: usize = 0;
        while h < nh
            invariant
                h <= nh,
                a < n,
                n == tree.arity(i),
                i == idx,
                nhi == nh,
                w == lens.width,
                count == book.infoset_count,
                c == tree.child(i, a as int),
                base == c * nhi,
                base + nhi <= total,
                total == cfv@.len(),
                lens.wf(nhi),
                own ==> 0 <= local < count,
                own ==> n <= MAX_NA_POSTFLOP,
                s_total == strategy@.len(),
                strategy@.len() == count * room(w),
                out@.len() == nh,
                start.len() == nh,
                forall|g: int| h <= g < nhi ==> #[trigger] out@[g] == start[g],
                own ==> forall|g: int|
                    0 <= g < nhi ==> #[trigger] start[g] == match lens.column(g) {
                        Some(b) => sum_upto(
                            played_values(tree, local as int, w, strategy@, cfv@, nhi, i, g, b),
                            a as nat,
                        ),
                        None => T::s_zero(),
                    },
                !own ==> forall|g: int|
                    0 <= g < nhi ==> #[trigger] start[g] == sum_upto(
                        kid_values(tree, cfv@, nhi, i, g),
                        a as nat,
                    ),
                own ==> forall|g: int|
                    0 <= g < h ==> #[trigger] out@[g] == match lens.column(g) {
                        Some(b) => sum_upto(
                            played_values(tree, local as int, w, strategy@, cfv@, nhi, i, g, b),
                            (a + 1) as nat,
                        ),
                        None => T::s_zero(),
                    },
                !own ==> forall|g: int|
                    0 <= g < h ==> #[trigger] out@[g] == sum_upto(
                        kid_values(tree, cfv@, nhi, i, g),
                        (a + 1) as nat,
                    ),
            decreases nh - h,
        {
            let x = cfv[base + h];
            assert(x == cfv@[at(nhi, c, h as int)]);
            let acc = out[h];
            assert(acc == start[h as int]);
            if own {
                let col: u16 = lens.of[h];
                if col != NO_BUCKET {
                    proof {
                        lemma_cell_bound(w, count, local as int, a as int, col as int);
                        assert(count * MAX_NA_POSTFLOP * w == count * room(w)) by (nonlinear_arith)
                            requires
                                room(w) == MAX_NA_POSTFLOP * w,
                        ;
                        assert(local * MAX_NA_POSTFLOP + a <= (local * MAX_NA_POSTFLOP + a) * w)
                            by (nonlinear_arith)
                            requires
                                w >= 1,
                                local >= 0,
                                a >= 0,
                        ;
                    }
                    let s = strategy[(local * MAX_NA_POSTFLOP + a) * lens.width + col as usize];
                    assert(s == strategy@[cell(w, local as int, a as int, col as int)]);
                    let t = acc.plus(s.times(x));
                    assert(t == sum_upto(
                        played_values(
                            tree,
                            local as int,
                            w,
                            strategy@,
                            cfv@,
                            nhi,
                            i,
                            h as int,
                            col as int,
                        ),
                        (a + 1) as nat,
                    ));
                    out[h] = t;
                }
            } else {
                out[h] = acc.plus(x);
            }
            h += 1;
        }
        a += 1;
    }
    out
}

/// Node `i` is a zone node at level `d` or deeper; at level `d` among the first
/// `k` listed.
spec fn handled(
    tree: &FlatTree,
    zones: Seq<Zone>,
    zone: Zone,
    book: &ZoneBook,
    d: int,
    k: int,
    i: int,
) -> bool {
    zones[i] == zone && (tree.level(i) > d || exists|m: int|
        0 <= m < k && #[trigger] book.lists(d, m, i))
}

/// Fills in the values of a zone from the leaves up: terminals from `terminal`,
/// every other node from its children. Children outside the zone keep the
/// values that `cfv` held for them.
pub fn zone_values<T: Scalar>(
    tree: &FlatTree,
    zones: &Vec<Zone>,
    zone: Zone,
    book: &ZoneBook,
    lens: &Lens,
    strategy: &Vec<T>,
    nh: usize,
    traverser: u8,
    terminal: &Vec<T>,
    cfv: &mut Vec<T>,
)
    requires
        tree.wf(),
        tree.fits_postflop(),
        zones@.len() == tree.size(),
        book.of(tree, zones@, zone),
        lens.wf(nh as int),
        strategy@.len() == book.infoset_count * room(lens.width as int),
        terminal@.len() == tree.size() * nh,
        old(cfv)@.len() == tree.size() * nh,
    ensures
        final(cfv)@.len() == old(cfv)@.len(),
        forall|i: int|
            tree.is_node(i) && zones@[i] == zone ==> #[trigger] settled(
                tree,
                book,
                lens,
                strategy@,
                nh as int,
                traverser,
                terminal@,
                final(cfv)@,
                i,
            ),
        forall|i: int|
            tree.is_node(i) && zones@[i] != zone ==> #[trigger] row(final(cfv)@, nh as int, i)
                == row(old(cfv)@, nh as int, i),
{
    let ghost zs = zones@;
    let ghost nhi = nh as int;
    let ghost was = cfv@;
    let total: usize = cfv.len();
    let mut d: usize = book.nodes.len();
    proof {
        assert forall|i: int| tree.is_node(i) implies !#[trigger] handled(
            tree,
            zs,
            zone,
            book,
            d - 1,
            0,
            i,
        ) by {
            assert(tree.node_ok(i));
        }
    }
    while d > 0
        invariant
            d <= book.nodes@.len(),
            tree.wf(),
            tree.fits_postflop(),
            zs == zones@,
            zs.len() == tree.size(),
            book.of(tree, zs, zone),
            lens.wf(nhi),
            nhi == nh,
            strategy@.len() == book.infoset_count * room(lens.width as int),
            terminal@.len() == tree.size() * nhi,
            was.len() == tree.size() * nhi,
            cfv@.len() == was.len(),
            total == was.len(),
            forall|i: int|
                tree.is_node(i) && handled(tree, zs, zone, book, d - 1, 0, i) ==> #[trigger] settled(
                    tree,
                    book,
                    lens,
                    strategy@,
                    nhi,
                    traverser,
                    terminal@,
                    cfv@,
                    i,
                ),
            forall|i: int|
                tree.is_node(i) && zs[i] != zone ==> #[trigger] row(cfv@, nhi, i) == row(
                    was,
                    nhi,
                    i,
                ),
        decreases d,
    {
        d = d - 1;
        let level = &book.nodes[d];
        let mut k: usize = 0;
        while k < level.len()
            invariant
                k <= level@.len(),
                d < book.nodes@.len(),
                level@ == book.nodes@[d as int]@,
                tree.wf(),
                tree.fits_postflop(),
                zs == zones@,
                zs.len() == tree.size(),
                book.of(tree, zs, zone),
                lens.wf(nhi),
                nhi == nh,
                strategy@.len() == book.infoset_count * room(lens.width as int),
                terminal@.len() == tree.size() * nhi,
                was.len() == tree.size() * nhi,
                cfv@.len() == was.len(),
                total == was.len(),
                forall|i: int|
                    tree.is_node(i) && handled(
                        tree,
                        zs,
                        zone,
                        book,
                        d as int,
                        k as int,
                        i,
                    ) ==> #[trigger] settled(
                        tree,
                        book,
                        lens,
                        strategy@,
                        nhi,
                        traverser,
                        terminal@,
                        cfv@,
                        i,
                    ),
                forall|i: int|
                    tree.is_node(i) && zs[i] != zone ==> #[trigger] row(cfv@, nhi, i) == row(
                        was,
                        nhi,
                        i,
                    ),
            decreases level@.len() - k,
        {
            let idx: usize = level[k] as usize;
            let ghost x = idx as int;
            let ghost start = cfv@;
            proof {
                assert(book.lists(d as int, k as int, x));
                book.lemma_listed(tree, zs, zone, d as int, k as int, x);
                lemma_row_inside(nhi, tree.size(), x);
                if tree.nodes@[x].is_player() {
                    assert(ZoneBook::owns(tree, zs, zone, x));
                    book.lemma_local(tree, zs, zone, x);
                }
            }
            let out = node_values(
                tree,
                book,
                lens,
                strategy,
                nh,
                traverser,
                terminal,
                cfv,
                idx,
            );
            copy_run(out.as_slice(), 0, cfv, idx * nh, nh);
            proof {
                assert(only_row(start, cfv@, nhi, x));
                assert forall|i: int|
                    tree.is_node(i) && handled(
                        tree,
                        zs,
                        zone,
                        book,
                        d as int,
                        k + 1,
                        i,
                    ) implies #[trigger] settled(
                    tree,
                    book,
                    lens,
                    strategy@,
                    nhi,
                    traverser,
                    terminal@,
                    cfv@,
                    i,
                ) by {
                    assert(tree.level(i) >= d) by {
                        if tree.level(i) <= d {
                            let m = choose|m: int| 0 <= m < k + 1 && #[trigger] book.lists(
                                d as int,
                                m,
                                i,
                            );
                            book.lemma_listed(tree, zs, zone, d as int, m, i);
                        }
                    }
                    if i != x {
                        if tree.level(i) <= d {
                            let m = choose|m: int| 0 <= m < k + 1 && #[trigger] book.lists(
                                d as int,
                                m,
                                i,
                            );
                            assert(m < k);
                        }
                        assert(handled(tree, zs, zone, book, d as int, k as int, i));
                        assert(settled(
                            tree,
                            book,
                            lens,
                            strategy@,
                            nhi,
                            traverser,
                            terminal@,
                            start,
                            i,
                        ));
                        lemma_row_inside(nhi, tree.size(), i);
                        lemma_other_row(start, cfv@, nhi, x, i);
                    }
                    assert forall|h: int| 0 <= h < nhi implies #[trigger] cfv@[at(nhi, i, h)]
                        == value_of(
                        tree,
                        book,
                        lens,
                        strategy@,
                        nhi,
                        traverser,
                        terminal@,
                        cfv@,
                        i,
                        h,
                    ) by {
                        lemma_value_frame(
                            tree,
                            book,
                            lens,
                            strategy@,
                            nhi,
                            traverser,
                            terminal@,
                            start,
                            cfv@,
                            x,
                            i,
                            h,
                        );
                        if i == x {
                            assert(cfv@.subrange(x * nhi, x * nhi + nhi)[h] == out@.subrange(
                                0,
                                nhi,
                            )[h]);
                        } else {
                            assert(row(cfv@, nhi, i)[h] == row(start, nhi, i)[h]);
                            assert(start[at(nhi, i, h)] == value_of(
                                tree,
                                book,
                                lens,
                                strategy@,
                                nhi,
                                traverser,
                                terminal@,
                                start,
                                i,
                                h,
                            ));
                        }
                    }
                }
                assert forall|i: int| tree.is_node(i) && zs[i] != zone implies #[trigger] row(
                    cfv@,
                    nhi,
                    i,
                ) == row(was, nhi, i) by {
                    lemma_row_inside(nhi, tree.size(), i);
                    lemma_other_row(start, cfv@, nhi, x, i);
                }
            }
            k += 1;
        }
        proof {
            assert forall|i: int|
                tree.is_node(i) && handled(tree, zs, zone, book, d - 1, 0, i) implies #[trigger] settled(
            tree, book, lens, strategy@, nhi, traverser, terminal@, cfv@, i) by {
                if tree.level(i) == d {
                    let m = book.lemma_lists(tree, zs, zone, i);
                    assert(0 <= m < level@.len() && book.lists(d as int, m, i));
                }
                assert(handled(tree, zs, zone, book, d as int, level@.len() as int, i));
            }
        }
    }
    proof {
        assert forall|i: int| tree.is_node(i) && zs[i] == zone implies #[trigger] settled(
            tree,
            book,
            lens,
            strategy@,
            nhi,
            traverser,
            terminal@,
            cfv@,
            i,
        ) by {
            assert(handled(tree, zs, zone, book, -1, 0, i));
        }
    }
}

} // verus!
