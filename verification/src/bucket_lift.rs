//! Carrying a bucketed solver's accumulated strategy over to an exact solver of the
//! same tree.
use vstd::prelude::*;

use crate::bank::{room, ZoneBank};
use crate::bucketed_flop_cfr::{layer_of, BucketedFlopCfr};
use crate::buckets::FlopBucketing;
use crate::flop_start_game::FlopChanceTable;
use crate::flop_start_vector_cfr::FlopStartVectorCfr;
use crate::layout::{
    at, lemma_at_bound, lemma_at_inj, lemma_other_row, lemma_row_inside, put_row, row, slot,
};
use crate::lift::lemma_rows_count;
use crate::scalar::{Scalar, Widen};
use crate::sweep::{Lens, NO_BUCKET};
use crate::tree::{FlatTree, MAX_NA_POSTFLOP};
use crate::zones::{Zone, ZoneBook};

verus! {

/// Row `s` of a buffer per bucket, hand by hand; nothing for a hand without a
/// bucket.
pub open spec fn hands_row<T: Scalar>(lens: &Lens, src: Seq<T>, w: int, s: int, nh: int) -> Seq<T> {
    Seq::new(
        nh as nat,
        |h: int|
            match lens.column(h) {
                None => T::s_zero(),
                Some(b) => src[at(w, s, b)],
            },
    )
}

/// Row `s` belongs to an action of a decision of the zone in one of the first `k`
/// outcomes listed.
pub open spec fn is_carried(
    tree: &FlatTree,
    zones: Seq<Zone>,
    zone: Zone,
    book: &ZoneBook,
    outs: Seq<usize>,
    k: int,
    s: int,
) -> bool {
    exists|j: int, x: int, a: int|
        0 <= j < k && #[trigger] carries(tree, zones, zone, book, outs, j, x, a, s)
}

/// Row `s` is that of action `a` of decision `x` in the `j`-th outcome listed.
pub open spec fn carries(
    tree: &FlatTree,
    zones: Seq<Zone>,
    zone: Zone,
    book: &ZoneBook,
    outs: Seq<usize>,
    j: int,
    x: int,
    a: int,
    s: int,
) -> bool {
    ZoneBook::owns(tree, zones, zone, x) && 0 <= a < tree.arity(x) && s == slot(
        at(book.infoset_count as int, outs[j] as int, book.local(x)),
        a,
    )
}

/// The first `k` outcomes listed were carried over, each through its lens; every other
/// row is as it was.
pub open spec fn carried<T: Scalar>(
    tree: &FlatTree,
    zones: Seq<Zone>,
    zone: Zone,
    book: &ZoneBook,
    src: Seq<T>,
    w: int,
    nh: int,
    rows: int,
    outs: Seq<usize>,
    lenses: Seq<&Lens>,
    k: int,
    was: Seq<T>,
    new: Seq<T>,
) -> bool {
    &&& new.len() == was.len()
    &&& forall|j: int, x: int, a: int, s: int|
        0 <= j < k && #[trigger] carries(tree, zones, zone, book, outs, j, x, a, s) ==> row(
            new,
            nh,
            s,
        ) == hands_row(lenses[j], src, w, s, nh)
    &&& forall|s: int|
        0 <= s < rows && !is_carried(tree, zones, zone, book, outs, k, s) ==> #[trigger] row(
            new,
            nh,
            s,
        ) == row(was, nh, s)
}

/// Computes [`hands_row`].
fn hands_row_of<T: Scalar>(lens: &Lens, src: &Vec<T>, rows: usize, s: usize, nh: usize) -> (out: Vec<T>)
    requires
        lens.wf(nh as int),
        s < rows,
        src@.len() == rows * lens.width,
    ensures
        out@ == hands_row(lens, src@, lens.width as int, s as int, nh as int),
        out@.len() == nh,
{
    let w: usize = lens.width;
    let total: usize = src.len();
    let mut out: Vec<T> = Vec::new();
    let mut h: usize = 0;
    while h < nh
        invariant
            h <= nh,
            w == lens.width,
            lens.wf(nh as int),
            s < rows,
            total == rows * w,
            src@.len() == total,
            out@.len() == h,
            forall|k: int|
                0 <= k < h ==> #[trigger] out@[k] == hands_row(
                    lens,
                    src@,
                    w as int,
                    s as int,
                    nh as int,
                )[k],
        decreases nh - h,
    {
        let c: u16 = lens.of[h];
        assert(lens.of@[h as int] == NO_BUCKET || lens.of@[h as int] < w);
        if c == NO_BUCKET {
            out.push(T::zero());
        } else {
            proof {
                lemma_at_bound(w as int, rows as int, s as int, c as int);
            }
            out.push(src[s * w + c as usize]);
        }
        h += 1;
    }
    assert(out@ =~= hands_row(lens, src@, w as int, s as int, nh as int));
    out
}

/// Rows of different actions, decisions or outcomes are different.
proof fn lemma_carries_once(
    tree: &FlatTree,
    zones: Seq<Zone>,
    zone: Zone,
    book: &ZoneBook,
    outs: Seq<usize>,
    j: int,
    x: int,
    a: int,
    j2: int,
    x2: int,
    a2: int,
    s: int,
)
    requires
        tree.wf(),
        tree.fits_postflop(),
        book.of(tree, zones, zone),
        outs.no_duplicates(),
        0 <= j < outs.len(),
        0 <= j2 < outs.len(),
        carries(tree, zones, zone, book, outs, j, x, a, s),
        carries(tree, zones, zone, book, outs, j2, x2, a2, s),
    ensures
        j == j2,
        x == x2,
        a == a2,
{
    let n = book.infoset_count as int;
    book.lemma_local(tree, zones, zone, x);
    book.lemma_local(tree, zones, zone, x2);
    assert(tree.nodes@[x].is_player() && tree.nodes@[x2].is_player());
    lemma_at_inj(
        MAX_NA_POSTFLOP as int,
        at(n, outs[j] as int, book.local(x)),
        a,
        at(n, outs[j2] as int, book.local(x2)),
        a2,
    );
    lemma_at_inj(n, outs[j] as int, book.local(x), outs[j2] as int, book.local(x2));
}

/// Carries the listed outcomes of a zone over, each through its lens.
#[verifier::rlimit(60)]
fn carry_zone<T: Scalar>(
    tree: &FlatTree,
    zones: &Vec<Zone>,
    zone: Zone,
    book: &ZoneBook,
    src: &ZoneBank<T>,
    dst: &mut ZoneBank<T>,
    outs: &Vec<usize>,
    lenses: &Vec<&Lens>,
)
    requires
        tree.wf(),
        tree.fits_postflop(),
        zones@.len() == tree.size(),
        book.of(tree, zones@, zone),
        src.for_book(book),
        old(dst).for_book(book),
        src.outcomes == old(dst).outcomes,
        outs@.no_duplicates(),
        lenses@.len() == outs@.len(),
        forall|j: int| 0 <= j < outs@.len() ==> (#[trigger] outs@[j]) < src.outcomes,
        forall|j: int|
            0 <= j < lenses@.len() ==> (#[trigger] lenses@[j]).wf(old(dst).width as int)
                && lenses@[j].width == src.width,
    ensures
        final(dst).for_book(book),
        *final(dst) == (ZoneBank { cum: final(dst).cum, ..*old(dst) }),
        carried(
            tree,
            zones@,
            zone,
            book,
            src.cum@,
            src.width as int,
            old(dst).width as int,
            old(dst).outcomes * old(dst).infosets * MAX_NA_POSTFLOP,
            outs@,
            lenses@,
            outs@.len() as int,
            old(dst).cum@,
            final(dst).cum@,
        ),
{
    let ghost was = *dst;
    let nh: usize = dst.width;
    let infosets: usize = dst.infosets;
    let places: usize = dst.outcomes * infosets;
    let ghost total_rows = was.outcomes * was.infosets * MAX_NA_POSTFLOP;
    if nh == 0 {
        proof {
            assert forall|j: int, x: int, a: int, s: int|
                0 <= j < outs@.len() && #[trigger] carries(
                    tree,
                    zones@,
                    zone,
                    book,
                    outs@,
                    j,
                    x,
                    a,
                    s,
                ) implies row(dst.cum@, 0, s) == hands_row(
                lenses@[j],
                src.cum@,
                src.width as int,
                s,
                0,
            ) by {
                assert(s * 0 == 0);
                assert(row(dst.cum@, 0, s) =~= hands_row(
                    lenses@[j],
                    src.cum@,
                    src.width as int,
                    s,
                    0,
                ));
            }
        }
        return;
    }
    proof {
        lemma_rows_count(places as int, nh as int);
        assert(places * room(src.width as int) == places * MAX_NA_POSTFLOP * src.width)
            by (nonlinear_arith)
            requires
                room(src.width as int) == MAX_NA_POSTFLOP * src.width,
        ;
    }
    let total: usize = dst.cum.len();
    assert(places * MAX_NA_POSTFLOP <= total);
    let rows: usize = places * MAX_NA_POSTFLOP;
    let decisions: usize = tree.decision_node_ids.len();
    let mut k: usize = 0;
    while k < outs.len()
        invariant
            k <= outs@.len(),
            0 < nh,
            nh == was.width,
            infosets == was.infosets,
            infosets == book.infoset_count,
            places == was.outcomes * infosets,
            rows == places * MAX_NA_POSTFLOP,
            rows == total_rows,
            decisions == tree.decision_node_ids@.len(),
            tree.wf(),
            tree.fits_postflop(),
            zones@.len() == tree.size(),
            book.of(tree, zones@, zone),
            src.for_book(book),
            src.cum@.len() == rows * src.width,
            was.cum@.len() == rows * nh,
            src.outcomes == was.outcomes,
            outs@.no_duplicates(),
            lenses@.len() == outs@.len(),
            forall|j: int| 0 <= j < outs@.len() ==> (#[trigger] outs@[j]) < src.outcomes,
            forall|j: int|
                0 <= j < lenses@.len() ==> (#[trigger] lenses@[j]).wf(nh as int)
                    && lenses@[j].width == src.width,
            *dst == (ZoneBank { cum: dst.cum, ..was }),
            carried(
                tree,
                zones@,
                zone,
                book,
                src.cum@,
                src.width as int,
                nh as int,
                rows as int,
                outs@,
                lenses@,
                k as int,
                was.cum@,
                dst.cum@,
            ),
        decreases outs@.len() - k,
    {
        let o: usize = outs[k];
        let lens: &Lens = lenses[k];
        assert(lenses@[k as int].wf(nh as int));
        let ghost start = dst.cum@;
        let mut d: usize = 0;
        while d < decisions
            invariant
                d <= decisions,
                k < outs@.len(),
                o == outs@[k as int],
                o < was.outcomes,
                lens == lenses@[k as int],
                lens.wf(nh as int),
                lens.width == src.width,
                0 < nh,
                nh == was.width,
                infosets == was.infosets,
                infosets == book.infoset_count,
                places == was.outcomes * infosets,
                rows == places * MAX_NA_POSTFLOP,
                decisions == tree.decision_node_ids@.len(),
                tree.wf(),
                tree.fits_postflop(),
                zones@.len() == tree.size(),
                book.of(tree, zones@, zone),
                src.cum@.len() == rows * src.width,
                start.len() == rows * nh,
                outs@.no_duplicates(),
                *dst == (ZoneBank { cum: dst.cum, ..was }),
                dst.cum@.len() == rows * nh,
                forall|e: int, a: int, s: int|
                    #![trigger carries(tree, zones@, zone, book, outs@, k as int, tree.decision_node_ids@[e] as int, a, s)]
                    0 <= e < d && carries(
                        tree,
                        zones@,
                        zone,
                        book,
                        outs@,
                        k as int,
                        tree.decision_node_ids@[e] as int,
                        a,
                        s,
                    ) ==> row(dst.cum@, nh as int, s) == hands_row(
                        lens,
                        src.cum@,
                        src.width as int,
                        s,
                        nh as int,
                    ),
                forall|s: int|
                    0 <= s < rows && (forall|e: int, a: int|
                        #![trigger carries(tree, zones@, zone, book, outs@, k as int, tree.decision_node_ids@[e] as int, a, s)]
                        0 <= e < d ==> !carries(
                            tree,
                            zones@,
                            zone,
                            book,
                            outs@,
                            k as int,
                            tree.decision_node_ids@[e] as int,
                            a,
                            s,
                        )) ==> #[trigger] row(dst.cum@, nh as int, s) == row(
                        start,
                        nh as int,
                        s,
                    ),
            decreases decisions - d,
        {
            let x: usize = tree.decision_node_ids[d] as usize;
            if zones[x] == zone {
                proof {
                    assert(ZoneBook::owns(tree, zones@, zone, x as int));
                    book.lemma_local(tree, zones@, zone, x as int);
                    assert(tree.nodes@[x as int].is_player());
                }
                let local: usize = book.local_offset[x];
                let n: usize = tree.nodes[x].num_children as usize;
                proof {
                    lemma_at_bound(infosets as int, was.outcomes as int, o as int, local as int);
                }
                let place: usize = o * infosets + local;
                let ghost before = dst.cum@;
                let mut a: usize = 0;
                while a < n
                    invariant
                        a <= n,
                        n <= MAX_NA_POSTFLOP,
                        place < places,
                        rows == places * MAX_NA_POSTFLOP,
                        nh == was.width,
                        lens.wf(nh as int),
                        lens.width == src.width,
                        src.cum@.len() == rows * src.width,
                        before.len() == rows * nh,
                        *dst == (ZoneBank { cum: dst.cum, ..was }),
                        dst.cum@.len() == rows * nh,
                        forall|b: int|
                            0 <= b < a ==> row(
                                dst.cum@,
                                nh as int,
                                #[trigger] slot(place as int, b),
                            ) == hands_row(
                                lens,
                                src.cum@,
                                src.width as int,
                                slot(place as int, b),
                                nh as int,
                            ),
                        forall|s: int|
                            0 <= s < rows && !(slot(place as int, 0) <= s < slot(
                                place as int,
                                a as int,
                            )) ==> #[trigger] row(dst.cum@, nh as int, s) == row(
                                before,
                                nh as int,
                                s,
                            ),
                    decreases n - a,
                {
                    proof {
                        lemma_at_bound(
                            MAX_NA_POSTFLOP as int,
                            places as int,
                            place as int,
                            a as int,
                        );
                    }
                    let s: usize = place * MAX_NA_POSTFLOP + a;
                    let vals = hands_row_of(lens, &src.cum, rows, s, nh);
                    let ghost mid = dst.cum@;
                    put_row(&mut dst.cum, nh, rows, s, &vals);
                    proof {
                        assert forall|b: int| 0 <= b < a + 1 implies row(
                            dst.cum@,
                            nh as int,
                            #[trigger] slot(place as int, b),
                        ) == hands_row(
                            lens,
                            src.cum@,
                            src.width as int,
                            slot(place as int, b),
                            nh as int,
                        ) by {
                            if b < a {
                                let t = slot(place as int, b);
                                lemma_at_bound(
                                    MAX_NA_POSTFLOP as int,
                                    places as int,
                                    place as int,
                                    b,
                                );
                                lemma_row_inside(nh as int, rows as int, t);
                                lemma_other_row(mid, dst.cum@, nh as int, s as int, t);
                            }
                        }
                        assert forall|t: int|
                            0 <= t < rows && !(slot(place as int, 0) <= t < slot(
                                place as int,
                                a + 1,
                            )) implies #[trigger] row(dst.cum@, nh as int, t) == row(
                            before,
                            nh as int,
                            t,
                        ) by {
                            lemma_row_inside(nh as int, rows as int, t);
                            lemma_other_row(mid, dst.cum@, nh as int, s as int, t);
                            assert(row(mid, nh as int, t) == row(before, nh as int, t));
                        }
                    }
                    a += 1;
                }
                proof {
                    assert forall|e: int, a: int, s: int|
                        #![trigger carries(tree, zones@, zone, book, outs@, k as int, tree.decision_node_ids@[e] as int, a, s)]
                        0 <= e < d + 1 && carries(
                            tree,
                            zones@,
                            zone,
                            book,
                            outs@,
                            k as int,
                            tree.decision_node_ids@[e] as int,
                            a,
                            s,
                        ) implies row(dst.cum@, nh as int, s) == hands_row(
                        lens,
                        src.cum@,
                        src.width as int,
                        s,
                        nh as int,
                    ) by {
                        let y = tree.decision_node_ids@[e] as int;
                        book.lemma_local(tree, zones@, zone, y);
                        lemma_at_bound(infosets as int, was.outcomes as int, o as int, book.local(y));
                        lemma_at_bound(
                            MAX_NA_POSTFLOP as int,
                            places as int,
                            at(infosets as int, o as int, book.local(y)),
                            a,
                        );
                        if e == d {
                            assert(s == slot(place as int, a));
                        } else {
                            assert(y != x) by {
                                if y == x {
                                    assert(tree.decision_node_ids@[e]
                                        == tree.decision_node_ids@[d as int]);
                                }
                            }
                            if slot(place as int, 0) <= s < slot(place as int, n as int) {
                                let b = s - slot(place as int, 0);
                                assert(carries(
                                    tree,
                                    zones@,
                                    zone,
                                    book,
                                    outs@,
                                    k as int,
                                    x as int,
                                    b,
                                    s,
                                ));
                                lemma_carries_once(
                                    tree,
                                    zones@,
                                    zone,
                                    book,
                                    outs@,
                                    k as int,
                                    x as int,
                                    b,
                                    k as int,
                                    y,
                                    a,
                                    s,
                                );
                            }
                            assert(row(dst.cum@, nh as int, s) == row(before, nh as int, s));
                        }
                    }
                    assert forall|s: int|
                        0 <= s < rows && (forall|e: int, a: int|
                            #![trigger carries(tree, zones@, zone, book, outs@, k as int, tree.decision_node_ids@[e] as int, a, s)]
                            0 <= e < d + 1 ==> !carries(
                                tree,
                                zones@,
                                zone,
                                book,
                                outs@,
                                k as int,
                                tree.decision_node_ids@[e] as int,
                                a,
                                s,
                            )) implies #[trigger] row(dst.cum@, nh as int, s) == row(
                        start,
                        nh as int,
                        s,
                    ) by {
                        if slot(place as int, 0) <= s < slot(place as int, n as int) {
                            let b = s - slot(place as int, 0);
                            assert(carries(
                                tree,
                                zones@,
                                zone,
                                book,
                                outs@,
                                k as int,
                                tree.decision_node_ids@[d as int] as int,
                                b,
                                s,
                            ));
                        }
                        assert(row(before, nh as int, s) == row(start, nh as int, s));
                    }
                }
            }
            d += 1;
        }
        proof {
            assert forall|j: int, x: int, a: int, s: int|
                0 <= j < k + 1 && #[trigger] carries(
                    tree,
                    zones@,
                    zone,
                    book,
                    outs@,
                    j,
                    x,
                    a,
                    s,
                ) implies row(dst.cum@, nh as int, s) == hands_row(
                lenses@[j],
                src.cum@,
                src.width as int,
                s,
                nh as int,
            ) by {
                book.lemma_local(tree, zones@, zone, x);
                lemma_at_bound(
                    infosets as int,
                    was.outcomes as int,
                    outs@[j] as int,
                    book.local(x),
                );
                assert(tree.nodes@[x].is_player());
                lemma_at_bound(
                    MAX_NA_POSTFLOP as int,
                    places as int,
                    at(infosets as int, outs@[j] as int, book.local(x)),
                    a,
                );
                if j == k {
                    assert(tree.decision_node_ids@.contains(x as u32));
                    let e = choose|e: int|
                        0 <= e < tree.decision_node_ids@.len() && tree.decision_node_ids@[e]
                            == x as u32;
                    assert(carries(
                        tree,
                        zones@,
                        zone,
                        book,
                        outs@,
                        k as int,
                        tree.decision_node_ids@[e] as int,
                        a,
                        s,
                    ));
                } else {
                    assert forall|e: int, b: int|
                        #![trigger carries(tree, zones@, zone, book, outs@, k as int, tree.decision_node_ids@[e] as int, b, s)]
                        0 <= e < decisions implies !carries(
                        tree,
                        zones@,
                        zone,
                        book,
                        outs@,
                        k as int,
                        tree.decision_node_ids@[e] as int,
                        b,
                        s,
                    ) by {
                        let y = tree.decision_node_ids@[e] as int;
                        if carries(tree, zones@, zone, book, outs@, k as int, y, b, s) {
                            lemma_carries_once(
                                tree,
                                zones@,
                                zone,
                                book,
                                outs@,
                                j,
                                x,
                                a,
                                k as int,
                                y,
                                b,
                                s,
                            );
                        }
                    }
                    assert(row(dst.cum@, nh as int, s) == row(start, nh as int, s));
                }
            }
            assert forall|s: int|
                0 <= s < rows && !is_carried(
                    tree,
                    zones@,
                    zone,
                    book,
                    outs@,
                    k + 1,
                    s,
                ) implies #[trigger] row(dst.cum@, nh as int, s) == row(
                was.cum@,
                nh as int,
                s,
            ) by {
                assert forall|e: int, b: int|
                    #![trigger carries(tree, zones@, zone, book, outs@, k as int, tree.decision_node_ids@[e] as int, b, s)]
                    0 <= e < decisions implies !carries(
                    tree,
                    zones@,
                    zone,
                    book,
                    outs@,
                    k as int,
                    tree.decision_node_ids@[e] as int,
                    b,
                    s,
                ) by {
                    let y = tree.decision_node_ids@[e] as int;
                    assert(!carries(tree, zones@, zone, book, outs@, k as int, y, b, s));
                }
                assert(!is_carried(tree, zones@, zone, book, outs@, k as int, s)) by {
                    if is_carried(tree, zones@, zone, book, outs@, k as int, s) {
                        let (j, x, a) = choose|j: int, x: int, a: int|
                            0 <= j < k && #[trigger] carries(
                                tree,
                                zones@,
                                zone,
                                book,
                                outs@,
                                j,
                                x,
                                a,
                                s,
                            );
                        assert(carries(tree, zones@, zone, book, outs@, j, x, a, s));
                    }
                }
                assert(row(start, nh as int, s) == row(was.cum@, nh as int, s));
            }
        }
        k += 1;
    }
}

/// Row `s` is that of action `a` of decision `x` of the zone at turn place `tc` and
/// river place `rc`.
pub open spec fn hits<T: Widen>(
    solver: &BucketedFlopCfr<T>,
    tree: &FlatTree,
    zone: Zone,
    tc: int,
    rc: int,
    x: int,
    a: int,
    s: int,
) -> bool {
    &&& solver.holds_outcome(zone, tc, rc)
    &&& ZoneBook::owns(tree, solver.zones@, zone, x)
    &&& 0 <= a < tree.arity(x)
    &&& s == slot(
        at(
            solver.book(zone).infoset_count as int,
            solver.outcome(zone, tc, rc),
            solver.book(zone).local(x),
        ),
        a,
    )
}

/// Some decision and deal has row `s`.
pub open spec fn is_hit<T: Widen>(
    solver: &BucketedFlopCfr<T>,
    tree: &FlatTree,
    zone: Zone,
    s: int,
) -> bool {
    exists|tc: int, rc: int, x: int, a: int| #[trigger] hits(solver, tree, zone, tc, rc, x, a, s)
}

/// Every action of every decision in the zone has, hand by hand, what its bucket
/// accumulated; all else is as it was.
pub open spec fn zone_carried<T: Widen>(
    tree: &FlatTree,
    bk: &FlopBucketing<T>,
    solver: &BucketedFlopCfr<T>,
    zone: Zone,
    was: &ZoneBank<T>,
    new: &ZoneBank<T>,
) -> bool {
    let src = solver.bank(zone);
    let nh = was.width as int;
    &&& *new == (ZoneBank { cum: new.cum, ..*was })
    &&& new.cum@.len() == was.cum@.len()
    &&& forall|tc: int, rc: int, x: int, a: int, s: int| #[trigger]
        hits(solver, tree, zone, tc, rc, x, a, s) ==> row(new.cum@, nh, s) == hands_row(
            &layer_of(bk, zone, tc, rc).lens,
            src.cum@,
            src.width as int,
            s,
            nh,
        )
    &&& forall|s: int|
        0 <= s < was.outcomes * was.infosets * MAX_NA_POSTFLOP && !is_hit(solver, tree, zone, s)
            ==> #[trigger] row(new.cum@, nh, s) == row(was.cum@, nh, s)
}

/// The outcomes of a zone, and the turn and river places that they stand for.
pub open spec fn lists_outcomes<T: Widen>(
    solver: &BucketedFlopCfr<T>,
    bk: &FlopBucketing<T>,
    zone: Zone,
    pairs: Seq<(int, int)>,
    outs: Seq<usize>,
    lenses: Seq<&Lens>,
) -> bool {
    &&& outs.len() == pairs.len()
    &&& lenses.len() == pairs.len()
    &&& outs.no_duplicates()
    &&& forall|j: int|
        0 <= j < pairs.len() ==> solver.holds_outcome(
            zone,
            (#[trigger] pairs[j]).0,
            pairs[j].1,
        ) && outs[j] == solver.outcome(zone, pairs[j].0, pairs[j].1) && *lenses[j] == layer_of(
            bk,
            zone,
            pairs[j].0,
            pairs[j].1,
        ).lens
}

/// Every outcome of the zone is listed.
pub open spec fn lists_all<T: Widen>(
    solver: &BucketedFlopCfr<T>,
    bk: &FlopBucketing<T>,
    zone: Zone,
    pairs: Seq<(int, int)>,
) -> bool {
    forall|tc: int, rc: int| #[trigger]
        solver.holds_outcome(zone, tc, rc) ==> exists|j: int|
            0 <= j < pairs.len() && solver.outcome(zone, (#[trigger] pairs[j]).0, pairs[j].1)
                == solver.outcome(zone, tc, rc) && layer_of(bk, zone, pairs[j].0, pairs[j].1)
                == layer_of(bk, zone, tc, rc)
}

/// The outcomes of the turn.
fn turn_list<'a, T: Widen>(solver: &BucketedFlopCfr<T>, bk: &'a FlopBucketing<T>) -> (r: (
    Vec<usize>,
    Vec<&'a Lens>,
    Ghost<Seq<(int, int)>>,
))
    requires
        bk.turn@.len() == solver.n_turn,
    ensures
        lists_outcomes(solver, bk, Zone::Turn, r.2@, r.0@, r.1@),
        lists_all(solver, bk, Zone::Turn, r.2@),
{
    let mut outs: Vec<usize> = Vec::new();
    let mut lenses: Vec<&Lens> = Vec::new();
    let ghost mut pairs: Seq<(int, int)> = Seq::empty();
    let mut tc: usize = 0;
    while tc < solver.n_turn
        invariant
            tc <= solver.n_turn,
            bk.turn@.len() == solver.n_turn,
            outs@.len() == tc,
            lenses@.len() == tc,
            pairs.len() == tc,
            forall|j: int|
                0 <= j < tc ==> (#[trigger] pairs[j]) == (j, 0int) && outs@[j] == j && *lenses@[j]
                    == bk.turn@[j].lens,
        decreases solver.n_turn - tc,
    {
        outs.push(tc);
        lenses.push(&bk.turn[tc].lens);
        proof {
            pairs = pairs.push((tc as int, 0));
        }
        tc += 1;
    }
    proof {
        assert forall|i: int, j: int| 0 <= i < outs@.len() && 0 <= j < outs@.len() && i
            != j implies outs@[i] != outs@[j] by {
            assert(pairs[i] == (i, 0int) && pairs[j] == (j, 0int));
        }
        assert forall|tc: int, rc: int| #[trigger]
            solver.holds_outcome(Zone::Turn, tc, rc) implies exists|j: int|
            0 <= j < pairs.len() && solver.outcome(
                Zone::Turn,
                (#[trigger] pairs[j]).0,
                pairs[j].1,
            ) == solver.outcome(Zone::Turn, tc, rc) && layer_of(
                bk,
                Zone::Turn,
                pairs[j].0,
                pairs[j].1,
            ) == layer_of(bk, Zone::Turn, tc, rc) by {
            assert(pairs[tc] == (tc, 0int));
        }
    }
    (outs, lenses, Ghost(pairs))
}

/// The outcomes of the river.
fn river_list<'a, T: Widen>(
    solver: &BucketedFlopCfr<T>,
    bk: &'a FlopBucketing<T>,
    Ghost(tree): Ghost<&FlatTree>,
) -> (r: (Vec<usize>, Vec<&'a Lens>, Ghost<Seq<(int, int)>>))
    requires
        solver.wf(tree),
        bk.river@.len() == solver.n_turn,
        forall|tc: int|
            0 <= tc < solver.n_turn ==> (#[trigger] bk.river@[tc])@.len()
                == solver.river_counts@[tc],
    ensures
        lists_outcomes(solver, bk, Zone::River, r.2@, r.0@, r.1@),
        lists_all(solver, bk, Zone::River, r.2@),
{
    let ghost max = solver.max_n_river as int;
    let mut outs: Vec<usize> = Vec::new();
    let mut lenses: Vec<&Lens> = Vec::new();
    let ghost mut pairs: Seq<(int, int)> = Seq::empty();
    let mut tc: usize = 0;
    while tc < solver.n_turn
        invariant
            tc <= solver.n_turn,
            max == solver.max_n_river,
            solver.wf(tree),
            bk.river@.len() == solver.n_turn,
            forall|tc: int|
                0 <= tc < solver.n_turn ==> (#[trigger] bk.river@[tc])@.len()
                    == solver.river_counts@[tc],
            outs@.len() == pairs.len(),
            lenses@.len() == pairs.len(),
            forall|j: int|
                0 <= j < pairs.len() ==> solver.holds_outcome(
                    Zone::River,
                    (#[trigger] pairs[j]).0,
                    pairs[j].1,
                ) && outs@[j] == solver.outcome(Zone::River, pairs[j].0, pairs[j].1) && *lenses@[j]
                    == layer_of(bk, Zone::River, pairs[j].0, pairs[j].1).lens && pairs[j].0 < tc,
            pairs.no_duplicates(),
            forall|t: int, r: int|
                #![trigger solver.holds_outcome(Zone::River, t, r)]
                t < tc && solver.holds_outcome(Zone::River, t, r) ==> pairs.contains((t, r)),
        decreases solver.n_turn - tc,
    {
        assert(bk.river@[tc as int]@.len() == solver.river_counts@[tc as int]);
        assert(solver.river_counts@[tc as int] <= solver.max_n_river);
        let n: usize = solver.river_counts[tc];
        let mut rc: usize = 0;
        while rc < n
            invariant
                rc <= n,
                tc < solver.n_turn,
                max == solver.max_n_river,
                n == solver.river_counts@[tc as int],
                n <= solver.max_n_river,
                solver.wf(tree),
                bk.river@.len() == solver.n_turn,
                bk.river@[tc as int]@.len() == n,
                outs@.len() == pairs.len(),
                lenses@.len() == pairs.len(),
                forall|j: int|
                    0 <= j < pairs.len() ==> solver.holds_outcome(
                        Zone::River,
                        (#[trigger] pairs[j]).0,
                        pairs[j].1,
                    ) && outs@[j] == solver.outcome(Zone::River, pairs[j].0, pairs[j].1)
                        && *lenses@[j] == layer_of(bk, Zone::River, pairs[j].0, pairs[j].1).lens
                        && (pairs[j].0 < tc || pairs[j].0 == tc && pairs[j].1 < rc),
                pairs.no_duplicates(),
                forall|t: int, r: int|
                    #![trigger solver.holds_outcome(Zone::River, t, r)]
                    (t < tc || t == tc && r < rc) && solver.holds_outcome(Zone::River, t, r)
                        ==> pairs.contains((t, r)),
            decreases n - rc,
        {
            let o: usize = solver.river_place(tc, rc);
            outs.push(o);
            lenses.push(&bk.river[tc][rc].lens);
            proof {
                let before = pairs;
                let p = (tc as int, rc as int);
                pairs = pairs.push(p);
                assert forall|i: int, j: int|
                    0 <= i < pairs.len() && 0 <= j < pairs.len() && i != j implies pairs[i]
                    != pairs[j] by {
                    if i < before.len() {
                        assert(before[i] == pairs[i]);
                    }
                    if j < before.len() {
                        assert(before[j] == pairs[j]);
                    }
                }
                assert forall|t: int, r: int|
                    #![trigger solver.holds_outcome(Zone::River, t, r)]
                    (t < tc || t == tc && r < rc + 1) && solver.holds_outcome(
                        Zone::River,
                        t,
                        r,
                    ) implies pairs.contains((t, r)) by {
                    if t == tc && r == rc {
                        assert(pairs[before.len() as int] == (t, r));
                    } else {
                        assert(before.contains((t, r)));
                        let i = choose|i: int| 0 <= i < before.len() && before[i] == (t, r);
                        assert(pairs[i] == (t, r));
                    }
                }
            }
            rc += 1;
        }
        tc += 1;
    }
    proof {
        assert forall|i: int, j: int| 0 <= i < outs@.len() && 0 <= j < outs@.len() && i
            != j implies outs@[i] != outs@[j] by {
            assert(solver.holds_outcome(Zone::River, pairs[i].0, pairs[i].1));
            assert(solver.holds_outcome(Zone::River, pairs[j].0, pairs[j].1));
            assert(solver.river_counts@[pairs[i].0] <= max);
            assert(solver.river_counts@[pairs[j].0] <= max);
            if outs@[i] == outs@[j] {
                lemma_at_inj(max, pairs[i].0, pairs[i].1, pairs[j].0, pairs[j].1);
                assert(pairs[i] == pairs[j]);
            }
        }
        assert forall|t: int, r: int| #[trigger]
            solver.holds_outcome(Zone::River, t, r) implies exists|j: int|
            0 <= j < pairs.len() && solver.outcome(
                Zone::River,
                (#[trigger] pairs[j]).0,
                pairs[j].1,
            ) == solver.outcome(Zone::River, t, r) && layer_of(
                bk,
                Zone::River,
                pairs[j].0,
                pairs[j].1,
            ) == layer_of(bk, Zone::River, t, r) by {
            assert(pairs.contains((t, r)));
            let j = choose|j: int| 0 <= j < pairs.len() && pairs[j] == (t, r);
            assert(pairs[j] == (t, r));
        }
    }
    (outs, lenses, Ghost(pairs))
}

/// From lists of outcomes to the deals that they stand for.
proof fn lemma_zone_carried<T: Widen>(
    tree: &FlatTree,
    bk: &FlopBucketing<T>,
    solver: &BucketedFlopCfr<T>,
    zone: Zone,
    pairs: Seq<(int, int)>,
    outs: Seq<usize>,
    lenses: Seq<&Lens>,
    was: &ZoneBank<T>,
    new: &ZoneBank<T>,
)
    requires
        lists_outcomes(solver, bk, zone, pairs, outs, lenses),
        lists_all(solver, bk, zone, pairs),
        *new == (ZoneBank { cum: new.cum, ..*was }),
        carried(
            tree,
            solver.zones@,
            zone,
            &solver.book(zone),
            solver.bank(zone).cum@,
            solver.bank(zone).width as int,
            was.width as int,
            was.outcomes * was.infosets * MAX_NA_POSTFLOP,
            outs,
            lenses,
            outs.len() as int,
            was.cum@,
            new.cum@,
        ),
    ensures
        zone_carried(tree, bk, solver, zone, was, new),
{
    let book = solver.book(zone);
    let src = solver.bank(zone);
    let nh = was.width as int;
    assert forall|tc: int, rc: int, x: int, a: int, s: int| #[trigger]
        hits(solver, tree, zone, tc, rc, x, a, s) implies row(new.cum@, nh, s) == hands_row(
        &layer_of(bk, zone, tc, rc).lens,
        src.cum@,
        src.width as int,
        s,
        nh,
    ) by {
        assert(solver.holds_outcome(zone, tc, rc));
        let j = choose|j: int|
            0 <= j < pairs.len() && solver.outcome(zone, (#[trigger] pairs[j]).0, pairs[j].1)
                == solver.outcome(zone, tc, rc) && layer_of(bk, zone, pairs[j].0, pairs[j].1)
                == layer_of(bk, zone, tc, rc);
        assert(pairs[j] == pairs[j]);
        assert(carries(tree, solver.zones@, zone, &book, outs, j, x, a, s));
    }
    assert forall|s: int|
        0 <= s < was.outcomes * was.infosets * MAX_NA_POSTFLOP && !is_hit(
            solver,
            tree,
            zone,
            s,
        ) implies #[trigger] row(new.cum@, nh, s) == row(was.cum@, nh, s) by {
        if is_carried(tree, solver.zones@, zone, &book, outs, outs.len() as int, s) {
            let (j, x, a) = choose|j: int, x: int, a: int|
                0 <= j < outs.len() && #[trigger] carries(
                    tree,
                    solver.zones@,
                    zone,
                    &book,
                    outs,
                    j,
                    x,
                    a,
                    s,
                );
            assert(pairs[j] == pairs[j]);
            assert(hits(solver, tree, zone, pairs[j].0, pairs[j].1, x, a, s));
        }
    }
}

/// Gives every hand of the exact solver what its bucket accumulated, so that the
/// buckets can be scored hand by hand. A hand without a bucket gets nothing.
pub fn lift_cum_to_exact<T: Widen>(
    tree: &FlatTree,
    table: &FlopChanceTable<T>,
    bucketed: &BucketedFlopCfr<T>,
    bk: &FlopBucketing<T>,
    exact: &mut FlopStartVectorCfr<T>,
)
    requires
        bucketed.wf(tree),
        bucketed.is_for(table, bk),
        old(exact).wf(tree),
        old(exact).is_for(table),
        old(exact).river_mode.in_memory(),
        bucketed.max_n_river == old(exact).max_n_river,
    ensures
        final(exact).wf(tree),
        *final(exact) == (FlopStartVectorCfr {
            flop: final(exact).flop,
            turn: final(exact).turn,
            river: final(exact).river,
            ..*old(exact)
        }),
        zone_carried(tree, bk, bucketed, Zone::Flop, &old(exact).flop, &final(exact).flop),
        zone_carried(tree, bk, bucketed, Zone::Turn, &old(exact).turn, &final(exact).turn),
        zone_carried(tree, bk, bucketed, Zone::River, &old(exact).river, &final(exact).river),
{
    let ghost was = *exact;
    proof {
        assert(bucketed.zones@ == was.zones@);
    }
    let mut flop_outs: Vec<usize> = Vec::new();
    let mut flop_lenses: Vec<&Lens> = Vec::new();
    flop_outs.push(0);
    flop_lenses.push(&bk.flop.lens);
    let ghost flop_pairs = seq![(0int, 0int)];
    proof {
        assert(lists_outcomes(
            bucketed,
            bk,
            Zone::Flop,
            flop_pairs,
            flop_outs@,
            flop_lenses@,
        ));
        assert forall|tc: int, rc: int| #[trigger]
            bucketed.holds_outcome(Zone::Flop, tc, rc) implies exists|j: int|
            0 <= j < flop_pairs.len() && bucketed.outcome(
                Zone::Flop,
                (#[trigger] flop_pairs[j]).0,
                flop_pairs[j].1,
            ) == bucketed.outcome(Zone::Flop, tc, rc) && layer_of(
                bk,
                Zone::Flop,
                flop_pairs[j].0,
                flop_pairs[j].1,
            ) == layer_of(bk, Zone::Flop, tc, rc) by {
            assert(flop_pairs[0] == (0int, 0int));
        }
    }
    carry_zone(
        tree,
        &bucketed.zones,
        Zone::Flop,
        &bucketed.flop_book,
        &bucketed.flop,
        &mut exact.flop,
        &flop_outs,
        &flop_lenses,
    );
    let (turn_outs, turn_lenses, Ghost(turn_pairs)) = turn_list(bucketed, bk);
    proof {
        assert forall|j: int| 0 <= j < turn_outs@.len() implies (#[trigger] turn_outs@[j])
            < bucketed.turn.outcomes by {
            assert(bucketed.holds_outcome(Zone::Turn, turn_pairs[j].0, turn_pairs[j].1));
        }
        assert forall|j: int| 0 <= j < turn_lenses@.len() implies (
        #[trigger] turn_lenses@[j]).wf(exact.turn.width as int) && turn_lenses@[j].width
            == bucketed.turn.width by {
            assert(bucketed.holds_outcome(Zone::Turn, turn_pairs[j].0, turn_pairs[j].1));
            bucketed.lemma_layer(table, bk, Zone::Turn, turn_pairs[j].0, turn_pairs[j].1);
        }
    }
    carry_zone(
        tree,
        &bucketed.zones,
        Zone::Turn,
        &bucketed.turn_book,
        &bucketed.turn,
        &mut exact.turn,
        &turn_outs,
        &turn_lenses,
    );
    proof {
        assert forall|tc: int| 0 <= tc < bucketed.n_turn implies (
        #[trigger] bk.river@[tc])@.len() == bucketed.river_counts@[tc] by {
            assert(bucketed.river_counts@[tc]
                == table.river_decks@[table.remaining_deck@[tc] as int]@.len());
        }
    }
    let (river_outs, river_lenses, Ghost(river_pairs)) = river_list(bucketed, bk, Ghost(tree));
    proof {
        assert forall|j: int| 0 <= j < river_outs@.len() implies (#[trigger] river_outs@[j])
            < bucketed.river.outcomes by {
            assert(bucketed.holds_outcome(Zone::River, river_pairs[j].0, river_pairs[j].1));
            bucketed.lemma_outcome(tree, Zone::River, river_pairs[j].0, river_pairs[j].1);
        }
        assert forall|j: int| 0 <= j < river_lenses@.len() implies (
        #[trigger] river_lenses@[j]).wf(exact.river.width as int) && river_lenses@[j].width
            == bucketed.river.width by {
            assert(bucketed.holds_outcome(Zone::River, river_pairs[j].0, river_pairs[j].1));
            bucketed.lemma_layer(table, bk, Zone::River, river_pairs[j].0, river_pairs[j].1);
        }
    }
    carry_zone(
        tree,
        &bucketed.zones,
        Zone::River,
        &bucketed.river_book,
        &bucketed.river,
        &mut exact.river,
        &river_outs,
        &river_lenses,
    );
    proof {
        lemma_zone_carried(
            tree,
            bk,
            bucketed,
            Zone::Flop,
            flop_pairs,
            flop_outs@,
            flop_lenses@,
            &was.flop,
            &exact.flop,
        );
        lemma_zone_carried(
            tree,
            bk,
            bucketed,
            Zone::Turn,
            turn_pairs,
            turn_outs@,
            turn_lenses@,
            &was.turn,
            &exact.turn,
        );
        lemma_zone_carried(
            tree,
            bk,
            bucketed,
            Zone::River,
            river_pairs,
            river_outs@,
            river_lenses@,
            &was.river,
            &exact.river,
        );
    }
}

} // verus!
