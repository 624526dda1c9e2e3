//! Frozen strategies that lean toward one action.
use vstd::prelude::*;

use crate::bank::{block, normalize_cum_into_strategy, room, share, spare, ZoneBank};
use crate::layout::{
    at, copy_run, lemma_at_bound, lemma_at_inj, lemma_other_row, lemma_row_inside, only_row, row,
};
use crate::scalar::{filled, Scalar};
use crate::tree::{FlatTree, MAX_NA_POSTFLOP};
use crate::zones::{Zone, ZoneBook};

verus! {

/// The action that `target` names among `na`: the last one for `usize::MAX` and
/// for numbers that are too large.
pub open spec fn aim(target: usize, na: int) -> int {
    if target < na {
        target as int
    } else {
        na - 1
    }
}

/// How a frozen strategy departs from the average.
pub enum Lean<'a, T> {
    /// Everyone but the traverser moves `eps` toward one action.
    One { traverser: usize, target: usize, eps: T },
    /// The traverser plays variant `own`, everyone else a mix of all variants:
    /// per boundary, player, variant and hand, the weights are `mix`.
    Mixed {
        traverser: usize,
        own: usize,
        variants: &'a Vec<(usize, T)>,
        mix: &'a Vec<T>,
        boundary: &'a Vec<usize>,
    },
}

/// Where `mix` keeps the weight of variant `k` for hand `h`.
pub open spec fn mix_at(b: int, np: int, p: int, kk: int, k: int, nh: int, h: int) -> int {
    at(nh, at(kk, at(np, b, p), k), h)
}

pub proof fn lemma_mix_bound(n_b: int, b: int, np: int, p: int, kk: int, k: int, nh: int, h: int)
    requires
        0 <= b < n_b,
        0 <= p < np,
        0 <= k < kk,
        0 <= h < nh,
    ensures
        0 <= at(np, b, p) < n_b * np,
        0 <= at(kk, at(np, b, p), k) < n_b * np * kk,
        0 <= mix_at(b, np, p, kk, k, nh, h) < n_b * np * kk * nh,
        b * np <= at(np, b, p),
        at(np, b, p) * kk <= at(kk, at(np, b, p), k),
        at(kk, at(np, b, p), k) * nh <= mix_at(b, np, p, kk, k, nh, h),
{
    lemma_at_bound(np, n_b, b, p);
    lemma_at_bound(kk, n_b * np, at(np, b, p), k);
    lemma_at_bound(nh, n_b * np * kk, at(kk, at(np, b, p), k), h);
}

/// The weight that variant `k` has for hand `h` of `owner`.
pub open spec fn variant_weight<T: Scalar>(
    traverser: int,
    own: int,
    kk: int,
    mix: Seq<T>,
    b: int,
    np: int,
    nh: int,
    owner: int,
    k: int,
    h: int,
) -> T {
    if owner == traverser {
        if k == own {
            T::s_one()
        } else {
            T::s_zero()
        }
    } else {
        mix[mix_at(b, np, owner, kk, k, nh, h)]
    }
}

/// What the variants before `n` move in total, from the second one on; with an
/// action, only what they move toward it.
pub open spec fn moved<T: Scalar>(
    traverser: int,
    own: int,
    variants: Seq<(usize, T)>,
    mix: Seq<T>,
    b: int,
    np: int,
    nh: int,
    owner: int,
    h: int,
    na: int,
    toward: Option<int>,
    n: nat,
) -> T
    decreases n,
{
    if n <= 1 {
        T::s_zero()
    } else {
        let prev = moved(
            traverser,
            own,
            variants,
            mix,
            b,
            np,
            nh,
            owner,
            h,
            na,
            toward,
            (n - 1) as nat,
        );
        let (target, eps) = variants[n - 1];
        let w = variant_weight(
            traverser,
            own,
            variants.len() as int,
            mix,
            b,
            np,
            nh,
            owner,
            n - 1,
            h,
        );
        if eps.s_same(T::s_zero()) || w.s_same(T::s_zero()) || (toward is Some && toward != Some(
            aim(target, na),
        )) {
            prev
        } else {
            prev.s_plus(w.s_times(eps))
        }
    }
}

/// The probability of action `a` of `na` for hand `h` of `owner` at node `i`,
/// where the average says `bp`.
pub open spec fn leaned<T: Scalar>(
    lean: &Lean<T>,
    np: int,
    nh: int,
    owner: int,
    i: int,
    na: int,
    a: int,
    h: int,
    bp: T,
) -> T {
    match lean {
        Lean::One { traverser, target, eps } => if T::s_zero().s_below(*eps) && owner != *traverser {
            T::s_one().s_minus(*eps).s_times(bp).s_plus(
                eps.s_times(
                    if a == aim(*target, na) {
                        T::s_one()
                    } else {
                        T::s_zero()
                    },
                ),
            )
        } else {
            bp
        },
        Lean::Mixed { traverser, own, variants, mix, boundary } => {
            let b = boundary@[i] as int;
            let kk = variants@.len();
            let all = moved(
                *traverser as int,
                *own as int,
                variants@,
                mix@,
                b,
                np,
                nh,
                owner,
                h,
                na,
                None,
                kk,
            );
            let here = moved(
                *traverser as int,
                *own as int,
                variants@,
                mix@,
                b,
                np,
                nh,
                owner,
                h,
                na,
                Some(a),
                kk,
            );
            if !(owner == *traverser && *own == 0) && T::s_zero().s_below(all) {
                T::s_one().s_minus(all).s_times(bp).s_plus(here)
            } else {
                bp
            }
        },
    }
}

/// The weights of a mix can be read for every decision of the zone.
pub open spec fn lean_fits<T: Scalar>(
    lean: &Lean<T>,
    tree: &FlatTree,
    zones: Seq<Zone>,
    zone: Zone,
    nh: int,
) -> bool {
    match lean {
        Lean::One { .. } => true,
        Lean::Mixed { variants, mix, boundary, .. } => exists|n_b: int| #[trigger]
            mix_covers(mix@, tree, zones, zone, nh, variants@.len() as int, boundary@, n_b),
    }
}

/// `mix` has weights for `n_b` boundaries, and every decision of the zone lies
/// under one of them.
pub open spec fn mix_covers<T>(
    mix: Seq<T>,
    tree: &FlatTree,
    zones: Seq<Zone>,
    zone: Zone,
    nh: int,
    kk: int,
    boundary: Seq<usize>,
    n_b: int,
) -> bool {
    &&& 0 <= n_b
    &&& mix.len() == n_b * tree.np() * kk * nh
    &&& n_b * tree.np() <= usize::MAX
    &&& n_b * tree.np() * kk <= usize::MAX
    &&& boundary.len() == tree.size()
    &&& forall|i: int| #[trigger]
        ZoneBook::owns(tree, zones, zone, i) ==> boundary[i] < n_b
}

/// The strategy of decision `i` leans away from its average in outcome `o`; its
/// spare slots are as they were.
pub open spec fn leaned_at<T: Scalar>(
    tree: &FlatTree,
    book: &ZoneBook,
    w: int,
    o: int,
    cum: Seq<T>,
    lean: &Lean<T>,
    was: Seq<T>,
    strategy: Seq<T>,
    i: int,
) -> bool {
    let n = tree.arity(i);
    let g = at(book.infoset_count as int, o, book.local(i));
    &&& forall|a: int, h: int|
        0 <= a < n && 0 <= h < w ==> #[trigger] block(strategy, w, book.local(i), n)[at(w, a, h)]
            == leaned(
            lean,
            tree.np(),
            w,
            tree.nodes@[i].player_id as int,
            i,
            n,
            a,
            h,
            share(block(cum, w, g, n), w, n, T::s_zero(), a, h),
        )
    &&& spare(strategy, w, book.local(i), n) == spare(was, w, book.local(i), n)
}

/// [`leaned_at`] of every decision of the zone.
pub open spec fn leaned_of<T: Scalar>(
    tree: &FlatTree,
    zones: Seq<Zone>,
    zone: Zone,
    book: &ZoneBook,
    w: int,
    o: int,
    cum: Seq<T>,
    lean: &Lean<T>,
    was: Seq<T>,
    strategy: Seq<T>,
) -> bool {
    &&& strategy.len() == was.len()
    &&& forall|i: int| #[trigger]
        ZoneBook::owns(tree, zones, zone, i) ==> leaned_at(
            tree,
            book,
            w,
            o,
            cum,
            lean,
            was,
            strategy,
            i,
        )
}

/// What the variants move for one hand: in total, and toward each action.
fn moves_of<T: Scalar>(
    traverser: usize,
    own: usize,
    variants: &Vec<(usize, T)>,
    mix: &Vec<T>,
    b: usize,
    np: usize,
    nh: usize,
    owner: usize,
    h: usize,
    na: usize,
    Ghost(n_b): Ghost<int>,
) -> (out: (T, Vec<T>))
    requires
        b < n_b,
        owner < np,
        h < nh,
        0 < na,
        mix@.len() == n_b * np * variants@.len() * nh,
        n_b * np <= usize::MAX,
        n_b * np * variants@.len() <= usize::MAX,
    ensures
        out.0 == moved(
            traverser as int,
            own as int,
            variants@,
            mix@,
            b as int,
            np as int,
            nh as int,
            owner as int,
            h as int,
            na as int,
            None,
            variants@.len(),
        ),
        out.1@.len() == na,
        forall|a: int|
            0 <= a < na ==> #[trigger] out.1@[a] == moved(
                traverser as int,
                own as int,
                variants@,
                mix@,
                b as int,
                np as int,
                nh as int,
                owner as int,
                h as int,
                na as int,
                Some(a),
                variants@.len(),
            ),
{
    let kk: usize = variants.len();
    let len: usize = mix.len();
    let mut all = T::zero();
    let mut add: Vec<T> = filled(T::zero(), na);
    if kk <= 1 {
        return (all, add);
    }
    let mut k: usize = 1;
    while k < kk
        invariant
            1 <= k <= kk,
            kk == variants@.len(),
            len == mix@.len(),
            b < n_b,
            owner < np,
            h < nh,
            0 < na,
            mix@.len() == n_b * np * kk * nh,
            n_b * np <= usize::MAX,
            n_b * np * kk <= usize::MAX,
            all == moved(
                traverser as int,
                own as int,
                variants@,
                mix@,
                b as int,
                np as int,
                nh as int,
                owner as int,
                h as int,
                na as int,
                None,
                k as nat,
            ),
            add@.len() == na,
            forall|a: int|
                0 <= a < na ==> #[trigger] add@[a] == moved(
                    traverser as int,
                    own as int,
                    variants@,
                    mix@,
                    b as int,
                    np as int,
                    nh as int,
                    owner as int,
                    h as int,
                    na as int,
                    Some(a),
                    k as nat,
                ),
        decreases kk - k,
    {
        let (target, eps) = variants[k];
        let w = if owner == traverser {
            if k == own {
                T::one()
            } else {
                T::zero()
            }
        } else {
            proof {
                lemma_mix_bound(
                    n_b,
                    b as int,
                    np as int,
                    owner as int,
                    kk as int,
                    k as int,
                    nh as int,
                    h as int,
                );
            }
            mix[((b * np + owner) * kk + k) * nh + h]
        };
        let ghost add0 = add@;
        if !eps.same(T::zero()) && !w.same(T::zero()) {
            let ta: usize = if target < na {
                target
            } else {
                na - 1
            };
            let step = w.times(eps);
            let here = add[ta];
            add[ta] = here.plus(step);
            all = all.plus(step);
        }
        proof {
            assert forall|a: int| 0 <= a < na implies #[trigger] add@[a] == moved(
                traverser as int,
                own as int,
                variants@,
                mix@,
                b as int,
                np as int,
                nh as int,
                owner as int,
                h as int,
                na as int,
                Some(a),
                (k + 1) as nat,
            ) by {
                assert(add0[a] == moved(
                    traverser as int,
                    own as int,
                    variants@,
                    mix@,
                    b as int,
                    np as int,
                    nh as int,
                    owner as int,
                    h as int,
                    na as int,
                    Some(a),
                    k as nat,
                ));
            }
        }
        k += 1;
    }
    (all, add)
}

/// Leans the average strategy of one decision.
fn lean_row<T: Scalar>(
    lean: &Lean<T>,
    np: usize,
    nh: usize,
    owner: usize,
    i: usize,
    na: usize,
    bp: &Vec<T>,
    Ghost(tree): Ghost<&FlatTree>,
    Ghost(zones): Ghost<Seq<Zone>>,
    Ghost(zone): Ghost<Zone>,
) -> (out: Vec<T>)
    requires
        bp@.len() == na * nh,
        np == tree.np(),
        owner < np,
        lean_fits(lean, tree, zones, zone, nh as int),
        ZoneBook::owns(tree, zones, zone, i as int),
    ensures
        out@.len() == na * nh,
        forall|a: int, h: int|
            0 <= a < na && 0 <= h < nh ==> #[trigger] out@[at(nh as int, a, h)] == leaned(
                lean,
                np as int,
                nh as int,
                owner as int,
                i as int,
                na as int,
                a,
                h,
                bp@[at(nh as int, a, h)],
            ),
{
    let ghost w = nh as int;
    let len: usize = bp.len();
    let mut out: Vec<T> = filled(T::zero(), len);
    if na == 0 {
        return out;
    }
    let mut h: usize = 0;
    while h < nh
        invariant
            h <= nh,
            w == nh,
            0 < na,
            len == na * nh,
            bp@.len() == len,
            out@.len() == len,
            np == tree.np(),
            owner < np,
            lean_fits(lean, tree, zones, zone, nh as int),
            ZoneBook::owns(tree, zones, zone, i as int),
            forall|a: int, k: int|
                0 <= a < na && 0 <= k < h ==> #[trigger] out@[at(w, a, k)] == leaned(
                    lean,
                    np as int,
                    w,
                    owner as int,
                    i as int,
                    na as int,
                    a,
                    k,
                    bp@[at(w, a, k)],
                ),
        decreases nh - h,
    {
        let mut moves: Option<(T, Vec<T>)> = None;
        match lean {
            Lean::One { .. } => {},
            Lean::Mixed { traverser, own, variants, mix, boundary } => {
                let ghost n_b = choose|n_b: int| #[trigger]
                    mix_covers(mix@, tree, zones, zone, w, variants@.len() as int, boundary@, n_b);
                moves = Some(
                    moves_of(
                        *traverser,
                        *own,
                        variants,
                        mix,
                        boundary[i],
                        np,
                        nh,
                        owner,
                        h,
                        na,
                        Ghost(n_b),
                    ),
                );
            },
        }
        let mut a: usize = 0;
        while a < na
            invariant
                a <= na,
                h < nh,
                w == nh,
                len == na * nh,
                bp@.len() == len,
                out@.len() == len,
                lean matches Lean::Mixed {
                    traverser,
                    own,
                    variants,
                    mix,
                    boundary,
                } ==> moves matches Some(m) && m.0 == moved(
                    *traverser as int,
                    *own as int,
                    variants@,
                    mix@,
                    boundary@[i as int] as int,
                    np as int,
                    w,
                    owner as int,
                    h as int,
                    na as int,
                    None,
                    variants@.len(),
                ) && m.1@.len() == na && forall|c: int|
                    0 <= c < na ==> #[trigger] m.1@[c] == moved(
                        *traverser as int,
                        *own as int,
                        variants@,
                        mix@,
                        boundary@[i as int] as int,
                        np as int,
                        w,
                        owner as int,
                        h as int,
                        na as int,
                        Some(c),
                        variants@.len(),
                    ),
                forall|c: int, k: int|
                    0 <= c < na && 0 <= k < h || 0 <= c < a && k == h ==> #[trigger] out@[at(
                        w,
                        c,
                        k,
                    )] == leaned(
                        lean,
                        np as int,
                        w,
                        owner as int,
                        i as int,
                        na as int,
                        c,
                        k,
                        bp@[at(w, c, k)],
                    ),
            decreases na - a,
        {
            proof {
                lemma_at_bound(w, na as int, a as int, h as int);
            }
            let x = bp[a * nh + h];
            let y = match lean {
                Lean::One { traverser, target, eps } => if T::zero().below(*eps) && owner
                    != *traverser {
                    let ta: usize = if *target < na {
                        *target
                    } else {
                        na - 1
                    };
                    let hit = if a == ta {
                        T::one()
                    } else {
                        T::zero()
                    };
                    T::one().minus(*eps).times(x).plus(eps.times(hit))
                } else {
                    x
                },
                Lean::Mixed { traverser, own, .. } => match &moves {
                    None => x,
                    Some((all, add)) => if !(owner == *traverser && *own == 0) && T::zero().below(
                        *all,
                    ) {
                        T::one().minus(*all).times(x).plus(add[a])
                    } else {
                        x
                    },
                },
            };
            let ghost before = out@;
            out[a * nh + h] = y;
            proof {
                assert forall|c: int, k: int|
                    0 <= c < na && 0 <= k < h || 0 <= c < a + 1
                        && k == h implies #[trigger] out@[at(w, c, k)] == leaned(
                    lean,
                    np as int,
                    w,
                    owner as int,
                    i as int,
                    na as int,
                    c,
                    k,
                    bp@[at(w, c, k)],
                ) by {
                    lemma_at_bound(w, na as int, c, k);
                    if !(c == a && k == h) {
                        if at(w, c, k) == at(w, a as int, h as int) {
                            lemma_at_inj(w, c, k, a as int, h as int);
                        }
                        assert(before[at(w, c, k)] == out@[at(w, c, k)]);
                    }
                }
            }
            a += 1;
        }
        h += 1;
    }
    out
}

proof fn lemma_leaned_frame<T: Scalar>(
    tree: &FlatTree,
    book: &ZoneBook,
    w: int,
    o: int,
    cum: Seq<T>,
    lean: &Lean<T>,
    was: Seq<T>,
    s1: Seq<T>,
    s2: Seq<T>,
    i: int,
)
    requires
        leaned_at(tree, book, w, o, cum, lean, was, s1, i),
        row(s2, room(w), book.local(i)) == row(s1, room(w), book.local(i)),
    ensures
        leaned_at(tree, book, w, o, cum, lean, was, s2, i),
{
    let n = tree.arity(i);
    assert(block(s2, w, book.local(i), n) == block(s1, w, book.local(i), n));
    assert(spare(s2, w, book.local(i), n) == spare(s1, w, book.local(i), n));
}

impl<T: Scalar> ZoneBank<T> {
    /// Sets the strategy of outcome `o` to its average, leaning as `lean` says.
    pub fn freeze_leaning(
        &mut self,
        tree: &FlatTree,
        zones: &Vec<Zone>,
        zone: Zone,
        book: &ZoneBook,
        o: usize,
        lean: &Lean<T>,
    )
        requires
            tree.wf(),
            tree.fits_postflop(),
            zones@.len() == tree.size(),
            book.of(tree, zones@, zone),
            old(self).for_book(book),
            o < old(self).outcomes,
            lean_fits(lean, tree, zones@, zone, old(self).width as int),
        ensures
            final(self).for_book(book),
            *final(self) == (ZoneBank { strategy: final(self).strategy, ..*old(self) }),
            leaned_of(
                tree,
                zones@,
                zone,
                book,
                old(self).width as int,
                o as int,
                old(self).cum@,
                lean,
                old(self).strategy@,
                final(self).strategy@,
            ),
    {
        let ghost ids = tree.decision_node_ids@;
        let ghost was = self.strategy@;
        let ghost cum = self.cum@;
        let ghost before_all = *self;
        let w: usize = self.width;
        let ghost wi = w as int;
        let ghost big = room(wi);
        let ghost count = book.infoset_count as int;
        let ghost all = self.outcomes * book.infoset_count;
        let np: usize = tree.num_players as usize;
        let cum_len: usize = self.cum.len();
        let str_len: usize = self.strategy.len();
        let mut k: usize = 0;
        while k < tree.decision_node_ids.len()
            invariant
                k <= ids.len(),
                ids == tree.decision_node_ids@,
                tree.wf(),
                tree.fits_postflop(),
                zones@.len() == tree.size(),
                book.of(tree, zones@, zone),
                np == tree.np(),
                *self == (ZoneBank { strategy: self.strategy, ..before_all }),
                cum == self.cum@,
                o < self.outcomes,
                w == self.width,
                wi == w,
                big == room(wi),
                count == book.infoset_count,
                count == self.infosets,
                all == self.outcomes * count,
                all <= usize::MAX,
                cum.len() == all * big,
                cum_len == all * big,
                was.len() == count * big,
                str_len == count * big,
                self.strategy@.len() == was.len(),
                lean_fits(lean, tree, zones@, zone, wi),
                forall|j: int|
                    0 <= j < k && zones@[(#[trigger] ids[j]) as int] == zone ==> leaned_at(
                        tree,
                        book,
                        wi,
                        o as int,
                        cum,
                        lean,
                        was,
                        self.strategy@,
                        ids[j] as int,
                    ),
                forall|j: int|
                    k <= j < ids.len() && zones@[(#[trigger] ids[j]) as int] == zone ==> row(
                        self.strategy@,
                        big,
                        book.local(ids[j] as int),
                    ) == row(was, big, book.local(ids[j] as int)),
            decreases ids.len() - k,
        {
            let idx: usize = tree.decision_node_ids[k] as usize;
            let ghost i = ids[k as int] as int;
            assert(i == idx && tree.nodes@[i].is_player());
            if zones[idx] == zone {
                assert(ZoneBook::owns(tree, zones@, zone, i));
                assert(tree.node_ok(i));
                let local: usize = book.local_offset[idx];
                let na: usize = tree.nodes[idx].num_children as usize;
                let owner: usize = tree.nodes[idx].player_id as usize;
                let ghost n = na as int;
                let ghost g = at(count, o as int, local as int);
                let ghost mid = self.strategy@;
                proof {
                    book.lemma_local(tree, zones@, zone, i);
                    lemma_at_bound(count, self.outcomes as int, o as int, local as int);
                    lemma_row_inside(big, all, g);
                    lemma_row_inside(big, count, local as int);
                    assert(n * wi <= big) by (nonlinear_arith)
                        requires
                            0 <= n <= MAX_NA_POSTFLOP,
                            0 <= wi,
                            big == MAX_NA_POSTFLOP * wi,
                    ;
                    assert(0 <= n * wi) by (nonlinear_arith)
                        requires
                            0 <= n,
                            0 <= wi,
                    ;
                }
                assert(big <= cum_len);
                let one: usize = MAX_NA_POSTFLOP * w;
                let start: usize = (o * book.infoset_count + local) * one;
                let off: usize = local * one;
                let len: usize = na * w;
                let values = vstd::slice::slice_subrange(self.cum.as_slice(), start, start + len);
                let mut bp: Vec<T> = filled(T::zero(), len);
                normalize_cum_into_strategy(values, na, w, &mut bp, 0);
                proof {
                    assert(values@ =~= block(cum, wi, g, n));
                    assert(bp@.subrange(0, n * wi) =~= bp@);
                }
                let out = lean_row(
                    lean,
                    np,
                    w,
                    owner,
                    idx,
                    na,
                    &bp,
                    Ghost(tree),
                    Ghost(zones@),
                    Ghost(zone),
                );
                copy_run(out.as_slice(), 0, &mut self.strategy, off, len);
                proof {
                    assert(only_row(mid, self.strategy@, big, local as int));
                    assert(out@.subrange(0, n * wi) =~= out@);
                    assert(self.strategy@.subrange(off as int, off + n * wi) =~= block(
                        self.strategy@,
                        wi,
                        local as int,
                        n,
                    ));
                    assert(spare(self.strategy@, wi, local as int, n) =~= spare(
                        mid,
                        wi,
                        local as int,
                        n,
                    ));
                    assert(row(mid, big, local as int) == row(was, big, local as int));
                    assert(leaned_at(
                        tree,
                        book,
                        wi,
                        o as int,
                        cum,
                        lean,
                        was,
                        self.strategy@,
                        i,
                    )) by {
                        assert forall|a: int, h: int| 0 <= a < n && 0 <= h < wi implies #[trigger] block(
                            self.strategy@,
                            wi,
                            book.local(i),
                            n,
                        )[at(wi, a, h)] == leaned(
                            lean,
                            tree.np(),
                            wi,
                            tree.nodes@[i].player_id as int,
                            i,
                            n,
                            a,
                            h,
                            share(block(cum, wi, g, n), wi, n, T::s_zero(), a, h),
                        ) by {
                            assert(block(self.strategy@, wi, local as int, n) == out@);
                            assert(out@[at(wi, a, h)] == leaned(
                                lean,
                                np as int,
                                wi,
                                owner as int,
                                i,
                                n,
                                a,
                                h,
                                bp@[at(wi, a, h)],
                            ));
                            assert(bp@[at(wi, a, h)] == share(
                                block(cum, wi, g, n),
                                wi,
                                n,
                                T::s_zero(),
                                a,
                                h,
                            ));
                        }
                    }
                    assert forall|j: int|
                        0 <= j < ids.len() && j != k && zones@[(#[trigger] ids[j]) as int]
                            == zone implies row(self.strategy@, big, book.local(ids[j] as int))
                        == row(mid, big, book.local(ids[j] as int)) by {
                        let m = ids[j] as int;
                        assert(tree.nodes@[m].is_player());
                        assert(ZoneBook::owns(tree, zones@, zone, m));
                        book.lemma_local(tree, zones@, zone, m);
                        lemma_row_inside(big, count, book.local(m));
                        lemma_other_row(mid, self.strategy@, big, local as int, book.local(m));
                    }
                    assert forall|j: int|
                        0 <= j < k && zones@[(#[trigger] ids[j]) as int] == zone implies leaned_at(
                        tree,
                        book,
                        wi,
                        o as int,
                        cum,
                        lean,
                        was,
                        self.strategy@,
                        ids[j] as int,
                    ) by {
                        let m = ids[j] as int;
                        assert(leaned_at(tree, book, wi, o as int, cum, lean, was, mid, m));
                        assert(row(self.strategy@, big, book.local(m)) == row(
                            mid,
                            big,
                            book.local(m),
                        ));
                        lemma_leaned_frame(
                            tree,
                            book,
                            wi,
                            o as int,
                            cum,
                            lean,
                            was,
                            mid,
                            self.strategy@,
                            m,
                        );
                    }
                }
            }
            k += 1;
        }
        proof {
            assert forall|i: int| #[trigger] ZoneBook::owns(
                tree,
                zones@,
                zone,
                i,
            ) implies leaned_at(
                tree,
                book,
                wi,
                o as int,
                cum,
                lean,
                was,
                self.strategy@,
                i,
            ) by {
                assert(ids.contains(i as u32));
                let j = choose|j: int| 0 <= j < ids.len() && ids[j] == i as u32;
                assert(ids[j] as int == i);
            }
        }
    }
}

} // verus!
