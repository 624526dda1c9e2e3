//! The regret and strategy buffers of one zone.
//!
//! An infoset has [`MAX_NA_POSTFLOP`] rows, one per action; a row has one entry
//! per hand (or per bucket of hands). Regrets and cumulative strategies are
//! kept once per dealt outcome, the current strategy for one outcome at a time.
use vstd::prelude::*;

use crate::layout::{
    at, flat, lemma_at_bound, lemma_at_inj, lemma_other_row, lemma_row_inside, only_row, row,
};
use crate::scalar::{filled, match_eps, s_match_eps, Scalar};
use crate::tree::{FlatTree, MAX_NA_POSTFLOP};
use crate::zones::{Zone, ZoneBook};

verus! {

/// What the entries over `threshold` of column `h` add up to, over the first
/// `n` actions.
pub open spec fn mass<T: Scalar>(values: Seq<T>, w: int, h: int, threshold: T, n: nat) -> T
    decreases n,
{
    if n == 0 {
        T::s_zero()
    } else {
        let prev = mass(values, w, h, threshold, (n - 1) as nat);
        let v = values[at(w, n - 1, h)];
        if threshold.s_below(v) {
            prev.s_plus(v)
        } else {
            prev
        }
    }
}

/// Action `a`'s share of column `h`: in proportion to its entry if that is over
/// `threshold`, else none; all actions alike where nothing is over it.
pub open spec fn share<T: Scalar>(
    values: Seq<T>,
    w: int,
    na: int,
    threshold: T,
    a: int,
    h: int,
) -> T {
    let total = mass(values, w, h, threshold, na as nat);
    let v = values[at(w, a, h)];
    if T::s_zero().s_below(total) {
        if threshold.s_below(v) {
            v.s_over(total)
        } else {
            T::s_zero()
        }
    } else {
        T::s_one().s_over(T::s_of(na))
    }
}

/// Where no entry of a column is over the threshold, all actions are played alike.
pub proof fn law_no_mass_plays_evenly<T: Scalar>(
    values: Seq<T>,
    w: int,
    na: int,
    threshold: T,
    a: int,
    h: int,
)
    requires
        0 <= a < na,
        forall|b: int| 0 <= b < na ==> !threshold.s_below(#[trigger] values[at(w, b, h)]),
        !T::s_zero().s_below(T::s_zero()),
    ensures
        share(values, w, na, threshold, a, h) == T::s_one().s_over(T::s_of(na)),
{
    lemma_no_mass(values, w, h, threshold, na as nat);
}

proof fn lemma_no_mass<T: Scalar>(values: Seq<T>, w: int, h: int, threshold: T, n: nat)
    requires
        forall|b: int| 0 <= b < n ==> !threshold.s_below(#[trigger] values[at(w, b, h)]),
    ensures
        mass(values, w, h, threshold, n) == T::s_zero(),
    decreases n,
{
    if n > 0 {
        lemma_no_mass(values, w, h, threshold, (n - 1) as nat);
        let b: int = n - 1;
        assert(!threshold.s_below(values[at(w, b, h)]));
    }
}

/// `out` holds the shares of `values`.
pub open spec fn is_shares<T: Scalar>(
    values: Seq<T>,
    out: Seq<T>,
    w: int,
    na: int,
    threshold: T,
) -> bool {
    &&& out.len() == na * w
    &&& forall|a: int, h: int|
        0 <= a < na && 0 <= h < w ==> #[trigger] out[at(w, a, h)] == share(
            values,
            w,
            na,
            threshold,
            a,
            h,
        )
}

/// Turns action values into a strategy, column by column, written from `off`.
pub fn shares_into<T: Scalar>(
    values: &[T],
    na: usize,
    w: usize,
    threshold: T,
    strategy: &mut Vec<T>,
    off: usize,
)
    requires
        values@.len() == na * w,
        off + na * w <= old(strategy)@.len(),
    ensures
        final(strategy)@.len() == old(strategy)@.len(),
        is_shares(
            values@,
            final(strategy)@.subrange(off as int, off + na * w),
            w as int,
            na as int,
            threshold,
        ),
        forall|i: int|
            0 <= i < final(strategy)@.len() && !(off <= i < off + na * w) ==> #[trigger] final(strategy)@[i] == old(strategy)@[i],
{
    let ghost vals = values@;
    let ghost wi = w as int;
    let ghost ni = na as int;
    let ghost before = strategy@;
    let len: usize = values.len();
    let whole: usize = strategy.len();
    let mut h: usize = 0;
    while h < w
        invariant
            h <= w,
            wi == w,
            ni == na,
            vals == values@,
            vals.len() == ni * wi,
            len == ni * wi,
            whole == before.len(),
            strategy@.len() == before.len(),
            off + ni * wi <= before.len(),
            forall|a: int, g: int|
                0 <= a < ni && 0 <= g < h ==> strategy@[off + #[trigger] at(wi, a, g)] == share(
                    vals,
                    wi,
                    ni,
                    threshold,
                    a,
                    g,
                ),
            forall|i: int|
                0 <= i < strategy@.len() && !(off <= i < off + ni * wi) ==> #[trigger] strategy@[i]
                    == before[i],
        decreases w - h,
    {
        let mut total = T::zero();
        let mut a: usize = 0;
        while a < na
            invariant
                a <= na,
                h < w,
                wi == w,
                ni == na,
                vals == values@,
                vals.len() == ni * wi,
                len == ni * wi,
                total == mass(vals, wi, h as int, threshold, a as nat),
            decreases na - a,
        {
            proof {
                lemma_at_bound(wi, ni, a as int, h as int);
            }
            let v = values[a * w + h];
            if threshold.below(v) {
                total = total.plus(v);
            }
            a += 1;
        }
        let positive = T::zero().below(total);
        let uniform = T::one().over(T::of_usize(na));
        let mut a: usize = 0;
        while a < na
            invariant
                a <= na,
                h < w,
                wi == w,
                ni == na,
                vals == values@,
                vals.len() == ni * wi,
                len == ni * wi,
                whole == before.len(),
                strategy@.len() == before.len(),
                off + ni * wi <= before.len(),
                total == mass(vals, wi, h as int, threshold, na as nat),
                positive == T::s_zero().s_below(total),
                uniform == T::s_one().s_over(T::s_of(ni)),
                forall|b: int, g: int|
                    0 <= b < ni && (0 <= g < h || (g == h && b < a)) ==> strategy@[off
                        + #[trigger] at(wi, b, g)] == share(vals, wi, ni, threshold, b, g),
                forall|i: int|
                    0 <= i < strategy@.len() && !(off <= i < off + ni * wi)
                        ==> #[trigger] strategy@[i] == before[i],
            decreases na - a,
        {
            proof {
                lemma_at_bound(wi, ni, a as int, h as int);
            }
            let v = values[a * w + h];
            let s = if positive {
                if threshold.below(v) {
                    v.over(total)
                } else {
                    T::zero()
                }
            } else {
                uniform
            };
            let ghost mid = strategy@;
            let pos: usize = off + (a * w + h);
            strategy[pos] = s;
            proof {
                assert forall|b: int, g: int|
                    0 <= b < ni && (0 <= g < h || (g == h && b < a + 1)) implies strategy@[off
                    + #[trigger] at(wi, b, g)] == share(vals, wi, ni, threshold, b, g) by {
                    lemma_at_bound(wi, ni, b, g);
                    if at(wi, b, g) == at(wi, a as int, h as int) {
                        lemma_at_inj(wi, b, g, a as int, h as int);
                    }
                }
            }
            a += 1;
        }
        h += 1;
    }
    proof {
        let out = strategy@.subrange(off as int, off + na * w);
        assert(out.len() == ni * wi);
        assert forall|a: int, g: int| 0 <= a < ni && 0 <= g < wi implies #[trigger] out[at(
            wi,
            a,
            g,
        )] == share(vals, wi, ni, threshold, a, g) by {
            lemma_at_bound(wi, ni, a, g);
        }
    }
}

/// Regret matching: the current strategy from regrets. Regrets that are not
/// over the match threshold count as zero.
pub fn regret_matching_into<T: Scalar>(
    regrets: &[T],
    na: usize,
    nh: usize,
    strategy: &mut Vec<T>,
    off: usize,
)
    requires
        regrets@.len() == na * nh,
        off + na * nh <= old(strategy)@.len(),
    ensures
        final(strategy)@.len() == old(strategy)@.len(),
        is_shares(
            regrets@,
            final(strategy)@.subrange(off as int, off + na * nh),
            nh as int,
            na as int,
            s_match_eps::<T>(),
        ),
        forall|i: int|
            0 <= i < final(strategy)@.len() && !(off <= i < off + na * nh) ==> #[trigger] final(strategy)@[i] == old(strategy)@[i],
{
    shares_into(regrets, na, nh, match_eps::<T>(), strategy, off)
}

/// The average strategy from cumulative strategies.
pub fn normalize_cum_into_strategy<T: Scalar>(
    cum: &[T],
    na: usize,
    nh: usize,
    strategy: &mut Vec<T>,
    off: usize,
)
    requires
        cum@.len() == na * nh,
        off + na * nh <= old(strategy)@.len(),
    ensures
        final(strategy)@.len() == old(strategy)@.len(),
        is_shares(
            cum@,
            final(strategy)@.subrange(off as int, off + na * nh),
            nh as int,
            na as int,
            T::s_zero(),
        ),
        forall|i: int|
            0 <= i < final(strategy)@.len() && !(off <= i < off + na * nh) ==> #[trigger] final(strategy)@[i] == old(strategy)@[i],
{
    shares_into(cum, na, nh, T::zero(), strategy, off)
}

/// Entries that one infoset takes in rows of `w`.
pub open spec fn room(w: int) -> int {
    MAX_NA_POSTFLOP * w
}

/// The first `n` actions of infoset `g`.
pub open spec fn block<T>(buf: Seq<T>, w: int, g: int, n: int) -> Seq<T> {
    row(buf, room(w), g).take(n * w)
}

/// The action slots of infoset `g` from `n` on.
pub open spec fn spare<T>(buf: Seq<T>, w: int, g: int, n: int) -> Seq<T> {
    row(buf, room(w), g).skip(n * w)
}

/// The strategy of decision `i` is the shares of its values in outcome `o` of
/// `src`, and its spare slots are as they were.
pub open spec fn strategy_at<T: Scalar>(
    tree: &FlatTree,
    book: &ZoneBook,
    w: int,
    o: int,
    src: Seq<T>,
    threshold: T,
    was: Seq<T>,
    strategy: Seq<T>,
    i: int,
) -> bool {
    let n = tree.arity(i);
    let g = at(book.infoset_count as int, o, book.local(i));
    &&& is_shares(block(src, w, g, n), block(strategy, w, book.local(i), n), w, n, threshold)
    &&& spare(strategy, w, book.local(i), n) == spare(was, w, book.local(i), n)
}

/// [`strategy_at`] of every decision of the zone.
pub open spec fn strategy_of<T: Scalar>(
    tree: &FlatTree,
    zones: Seq<Zone>,
    zone: Zone,
    book: &ZoneBook,
    w: int,
    o: int,
    src: Seq<T>,
    threshold: T,
    was: Seq<T>,
    strategy: Seq<T>,
) -> bool {
    &&& strategy.len() == was.len()
    &&& forall|i: int| #[trigger]
        ZoneBook::owns(tree, zones, zone, i) ==> strategy_at(
            tree,
            book,
            w,
            o,
            src,
            threshold,
            was,
            strategy,
            i,
        )
}

/// Recomputes the strategy of every decision of a zone from the values that
/// `src` holds for outcome `o`.
fn fill_strategy<T: Scalar>(
    tree: &FlatTree,
    zones: &Vec<Zone>,
    zone: Zone,
    book: &ZoneBook,
    w: usize,
    outcomes: usize,
    o: usize,
    src: &Vec<T>,
    threshold: T,
    strategy: &mut Vec<T>,
)
    requires
        tree.wf(),
        tree.fits_postflop(),
        zones@.len() == tree.size(),
        book.of(tree, zones@, zone),
        o < outcomes,
        outcomes * book.infoset_count <= usize::MAX,
        src@.len() == outcomes * book.infoset_count * room(w as int),
        old(strategy)@.len() == book.infoset_count * room(w as int),
    ensures
        strategy_of(
            tree,
            zones@,
            zone,
            book,
            w as int,
            o as int,
            src@,
            threshold,
            old(strategy)@,
            final(strategy)@,
        ),
{
    let ghost ids = tree.decision_node_ids@;
    let ghost was = strategy@;
    let ghost wi = w as int;
    let ghost big = room(wi);
    let ghost count = book.infoset_count as int;
    let ghost all = outcomes * book.infoset_count;
    let src_len: usize = src.len();
    let str_len: usize = strategy.len();
    let mut k: usize = 0;
    while k < tree.decision_node_ids.len()
        invariant
            k <= ids.len(),
            ids == tree.decision_node_ids@,
            tree.wf(),
            tree.fits_postflop(),
            zones@.len() == tree.size(),
            book.of(tree, zones@, zone),
            o < outcomes,
            wi == w,
            big == room(wi),
            count == book.infoset_count,
            all == outcomes * count,
            all <= usize::MAX,
            src@.len() == all * big,
            src_len == all * big,
            was.len() == count * big,
            str_len == count * big,
            strategy@.len() == was.len(),
            forall|j: int|
                0 <= j < k && zones@[(#[trigger] ids[j]) as int] == zone ==> strategy_at(
                    tree,
                    book,
                    wi,
                    o as int,
                    src@,
                    threshold,
                    was,
                    strategy@,
                    ids[j] as int,
                ),
            forall|j: int|
                k <= j < ids.len() && zones@[(#[trigger] ids[j]) as int] == zone ==> row(
                    strategy@,
                    big,
                    book.local(ids[j] as int),
                ) == row(was, big, book.local(ids[j] as int)),
        decreases ids.len() - k,
    {
        let idx: usize = tree.decision_node_ids[k] as usize;
        let ghost i = ids[k as int] as int;
        assert(i == idx && tree.nodes@[i].is_player());
        if zones[idx] == zone {
            assert(ZoneBook::owns(tree, zones@, zone, i));
            let local: usize = book.local_offset[idx];
            let na: usize = tree.nodes[idx].num_children as usize;
            let ghost n = na as int;
            let ghost g = at(count, o as int, local as int);
            let ghost mid = strategy@;
            proof {
                book.lemma_local(tree, zones@, zone, i);
                lemma_at_bound(count, outcomes as int, o as int, local as int);
                lemma_row_inside(big, all, g);
                lemma_row_inside(big, count, local as int);
                assert(n * wi <= big) by (nonlinear_arith)
                    requires
                        0 <= n <= MAX_NA_POSTFLOP,
                        0 <= wi,
                        big == MAX_NA_POSTFLOP * wi,
                ;
                assert(0 <= n * wi) by (nonlinear_arith)
                    requires
                        0 <= n,
                        0 <= wi,
                ;
            }
            assert(big <= src_len);
            let one: usize = MAX_NA_POSTFLOP * w;
            let start: usize = (o * book.infoset_count + local) * one;
            let off: usize = local * one;
            let len: usize = na * w;
            let values = vstd::slice::slice_subrange(src.as_slice(), start, start + len);
            shares_into(values, na, w, threshold, strategy, off);
            proof {
                assert(only_row(mid, strategy@, big, local as int));
                assert(values@ =~= block(src@, wi, g, n));
                assert(strategy@.subrange(off as int, off + n * wi) =~= block(
                    strategy@,
                    wi,
                    local as int,
                    n,
                ));
                assert(spare(strategy@, wi, local as int, n) =~= spare(mid, wi, local as int, n));
                assert(row(mid, big, local as int) == row(was, big, local as int));
                assert forall|j: int|
                    0 <= j < ids.len() && j != k && zones@[(#[trigger] ids[j]) as int]
                        == zone implies row(strategy@, big, book.local(ids[j] as int)) == row(
                    mid,
                    big,
                    book.local(ids[j] as int),
                ) by {
                    let m = ids[j] as int;
                    assert(tree.nodes@[m].is_player());
                    assert(ZoneBook::owns(tree, zones@, zone, m));
                    book.lemma_local(tree, zones@, zone, m);
                    lemma_row_inside(big, count, book.local(m));
                    lemma_other_row(mid, strategy@, big, local as int, book.local(m));
                }
            }
        }
        k += 1;
    }
    proof {
        assert forall|i: int| #[trigger] ZoneBook::owns(tree, zones@, zone, i) implies strategy_at(
            tree,
            book,
            wi,
            o as int,
            src@,
            threshold,
            was,
            strategy@,
            i,
        ) by {
            assert(ids.contains(i as u32));
            let j = choose|j: int| 0 <= j < ids.len() && ids[j] == i as u32;
            assert(ids[j] as int == i);
        }
    }
}

/// The buffers of one zone: `outcomes` copies of regrets and cumulative
/// strategies, and the strategy of one outcome.
pub struct ZoneBank<T> {
    pub width: usize,
    pub outcomes: usize,
    pub infosets: usize,
    pub regrets: Vec<T>,
    pub strategy: Vec<T>,
    pub cum: Vec<T>,
}

impl<T: Scalar> ZoneBank<T> {
    /// The buffers have the lengths that the counts ask for.
    pub open spec fn wf(&self) -> bool {
        &&& self.outcomes * self.infosets <= usize::MAX
        &&& self.regrets@.len() == self.outcomes * self.infosets * room(self.width as int)
        &&& self.cum@.len() == self.outcomes * self.infosets * room(self.width as int)
        &&& self.strategy@.len() == self.infosets * room(self.width as int)
    }

    /// The buffers belong to the zone that `book` describes.
    pub open spec fn for_book(&self, book: &ZoneBook) -> bool {
        self.wf() && self.infosets == book.infoset_count
    }

    /// Infoset `local` in outcome `o`, as a row number of the big buffers.
    pub open spec fn place(&self, o: int, local: int) -> int {
        at(self.infosets as int, o, local)
    }

    /// Everything zero.
    pub fn new(infosets: usize, width: usize, outcomes: usize) -> (bank: ZoneBank<T>)
        requires
            outcomes * infosets <= usize::MAX,
            infosets * room(width as int) <= usize::MAX,
            room(width as int) <= usize::MAX,
            outcomes * infosets * room(width as int) <= usize::MAX,
        ensures
            bank.wf(),
            bank.width == width,
            bank.outcomes == outcomes,
            bank.infosets == infosets,
            bank.regrets@ == flat(T::s_zero(), outcomes * infosets * room(width as int)),
            bank.cum@ == flat(T::s_zero(), outcomes * infosets * room(width as int)),
            bank.strategy@ == flat(T::s_zero(), infosets * room(width as int)),
    {
        proof {
            assert(0 <= outcomes * infosets * room(width as int)) by (nonlinear_arith)
                requires
                    0 <= outcomes,
                    0 <= infosets,
                    0 <= room(width as int),
            ;
            assert(0 <= infosets * room(width as int)) by (nonlinear_arith)
                requires
                    0 <= infosets,
                    0 <= room(width as int),
            ;
        }
        let one: usize = MAX_NA_POSTFLOP * width;
        let full: usize = outcomes * infosets * one;
        let regrets = filled(T::zero(), full);
        let cum = filled(T::zero(), full);
        let strategy = filled(T::zero(), infosets * one);
        ZoneBank { width, outcomes, infosets, regrets, strategy, cum }
    }

    /// Entries of one outcome.
    pub fn stride(&self) -> (n: usize)
        requires
            self.wf(),
        ensures
            n == self.infosets * room(self.width as int),
    {
        self.strategy.len()
    }

    /// Regret-matches the strategy of outcome `o`.
    pub fn match_regrets(
        &mut self,
        tree: &FlatTree,
        zones: &Vec<Zone>,
        zone: Zone,
        book: &ZoneBook,
        o: usize,
    )
        requires
            tree.wf(),
            tree.fits_postflop(),
            zones@.len() == tree.size(),
            book.of(tree, zones@, zone),
            old(self).for_book(book),
            o < old(self).outcomes,
        ensures
            final(self).for_book(book),
            final(self).width == old(self).width,
            final(self).outcomes == old(self).outcomes,
            final(self).regrets == old(self).regrets,
            final(self).cum == old(self).cum,
            strategy_of(
                tree,
                zones@,
                zone,
                book,
                old(self).width as int,
                o as int,
                old(self).regrets@,
                s_match_eps::<T>(),
                old(self).strategy@,
                final(self).strategy@,
            ),
    {
        fill_strategy(
            tree,
            zones,
            zone,
            book,
            self.width,
            self.outcomes,
            o,
            &self.regrets,
            match_eps::<T>(),
            &mut self.strategy,
        );
    }

    /// Sets the strategy of outcome `o` to the average that was accumulated.
    pub fn freeze_average(
        &mut self,
        tree: &FlatTree,
        zones: &Vec<Zone>,
        zone: Zone,
        book: &ZoneBook,
        o: usize,
    )
        requires
            tree.wf(),
            tree.fits_postflop(),
            zones@.len() == tree.size(),
            book.of(tree, zones@, zone),
            old(self).for_book(book),
            o < old(self).outcomes,
        ensures
            final(self).for_book(book),
            final(self).width == old(self).width,
            final(self).outcomes == old(self).outcomes,
            final(self).regrets == old(self).regrets,
            final(self).cum == old(self).cum,
            strategy_of(
                tree,
                zones@,
                zone,
                book,
                old(self).width as int,
                o as int,
                old(self).cum@,
                T::s_zero(),
                old(self).strategy@,
                final(self).strategy@,
            ),
    {
        fill_strategy(
            tree,
            zones,
            zone,
            book,
            self.width,
            self.outcomes,
            o,
            &self.cum,
            T::zero(),
            &mut self.strategy,
        );
    }
}

} // verus!
