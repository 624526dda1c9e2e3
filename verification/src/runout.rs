//! Rank tables per dealt card, and sums over hands that can be dealt together.
use vstd::prelude::*;

use crate::card::{NUM_CARDS, NUM_POSSIBLE_HANDS};
use crate::deck::{is_strength_order, strength_order};
use crate::layout::{
    at, copy_run, flat, lemma_at_bound, lemma_flat_row, lemma_other_row, lemma_row_inside, only_row,
    row,
};
use crate::scalar::{Scalar, Widen};

verus! {

/// The ranks of one dealt board stand in slot `s`, with the strength order of
/// its hands once per opponent.
pub open spec fn runout_in(
    ranks: Seq<u16>,
    strength: Seq<u16>,
    index: Seq<u16>,
    nh: int,
    num_opp: int,
    s: int,
    goal: Seq<u16>,
) -> bool {
    &&& row(ranks, nh, s) == goal
    &&& forall|oi: int|
        0 <= oi < num_opp ==> is_strength_order(
            goal,
            #[trigger] row(row(strength, num_opp * nh, s), nh, oi),
            row(row(index, num_opp * nh, s), nh, oi),
        )
}

/// Slot `s` holds zeros only.
pub open spec fn blank_in(
    ranks: Seq<u16>,
    strength: Seq<u16>,
    index: Seq<u16>,
    nh: int,
    num_opp: int,
    s: int,
) -> bool {
    &&& row(ranks, nh, s) == flat(0u16, nh)
    &&& row(strength, num_opp * nh, s) == flat(0u16, num_opp * nh)
    &&& row(index, num_opp * nh, s) == flat(0u16, num_opp * nh)
}

/// Buffers of zeros are blank in every slot.
pub proof fn lemma_blank(nh: int, num_opp: int, n: int, s: int)
    requires
        0 <= s < n,
        0 <= nh,
        0 <= num_opp,
    ensures
        blank_in(
            flat(0u16, n * nh),
            flat(0u16, n * (num_opp * nh)),
            flat(0u16, n * (num_opp * nh)),
            nh,
            num_opp,
            s,
        ),
{
    assert(0 <= num_opp * nh) by (nonlinear_arith)
        requires
            0 <= nh,
            0 <= num_opp,
    ;
    lemma_flat_row(0u16, nh, n, s);
    lemma_flat_row(0u16, num_opp * nh, n, s);
}

/// A slot other than the changed one stays as it was.
pub proof fn lemma_slot_stays(
    ranks: Seq<u16>,
    strength: Seq<u16>,
    index: Seq<u16>,
    ranks2: Seq<u16>,
    strength2: Seq<u16>,
    index2: Seq<u16>,
    nh: int,
    num_opp: int,
    n: int,
    s: int,
    t: int,
)
    requires
        0 <= s < n,
        0 <= t < n,
        s != t,
        0 <= nh,
        0 <= num_opp,
        ranks.len() == n * nh,
        strength.len() == n * (num_opp * nh),
        index.len() == n * (num_opp * nh),
        only_row(ranks, ranks2, nh, s),
        only_row(strength, strength2, num_opp * nh, s),
        only_row(index, index2, num_opp * nh, s),
    ensures
        row(ranks2, nh, t) == row(ranks, nh, t),
        row(strength2, num_opp * nh, t) == row(strength, num_opp * nh, t),
        row(index2, num_opp * nh, t) == row(index, num_opp * nh, t),
{
    assert(0 <= num_opp * nh) by (nonlinear_arith)
        requires
            0 <= nh,
            0 <= num_opp,
    ;
    lemma_row_inside(nh, n, t);
    lemma_row_inside(num_opp * nh, n, t);
    lemma_other_row(ranks, ranks2, nh, s, t);
    lemma_other_row(strength, strength2, num_opp * nh, s, t);
    lemma_other_row(index, index2, num_opp * nh, s, t);
}

/// Writes one run of `nh` entries for every opponent.
pub fn repeat_run(src: &Vec<u16>, num_opp: usize, dst: &mut Vec<u16>, start: usize)
    requires
        start + num_opp * src@.len() <= old(dst)@.len(),
    ensures
        final(dst)@.len() == old(dst)@.len(),
        forall|i: int|
            0 <= i < final(dst)@.len() && !(start <= i < start + num_opp * src@.len())
                ==> #[trigger] final(dst)@[i] == old(dst)@[i],
        forall|oi: int|
            0 <= oi < num_opp ==> #[trigger] row(
                final(dst)@.subrange(start as int, start + num_opp * src@.len()),
                src@.len() as int,
                oi,
            ) == src@,
{
    let nh: usize = src.len();
    let ghost nhi = nh as int;
    let ghost no = num_opp as int;
    let ghost before = dst@;
    let total: usize = dst.len();
    let mut oi: usize = 0;
    while oi < num_opp
        invariant
            oi <= num_opp,
            nhi == nh,
            nh == src@.len(),
            no == num_opp,
            total == dst@.len(),
            dst@.len() == before.len(),
            start + no * nhi <= total,
            0 <= oi * nhi <= no * nhi,
            forall|i: int|
                0 <= i < dst@.len() && !(start <= i < start + no * nhi) ==> #[trigger] dst@[i]
                    == before[i],
            forall|k: int|
                0 <= k < oi ==> #[trigger] dst@.subrange(start + k * nhi, start + k * nhi + nhi)
                    == src@,
        decreases num_opp - oi,
    {
        proof {
            lemma_row_inside(nhi, no, oi as int);
            assert((oi + 1) * nhi == oi * nhi + nhi) by (nonlinear_arith);
        }
        let ghost mid = dst@;
        copy_run(src.as_slice(), 0, dst, start + oi * nh, nh);
        proof {
            assert(src@.subrange(0, nhi) =~= src@);
            assert forall|k: int| 0 <= k < oi + 1 implies #[trigger] dst@.subrange(
                start + k * nhi,
                start + k * nhi + nhi,
            ) == src@ by {
                if k < oi {
                    assert(k * nhi + nhi <= oi * nhi) by (nonlinear_arith)
                        requires
                            k < oi,
                            0 <= nhi,
                    ;
                    assert(0 <= k * nhi) by (nonlinear_arith)
                        requires
                            0 <= k,
                            0 <= nhi,
                    ;
                    assert(mid.subrange(start + k * nhi, start + k * nhi + nhi) == src@);
                    assert(dst@.subrange(start + k * nhi, start + k * nhi + nhi) =~= mid.subrange(
                        start + k * nhi,
                        start + k * nhi + nhi,
                    ));
                }
            }
        }
        oi += 1;
    }
    proof {
        let whole = dst@.subrange(start as int, start + no * nhi);
        assert forall|k: int| 0 <= k < no implies #[trigger] row(whole, nhi, k) == src@ by {
            lemma_row_inside(nhi, no, k);
            assert(dst@.subrange(start + k * nhi, start + k * nhi + nhi) == src@);
            assert(row(whole, nhi, k) =~= dst@.subrange(start + k * nhi, start + k * nhi + nhi));
        }
    }
}

/// Puts the ranks of one dealt board into slot `s`, with their strength order.
pub fn place_runout(
    goal: &Vec<u16>,
    num_opp: usize,
    s: usize,
    n: usize,
    ranks: &mut Vec<u16>,
    strength: &mut Vec<u16>,
    index: &mut Vec<u16>,
)
    requires
        s < n,
        goal@.len() <= NUM_POSSIBLE_HANDS,
        forall|h: int| 0 <= h < goal@.len() ==> (#[trigger] goal@[h]) < u16::MAX,
        old(ranks)@.len() == n * goal@.len(),
        old(strength)@.len() == n * (num_opp * goal@.len()),
        old(index)@.len() == n * (num_opp * goal@.len()),
    ensures
        only_row(old(ranks)@, final(ranks)@, goal@.len() as int, s as int),
        only_row(old(strength)@, final(strength)@, num_opp * goal@.len(), s as int),
        only_row(old(index)@, final(index)@, num_opp * goal@.len(), s as int),
        runout_in(
            final(ranks)@,
            final(strength)@,
            final(index)@,
            goal@.len() as int,
            num_opp as int,
            s as int,
            goal@,
        ),
{
    let nh: usize = goal.len();
    let ghost nhi = nh as int;
    let ghost big = num_opp * nhi;
    let r_total: usize = ranks.len();
    let total: usize = strength.len();
    proof {
        assert(0 <= big) by (nonlinear_arith)
            requires
                big == num_opp * nhi,
                0 <= num_opp,
                0 <= nhi,
        ;
        lemma_row_inside(nhi, n as int, s as int);
        lemma_row_inside(big, n as int, s as int);
    }
    let (strs, idxs) = strength_order(goal.as_slice());
    copy_run(goal.as_slice(), 0, ranks, s * nh, nh);
    let one: usize = num_opp * nh;
    repeat_run(&strs, num_opp, strength, s * one);
    repeat_run(&idxs, num_opp, index, s * one);
    proof {
        assert(goal@.subrange(0, nhi) =~= goal@);
        assert forall|oi: int| 0 <= oi < num_opp implies is_strength_order(
            goal@,
            #[trigger] row(row(strength@, big, s as int), nhi, oi),
            row(row(index@, big, s as int), nhi, oi),
        ) by {
            assert(row(strength@.subrange(s * big, s * big + big), nhi, oi) == strs@);
            assert(row(index@.subrange(s * big, s * big + big), nhi, oi) == idxs@);
        }
    }
}

/// What the ranges say of the listed hands.
pub open spec fn are_weights<T>(
    ranges: Seq<Vec<T>>,
    hands: Seq<u16>,
    np: int,
    weights: Seq<Vec<T>>,
) -> bool {
    &&& weights.len() == np
    &&& forall|p: int| #![trigger weights[p]]
        0 <= p < np ==> weights[p]@ == Seq::new(
            hands.len(),
            |i: int| ranges[p]@[hands[i] as int],
        )
}

/// Picks the weights of the listed hands out of full ranges.
pub fn pick_weights<T: Copy>(ranges: &Vec<Vec<T>>, hands: &Vec<u16>, np: usize) -> (weights: Vec<
    Vec<T>,
>)
    requires
        np <= ranges@.len(),
        forall|p: int| 0 <= p < np ==> (#[trigger] ranges@[p])@.len() == NUM_POSSIBLE_HANDS,
        forall|i: int| 0 <= i < hands@.len() ==> (#[trigger] hands@[i]) < NUM_POSSIBLE_HANDS,
    ensures
        are_weights(ranges@, hands@, np as int, weights@),
{
    let mut weights: Vec<Vec<T>> = Vec::new();
    let mut p: usize = 0;
    while p < np
        invariant
            p <= np <= ranges@.len(),
            forall|q: int| 0 <= q < np ==> (#[trigger] ranges@[q])@.len() == NUM_POSSIBLE_HANDS,
            forall|i: int| 0 <= i < hands@.len() ==> (#[trigger] hands@[i]) < NUM_POSSIBLE_HANDS,
            weights@.len() == p,
            forall|q: int|
                0 <= q < p ==> (#[trigger] weights@[q])@ == Seq::new(
                    hands@.len(),
                    |i: int| ranges@[q]@[hands@[i] as int],
                ),
        decreases np - p,
    {
        let range = &ranges[p];
        let mut w: Vec<T> = Vec::new();
        let mut i: usize = 0;
        while i < hands.len()
            invariant
                i <= hands@.len(),
                p < np <= ranges@.len(),
                range@ == ranges@[p as int]@,
                range@.len() == NUM_POSSIBLE_HANDS,
                forall|k: int|
                    0 <= k < hands@.len() ==> (#[trigger] hands@[k]) < NUM_POSSIBLE_HANDS,
                w@.len() == i,
                forall|k: int| 0 <= k < i ==> #[trigger] w@[k] == range@[hands@[k] as int],
            decreases hands@.len() - i,
        {
            w.push(range[hands[i] as usize]);
            i += 1;
        }
        assert(w@ =~= Seq::new(hands@.len(), |i: int| ranges@[p as int]@[hands@[i] as int]));
        weights.push(w);
        p += 1;
    }
    weights
}

/// All weights in one list, player after player.
pub open spec fn joined<T>(rows: Seq<Vec<T>>, n: nat) -> Seq<T>
    decreases n,
{
    if n == 0 {
        Seq::empty()
    } else {
        joined(rows, (n - 1) as nat) + rows[n - 1]@
    }
}

/// Joins the rows of the first `np` players.
pub fn join_rows<T: Copy>(rows: &Vec<Vec<T>>, np: usize) -> (out: Vec<T>)
    requires
        np <= rows@.len(),
    ensures
        out@ == joined(rows@, np as nat),
{
    let mut out: Vec<T> = Vec::new();
    let mut p: usize = 0;
    while p < np
        invariant
            p <= np <= rows@.len(),
            out@ == joined(rows@, p as nat),
        decreases np - p,
    {
        let r = &rows[p];
        let ghost before = out@;
        let mut i: usize = 0;
        while i < r.len()
            invariant
                i <= r@.len(),
                out@ == before + r@.take(i as int),
            decreases r@.len() - i,
        {
            out.push(r[i]);
            i += 1;
            assert(out@ =~= before + r@.take(i as int));
        }
        assert(r@.take(r@.len() as int) =~= r@);
        p += 1;
    }
    out
}

/// The weight of all pairs of hands of two players that can be dealt together:
/// pairs with the first hand under `i`, and those of hand `i` with the second
/// under `j`, added up in that order.
pub open spec fn pair_mass<T: Widen>(
    conflict: Seq<u8>,
    w0: Seq<T>,
    w1: Seq<T>,
    n: int,
    i: nat,
    j: nat,
) -> T::Wide
    decreases i, j,
{
    if j == 0 {
        if i == 0 {
            T::Wide::s_zero()
        } else {
            pair_mass(conflict, w0, w1, n, (i - 1) as nat, n as nat)
        }
    } else {
        let prev = pair_mass(conflict, w0, w1, n, i, (j - 1) as nat);
        if conflict[at(n, i as int, j - 1)] == 0 {
            prev.s_plus(w0[i as int].s_widen().s_times(w1[j - 1].s_widen()))
        } else {
            prev
        }
    }
}

/// Adds up the weight of the pairs of hands that can be dealt together.
pub fn total_pair_mass<T: Widen>(conflict: &Vec<u8>, w0: &Vec<T>, w1: &Vec<T>, n: usize) -> (nc:
    T::Wide)
    requires
        conflict@.len() == n * n,
        w0@.len() == n,
        w1@.len() == n,
    ensures
        nc == pair_mass(conflict@, w0@, w1@, n as int, n as nat, 0),
{
    let ghost ni = n as int;
    let total: usize = conflict.len();
    let mut nc = T::Wide::zero();
    let mut i: usize = 0;
    while i < n
        invariant
            i <= n,
            ni == n,
            conflict@.len() == ni * ni,
            total == conflict@.len(),
            w0@.len() == n,
            w1@.len() == n,
            nc == pair_mass(conflict@, w0@, w1@, ni, i as nat, 0),
        decreases n - i,
    {
        let mut j: usize = 0;
        while j < n
            invariant
                i < n,
                j <= n,
                ni == n,
                conflict@.len() == ni * ni,
                total == conflict@.len(),
                w0@.len() == n,
                w1@.len() == n,
                nc == pair_mass(conflict@, w0@, w1@, ni, i as nat, j as nat),
            decreases n - j,
        {
            proof {
                lemma_at_bound(ni, ni, i as int, j as int);
            }
            if conflict[i * n + j] == 0 {
                nc = nc.plus(w0[i].widen().times(w1[j].widen()));
            }
            j += 1;
        }
        i += 1;
    }
    nc
}

/// Hand `h` uses a taken card.
pub open spec fn is_blocked(cards: Seq<u8>, taken: Seq<bool>, h: int) -> bool {
    taken[cards[2 * h] as int] || taken[cards[2 * h + 1] as int]
}

/// The taken cards once hand `h` is dealt too.
pub open spec fn taking(cards: Seq<u8>, taken: Seq<bool>, h: int) -> Seq<bool> {
    taken.update(cards[2 * h] as int, true).update(cards[2 * h + 1] as int, true)
}

/// The weight of all deals to players `p..np` that avoid the taken cards, each
/// deal weighing `acc` times its hands' weights.
pub open spec fn deal_mass<T: Widen>(
    cards: Seq<u8>,
    weights: Seq<Vec<T>>,
    nh: int,
    np: int,
    p: int,
    taken: Seq<bool>,
    acc: T::Wide,
) -> T::Wide
    decreases np - p, nh + 1,
    when p <= np && nh >= 0
{
    if p >= np {
        acc
    } else {
        deal_mass_upto(cards, weights, nh, np, p, taken, acc, nh as nat)
    }
}

/// The same, with player `p` holding one of the first `n` hands.
pub open spec fn deal_mass_upto<T: Widen>(
    cards: Seq<u8>,
    weights: Seq<Vec<T>>,
    nh: int,
    np: int,
    p: int,
    taken: Seq<bool>,
    acc: T::Wide,
    n: nat,
) -> T::Wide
    decreases np - p, n,
    when p < np && n <= nh
{
    if n == 0 {
        T::Wide::s_zero()
    } else {
        let prev = deal_mass_upto(cards, weights, nh, np, p, taken, acc, (n - 1) as nat);
        let h = n - 1;
        let w = weights[p]@[h].s_widen();
        if is_blocked(cards, taken, h) || w.s_same(T::Wide::s_zero()) {
            prev
        } else {
            prev.s_plus(
                deal_mass(cards, weights, nh, np, p + 1, taking(cards, taken, h), acc.s_times(w)),
            )
        }
    }
}

/// Adds up the weight of all deals to players `p..np` by listing them.
pub fn enumerate_deals<T: Widen>(
    cards: &Vec<u8>,
    weights: &Vec<Vec<T>>,
    nh: usize,
    np: usize,
    p: usize,
    taken: &Vec<bool>,
    acc: T::Wide,
) -> (total: T::Wide)
    requires
        p <= np <= weights@.len(),
        cards@.len() == 2 * nh,
        forall|k: int| 0 <= k < cards@.len() ==> #[trigger] cards@[k] < NUM_CARDS,
        forall|q: int| 0 <= q < np ==> (#[trigger] weights@[q])@.len() == nh,
        taken@.len() == NUM_CARDS,
    ensures
        total == deal_mass(cards@, weights@, nh as int, np as int, p as int, taken@, acc),
    decreases np - p,
{
    if p == np {
        return acc;
    }
    let card_total: usize = cards.len();
    let mut total = T::Wide::zero();
    let mut h: usize = 0;
    while h < nh
        invariant
            h <= nh,
            p < np <= weights@.len(),
            card_total == cards@.len(),
            cards@.len() == 2 * nh,
            forall|k: int| 0 <= k < cards@.len() ==> #[trigger] cards@[k] < NUM_CARDS,
            forall|q: int| 0 <= q < np ==> (#[trigger] weights@[q])@.len() == nh,
            taken@.len() == NUM_CARDS,
            total == deal_mass_upto(
                cards@,
                weights@,
                nh as int,
                np as int,
                p as int,
                taken@,
                acc,
                h as nat,
            ),
        decreases nh - h,
    {
        let c1: usize = cards[2 * h] as usize;
        let c2: usize = cards[2 * h + 1] as usize;
        let blocked: bool = taken[c1] || taken[c2];
        let w = weights[p][h].widen();
        if !blocked && !w.same(T::Wide::zero()) {
            let mut next: Vec<bool> = Vec::new();
            let mut k: usize = 0;
            while k < NUM_CARDS
                invariant
                    k <= NUM_CARDS,
                    taken@.len() == NUM_CARDS,
                    next@ == taken@.take(k as int),
                decreases NUM_CARDS - k,
            {
                next.push(taken[k]);
                k += 1;
                assert(next@ =~= taken@.take(k as int));
            }
            next[c1] = true;
            next[c2] = true;
            assert(next@ =~= taking(cards@, taken@, h as int));
            let sub = enumerate_deals(cards, weights, nh, np, p + 1, &next, acc.times(w));
            total = total.plus(sub);
        }
        h += 1;
    }
    total
}

} // verus!
