//! Discounted regret and strategy accumulation.
use vstd::prelude::*;

use crate::bank::{block, room, spare, ZoneBank};
use crate::layout::{
    at, lemma_at_bound, lemma_at_inj, lemma_other_row, lemma_row_inside, only_row, row,
};
use crate::scalar::{filled, regret_floor, s_regret_floor, Scalar, Widen};
use crate::sweep::{Lens, NO_BUCKET};
use crate::tree::{FlatTree, MAX_NA_POSTFLOP};
use crate::zones::{Zone, ZoneBook};

verus! {

/// Discount factors of one iteration.
#[derive(Clone, Copy, Debug)]
pub struct DcfrParams<T> {
    alpha_t: T,
    beta_t: T,
    gamma_t: T,
}

/// The largest power of four that is not over `n`; zero for zero.
pub open spec fn power_of_four(n: nat) -> nat
    decreases n,
{
    if n == 0 {
        0
    } else if n < 4 {
        1
    } else {
        4 * power_of_four(n / 4)
    }
}

fn lower_power_of_four(n: u32) -> (p: u32)
    ensures
        p == power_of_four(n as nat),
        p <= n,
    decreases n,
{
    if n == 0 {
        0
    } else if n < 4 {
        1
    } else {
        4 * lower_power_of_four(n / 4)
    }
}

/// The factors of iteration `t`: kept positive regret, kept negative regret, kept
/// strategy.
///
/// Positive regret keeps `x / (x + 1)` for `x` the three halves power of `t - 1`,
/// negative regret a half. The strategy's clock starts again at every power of
/// four; it keeps the cube of `s / (s + 1)` after `s` iterations.
pub open spec fn discounts<T: Widen>(t: int) -> (T, T, T) {
    let n = T::Wide::s_of(
        if 1 <= t <= i32::MAX {
            t - 1
        } else {
            0
        },
    );
    let s = T::Wide::s_of(t - power_of_four(t as nat));
    let one = T::Wide::s_one();
    let x = n.s_times(n.s_root());
    let y = s.s_over(s.s_plus(one));
    (
        T::s_narrow(x.s_over(x.s_plus(one))),
        T::s_one().s_over(T::s_of(2)),
        T::s_narrow(y.s_times(y).s_times(y)),
    )
}

/// `n` iterations can follow the first `t`: their numbers fit, and each has discount
/// factors.
pub open spec fn counts_on(t: int, n: int) -> bool {
    t + n <= u32::MAX && (t + n <= 0x8000_0000 || 0x8000_0000 < t)
}

impl<T: Widen> DcfrParams<T> {
    /// The factors of an iteration.
    pub fn new(current_iteration: u32) -> (p: DcfrParams<T>)
        requires
            current_iteration != 0x8000_0000,
        ensures
            (p.alpha(), p.beta(), p.gamma()) == discounts::<T>(current_iteration as int),
    {
        let n: u32 = if 1 <= current_iteration && current_iteration <= 0x7fff_ffff {
            current_iteration - 1
        } else {
            0
        };
        let t_alpha = T::Wide::of_usize(n as usize);
        let t_gamma = T::Wide::of_usize(
            (current_iteration - lower_power_of_four(current_iteration)) as usize,
        );
        let one = T::Wide::one();
        let pow_alpha = t_alpha.times(t_alpha.root());
        let kept = t_gamma.over(t_gamma.plus(one));
        DcfrParams {
            alpha_t: T::narrow(pow_alpha.over(pow_alpha.plus(one))),
            beta_t: T::one().over(T::of_usize(2)),
            gamma_t: T::narrow(kept.times(kept).times(kept)),
        }
    }
}

impl<T: Scalar> DcfrParams<T> {
    pub closed spec fn alpha(&self) -> T {
        self.alpha_t
    }

    pub closed spec fn beta(&self) -> T {
        self.beta_t
    }

    pub closed spec fn gamma(&self) -> T {
        self.gamma_t
    }

    /// Parameters with the same factors are the same.
    pub(crate) proof fn lemma_same_factors(&self, p: &Self)
        requires
            self.alpha() == p.alpha(),
            self.beta() == p.beta(),
            self.gamma() == p.gamma(),
        ensures
            *self == *p,
    {
    }

    /// The factors for kept positive regrets, kept negative regrets and the
    /// accumulated strategy.
    pub fn of_factors(alpha_t: T, beta_t: T, gamma_t: T) -> (p: DcfrParams<T>)
        ensures
            p.alpha() == alpha_t,
            p.beta() == beta_t,
            p.gamma() == gamma_t,
    {
        DcfrParams { alpha_t, beta_t, gamma_t }
    }

    /// No discount at all.
    pub fn vanilla() -> (p: DcfrParams<T>)
        ensures
            p.alpha() == T::s_one(),
            p.beta() == T::s_one(),
            p.gamma() == T::s_one(),
    {
        DcfrParams { alpha_t: T::one(), beta_t: T::one(), gamma_t: T::one() }
    }

    pub fn alpha_t(&self) -> (x: T)
        ensures
            x == self.alpha(),
    {
        self.alpha_t
    }

    pub fn beta_t(&self) -> (x: T)
        ensures
            x == self.beta(),
    {
        self.beta_t
    }

    pub fn gamma_t(&self) -> (x: T)
        ensures
            x == self.gamma(),
    {
        self.gamma_t
    }
}

/// A regret after discounting the old one and adding the new, not under the
/// floor.
pub open spec fn next_regret<T: Scalar>(p: &DcfrParams<T>, r: T, inst: T) -> T {
    let kept = if T::s_zero().s_at_most(r) {
        p.alpha()
    } else {
        p.beta()
    };
    let x = kept.s_times(r).s_plus(inst);
    if x.s_below(s_regret_floor::<T>()) {
        s_regret_floor::<T>()
    } else {
        x
    }
}

/// A cumulative strategy after discounting it and adding the current one.
pub open spec fn next_cum<T: Scalar>(p: &DcfrParams<T>, c: T, s: T) -> T {
    p.gamma().s_times(c).s_plus(s)
}

/// What column `b` gains at child `c` over node `i`, summed over the first `n`
/// hands of the column with their weights.
pub open spec fn pooled_gain<T: Scalar>(
    lens: &Lens,
    omega: Seq<T>,
    v: Seq<T>,
    nh: int,
    i: int,
    c: int,
    b: int,
    n: nat,
) -> T
    decreases n,
{
    if n == 0 {
        T::s_zero()
    } else {
        let prev = pooled_gain(lens, omega, v, nh, i, c, b, (n - 1) as nat);
        let h = n - 1;
        if lens.column(h) == Some(b) {
            prev.s_plus(omega[h].s_times(v[at(nh, c, h)].s_minus(v[at(nh, i, h)])))
        } else {
            prev
        }
    }
}

/// The instantaneous regret of action `a` at node `i` for column `b`: the gain
/// of the hand itself, or with weights the pooled gain of the column's hands.
pub open spec fn gain<T: Scalar>(
    tree: &FlatTree,
    lens: &Lens,
    omega: Option<Seq<T>>,
    v: Seq<T>,
    nh: int,
    i: int,
    a: int,
    b: int,
) -> T {
    let c = tree.child(i, a);
    match omega {
        None => v[at(nh, c, b)].s_minus(v[at(nh, i, b)]),
        Some(om) => pooled_gain(lens, om, v, nh, i, c, b, nh as nat),
    }
}

/// The view of optional hand weights.
pub open spec fn weights<T>(omega: Option<&Vec<T>>) -> Option<Seq<T>> {
    match omega {
        Some(om) => Some(om@),
        None => None,
    }
}

/// Infoset `g` learned from decision `i`: every action and column got its
/// discounted update, spare slots stayed.
pub open spec fn learned_at<T: Scalar>(
    tree: &FlatTree,
    lens: &Lens,
    omega: Option<Seq<T>>,
    v: Seq<T>,
    nh: int,
    p: &DcfrParams<T>,
    strategy: Seq<T>,
    local: int,
    g: int,
    i: int,
    regrets: Seq<T>,
    cum: Seq<T>,
    regrets2: Seq<T>,
    cum2: Seq<T>,
) -> bool {
    let w = lens.width as int;
    let n = tree.arity(i);
    &&& forall|a: int, b: int|
        0 <= a < n && 0 <= b < w ==> #[trigger] block(regrets2, w, g, n)[at(w, a, b)]
            == next_regret(
            p,
            block(regrets, w, g, n)[at(w, a, b)],
            gain(tree, lens, omega, v, nh, i, a, b),
        )
    &&& forall|a: int, b: int|
        0 <= a < n && 0 <= b < w ==> #[trigger] block(cum2, w, g, n)[at(w, a, b)] == next_cum(
            p,
            block(cum, w, g, n)[at(w, a, b)],
            block(strategy, w, local, n)[at(w, a, b)],
        )
    &&& spare(regrets2, w, g, n) == spare(regrets, w, g, n)
    &&& spare(cum2, w, g, n) == spare(cum, w, g, n)
}

/// The instantaneous regrets of one action, per column.
fn action_gains<T: Scalar>(
    tree: &FlatTree,
    lens: &Lens,
    omega: Option<&Vec<T>>,
    cfv: &Vec<T>,
    nh: usize,
    idx: usize,
    a: usize,
) -> (out: Vec<T>)
    requires
        tree.wf(),
        tree.is_edge(idx as int, a as int),
        lens.wf(nh as int),
        cfv@.len() == tree.size() * nh,
        omega is None ==> lens.width == nh,
        weights(omega) matches Some(om) ==> om.len() == nh,
    ensures
        out@.len() == lens.width,
        forall|b: int|
            0 <= b < lens.width ==> #[trigger] out@[b] == gain(
                tree,
                lens,
                weights(omega),
                cfv@,
                nh as int,
                idx as int,
                a as int,
                b,
            ),
{
    let ghost i = idx as int;
    let ghost nhi = nh as int;
    let child: usize = tree.node_children(idx)[a] as usize;
    let ghost c = child as int;
    let total: usize = cfv.len();
    proof {
        assert(tree.edge_ok(i, a as int));
        lemma_row_inside(nhi, tree.size(), i);
        lemma_row_inside(nhi, tree.size(), c);
    }
    let from: usize = idx * nh;
    let to: usize = child * nh;
    let mut out: Vec<T> = filled(T::zero(), lens.width);
    let mut h: usize = 0;
    while h < nh
        invariant
            h <= nh,
            nhi == nh,
            i == idx,
            c == tree.child(i, a as int),
            c == child,
            from == i * nhi,
            to == c * nhi,
            from + nhi <= total,
            to + nhi <= total,
            total == cfv@.len(),
            lens.wf(nhi),
            omega is None ==> lens.width == nh,
            weights(omega) matches Some(om) ==> om.len() == nh,
            out@.len() == lens.width,
            omega is None ==> forall|b: int|
                0 <= b < h ==> #[trigger] out@[b] == cfv@[at(nhi, c, b)].s_minus(
                    cfv@[at(nhi, i, b)],
                ),
            weights(omega) matches Some(om) ==> forall|b: int|
                0 <= b < lens.width ==> #[trigger] out@[b] == pooled_gain(
                    lens,
                    om,
                    cfv@,
                    nhi,
                    i,
                    c,
                    b,
                    h as nat,
                ),
        decreases nh - h,
    {
        let diff = cfv[to + h].minus(cfv[from + h]);
        assert(diff == cfv@[at(nhi, c, h as int)].s_minus(cfv@[at(nhi, i, h as int)]));
        match omega {
            None => {
                out[h] = diff;
            },
            Some(om) => {
                let col: u16 = lens.of[h];
                if col != NO_BUCKET {
                    let b: usize = col as usize;
                    let acc = out[b];
                    out[b] = acc.plus(om[h].times(diff));
                }
            },
        }
        h += 1;
    }
    out
}

/// Updates the buffers of one decision in place.
fn learn_node<T: Scalar>(
    tree: &FlatTree,
    lens: &Lens,
    omega: Option<&Vec<T>>,
    cfv: &Vec<T>,
    nh: usize,
    p: &DcfrParams<T>,
    strategy: &Vec<T>,
    idx: usize,
    local: usize,
    g: usize,
    regrets: &mut Vec<T>,
    cum: &mut Vec<T>,
    Ghost(infosets): Ghost<int>,
    Ghost(all): Ghost<int>,
)
    requires
        tree.wf(),
        tree.is_node(idx as int),
        tree.arity(idx as int) <= MAX_NA_POSTFLOP,
        lens.wf(nh as int),
        cfv@.len() == tree.size() * nh,
        omega is None ==> lens.width == nh,
        weights(omega) matches Some(om) ==> om.len() == nh,
        local < infosets,
        g < all,
        strategy@.len() == infosets * room(lens.width as int),
        old(regrets)@.len() == all * room(lens.width as int),
        old(cum)@.len() == all * room(lens.width as int),
    ensures
        only_row(old(regrets)@, final(regrets)@, room(lens.width as int), g as int),
        only_row(old(cum)@, final(cum)@, room(lens.width as int), g as int),
        learned_at(
            tree,
            lens,
            weights(omega),
            cfv@,
            nh as int,
            p,
            strategy@,
            local as int,
            g as int,
            idx as int,
            old(regrets)@,
            old(cum)@,
            final(regrets)@,
            final(cum)@,
        ),
{
    let ghost i = idx as int;
    let ghost nhi = nh as int;
    let ghost w = lens.width as int;
    let ghost big = room(w);
    let ghost n = tree.arity(i);
    let ghost r0 = regrets@;
    let ghost c0 = cum@;
    let wu: usize = lens.width;
    let na: usize = tree.nodes[idx].num_children as usize;
    let total: usize = regrets.len();
    let c_total: usize = cum.len();
    let s_total: usize = strategy.len();
    proof {
        lemma_row_inside(big, all, g as int);
        lemma_row_inside(big, infosets, local as int);
        assert(0 <= n * w <= big) by (nonlinear_arith)
            requires
                0 <= n <= MAX_NA_POSTFLOP,
                0 <= w,
                big == MAX_NA_POSTFLOP * w,
        ;
    }
    let one: usize = MAX_NA_POSTFLOP * wu;
    let base: usize = g * one;
    let s_base: usize = local * one;
    let mut a: usize = 0;
    while a < na
        invariant
            a <= na,
            n == na,
            n == tree.arity(i),
            i == idx,
            nhi == nh,
            w == lens.width,
            wu == w,
            big == room(w),
            0 <= n * w <= big,
            base == g * big,
            s_base == local * big,
            base + big <= total,
            s_base + big <= s_total,
            total == r0.len(),
            c_total == total,
            c0.len() == total,
            s_total == strategy@.len(),
            regrets@.len() == total,
            cum@.len() == total,
            tree.wf(),
            tree.is_node(i),
            lens.wf(nhi),
            cfv@.len() == tree.size() * nhi,
            omega is None ==> lens.width == nh,
            weights(omega) matches Some(om) ==> om.len() == nh,
            forall|j: int|
                0 <= j < total && !(base <= j < base + a * w) ==> #[trigger] regrets@[j] == r0[j],
            forall|j: int|
                0 <= j < total && !(base <= j < base + a * w) ==> #[trigger] cum@[j] == c0[j],
            forall|e: int, b: int|
                0 <= e < a && 0 <= b < w ==> regrets@[base + #[trigger] at(w, e, b)] == next_regret(
                    p,
                    r0[base + at(w, e, b)],
                    gain(tree, lens, weights(omega), cfv@, nhi, i, e, b),
                ),
            forall|e: int, b: int|
                0 <= e < a && 0 <= b < w ==> cum@[base + #[trigger] at(w, e, b)] == next_cum(
                    p,
                    c0[base + at(w, e, b)],
                    strategy@[s_base + at(w, e, b)],
                ),
        decreases na - a,
    {
        assert(tree.is_edge(i, a as int));
        let gains = action_gains(tree, lens, omega, cfv, nh, idx, a);
        proof {
            lemma_row_inside(w, n, a as int);
            assert((a + 1) * w == a * w + w) by (nonlinear_arith);
        }
        let lo: usize = a * wu;
        let mut b: usize = 0;
        while b < wu
            invariant
                b <= wu,
                a < na,
                n == na,
                w == wu,
                w == lens.width,
                big == room(w),
                lo == a * w,
                0 <= lo,
                lo + w <= n * w <= big,
                base + big <= total,
                s_base + big <= s_total,
                total == r0.len(),
                c_total == total,
                c0.len() == total,
                s_total == strategy@.len(),
                regrets@.len() == total,
                cum@.len() == total,
                gains@.len() == w,
                forall|e: int|
                    0 <= e < w ==> #[trigger] gains@[e] == gain(
                        tree,
                        lens,
                        weights(omega),
                        cfv@,
                        nhi,
                        i,
                        a as int,
                        e,
                    ),
                forall|j: int|
                    0 <= j < total && !(base <= j < base + lo + b) ==> #[trigger] regrets@[j]
                        == r0[j],
                forall|j: int|
                    0 <= j < total && !(base <= j < base + lo + b) ==> #[trigger] cum@[j] == c0[j],
                forall|e: int, c: int|
                    0 <= c < w && (0 <= e < a || (e == a && c < b)) ==> regrets@[base
                        + #[trigger] at(w, e, c)] == next_regret(
                        p,
                        r0[base + at(w, e, c)],
                        gain(tree, lens, weights(omega), cfv@, nhi, i, e, c),
                    ),
                forall|e: int, c: int|
                    0 <= c < w && (0 <= e < a || (e == a && c < b)) ==> cum@[base + #[trigger] at(
                        w,
                        e,
                        c,
                    )] == next_cum(p, c0[base + at(w, e, c)], strategy@[s_base + at(w, e, c)]),
            decreases wu - b,
        {
            let pos: usize = base + (lo + b);
            let ghost r1 = regrets@;
            let ghost c1 = cum@;
            let old_r = regrets[pos];
            assert(old_r == r0[pos as int]);
            let kept = if T::zero().at_most(old_r) {
                p.alpha_t()
            } else {
                p.beta_t()
            };
            let x = kept.times(old_r).plus(gains[b]);
            let floor = regret_floor::<T>();
            let x = if x.below(floor) {
                floor
            } else {
                x
            };
            regrets[pos] = x;
            let old_c = cum[pos];
            assert(old_c == c0[pos as int]);
            let y = p.gamma_t().times(old_c).plus(strategy[s_base + (lo + b)]);
            cum[pos] = y;
            proof {
                assert forall|e: int, c: int|
                    0 <= c < w && (0 <= e < a || (e == a && c < b + 1)) implies regrets@[base
                    + #[trigger] at(w, e, c)] == next_regret(
                    p,
                    r0[base + at(w, e, c)],
                    gain(tree, lens, weights(omega), cfv@, nhi, i, e, c),
                ) && cum@[base + at(w, e, c)] == next_cum(
                    p,
                    c0[base + at(w, e, c)],
                    strategy@[s_base + at(w, e, c)],
                ) by {
                    lemma_at_bound(w, n, e, c);
                    if at(w, e, c) == at(w, a as int, b as int) {
                        lemma_at_inj(w, e, c, a as int, b as int);
                    } else {
                        assert(regrets@[base + at(w, e, c)] == r1[base + at(w, e, c)]);
                        assert(cum@[base + at(w, e, c)] == c1[base + at(w, e, c)]);
                    }
                }
            }
            b += 1;
        }
        a += 1;
    }
    proof {
        let gi = g as int;
        let li = local as int;
        assert forall|e: int, b: int| 0 <= e < n && 0 <= b < w implies #[trigger] block(
            regrets@,
            w,
            gi,
            n,
        )[at(w, e, b)] == next_regret(
            p,
            block(r0, w, gi, n)[at(w, e, b)],
            gain(tree, lens, weights(omega), cfv@, nhi, i, e, b),
        ) by {
            lemma_at_bound(w, n, e, b);
            assert(block(regrets@, w, gi, n)[at(w, e, b)] == regrets@[base + at(w, e, b)]);
            assert(block(r0, w, gi, n)[at(w, e, b)] == r0[base + at(w, e, b)]);
        }
        assert forall|e: int, b: int| 0 <= e < n && 0 <= b < w implies #[trigger] block(
            cum@,
            w,
            gi,
            n,
        )[at(w, e, b)] == next_cum(
            p,
            block(c0, w, gi, n)[at(w, e, b)],
            block(strategy@, w, li, n)[at(w, e, b)],
        ) by {
            lemma_at_bound(w, n, e, b);
            assert(block(cum@, w, gi, n)[at(w, e, b)] == cum@[base + at(w, e, b)]);
            assert(block(c0, w, gi, n)[at(w, e, b)] == c0[base + at(w, e, b)]);
            assert(block(strategy@, w, li, n)[at(w, e, b)] == strategy@[s_base + at(w, e, b)]);
        }
        assert(spare(regrets@, w, gi, n) =~= spare(r0, w, gi, n));
        assert(spare(cum@, w, gi, n) =~= spare(c0, w, gi, n));
    }
}

/// Decision `i` of the zone is the traverser's.
pub open spec fn learns(
    tree: &FlatTree,
    zones: Seq<Zone>,
    zone: Zone,
    traverser: u8,
    i: int,
) -> bool {
    ZoneBook::owns(tree, zones, zone, i) && tree.nodes@[i].player_id == traverser
}

/// Infoset row `g` belongs to a decision that learns in outcome `o`.
pub open spec fn is_learner_row(
    tree: &FlatTree,
    zones: Seq<Zone>,
    zone: Zone,
    book: &ZoneBook,
    traverser: u8,
    o: int,
    g: int,
) -> bool {
    exists|i: int| #[trigger]
        learns(tree, zones, zone, traverser, i) && at(
            book.infoset_count as int,
            o,
            book.local(i),
        ) == g
}

proof fn lemma_learned_frame<T: Scalar>(
    tree: &FlatTree,
    lens: &Lens,
    omega: Option<Seq<T>>,
    v: Seq<T>,
    nh: int,
    p: &DcfrParams<T>,
    strategy: Seq<T>,
    local: int,
    g: int,
    i: int,
    r0: Seq<T>,
    c0: Seq<T>,
    r1: Seq<T>,
    c1: Seq<T>,
    r2: Seq<T>,
    c2: Seq<T>,
)
    requires
        learned_at(tree, lens, omega, v, nh, p, strategy, local, g, i, r0, c0, r1, c1),
        row(r2, room(lens.width as int), g) == row(r1, room(lens.width as int), g),
        row(c2, room(lens.width as int), g) == row(c1, room(lens.width as int), g),
    ensures
        learned_at(tree, lens, omega, v, nh, p, strategy, local, g, i, r0, c0, r2, c2),
{
    let w = lens.width as int;
    let n = tree.arity(i);
    assert(block(r2, w, g, n) == block(r1, w, g, n));
    assert(block(c2, w, g, n) == block(c1, w, g, n));
}

impl<T: Scalar> ZoneBank<T> {
    /// Updates regrets and cumulative strategies of the traverser's decisions
    /// in outcome `o`, from the values `cfv`.
    pub fn learn(
        &mut self,
        tree: &FlatTree,
        zones: &Vec<Zone>,
        zone: Zone,
        book: &ZoneBook,
        lens: &Lens,
        omega: Option<&Vec<T>>,
        cfv: &Vec<T>,
        nh: usize,
        traverser: u8,
        p: &DcfrParams<T>,
        o: usize,
    )
        requires
            tree.wf(),
            tree.fits_postflop(),
            zones@.len() == tree.size(),
            book.of(tree, zones@, zone),
            old(self).for_book(book),
            old(self).width == lens.width,
            o < old(self).outcomes,
            lens.wf(nh as int),
            cfv@.len() == tree.size() * nh,
            omega is None ==> lens.width == nh,
            weights(omega) matches Some(om) ==> om.len() == nh,
        ensures
            final(self).for_book(book),
            final(self).width == old(self).width,
            final(self).outcomes == old(self).outcomes,
            final(self).strategy == old(self).strategy,
            forall|i: int| #[trigger]
                learns(tree, zones@, zone, traverser, i) ==> learned_at(
                    tree,
                    lens,
                    weights(omega),
                    cfv@,
                    nh as int,
                    p,
                    old(self).strategy@,
                    book.local(i),
                    at(book.infoset_count as int, o as int, book.local(i)),
                    i,
                    old(self).regrets@,
                    old(self).cum@,
                    final(self).regrets@,
                    final(self).cum@,
                ),
            forall|g: int|
                0 <= g < old(self).outcomes * old(self).infosets && !is_learner_row(
                    tree,
                    zones@,
                    zone,
                    book,
                    traverser,
                    o as int,
                    g,
                ) ==> #[trigger] row(final(self).regrets@, room(old(self).width as int), g) == row(
                    old(self).regrets@,
                    room(old(self).width as int),
                    g,
                ),
            forall|g: int|
                0 <= g < old(self).outcomes * old(self).infosets && !is_learner_row(
                    tree,
                    zones@,
                    zone,
                    book,
                    traverser,
                    o as int,
                    g,
                ) ==> #[trigger] row(final(self).cum@, room(old(self).width as int), g) == row(
                    old(self).cum@,
                    room(old(self).width as int),
                    g,
                ),
    {
        let ghost ids = tree.decision_node_ids@;
        let ghost zs = zones@;
        let ghost r0 = self.regrets@;
        let ghost c0 = self.cum@;
        let ghost big = room(self.width as int);
        let ghost count = book.infoset_count as int;
        let ghost all = self.outcomes * self.infosets;
        let ghost oi = o as int;
        let ghost om = weights(omega);
        let ghost strat = self.strategy;
        let ghost width = self.width;
        let ghost outcomes = self.outcomes;
        let mut k: usize = 0;
        while k < tree.decision_node_ids.len()
            invariant
                k <= ids.len(),
                ids == tree.decision_node_ids@,
                tree.wf(),
                tree.fits_postflop(),
                zs == zones@,
                zs.len() == tree.size(),
                book.of(tree, zs, zone),
                self.for_book(book),
                self.width == width,
                self.outcomes == outcomes,
                self.strategy == strat,
                self.width == lens.width,
                o < self.outcomes,
                oi == o,
                om == weights(omega),
                big == room(self.width as int),
                count == book.infoset_count,
                all == self.outcomes * self.infosets,
                r0.len() == all * big,
                c0.len() == all * big,
                lens.wf(nh as int),
                cfv@.len() == tree.size() * nh,
                omega is None ==> lens.width == nh,
                weights(omega) matches Some(om) ==> om.len() == nh,
                forall|j: int|
                    0 <= j < k && learns(
                        tree,
                        zs,
                        zone,
                        traverser,
                        (#[trigger] ids[j]) as int,
                    ) ==> learned_at(
                        tree,
                        lens,
                        om,
                        cfv@,
                        nh as int,
                        p,
                        strat@,
                        book.local(ids[j] as int),
                        at(count, oi, book.local(ids[j] as int)),
                        ids[j] as int,
                        r0,
                        c0,
                        self.regrets@,
                        self.cum@,
                    ),
                forall|j: int|
                    k <= j < ids.len() && learns(
                        tree,
                        zs,
                        zone,
                        traverser,
                        (#[trigger] ids[j]) as int,
                    ) ==> row(
                        self.regrets@,
                        big,
                        at(count, oi, book.local(ids[j] as int)),
                    ) == row(r0, big, at(count, oi, book.local(ids[j] as int))) && row(
                        self.cum@,
                        big,
                        at(count, oi, book.local(ids[j] as int)),
                    ) == row(c0, big, at(count, oi, book.local(ids[j] as int))),
                forall|g: int|
                    0 <= g < all && !is_learner_row(tree, zs, zone, book, traverser, oi, g)
                        ==> #[trigger] row(self.regrets@, big, g) == row(r0, big, g),
                forall|g: int|
                    0 <= g < all && !is_learner_row(tree, zs, zone, book, traverser, oi, g)
                        ==> #[trigger] row(self.cum@, big, g) == row(c0, big, g),
            decreases ids.len() - k,
        {
            let idx: usize = tree.decision_node_ids[k] as usize;
            let ghost i = ids[k as int] as int;
            assert(i == idx && tree.nodes@[i].is_player());
            if zones[idx] == zone && tree.nodes[idx].player_id == traverser {
                assert(ZoneBook::owns(tree, zs, zone, i));
                assert(learns(tree, zs, zone, traverser, i));
                let local: usize = book.local_offset[idx];
                let ghost g = at(count, oi, local as int);
                proof {
                    book.lemma_local(tree, zs, zone, i);
                    lemma_at_bound(count, self.outcomes as int, oi, local as int);
                }
                let gu: usize = o * self.infosets + local;
                let ghost r1 = self.regrets@;
                let ghost c1 = self.cum@;
                learn_node(
                    tree,
                    lens,
                    omega,
                    cfv,
                    nh,
                    p,
                    &self.strategy,
                    idx,
                    local,
                    gu,
                    &mut self.regrets,
                    &mut self.cum,
                    Ghost(count),
                    Ghost(all),
                );
                proof {
                    let r2 = self.regrets@;
                    let c2 = self.cum@;
                    assert(row(r1, big, g) == row(r0, big, g));
                    assert(row(c1, big, g) == row(c0, big, g));
                    assert forall|q: int| 0 <= q < all && q != g implies #[trigger] row(r2, big, q)
                        == row(r1, big, q) by {
                        lemma_row_inside(big, all, q);
                        lemma_other_row(r1, r2, big, g, q);
                    }
                    assert forall|q: int| 0 <= q < all && q != g implies #[trigger] row(c2, big, q)
                        == row(c1, big, q) by {
                        lemma_row_inside(big, all, q);
                        lemma_other_row(c1, c2, big, g, q);
                    }
                    assert(is_learner_row(tree, zs, zone, book, traverser, oi, g));
                    assert forall|j: int|
                        0 <= j < ids.len() && j != k && learns(
                            tree,
                            zs,
                            zone,
                            traverser,
                            (#[trigger] ids[j]) as int,
                        ) implies at(count, oi, book.local(ids[j] as int)) != g && 0 <= at(
                        count,
                        oi,
                        book.local(ids[j] as int),
                    ) < all by {
                        let m = ids[j] as int;
                        book.lemma_local(tree, zs, zone, m);
                        lemma_at_bound(count, outcomes as int, oi, book.local(m));
                        if at(count, oi, book.local(m)) == g {
                            assert(m == i);
                            assert(ids[j] == ids[k as int]);
                        }
                    }
                    assert forall|j: int|
                        0 <= j < k + 1 && learns(
                            tree,
                            zs,
                            zone,
                            traverser,
                            (#[trigger] ids[j]) as int,
                        ) implies learned_at(
                        tree,
                        lens,
                        om,
                        cfv@,
                        nh as int,
                        p,
                        strat@,
                        book.local(ids[j] as int),
                        at(count, oi, book.local(ids[j] as int)),
                        ids[j] as int,
                        r0,
                        c0,
                        r2,
                        c2,
                    ) by {
                        let m = ids[j] as int;
                        let gm = at(count, oi, book.local(m));
                        if j == k {
                            lemma_learned_base(
                                tree,
                                lens,
                                om,
                                cfv@,
                                nh as int,
                                p,
                                strat@,
                                local as int,
                                g,
                                i,
                                r0,
                                c0,
                                r1,
                                c1,
                                r2,
                                c2,
                            );
                        } else {
                            lemma_learned_frame(
                                tree,
                                lens,
                                om,
                                cfv@,
                                nh as int,
                                p,
                                strat@,
                                book.local(m),
                                gm,
                                m,
                                r0,
                                c0,
                                r1,
                                c1,
                                r2,
                                c2,
                            );
                        }
                    }
                }
            }
            k += 1;
        }
        proof {
            assert forall|i: int| #[trigger] learns(tree, zs, zone, traverser, i) implies learned_at(
                tree,
                lens,
                om,
                cfv@,
                nh as int,
                p,
                strat@,
                book.local(i),
                at(count, oi, book.local(i)),
                i,
                r0,
                c0,
                self.regrets@,
                self.cum@,
            ) by {
                assert(ids.contains(i as u32));
                let j = choose|j: int| 0 <= j < ids.len() && ids[j] == i as u32;
                assert(ids[j] as int == i);
            }
        }
    }
}

proof fn lemma_learned_base<T: Scalar>(
    tree: &FlatTree,
    lens: &Lens,
    omega: Option<Seq<T>>,
    v: Seq<T>,
    nh: int,
    p: &DcfrParams<T>,
    strategy: Seq<T>,
    local: int,
    g: int,
    i: int,
    r0: Seq<T>,
    c0: Seq<T>,
    r1: Seq<T>,
    c1: Seq<T>,
    r2: Seq<T>,
    c2: Seq<T>,
)
    requires
        learned_at(tree, lens, omega, v, nh, p, strategy, local, g, i, r1, c1, r2, c2),
        row(r1, room(lens.width as int), g) == row(r0, room(lens.width as int), g),
        row(c1, room(lens.width as int), g) == row(c0, room(lens.width as int), g),
    ensures
        learned_at(tree, lens, omega, v, nh, p, strategy, local, g, i, r0, c0, r2, c2),
{
    let w = lens.width as int;
    let n = tree.arity(i);
    assert(block(r1, w, g, n) == block(r0, w, g, n));
    assert(block(c1, w, g, n) == block(c0, w, g, n));
}

} // verus!
