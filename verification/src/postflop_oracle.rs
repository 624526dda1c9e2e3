//! The seam between the preflop and the postflop games.
use vstd::prelude::*;

use crate::layout::row_copy;
use crate::pseudo_harmonic::pot_upto;
use crate::scalar::Scalar;
use crate::terminal::views;
use crate::tree::FlatTree;

verus! {

/// Where the flop is entered: players left, chips that each of them has put in, and
/// the pot.
#[derive(Debug, Clone, Copy, PartialEq, Eq, Hash, Structural)]
pub struct SeamCell {
    pub live: u8,
    pub commit: i32,
    pub pot: i32,
}

/// Two to the `n`.
pub open spec fn two_to(n: nat) -> int
    decreases n,
{
    if n == 0 {
        1
    } else {
        2 * two_to((n - 1) as nat)
    }
}

pub open spec fn fourth(x: int) -> int {
    (x * x) * (x * x)
}

/// `a / b` is at least two to the `k` and under two to the `k + 1`.
pub open spec fn in_bin(a: int, b: int, k: int) -> bool {
    if k >= 0 {
        two_to(k as nat) * b <= a < 2 * (two_to(k as nat) * b)
    } else {
        b <= two_to((-k) as nat) * a && two_to((-k - 1) as nat) * a < b
    }
}

/// The bin of a stack-to-pot ratio `behind / pot`, four bins to a doubling.
pub open spec fn is_ratio_bin(behind: int, pot: int, k: int) -> bool {
    in_bin(fourth(behind), fourth(pot), k)
}

proof fn lemma_two_to(n: nat, m: nat)
    requires
        n <= m,
    ensures
        1 <= two_to(n) <= two_to(m),
        n < m ==> 2 * two_to(n) <= two_to(m),
    decreases m,
{
    if m > 0 {
        if n < m {
            lemma_two_to(n, (m - 1) as nat);
        } else {
            lemma_two_to((n - 1) as nat, (m - 1) as nat);
        }
    }
}

proof fn lemma_scale(x: int, y: int, z: int)
    requires
        x <= y,
        0 <= z,
    ensures
        x * z <= y * z,
        z * x <= z * y,
{
    assert(x * z <= y * z && z * x <= z * y) by (nonlinear_arith)
        requires
            x <= y,
            0 <= z,
    ;
}

/// A larger ratio never falls into a lower bin.
proof fn lemma_bins_rise(a: int, b: int, k: int, a2: int, b2: int, k2: int)
    requires
        0 < a,
        0 < b,
        0 < a2,
        0 < b2,
        a * b2 <= a2 * b,
        in_bin(a, b, k),
        in_bin(a2, b2, k2),
    ensures
        k <= k2,
{
    if k > k2 {
        if k2 >= 0 {
            let p = two_to(k as nat);
            lemma_two_to(k2 as nat, k as nat);
            // a >= p * b and a2 < 2 * two_to(k2) * b2 <= p * b2
            lemma_scale(2 * two_to(k2 as nat), p, b2);
            assert(2 * (two_to(k2 as nat) * b2) == (2 * two_to(k2 as nat)) * b2)
                by (nonlinear_arith);
            assert(a2 < p * b2);
            assert(a2 * b < (p * b2) * b) by (nonlinear_arith)
                requires
                    a2 < p * b2,
                    0 < b,
            ;
            assert((p * b) * b2 <= a * b2) by (nonlinear_arith)
                requires
                    p * b <= a,
                    0 < b2,
            ;
            assert((p * b2) * b == (p * b) * b2) by (nonlinear_arith);
        } else if k >= 0 {
            lemma_two_to(0, k as nat);
            lemma_two_to(0, (-k2 - 1) as nat);
            lemma_scale(1, two_to(k as nat), b);
            lemma_scale(1, two_to((-k2 - 1) as nat), a2);
            assert(b <= a);
            assert(a2 < b2);
            assert(a2 * b < b2 * b) by (nonlinear_arith)
                requires
                    a2 < b2,
                    0 < b,
            ;
            assert(b * b2 <= a * b2) by (nonlinear_arith)
                requires
                    b <= a,
                    0 < b2,
            ;
            assert(b2 * b == b * b2) by (nonlinear_arith);
        } else {
            let p = two_to((-k) as nat);
            lemma_two_to((-k) as nat, (-k2 - 1) as nat);
            lemma_scale(p, two_to((-k2 - 1) as nat), a2);
            assert(p * a2 < b2);
            assert((p * a2) * b < b2 * b) by (nonlinear_arith)
                requires
                    p * a2 < b2,
                    0 < b,
            ;
            assert(b * b2 <= (p * a) * b2) by (nonlinear_arith)
                requires
                    b <= p * a,
                    0 < b2,
            ;
            lemma_two_to(0, (-k) as nat);
            assert(p * (a2 * b) < p * (a * b2)) by (nonlinear_arith)
                requires
                    (p * a2) * b < b2 * b,
                    b * b2 <= (p * a) * b2,
            ;
            assert(a2 * b < a * b2) by (nonlinear_arith)
                requires
                    p * (a2 * b) < p * (a * b2),
                    1 <= p,
            ;
        }
    }
}

/// A deeper stack, or a smaller pot, never falls into a lower bin; one ratio falls into
/// one bin.
pub proof fn law_deeper_stacks_rise(
    behind: int,
    pot: int,
    k: int,
    behind2: int,
    pot2: int,
    k2: int,
)
    requires
        0 < behind,
        0 < pot,
        0 < behind2,
        0 < pot2,
        behind * pot2 <= behind2 * pot,
        is_ratio_bin(behind, pot, k),
        is_ratio_bin(behind2, pot2, k2),
    ensures
        k <= k2,
        behind * pot2 == behind2 * pot ==> k == k2,
{
    let (a, b, a2, b2) = (fourth(behind), fourth(pot), fourth(behind2), fourth(pot2));
    lemma_fourth_pos(behind);
    lemma_fourth_pos(pot);
    lemma_fourth_pos(behind2);
    lemma_fourth_pos(pot2);
    lemma_fourth_mul(behind, pot2);
    lemma_fourth_mul(behind2, pot);
    assert(0 < behind * pot2) by (nonlinear_arith)
        requires
            0 < behind,
            0 < pot2,
    ;
    lemma_fourth_mono(behind * pot2, behind2 * pot);
    lemma_bins_rise(a, b, k, a2, b2, k2);
    if behind * pot2 == behind2 * pot {
        lemma_bins_rise(a2, b2, k2, a, b, k);
    }
}

proof fn lemma_fourth_pos(x: int)
    requires
        0 < x,
    ensures
        0 < fourth(x),
{
    assert(0 < x * x) by (nonlinear_arith)
        requires
            0 < x,
    ;
    let s = x * x;
    assert(0 < s * s) by (nonlinear_arith)
        requires
            0 < s,
    ;
}

proof fn lemma_fourth_mul(x: int, y: int)
    ensures
        fourth(x * y) == fourth(x) * fourth(y),
{
    assert((x * y) * (x * y) == (x * x) * (y * y)) by (nonlinear_arith);
    let (s, t) = (x * x, y * y);
    assert((s * t) * (s * t) == (s * s) * (t * t)) by (nonlinear_arith);
}

proof fn lemma_fourth_mono(x: int, y: int)
    requires
        0 <= x <= y,
    ensures
        fourth(x) <= fourth(y),
{
    assert(0 <= x * x <= y * y) by (nonlinear_arith)
        requires
            0 <= x <= y,
    ;
    let (s, t) = (x * x, y * y);
    assert(s * s <= t * t) by (nonlinear_arith)
        requires
            0 <= s <= t,
    ;
}

/// The fourth power.
fn fourth_of(x: i32) -> (y: u128)
    requires
        0 < x,
    ensures
        y == fourth(x as int),
        1 <= y < 0x1000_0000_0000_0000_0000_0000_0000_0000,
{
    let w: u128 = x as u128;
    proof {
        let v = x as int;
        lemma_fourth_pos(v);
        assert(0 <= v * v <= 0x4000_0000_0000_0000) by (nonlinear_arith)
            requires
                0 < v <= 0x7fff_ffff,
        ;
        let s = v * v;
        assert(0 <= s * s <= 0x1000_0000_0000_0000_0000_0000_0000_0000) by (nonlinear_arith)
            requires
                0 <= s <= 0x4000_0000_0000_0000,
        ;
        assert(v * v < 0x4000_0000_0000_0000) by (nonlinear_arith)
            requires
                0 < v <= 0x7fff_ffff,
        ;
        assert(s * s < 0x1000_0000_0000_0000_0000_0000_0000_0000) by (nonlinear_arith)
            requires
                0 <= s < 0x4000_0000_0000_0000,
        ;
    }
    (w * w) * (w * w)
}

/// Computes [`is_ratio_bin`].
fn ratio_bin(behind: i32, pot: i32) -> (k: i64)
    requires
        0 < behind,
        0 < pot,
    ensures
        is_ratio_bin(behind as int, pot as int, k as int),
        -124 <= k <= 124,
{
    let a: u128 = fourth_of(behind);
    let b: u128 = fourth_of(pot);
    let mut k: i64 = 0;
    if b <= a {
        let mut m: u128 = b;
        while m <= a / 2
            invariant
                0 <= k <= 124,
                1 <= b,
                a < 0x1000_0000_0000_0000_0000_0000_0000_0000,
                m == two_to(k as nat) * b,
                m <= a,
                two_to(k as nat) <= m,
                1 <= m,
            decreases a - m,
        {
            proof {
                let p = two_to(k as nat);
                assert(two_to((k + 1) as nat) == 2 * p);
                assert(2 * (p * b) == (2 * p) * b) by (nonlinear_arith);
                if k >= 124 {
                    lemma_124();
                    lemma_two_to(124, k as nat);
                }
            }
            m = 2 * m;
            k = k + 1;
        }
    } else {
        let mut m: u128 = a;
        proof {
            assert(two_to(0) * a == a);
        }
        while m < b
            invariant
                -124 <= k <= 0,
                1 <= a,
                b < 0x1000_0000_0000_0000_0000_0000_0000_0000,
                m == two_to((-k) as nat) * a,
                two_to((-k) as nat) <= m,
                a < b,
                k < 0 ==> two_to((-k - 1) as nat) * a < b,
            decreases 124 + k,
        {
            proof {
                let p = two_to((-k) as nat);
                assert(two_to((-k + 1) as nat) == 2 * p) by {
                    assert((-k + 1 - 1) as nat == (-k) as nat);
                }
                assert(2 * (p * a) == (2 * p) * a) by (nonlinear_arith);
                if k <= -124 {
                    lemma_124();
                    lemma_two_to(124, (-k) as nat);
                }
                lemma_two_to(0, (-k) as nat);
            }
            m = 2 * m;
            k = k - 1;
        }
    }
    k
}

proof fn lemma_124()
    ensures
        two_to(124) == 0x1000_0000_0000_0000_0000_0000_0000_0000,
{
    lemma_step(0);
    lemma_step(4);
    lemma_sixteen(0);
    lemma_sixteen(16);
    lemma_sixteen(32);
    lemma_sixteen(48);
    lemma_sixteen(64);
    lemma_sixteen(80);
    lemma_sixteen(96);
    lemma_step(112);
    lemma_step(116);
    lemma_step(120);
}

proof fn lemma_step(n: nat)
    ensures
        two_to(n + 4) == 16 * two_to(n),
{
    reveal_with_fuel(two_to, 5);
}

proof fn lemma_sixteen(n: nat)
    ensures
        two_to(n + 16) == 65536 * two_to(n),
{
    lemma_step(n);
    lemma_step(n + 4);
    lemma_step(n + 8);
    lemma_step(n + 12);
}

/// Player `p` is still in.
pub open spec fn is_live(tree: &FlatTree, i: int, p: int) -> bool {
    (tree.folded_masks@[i] >> (p as u16)) & 1u16 == 0
}

/// Players among the first `n` that are still in.
pub open spec fn live_upto(tree: &FlatTree, i: int, n: nat) -> int
    decreases n,
{
    if n == 0 {
        0
    } else {
        live_upto(tree, i, (n - 1) as nat) + if is_live(tree, i, n - 1) {
            1int
        } else {
            0int
        }
    }
}

/// The largest contribution of a player among the first `n` that is still in, and not
/// under zero.
pub open spec fn commit_upto(tree: &FlatTree, i: int, n: nat) -> int
    decreases n,
{
    if n == 0 {
        0
    } else {
        let prev = commit_upto(tree, i, (n - 1) as nat);
        let c = tree.contribution(i, n - 1);
        if is_live(tree, i, n - 1) && prev < c {
            c
        } else {
            prev
        }
    }
}

impl SeamCell {
    /// The bucket of the cell: its players, and the bin of its stack-to-pot ratio.
    /// All-in cells share the lowest bin, a pot of zero falls into the highest, one under
    /// zero into the middle.
    pub open spec fn is_bucket(&self, stack: int, key: (u8, i64)) -> bool {
        let behind = stack - self.commit;
        &&& key.0 == self.live
        &&& if behind <= 0 {
            key.1 == i64::MIN
        } else if self.pot == 0 {
            key.1 == i64::MAX
        } else if self.pot < 0 {
            key.1 == 0
        } else {
            is_ratio_bin(behind, self.pot as int, key.1 as int) && -124 <= key.1 <= 124
        }
    }

    pub fn bucket_key(&self, stack: i32) -> (key: (u8, i64))
        requires
            i32::MIN <= stack - self.commit <= i32::MAX,
        ensures
            self.is_bucket(stack as int, key),
    {
        let behind: i32 = stack - self.commit;
        if behind <= 0 {
            return (self.live, i64::MIN);
        }
        if self.pot == 0 {
            (self.live, i64::MAX)
        } else if self.pot < 0 {
            (self.live, 0)
        } else {
            (self.live, ratio_bin(behind, self.pot))
        }
    }

    /// This is the cell at node `i` among the first `n` players.
    pub open spec fn is_at(&self, tree: &FlatTree, i: int, n: nat) -> bool {
        &&& self.live == live_upto(tree, i, n)
        &&& self.commit == commit_upto(tree, i, n)
        &&& self.pot == pot_upto(tree, i, n)
    }

    /// The cell at a node.
    pub fn at_chance_node(tree: &FlatTree, chance_idx: usize, np: usize) -> (cell: SeamCell)
        requires
            tree.wf(),
            tree.is_node(chance_idx as int),
            np <= tree.np(),
            np <= 16,
            forall|n: int|
                0 <= n <= np ==> i32::MIN <= #[trigger] pot_upto(tree, chance_idx as int, n as nat)
                    <= i32::MAX,
        ensures
            cell.is_at(tree, chance_idx as int, np as nat),
    {
        let mask: u16 = tree.get_folded_mask(chance_idx);
        let ghost i = chance_idx as int;
        let mut live: u8 = 0;
        let mut commit: i32 = 0;
        let mut pot: i32 = 0;
        let mut p: usize = 0;
        while p < np
            invariant
                p <= np,
                np <= tree.np(),
                np <= 16,
                i == chance_idx,
                tree.wf(),
                tree.is_node(i),
                mask == tree.folded_masks@[i],
                forall|n: int|
                    0 <= n <= np ==> i32::MIN <= #[trigger] pot_upto(tree, i, n as nat) <= i32::MAX,
                live <= p,
                live == live_upto(tree, i, p as nat),
                commit == commit_upto(tree, i, p as nat),
                pot == pot_upto(tree, i, p as nat),
            decreases np - p,
        {
            let c: i32 = tree.get_contribution(chance_idx, p as u8);
            proof {
                assert((p + 1 - 1) as nat == p as nat);
                assert(pot_upto(tree, i, (p + 1) as nat) == pot + c);
                assert(i32::MIN <= pot_upto(tree, i, (p + 1) as nat) <= i32::MAX);
            }
            pot = pot + c;
            if (mask >> (p as u16)) & 1 == 0 {
                live = live + 1;
                if commit < c {
                    commit = c;
                }
            }
            p += 1;
        }
        SeamCell { live, commit, pot }
    }
}

/// A bin as the low word of a key.
pub open spec fn packed_bin(bin: int) -> int {
    let b = if bin < i32::MIN {
        i32::MIN as int
    } else if bin > i32::MAX {
        i32::MAX as int
    } else {
        bin
    };
    if b < 0 {
        b + 0x1_0000_0000
    } else {
        b
    }
}

/// A bucket as one number: players in the high word, bin in the low one.
pub fn pack_bucket(key: (u8, i64)) -> (k: u64)
    ensures
        k == key.0 * 0x1_0000_0000 + packed_bin(key.1 as int),
{
    let bin: i64 = if key.1 < -0x8000_0000 {
        -0x8000_0000
    } else if key.1 > 0x7fff_ffff {
        0x7fff_ffff
    } else {
        key.1
    };
    let low: u64 = if bin < 0 {
        (bin + 0x1_0000_0000) as u64
    } else {
        bin as u64
    };
    (key.0 as u64) * 0x1_0000_0000 + low
}

/// The key by which flop entries share a value: the bucket of the cell at a node.
pub fn seam_bucket_chance_key(tree: &FlatTree, np: usize, stack: i32, chance_idx: usize) -> (k: u64)
    requires
        tree.wf(),
        tree.is_node(chance_idx as int),
        np <= tree.np(),
        np <= 16,
        forall|n: int|
            0 <= n <= np ==> i32::MIN <= #[trigger] pot_upto(tree, chance_idx as int, n as nat)
                <= i32::MAX,
        i32::MIN <= stack - commit_upto(tree, chance_idx as int, np as nat) <= i32::MAX,
    ensures
        is_seam_key(tree, np as nat, stack as int, chance_idx as int, k),
{
    let cell = SeamCell::at_chance_node(tree, chance_idx, np);
    let key = cell.bucket_key(stack);
    let k = pack_bucket(key);
    proof {
        assert(is_key_of(tree, np as nat, stack as int, chance_idx as int, cell, key, k));
    }
    k
}

/// `k` packs bucket `key` of cell `cell` at node `i`.
pub open spec fn is_key_of(
    tree: &FlatTree,
    np: nat,
    stack: int,
    i: int,
    cell: SeamCell,
    key: (u8, i64),
    k: u64,
) -> bool {
    &&& cell.is_at(tree, i, np)
    &&& cell.is_bucket(stack, key)
    &&& k == key.0 * 0x1_0000_0000 + packed_bin(key.1 as int)
}

pub open spec fn is_seam_key(tree: &FlatTree, np: nat, stack: int, i: int, k: u64) -> bool {
    exists|cell: SeamCell, key: (u8, i64)| #[trigger] is_key_of(tree, np, stack, i, cell, key, k)
}

/// Keys are equal only where players and bin are.
pub proof fn law_keys_tell_buckets_apart(a: (u8, i64), b: (u8, i64))
    requires
        a.0 * 0x1_0000_0000 + packed_bin(a.1 as int) == b.0 * 0x1_0000_0000 + packed_bin(
            b.1 as int,
        ),
        -124 <= a.1 <= 124 || a.1 == i64::MIN || a.1 == i64::MAX,
        -124 <= b.1 <= 124 || b.1 == i64::MIN || b.1 == i64::MAX,
    ensures
        a == b,
{
}

/// A cell has one bucket.
pub proof fn law_bucket_is_unique(cell: SeamCell, stack: int, a: (u8, i64), b: (u8, i64))
    requires
        cell.is_bucket(stack, a),
        cell.is_bucket(stack, b),
    ensures
        a == b,
{
    let behind = stack - cell.commit;
    if behind > 0 && cell.pot > 0 {
        law_deeper_stacks_rise(
            behind,
            cell.pot as int,
            a.1 as int,
            behind,
            cell.pot as int,
            b.1 as int,
        );
    }
}

/// A question: what is entering this flop worth to the traverser, with these ranges?
/// It may name the cell through which the flop is entered, and who has folded.
pub struct FlopAsk<T> {
    pub flop: Seq<u8>,
    pub ranges: Seq<Seq<T>>,
    pub traverser: u8,
    pub cell: Option<(SeamCell, u16)>,
}

impl<T> FlopAsk<T> {
    /// Every range has `n` entries.
    pub open spec fn is_even(&self, n: int) -> bool {
        &&& self.ranges.len() > 0
        &&& forall|p: int| 0 <= p < self.ranges.len() ==> (#[trigger] self.ranges[p]).len() == n
    }
}

/// A question as it is asked.
pub open spec fn ask_of<T>(
    flop: [u8; 3],
    ranges: &Vec<Vec<T>>,
    traverser: u8,
    cell: Option<(SeamCell, u16)>,
) -> FlopAsk<T> {
    FlopAsk { flop: flop@, ranges: views(ranges@), traverser, cell }
}

/// Where the solver before the flop has the values of the flop from.
///
/// What an oracle answers may depend on what it was asked before; the relations say how.
pub trait PostflopValueOracle<T: Scalar>: Sized {
    /// The question can be asked.
    spec fn s_takes(&self, ask: FlopAsk<T>) -> bool;

    /// Asked, the oracle may answer `v` and become `after`.
    spec fn s_answers(&self, after: &Self, ask: FlopAsk<T>, v: Seq<T>) -> bool;

    /// At the start of iteration `iter` the oracle may become `after`.
    spec fn s_begins(&self, after: &Self, iter: u32) -> bool;

    /// At the end of iteration `iter` the oracle may become `after`.
    spec fn s_ends(&self, after: &Self, iter: u32) -> bool;

    /// An answer has an entry for every entry of the ranges.
    proof fn lemma_even(&self, after: &Self, ask: FlopAsk<T>, v: Seq<T>, n: int)
        requires
            self.s_takes(ask),
            self.s_answers(after, ask, v),
            ask.is_even(n),
        ensures
            v.len() == n,
    ;

    /// What can be asked can still be asked after an answer.
    proof fn lemma_still_takes(&self, after: &Self, ask: FlopAsk<T>, v: Seq<T>, other: FlopAsk<T>)
        requires
            self.s_takes(ask),
            self.s_answers(after, ask, v),
            self.s_takes(other),
        ensures
            after.s_takes(other),
    ;

    /// What can be asked can be asked at every start and end of an iteration.
    proof fn lemma_takes_on(&self, after: &Self, iter: u32, other: FlopAsk<T>)
        requires
            self.s_begins(after, iter) || self.s_ends(after, iter),
            self.s_takes(other),
        ensures
            after.s_takes(other),
    ;

    /// The traverser's value of every combination of cards.
    fn flop_root_cfv(
        &mut self,
        canonical_flop: [u8; 3],
        combo_ranges: &Vec<Vec<T>>,
        traverser: u8,
    ) -> (v: Vec<T>)
        requires
            old(self).s_takes(ask_of(canonical_flop, combo_ranges, traverser, None)),
        ensures
            old(self).s_answers(
                final(self),
                ask_of(canonical_flop, combo_ranges, traverser, None),
                v@,
            ),
    ;

    /// The same for a flop that is entered through a cell.
    fn flop_root_cfv_for_cell(
        &mut self,
        canonical_flop: [u8; 3],
        combo_ranges: &Vec<Vec<T>>,
        traverser: u8,
        cell: SeamCell,
        folded_mask: u16,
    ) -> (v: Vec<T>)
        requires
            old(self).s_takes(
                ask_of(canonical_flop, combo_ranges, traverser, Some((cell, folded_mask))),
            ),
        ensures
            old(self).s_answers(
                final(self),
                ask_of(canonical_flop, combo_ranges, traverser, Some((cell, folded_mask))),
                v@,
            ),
    ;

    /// Called before every iteration.
    fn begin_preflop_iter(&mut self, iter: u32)
        ensures
            old(self).s_begins(final(self), iter),
    ;

    /// Called after every iteration.
    fn end_preflop_iter(&mut self, iter: u32)
        ensures
            old(self).s_ends(final(self), iter),
    ;
}

/// Closure `f` gives `v` to the question.
pub open spec fn flop_answer<T, F: Fn([u8; 3], &Vec<Vec<T>>, u8) -> Vec<T>>(
    f: &F,
    flop: [u8; 3],
    ranges: Vec<Vec<T>>,
    traverser: u8,
    v: Vec<T>,
) -> bool {
    call_ensures(*f, (flop, &ranges, traverser), v)
}

/// Closure `f` can be asked, and gives as many values as a range has entries.
pub open spec fn flop_takes<T, F: Fn([u8; 3], &Vec<Vec<T>>, u8) -> Vec<T>>(
    f: &F,
    ask: FlopAsk<T>,
) -> bool {
    &&& forall|flop: [u8; 3], ranges: &Vec<Vec<T>>, t: u8|
        flop@ == ask.flop && views(ranges@) == ask.ranges && t == ask.traverser
            ==> #[trigger] call_requires(*f, (flop, ranges, t))
    &&& forall|flop: [u8; 3], ranges: Vec<Vec<T>>, t: u8, v: Vec<T>, n: int|
        #![trigger flop_answer(f, flop, ranges, t, v), ask.is_even(n)]
        flop@ == ask.flop && views(ranges@) == ask.ranges && t == ask.traverser
            && flop_answer(f, flop, ranges, t, v) && ask.is_even(n) ==> v@.len() == n
}

/// Closure `f` may answer `v`.
pub open spec fn flop_answers<T, F: Fn([u8; 3], &Vec<Vec<T>>, u8) -> Vec<T>>(
    f: &F,
    ask: FlopAsk<T>,
    v: Seq<T>,
) -> bool {
    exists|flop: [u8; 3], ranges: Vec<Vec<T>>, t: u8, out: Vec<T>|
        flop@ == ask.flop && views(ranges@) == ask.ranges && t == ask.traverser
            && #[trigger] flop_answer(f, flop, ranges, t, out) && out@ == v
}

/// Asks closure `f`.
fn ask_flop<T, F: Fn([u8; 3], &Vec<Vec<T>>, u8) -> Vec<T>>(
    f: &F,
    flop: [u8; 3],
    ranges: &Vec<Vec<T>>,
    traverser: u8,
) -> (v: Vec<T>)
    requires
        exists|cell: Option<(SeamCell, u16)>|
            flop_takes(f, #[trigger] ask_of(flop, ranges, traverser, cell)),
    ensures
        forall|cell: Option<(SeamCell, u16)>|
            flop_answers(f, #[trigger] ask_of(flop, ranges, traverser, cell), v@),
{
    let v = f(flop, ranges, traverser);
    assert(flop_answer(f, flop, *ranges, traverser, v));
    v
}

/// An oracle that asks a closure.
pub struct ClosureOracle<F> {
    pub f: F,
}

impl<F> ClosureOracle<F> {
    pub fn new(f: F) -> (o: ClosureOracle<F>)
        ensures
            o.f == f,
    {
        ClosureOracle { f }
    }
}

impl<T: Scalar, F: Fn([u8; 3], &Vec<Vec<T>>, u8) -> Vec<T>> PostflopValueOracle<
    T,
> for ClosureOracle<F> {
    open spec fn s_takes(&self, ask: FlopAsk<T>) -> bool {
        flop_takes(&self.f, ask)
    }

    open spec fn s_answers(&self, after: &Self, ask: FlopAsk<T>, v: Seq<T>) -> bool {
        *after == *self && flop_answers(&self.f, ask, v)
    }

    open spec fn s_begins(&self, after: &Self, iter: u32) -> bool {
        *after == *self
    }

    open spec fn s_ends(&self, after: &Self, iter: u32) -> bool {
        *after == *self
    }

    proof fn lemma_even(&self, after: &Self, ask: FlopAsk<T>, v: Seq<T>, n: int) {
    }

    proof fn lemma_still_takes(&self, after: &Self, ask: FlopAsk<T>, v: Seq<T>, other: FlopAsk<T>) {
    }

    proof fn lemma_takes_on(&self, after: &Self, iter: u32, other: FlopAsk<T>) {
    }

    fn flop_root_cfv(
        &mut self,
        canonical_flop: [u8; 3],
        combo_ranges: &Vec<Vec<T>>,
        traverser: u8,
    ) -> (v: Vec<T>) {
        ask_flop(&self.f, canonical_flop, combo_ranges, traverser)
    }

    fn flop_root_cfv_for_cell(
        &mut self,
        canonical_flop: [u8; 3],
        combo_ranges: &Vec<Vec<T>>,
        traverser: u8,
        cell: SeamCell,
        folded_mask: u16,
    ) -> (v: Vec<T>) {
        ask_flop(&self.f, canonical_flop, combo_ranges, traverser)
    }

    fn begin_preflop_iter(&mut self, iter: u32) {
    }

    fn end_preflop_iter(&mut self, iter: u32) {
    }
}

/// By what a value is remembered: players, bin, flop and traverser.
pub struct CacheKey {
    pub live: u8,
    pub bin: i64,
    pub flop: Seq<u8>,
    pub traverser: u8,
}

/// A remembered value.
pub struct CacheEntry<T> {
    pub live: u8,
    pub bin: i64,
    pub flop: [u8; 3],
    pub traverser: u8,
    pub value: Vec<T>,
}

impl<T> CacheEntry<T> {
    pub open spec fn key(&self) -> CacheKey {
        CacheKey { live: self.live, bin: self.bin, flop: self.flop@, traverser: self.traverser }
    }
}

/// `k` is the place of the first entry with this key.
pub open spec fn is_first<T>(entries: Seq<CacheEntry<T>>, key: CacheKey, k: int) -> bool {
    &&& 0 <= k < entries.len()
    &&& entries[k].key() == key
    &&& forall|l: int| 0 <= l < k ==> (#[trigger] entries[l]).key() != key
}

/// No entry has this key.
pub open spec fn is_absent<T>(entries: Seq<CacheEntry<T>>, key: CacheKey) -> bool {
    forall|k: int| 0 <= k < entries.len() ==> (#[trigger] entries[k]).key() != key
}

/// An oracle that asks a source once per bucket, flop and traverser, and remembers the
/// answer until the next refresh.
pub struct BucketKeyedOracle<T, S> {
    pub stack: i32,
    pub num_players: u8,
    pub src: S,
    pub cache: Vec<CacheEntry<T>>,
    /// Everything is forgotten at the start of every iteration whose number this
    /// divides; zero for never.
    pub refresh_every: u32,
}

/// Source `f` gives `v` to the question.
pub open spec fn cell_answer<T, S: Fn(SeamCell, u16, [u8; 3], &Vec<Vec<T>>, u8) -> Vec<T>>(
    f: &S,
    cell: SeamCell,
    mask: u16,
    flop: [u8; 3],
    ranges: Vec<Vec<T>>,
    t: u8,
    v: Vec<T>,
) -> bool {
    call_ensures(*f, (cell, mask, flop, &ranges, t), v)
}

/// Source `f` may answer `v`.
pub open spec fn cell_answers<T, S: Fn(SeamCell, u16, [u8; 3], &Vec<Vec<T>>, u8) -> Vec<T>>(
    f: &S,
    ask: FlopAsk<T>,
    v: Seq<T>,
) -> bool {
    exists|cell: SeamCell, mask: u16, flop: [u8; 3], ranges: Vec<Vec<T>>, t: u8, out: Vec<T>|
        ask.cell == Some((cell, mask)) && flop@ == ask.flop && views(ranges@) == ask.ranges && t
            == ask.traverser && #[trigger] cell_answer(f, cell, mask, flop, ranges, t, out) && out@
            == v
}

/// Source `f` can be asked.
pub open spec fn cell_takes<T, S: Fn(SeamCell, u16, [u8; 3], &Vec<Vec<T>>, u8) -> Vec<T>>(
    f: &S,
    ask: FlopAsk<T>,
) -> bool {
    forall|cell: SeamCell, mask: u16, flop: [u8; 3], ranges: &Vec<Vec<T>>, t: u8|
        ask.cell == Some((cell, mask)) && flop@ == ask.flop && views(ranges@) == ask.ranges && t
            == ask.traverser ==> #[trigger] call_requires(*f, (cell, mask, flop, ranges, t))
}

/// Source `f` gives as many values as a flop has combinations of cards.
pub open spec fn gives_combos<T, S: Fn(SeamCell, u16, [u8; 3], &Vec<Vec<T>>, u8) -> Vec<T>>(
    f: &S,
) -> bool {
    forall|cell: SeamCell, mask: u16, flop: [u8; 3], ranges: Vec<Vec<T>>, t: u8, v: Vec<T>| #[trigger]
        cell_answer(f, cell, mask, flop, ranges, t, v) ==> v@.len() == COMBOS_PER_FLOP
}

/// Combinations of two cards out of the 49 that a flop leaves.
pub const COMBOS_PER_FLOP: usize = 1176;

impl<T: Scalar, S: Fn(SeamCell, u16, [u8; 3], &Vec<Vec<T>>, u8) -> Vec<T>> BucketKeyedOracle<T, S> {
    /// The bucket of a cell, for this oracle's stack.
    pub open spec fn is_key(&self, ask: FlopAsk<T>, key: CacheKey) -> bool {
        &&& ask.cell matches Some((cell, mask)) && cell.is_bucket(
            self.stack as int,
            (key.live, key.bin),
        )
        &&& key.flop == ask.flop
        &&& key.traverser == ask.traverser
    }

    /// Every remembered value has an entry for every combination.
    pub open spec fn is_full(&self) -> bool {
        forall|k: int|
            0 <= k < self.cache@.len() ==> (#[trigger] self.cache@[k]).value@.len()
                == COMBOS_PER_FLOP
    }

    pub fn new(stack: i32, num_players: u8, refresh_every: u32, src: S) -> (o: BucketKeyedOracle<
        T,
        S,
    >)
        ensures
            o.stack == stack,
            o.num_players == num_players,
            o.refresh_every == refresh_every,
            o.src == src,
            o.cache@.len() == 0,
    {
        BucketKeyedOracle { stack, num_players, src, cache: Vec::new(), refresh_every }
    }

    /// How many values are remembered.
    pub fn cache_len(&self) -> (n: usize)
        ensures
            n == self.cache@.len(),
    {
        self.cache.len()
    }

    /// The place of the first entry with this key.
    fn find(&self, live: u8, bin: i64, flop: [u8; 3], traverser: u8) -> (r: Option<usize>)
        ensures
            match r {
                Some(k) => is_first(
                    self.cache@,
                    (CacheKey { live, bin, flop: flop@, traverser }),
                    k as int,
                ),
                None => is_absent(
                    self.cache@,
                    (CacheKey { live, bin, flop: flop@, traverser }),
                ),
            },
    {
        let n: usize = self.cache.len();
        let ghost key = CacheKey { live, bin, flop: flop@, traverser };
        let mut k: usize = 0;
        while k < n
            invariant
                k <= n,
                n == self.cache@.len(),
                key == (CacheKey { live, bin, flop: flop@, traverser }),
                forall|l: int| 0 <= l < k ==> (#[trigger] self.cache@[l]).key() != key,
            decreases n - k,
        {
            let e = &self.cache[k];
            let same_flop = e.flop[0] == flop[0] && e.flop[1] == flop[1] && e.flop[2] == flop[2];
            if e.live == live && e.bin == bin && e.traverser == traverser && same_flop {
                assert(e.flop@ =~= flop@);
                return Some(k);
            }
            assert(self.cache@[k as int].key() != key) by {
                if self.cache@[k as int].key() == key {
                    assert(e.flop@[0] == flop@[0]);
                    assert(e.flop@[1] == flop@[1]);
                    assert(e.flop@[2] == flop@[2]);
                }
            }
            k += 1;
        }
        None
    }
}

impl<
    T: Scalar,
    S: Fn(SeamCell, u16, [u8; 3], &Vec<Vec<T>>, u8) -> Vec<T>,
> PostflopValueOracle<T> for BucketKeyedOracle<T, S> {
    /// The traverser must still be in, and the flop be entered through a cell.
    open spec fn s_takes(&self, ask: FlopAsk<T>) -> bool {
        &&& cell_takes(&self.src, ask)
        &&& gives_combos(&self.src)
        &&& self.is_full()
        &&& forall|n: int| #[trigger] ask.is_even(n) ==> n == COMBOS_PER_FLOP
        &&& ask.cell matches Some((cell, mask)) && ask.traverser < 16 && (mask >> (
        ask.traverser as u16)) & 1u16 == 0 && i32::MIN <= self.stack - cell.commit <= i32::MAX
    }

    /// What is remembered is answered; anything else is asked of the source, and
    /// remembered.
    open spec fn s_answers(&self, after: &Self, ask: FlopAsk<T>, v: Seq<T>) -> bool {
        exists|key: CacheKey| #[trigger]
            self.is_key(ask, key) && {
                ||| {
                    &&& *after == *self
                    &&& exists|k: int| #[trigger]
                        is_first(self.cache@, key, k) && self.cache@[k].value@ == v
                }
                ||| {
                    &&& is_absent(self.cache@, key)
                    &&& cell_answers(&self.src, ask, v)
                    &&& *after == (BucketKeyedOracle { cache: after.cache, ..*self })
                    &&& after.cache@.len() == self.cache@.len() + 1
                    &&& after.cache@.drop_last() == self.cache@
                    &&& after.cache@.last().key() == key
                    &&& after.cache@.last().value@ == v
                }
            }
    }

    /// Everything is forgotten when the refresh divides the iteration's number.
    open spec fn s_begins(&self, after: &Self, iter: u32) -> bool {
        &&& *after == (BucketKeyedOracle { cache: after.cache, ..*self })
        &&& if self.refresh_every > 0 && iter % self.refresh_every == 0 {
            after.cache@.len() == 0
        } else {
            after.cache == self.cache
        }
    }

    open spec fn s_ends(&self, after: &Self, iter: u32) -> bool {
        *after == *self
    }

    proof fn lemma_even(&self, after: &Self, ask: FlopAsk<T>, v: Seq<T>, n: int) {
    }

    proof fn lemma_still_takes(&self, after: &Self, ask: FlopAsk<T>, v: Seq<T>, other: FlopAsk<T>) {
        assert forall|k: int| 0 <= k < after.cache@.len() implies (
        #[trigger] after.cache@[k]).value@.len() == COMBOS_PER_FLOP by {
            if k < self.cache@.len() {
                assert(after.cache@.len() == self.cache@.len() || after.cache@.drop_last()[k]
                    == self.cache@[k]);
                assert(self.cache@[k].value@.len() == COMBOS_PER_FLOP);
            } else {
                assert(after.cache@.last() == after.cache@[k]);
            }
        }
    }

    proof fn lemma_takes_on(&self, after: &Self, iter: u32, other: FlopAsk<T>) {
    }

    /// A flop that is not entered through a cell cannot be asked for.
    fn flop_root_cfv(
        &mut self,
        canonical_flop: [u8; 3],
        combo_ranges: &Vec<Vec<T>>,
        traverser: u8,
    ) -> (v: Vec<T>) {
        assert(false);
        Vec::new()
    }

    fn flop_root_cfv_for_cell(
        &mut self,
        canonical_flop: [u8; 3],
        combo_ranges: &Vec<Vec<T>>,
        traverser: u8,
        cell: SeamCell,
        folded_mask: u16,
    ) -> (v: Vec<T>) {
        let (live, bin) = cell.bucket_key(self.stack);
        let ghost ask = ask_of(canonical_flop, combo_ranges, traverser, Some((cell, folded_mask)));
        let ghost key = CacheKey { live, bin, flop: canonical_flop@, traverser };
        assert(self.is_key(ask, key));
        if let Some(k) = self.find(live, bin, canonical_flop, traverser) {
            return row_copy(&self.cache[k].value);
        }
        let v = ask_cell(&self.src, cell, folded_mask, canonical_flop, combo_ranges, traverser);
        let value = row_copy(&v);
        let ghost was = self.cache@;
        self.cache.push(CacheEntry { live, bin, flop: canonical_flop, traverser, value });
        assert(self.cache@.drop_last() =~= was);
        v
    }

    fn begin_preflop_iter(&mut self, iter: u32) {
        if self.refresh_every > 0 && iter % self.refresh_every == 0 {
            self.cache = Vec::new();
        }
    }

    fn end_preflop_iter(&mut self, iter: u32) {
    }
}

/// Asks source `f`.
fn ask_cell<T, S: Fn(SeamCell, u16, [u8; 3], &Vec<Vec<T>>, u8) -> Vec<T>>(
    f: &S,
    cell: SeamCell,
    mask: u16,
    flop: [u8; 3],
    ranges: &Vec<Vec<T>>,
    t: u8,
) -> (v: Vec<T>)
    requires
        cell_takes(f, ask_of(flop, ranges, t, Some((cell, mask)))),
    ensures
        cell_answers(f, ask_of(flop, ranges, t, Some((cell, mask))), v@),
{
    let v = f(cell, mask, flop, ranges, t);
    assert(cell_answer(f, cell, mask, flop, *ranges, t, v));
    v
}

/// Within one bucket, flop and traverser every question gets the first one's answer,
/// whatever the ranges, until a refresh.
pub proof fn law_bucket_is_asked_once<
    T: Scalar,
    S: Fn(SeamCell, u16, [u8; 3], &Vec<Vec<T>>, u8) -> Vec<T>,
>(
    a: &BucketKeyedOracle<T, S>,
    b: &BucketKeyedOracle<T, S>,
    c: &BucketKeyedOracle<T, S>,
    ask: FlopAsk<T>,
    v: Seq<T>,
    ask2: FlopAsk<T>,
    v2: Seq<T>,
    key: CacheKey,
)
    requires
        a.s_answers(b, ask, v),
        b.s_answers(c, ask2, v2),
        a.is_key(ask, key),
        a.is_key(ask2, key),
    ensures
        v2 == v,
        *c == *b,
{
    let k1 = choose|k1: CacheKey| #[trigger]
        a.is_key(ask, k1) && ({
            ||| *b == *a && exists|k: int| #[trigger]
                is_first(a.cache@, k1, k) && a.cache@[k].value@ == v
            ||| is_absent(a.cache@, k1) && b.cache@.len() == a.cache@.len() + 1
                && b.cache@.drop_last() == a.cache@ && b.cache@.last().key() == k1
                && b.cache@.last().value@ == v && *b == (BucketKeyedOracle { cache: b.cache, ..*a })
        });
    let (cell, mask) = ask.cell->Some_0;
    law_bucket_is_unique(
        cell,
        a.stack as int,
        (k1.live, k1.bin),
        (key.live, key.bin),
    );
    assert(k1 == key);
    assert(b.stack == a.stack);
    let k2 = choose|k2: CacheKey| #[trigger]
        b.is_key(ask2, k2) && ({
            ||| *c == *b && exists|k: int| #[trigger]
                is_first(b.cache@, k2, k) && b.cache@[k].value@ == v2
            ||| is_absent(b.cache@, k2)
        });
    let (cell2, mask2) = ask2.cell->Some_0;
    law_bucket_is_unique(
        cell2,
        a.stack as int,
        (k2.live, k2.bin),
        (key.live, key.bin),
    );
    assert(k2 == key);
    if is_absent(a.cache@, key) && b.cache@.len() == a.cache@.len() + 1 {
        let n = a.cache@.len() as int;
        assert(b.cache@[n] == b.cache@.last());
        assert forall|l: int| 0 <= l < n implies (#[trigger] b.cache@[l]).key() != key by {
            assert(b.cache@.drop_last()[l] == b.cache@[l]);
            assert(a.cache@[l].key() != key);
        }
        assert(is_first(b.cache@, key, n));
    }
    lemma_one_first(b.cache@, key);
}

/// There is at most one first entry, and none where the key is absent.
proof fn lemma_one_first<T>(entries: Seq<CacheEntry<T>>, key: CacheKey)
    ensures
        forall|k: int, l: int| #[trigger]
            is_first(entries, key, k) && #[trigger] is_first(entries, key, l) ==> k == l,
        forall|k: int| #[trigger] is_first(entries, key, k) ==> !is_absent(entries, key),
{
    assert forall|k: int, l: int| #[trigger]
        is_first(entries, key, k) && #[trigger] is_first(entries, key, l) implies k == l by {
        if k < l {
            assert(entries[k].key() != key);
        }
        if l < k {
            assert(entries[l].key() != key);
        }
    }
}

} // verus!
