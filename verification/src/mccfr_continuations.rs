//! Several continuations for the frozen part of a [`CpuMccfr`].
//!
//! The first continuation is the frozen strategy itself. The others lean toward
//! folding, toward checking and calling, and toward betting. Each player chooses one
//! at the first of its frozen nodes on the way from the root.
use vstd::prelude::*;

use crate::grid::{cut, cut_of, grid, lemma_is_grid, put, put_into};
use crate::layout::{at, flat, lemma_at_bound, lemma_at_inj, row_copy};
use crate::mccfr::{rooms_upto, CpuMccfr};
use crate::pseudo_harmonic::{lemma_parent_edge, parent_edge};
use crate::scalar::{filled, sum_upto, Scalar};
use crate::tree::{
    ACTION_LABEL_ALLIN, ACTION_LABEL_BET, ACTION_LABEL_CALL, ACTION_LABEL_CHECK, ACTION_LABEL_FOLD,
    ACTION_LABEL_RAISE, FlatTree, UNUSED,
};

verus! {

/// Continuation `c` leans toward actions of this label.
pub open spec fn leans(c: int, label: u8) -> bool {
    ||| c == 1 && label == ACTION_LABEL_FOLD
    ||| c == 2 && (label == ACTION_LABEL_CHECK || label == ACTION_LABEL_CALL)
    ||| c == 3 && (label == ACTION_LABEL_BET || label == ACTION_LABEL_RAISE || label
        == ACTION_LABEL_ALLIN)
}

/// The probability of action `a` in continuation `c`, before it is brought to scale.
pub open spec fn leaned_raw<T: Scalar>(
    v: Seq<T>,
    nh: int,
    labels: Seq<u8>,
    c: int,
    bias: T,
    h: int,
) -> spec_fn(int) -> T {
    |a: int|
        if leans(c, labels[a]) {
            v[at(nh, a, h)].s_times(bias)
        } else {
            v[at(nh, a, h)]
        }
}

/// The probability of action `a` in continuation `c`.
pub open spec fn leaned_at<T: Scalar>(
    v: Seq<T>,
    nh: int,
    labels: Seq<u8>,
    c: int,
    bias: T,
    a: int,
    h: int,
) -> T {
    let f = leaned_raw(v, nh, labels, c, bias, h);
    let sum = sum_upto(f, labels.len());
    if T::s_zero().s_below(sum) {
        f(a).s_over(sum)
    } else {
        f(a)
    }
}

/// A node's strategy in continuation `c`.
pub open spec fn leaned<T: Scalar>(v: Seq<T>, nh: int, labels: Seq<u8>, c: int, bias: T) -> Seq<T> {
    grid(
        labels.len() as int,
        nh,
        |a: int, h: int| leaned_at(v, nh, labels, c, bias, a, h),
    )
}

/// The labels of the actions at node `i`.
pub open spec fn labels_at(tree: &FlatTree, i: int) -> Seq<u8> {
    Seq::new(tree.arity(i) as nat, |a: int| tree.nodes@[tree.child(i, a)].action_label)
}

fn is_leaning(c: usize, label: u8) -> (b: bool)
    ensures
        b == leans(c as int, label),
{
    if c == 1 {
        label == ACTION_LABEL_FOLD
    } else if c == 2 {
        label == ACTION_LABEL_CHECK || label == ACTION_LABEL_CALL
    } else if c == 3 {
        label == ACTION_LABEL_BET || label == ACTION_LABEL_RAISE || label == ACTION_LABEL_ALLIN
    } else {
        false
    }
}

/// Computes [`leaned`].
fn lean<T: Scalar>(v: &[T], nh: usize, labels: &Vec<u8>, c: usize, bias: T) -> (out: Vec<T>)
    requires
        v@.len() == labels@.len() * nh,
    ensures
        out@ == leaned(v@, nh as int, labels@, c as int, bias),
        out@.len() == v@.len(),
{
    let n: usize = v.len();
    let na: usize = labels.len();
    let ghost f = |a: int, h: int| leaned_at(v@, nh as int, labels@, c as int, bias, a, h);
    let mut out: Vec<T> = filled(T::zero(), n);
    let mut h: usize = 0;
    while h < nh
        invariant
            h <= nh,
            n == na * nh,
            na == labels@.len(),
            v@.len() == n,
            out@.len() == n,
            f == (|a: int, h: int| leaned_at(v@, nh as int, labels@, c as int, bias, a, h)),
            forall|a: int, g: int|
                0 <= a < na && 0 <= g < h ==> #[trigger] out@[at(nh as int, a, g)] == f(a, g),
        decreases nh - h,
    {
        let ghost raw = leaned_raw(v@, nh as int, labels@, c as int, bias, h as int);
        let mut sum: T = T::zero();
        let mut ps: Vec<T> = Vec::new();
        let mut a: usize = 0;
        while a < na
            invariant
                a <= na,
                h < nh,
                n == na * nh,
                na == labels@.len(),
                v@.len() == n,
                raw == leaned_raw(v@, nh as int, labels@, c as int, bias, h as int),
                sum == sum_upto(raw, a as nat),
                ps@.len() == a,
                forall|b: int| 0 <= b < a ==> #[trigger] ps@[b] == raw(b),
            decreases na - a,
        {
            proof {
                lemma_at_bound(nh as int, na as int, a as int, h as int);
            }
            let x = v[a * nh + h];
            let p = if is_leaning(c, labels[a]) {
                x.times(bias)
            } else {
                x
            };
            assert(p == raw(a as int));
            ps.push(p);
            sum = sum.plus(p);
            a += 1;
        }
        let positive = T::zero().below(sum);
        let mut a: usize = 0;
        while a < na
            invariant
                a <= na,
                h < nh,
                n == na * nh,
                na == labels@.len(),
                out@.len() == n,
                ps@.len() == na,
                raw == leaned_raw(v@, nh as int, labels@, c as int, bias, h as int),
                sum == sum_upto(raw, na as nat),
                positive == T::s_zero().s_below(sum),
                forall|b: int| 0 <= b < na ==> #[trigger] ps@[b] == raw(b),
                f == (|a: int, h: int| leaned_at(v@, nh as int, labels@, c as int, bias, a, h)),
                forall|b: int, g: int|
                    0 <= b < na && 0 <= g < nh && (g < h || (g == h && b < a))
                        ==> #[trigger] out@[at(nh as int, b, g)] == f(b, g),
            decreases na - a,
        {
            proof {
                lemma_at_bound(nh as int, na as int, a as int, h as int);
            }
            let ghost was = out@;
            let y = if positive {
                ps[a].over(sum)
            } else {
                ps[a]
            };
            assert(y == f(a as int, h as int));
            out[a * nh + h] = y;
            proof {
                assert forall|b: int, g: int|
                    0 <= b < na && 0 <= g < nh && (g < h || (g == h && b < a + 1)) implies
                    #[trigger] out@[at(nh as int, b, g)] == f(b, g) by {
                    lemma_at_bound(nh as int, na as int, b, g);
                    if at(nh as int, b, g) == at(nh as int, a as int, h as int) {
                        lemma_at_inj(nh as int, b, g, a as int, h as int);
                    } else {
                        assert(was[at(nh as int, b, g)] == f(b, g));
                    }
                }
            }
            a += 1;
        }
        h += 1;
    }
    proof {
        lemma_is_grid(out@, na as int, nh as int, f);
    }
    out
}

/// Reads [`labels_at`].
fn labels_of(tree: &FlatTree, node_idx: usize) -> (labels: Vec<u8>)
    requires
        tree.wf(),
        tree.is_node(node_idx as int),
    ensures
        labels@ == labels_at(tree, node_idx as int),
{
    let kids = tree.node_children(node_idx);
    let ghost i = node_idx as int;
    let mut labels: Vec<u8> = Vec::new();
    let mut a: usize = 0;
    while a < kids.len()
        invariant
            a <= kids@.len(),
            tree.wf(),
            tree.is_node(i),
            kids@.len() == tree.arity(i),
            forall|b: int| 0 <= b < kids@.len() ==> (#[trigger] kids@[b]) as int == tree.child(i, b),
            labels@.len() == a,
            forall|b: int| 0 <= b < a ==> #[trigger] labels@[b] == labels_at(tree, i)[b],
        decreases kids@.len() - a,
    {
        proof {
            assert(tree.is_edge(i, a as int));
            assert(tree.edge_ok(i, a as int));
        }
        labels.push(tree.nodes[kids[a] as usize].action_label);
        a += 1;
    }
    assert(labels@ =~= labels_at(tree, i));
    labels
}

impl<T: Scalar> CpuMccfr<T> {
    /// Node `i` plays a fixed strategy of its owner.
    pub open spec fn is_fixed(&self, tree: &FlatTree, i: int) -> bool {
        self.frozen@[i] && tree.nodes@[i].is_player()
    }

    /// Continuation `c` once the first `n` nodes have been looked at.
    pub open spec fn variant_upto(&self, tree: &FlatTree, c: int, bias: T, n: nat) -> Seq<T>
        decreases n,
    {
        if n == 0 {
            self.frozen_variants@[0]@
        } else {
            let prev = self.variant_upto(tree, c, bias, (n - 1) as nat);
            let i = n - 1;
            if self.is_fixed(tree, i) {
                let nh = self.hands_at(tree, i);
                put(
                    prev,
                    self.offset(i),
                    leaned(
                        cut(prev, self.offset(i), tree.arity(i), nh),
                        nh,
                        labels_at(tree, i),
                        c,
                        bias,
                    ),
                )
            } else {
                prev
            }
        }
    }

    /// Builds continuation `c`.
    fn build_variant(&self, tree: &FlatTree, c: usize, bias: T) -> (v: Vec<T>)
        requires
            self.is_for(tree),
        ensures
            v@ == self.variant_upto(tree, c as int, bias, tree.size() as nat),
            v@.len() == self.total(),
    {
        let n: usize = tree.nodes.len();
        let total: usize = self.regrets.len();
        assert(self.frozen_variants@[0]@.len() == total);
        let mut v = row_copy(&self.frozen_variants[0]);
        let mut i: usize = 0;
        while i < n
            invariant
                i <= n,
                n == tree.size(),
                self.is_for(tree),
                total == self.total(),
                v@.len() == total,
                v@ == self.variant_upto(tree, c as int, bias, i as nat),
            decreases n - i,
        {
            assert(tree.node_ok(i as int));
            if self.frozen[i] && tree.nodes[i].is_player() {
                proof {
                    self.lemma_room(tree, i as int);
                }
                let na: usize = tree.nodes[i].num_children as usize;
                let nh: usize = self.num_hands[tree.nodes[i].player_id as usize];
                let off: usize = self.node_data_offset[i];
                let labels = labels_of(tree, i);
                let block = cut_of(v.as_slice(), off, na * nh);
                let new = lean(block.as_slice(), nh, &labels, c, bias);
                put_into(&mut v, off, new.as_slice());
            }
            i += 1;
        }
        v
    }

    /// Node `i` is the first fixed node of its owner on the way from the root.
    pub open spec fn first_fixed(&self, tree: &FlatTree, i: int) -> bool {
        self.is_fixed(tree, i) && !self.fixed_above(
            tree,
            i,
            tree.nodes@[i].player_id as int,
        )
    }

    /// Node `j` over node `i` is a fixed node of player `p`.
    pub open spec fn is_above(&self, tree: &FlatTree, j: int, i: int, p: int) -> bool {
        tree.is_node(j) && j != i && tree.in_subtree(j, i) && self.is_fixed(tree, j)
            && tree.nodes@[j].player_id == p
    }

    /// Player `p` has a fixed node over node `i`.
    pub open spec fn fixed_above(&self, tree: &FlatTree, i: int, p: int) -> bool {
        exists|j: int| #[trigger] self.is_above(tree, j, i, p)
    }

    /// What lies over a child: its parent, and what lies over that.
    proof fn lemma_above_child(&self, tree: &FlatTree, i: int, a: int, p: int)
        requires
            tree.wf(),
            tree.is_edge(i, a),
        ensures
            self.fixed_above(tree, tree.child(i, a), p) == (self.fixed_above(tree, i, p) || (
            self.is_fixed(tree, i) && tree.nodes@[i].player_id == p)),
    {
        let c = tree.child(i, a);
        assert(tree.edge_ok(i, a));
        if self.fixed_above(tree, c, p) {
            let j = choose|j: int| #[trigger] self.is_above(tree, j, c, p);
            let e = tree.lemma_subtree_last(j, c);
            assert(tree.is_parent(e.0, e.1, c));
            assert(tree.is_edge(e.0, e.1) && tree.is_edge(i, a));
            assert(e.0 == i);
            if j != i {
                assert(self.is_above(tree, j, i, p));
            }
        }
        if self.is_fixed(tree, i) && tree.nodes@[i].player_id == p {
            assert(tree.in_subtree(i, i));
            tree.lemma_subtree_step(i, i, a);
            assert(self.is_above(tree, i, c, p));
        }
        if self.fixed_above(tree, i, p) {
            let j = choose|j: int| #[trigger] self.is_above(tree, j, i, p);
            tree.lemma_subtree_step(j, i, a);
            tree.lemma_subtree_level(j, i);
            assert(self.is_above(tree, j, c, p));
        }
    }

    /// Hands of all player nodes under node `i`, over the first `n` of its children.
    pub open spec fn hands_below(&self, tree: &FlatTree, i: int, n: nat) -> int
        decreases tree.max_depth + 1 - tree.level(i), n,
        when tree.wf() && tree.is_node(i)
    {
        if n == 0 || !tree.is_edge(i, n - 1) {
            if tree.nodes@[i].is_player() {
                self.hands_at(tree, i)
            } else {
                0
            }
        } else {
            let c = tree.child(i, n - 1);
            self.hands_below(tree, i, (n - 1) as nat) + self.hands_below(
                tree,
                c,
                tree.arity(c) as nat,
            )
        }
    }

    proof fn lemma_hands_below(&self, tree: &FlatTree, i: int, n: nat)
        requires
            tree.wf(),
            tree.is_node(i),
        ensures
            0 <= self.hands_below(tree, i, n),
        decreases tree.max_depth + 1 - tree.level(i), n,
    {
        if n > 0 && tree.is_edge(i, n - 1) {
            self.lemma_hands_below(tree, i, (n - 1) as nat);
            let c = tree.child(i, n - 1);
            self.lemma_hands_below(tree, c, tree.arity(c) as nat);
        }
    }

    /// Hands of the first fixed nodes among node `i` and what lies under the last `m` of
    /// its children.
    pub open spec fn hands_chosen(&self, tree: &FlatTree, i: int, m: nat) -> int
        decreases tree.max_depth + 1 - tree.level(i), m,
        when tree.wf() && tree.is_node(i)
    {
        if m == 0 || !tree.is_edge(i, tree.arity(i) - m) {
            if self.first_fixed(tree, i) {
                self.hands_at(tree, i)
            } else {
                0
            }
        } else {
            let c = tree.child(i, tree.arity(i) - m);
            self.hands_chosen(tree, i, (m - 1) as nat) + self.hands_chosen(
                tree,
                c,
                tree.arity(c) as nat,
            )
        }
    }

    /// Where the entries of node `x` start: a node comes before what lies under it, and
    /// later children come before earlier ones.
    pub open spec fn choice_start(&self, tree: &FlatTree, k: int, x: int) -> int
        decreases tree.level(x),
        when tree.wf() && tree.is_node(x)
    {
        if x == 0 {
            0
        } else {
            let (i, a) = parent_edge(tree, x);
            if tree.is_edge(i, a) && tree.level(i) < tree.level(x) {
                self.choice_start(tree, k, i) + k * self.hands_chosen(
                    tree,
                    i,
                    (tree.arity(i) - 1 - a) as nat,
                )
            } else {
                0
            }
        }
    }

    proof fn lemma_choice_start(&self, tree: &FlatTree, k: int, i: int, a: int)
        requires
            tree.wf(),
            tree.is_edge(i, a),
        ensures
            self.choice_start(tree, k, tree.child(i, a)) == self.choice_start(tree, k, i) + k
                * self.hands_chosen(tree, i, (tree.arity(i) - 1 - a) as nat),
    {
        let c = tree.child(i, a);
        assert(tree.edge_ok(i, a));
        lemma_parent_edge(tree, c);
        let e = parent_edge(tree, c);
        assert(tree.edge_ok(e.0, e.1));
        assert(tree.is_edge(e.0, e.1) && tree.is_edge(i, a));
        assert(e.0 == i && e.1 == a);
    }

    /// Node `j` is marked as it should be, its entries between `lo` and `hi`.
    pub open spec fn is_marked(
        &self,
        tree: &FlatTree,
        k: int,
        boundary: Seq<bool>,
        sel: Seq<usize>,
        lo: int,
        hi: int,
        j: int,
    ) -> bool {
        &&& boundary[j] == self.first_fixed(tree, j)
        &&& boundary[j] ==> lo <= sel[j] && sel[j] + k * self.hands_at(tree, j) <= hi
        &&& boundary[j] ==> sel[j] == self.choice_start(tree, k, j)
    }

    /// The entries of two marked nodes do not overlap.
    pub open spec fn is_apart(
        &self,
        tree: &FlatTree,
        k: int,
        boundary: Seq<bool>,
        sel: Seq<usize>,
        i: int,
        j: int,
    ) -> bool {
        boundary[i] && boundary[j] && i != j ==> sel[i] + k * self.hands_at(tree, i) <= sel[j]
            || sel[j] + k * self.hands_at(tree, j) <= sel[i]
    }

    /// Marks the first fixed nodes under node `node_idx`, and gives each its entries from
    /// `total` on.
    #[verifier::rlimit(60)]
    fn mark_choices(
        &self,
        tree: &FlatTree,
        node_idx: usize,
        k: usize,
        seen: &mut Vec<bool>,
        boundary: &mut Vec<bool>,
        sel: &mut Vec<usize>,
        total: usize,
    ) -> (end: usize)
        requires
            self.is_for(tree),
            tree.is_node(node_idx as int),
            old(seen)@.len() == tree.np(),
            old(boundary)@.len() == tree.size(),
            old(sel)@.len() == tree.size(),
            forall|p: int|
                0 <= p < tree.np() ==> #[trigger] old(seen)@[p] == self.fixed_above(
                    tree,
                    node_idx as int,
                    p,
                ),
            total + k * self.hands_below(
                tree,
                node_idx as int,
                tree.arity(node_idx as int) as nat,
            ) <= usize::MAX,
            total == self.choice_start(tree, k as int, node_idx as int),
        ensures
            end == total + k * self.hands_chosen(
                tree,
                node_idx as int,
                tree.arity(node_idx as int) as nat,
            ),
            final(seen)@ == old(seen)@,
            final(boundary)@.len() == tree.size(),
            final(sel)@.len() == tree.size(),
            total <= end <= total + k * self.hands_below(
                tree,
                node_idx as int,
                tree.arity(node_idx as int) as nat,
            ),
            forall|j: int|
                tree.is_node(j) && #[trigger] tree.in_subtree(node_idx as int, j)
                    ==> self.is_marked(
                    tree,
                    k as int,
                    final(boundary)@,
                    final(sel)@,
                    total as int,
                    end as int,
                    j,
                ),
            forall|j: int|
                tree.is_node(j) && !#[trigger] tree.in_subtree(node_idx as int, j)
                    ==> final(boundary)@[j] == old(boundary)@[j] && final(sel)@[j] == old(sel)@[j],
            forall|i: int, j: int|
                #![trigger tree.in_subtree(node_idx as int, i), tree.in_subtree(node_idx as int, j)]
                tree.is_node(i) && tree.is_node(j) && tree.in_subtree(node_idx as int, i)
                    && tree.in_subtree(node_idx as int, j) ==> self.is_apart(
                    tree,
                    k as int,
                    final(boundary)@,
                    final(sel)@,
                    i,
                    j,
                ),
        decreases tree.max_depth + 1 - tree.level(node_idx as int),
    {
        let ghost i = node_idx as int;
        let ghost na0 = tree.arity(i) as nat;
        assert(tree.node_ok(i));
        let node = tree.nodes[node_idx];
        let mut end: usize = total;
        let p: usize = node.player_id as usize;
        boundary[node_idx] = false;
        let fixed = self.frozen[node_idx] && node.is_player();
        let first = fixed && !seen[p];
        proof {
            if fixed {
                assert(seen@[p as int] == self.fixed_above(tree, i, p as int));
            }
            self.lemma_hands_below(tree, i, na0);
            self.lemma_below_at_least(tree, i, na0);
            assert(k * self.hands_below(tree, i, 0) <= k * self.hands_below(tree, i, na0))
                by (nonlinear_arith)
                requires
                    self.hands_below(tree, i, 0) <= self.hands_below(tree, i, na0),
            ;
            assert(0 <= k * self.hands_below(tree, i, 0)) by (nonlinear_arith)
                requires
                    0 <= self.hands_below(tree, i, 0),
            ;
        }
        if first {
            boundary[node_idx] = true;
            sel[node_idx] = total;
            end = total + k * self.num_hands[p];
            seen[p] = true;
        }
        let ghost mid = seen@;
        let children = tree.node_children(node_idx);
        let na: usize = children.len();
        proof {
            assert forall|q: int, a: int|
                0 <= q < tree.np() && #[trigger] tree.is_edge(i, a) implies #[trigger] mid[q]
                == self.fixed_above(tree, tree.child(i, a), q) by {
                self.lemma_above_child(tree, i, a, q);
                assert(old(seen)@[q] == self.fixed_above(tree, i, q));
            }
        }
        proof {
            let x = self.hands_below(tree, i, 0);
            let y = self.hands_after(tree, i, na as int);
            assert(k * (x + y) == k * x + k * y) by (nonlinear_arith);
        }
        let mut done: usize = 0;
        let ghost mut from: int = na as int;
        while done < na
            invariant
                done <= na,
                from == na - done,
                na == tree.arity(i),
                na0 == na,
                i == node_idx,
                tree.is_node(i),
                self.is_for(tree),
                children@.len() == na,
                forall|b: int|
                    0 <= b < children@.len() ==> (#[trigger] children@[b]) as int == tree.child(
                        i,
                        b,
                    ),
                seen@ == mid,
                mid.len() == tree.np(),
                forall|q: int, a: int|
                    0 <= q < tree.np() && #[trigger] tree.is_edge(i, a) ==> #[trigger] mid[q]
                        == self.fixed_above(tree, tree.child(i, a), q),
                boundary@.len() == tree.size(),
                sel@.len() == tree.size(),
                total + k * self.hands_below(tree, i, na0) <= usize::MAX,
                total <= end,
                total == self.choice_start(tree, k as int, i),
                end == total + k * self.hands_chosen(tree, i, done as nat),
                end + k * self.hands_after(tree, i, na - done) <= total + k * self.hands_below(
                    tree,
                    i,
                    na0,
                ),
                self.is_marked(
                    tree,
                    k as int,
                    boundary@,
                    sel@,
                    total as int,
                    end as int,
                    i,
                ),
                forall|b: int, j: int|
                    #![trigger tree.is_edge(i, b), tree.in_subtree(tree.child(i, b), j)]
                    na - done <= b < na && tree.is_edge(i, b) && tree.is_node(j)
                        && tree.in_subtree(tree.child(i, b), j) ==> self.is_marked(
                        tree,
                        k as int,
                        boundary@,
                        sel@,
                        total as int,
                        end as int,
                        j,
                    ),
                forall|j: int|
                    tree.is_node(j) && !#[trigger] tree.in_subtree(i, j) ==> boundary@[j] == old(
                        boundary,
                    )@[j] && sel@[j] == old(sel)@[j],
                forall|u: int, v: int|
                    #![trigger self.is_done(tree, i, from, u), self.is_done(tree, i, from, v)]
                    tree.is_node(u) && tree.is_node(v) && self.is_done(tree, i, from, u)
                        && self.is_done(tree, i, from, v) ==> self.is_apart(
                        tree,
                        k as int,
                        boundary@,
                        sel@,
                        u,
                        v,
                    ),
            decreases na - done,
        {
            let a: usize = na - 1 - done;
            let child: usize = children[a] as usize;
            let ghost c = child as int;
            let ghost b0 = boundary@;
            let ghost s0 = sel@;
            let ghost e0 = end as int;
            proof {
                assert(tree.is_edge(i, a as int));
                assert(tree.edge_ok(i, a as int));
                self.lemma_after_step(tree, i, a as int);
                let x = self.hands_below(tree, c, tree.arity(c) as nat);
                let y = self.hands_after(tree, i, a as int);
                assert(k * (x + y) == k * x + k * y) by (nonlinear_arith);
                self.lemma_choice_start(tree, k as int, i, a as int);
                assert((done + 1 - 1) as nat == done as nat);
                let u = self.hands_chosen(tree, i, done as nat);
                let v = self.hands_chosen(tree, c, tree.arity(c) as nat);
                assert(self.hands_chosen(tree, i, (done + 1) as nat) == u + v);
                assert(k * (u + v) == k * u + k * v) by (nonlinear_arith);
                self.lemma_after_nonneg(tree, i, a as int);
                assert(0 <= k * y) by (nonlinear_arith)
                    requires
                        0 <= y,
                ;
                assert forall|q: int| 0 <= q < tree.np() implies #[trigger] seen@[q]
                    == self.fixed_above(tree, c, q) by {
                    assert(tree.is_edge(i, a as int));
                    assert(mid[q] == self.fixed_above(tree, tree.child(i, a as int), q));
                }
            }
            end = self.mark_choices(tree, child, k, seen, boundary, sel, end);
            done = done + 1;
            proof {
                assert forall|j: int| tree.is_node(j) && tree.in_subtree(c, j) implies
                    tree.in_subtree(i, j) by {
                    self.lemma_child_inside(tree, i, a as int, j);
                }
                assert(!tree.in_subtree(c, i)) by {
                    if tree.in_subtree(c, i) {
                        tree.lemma_subtree_level(c, i);
                    }
                }
                assert(boundary@[i] == b0[i] && sel@[i] == s0[i]);
                assert forall|b: int, j: int|
                    #![trigger tree.is_edge(i, b), tree.in_subtree(tree.child(i, b), j)]
                    na - done <= b < na && tree.is_edge(i, b) && tree.is_node(j)
                        && tree.in_subtree(tree.child(i, b), j) implies self.is_marked(
                    tree,
                    k as int,
                    boundary@,
                    sel@,
                    total as int,
                    end as int,
                    j,
                ) by {
                    if b == a {
                        assert(tree.in_subtree(c, j));
                    } else {
                        assert(tree.edge_ok(i, b));
                        if tree.in_subtree(c, j) {
                            tree.lemma_subtree_apart(c, tree.child(i, b), j);
                            assert(tree.is_edge(i, a as int) && tree.is_edge(i, b));
                        }
                        assert(boundary@[j] == b0[j] && sel@[j] == s0[j]);
                        assert(self.is_marked(
                            tree,
                            k as int,
                            b0,
                            s0,
                            total as int,
                            e0,
                            j,
                        ));
                    }
                }
                let next = a as int;
                assert forall|u: int, v: int|
                    #![trigger self.is_done(tree, i, next, u), self.is_done(tree, i, next, v)]
                    tree.is_node(u) && tree.is_node(v) && self.is_done(tree, i, next, u)
                        && self.is_done(tree, i, next, v) implies self.is_apart(
                    tree,
                    k as int,
                    boundary@,
                    sel@,
                    u,
                    v,
                ) by {
                    self.lemma_done_step(tree, i, a as int, u);
                    self.lemma_done_step(tree, i, a as int, v);
                    if tree.in_subtree(c, u) && tree.in_subtree(c, v) {
                    } else if tree.in_subtree(c, u) {
                        assert(self.is_done(tree, i, a + 1, v));
                        self.lemma_done_marked(
                            tree,
                            i,
                            a + 1,
                            na as int,
                            k as int,
                            b0,
                            s0,
                            total as int,
                            e0,
                            v,
                        );
                    } else if tree.in_subtree(c, v) {
                        assert(self.is_done(tree, i, a + 1, u));
                        self.lemma_done_marked(
                            tree,
                            i,
                            a + 1,
                            na as int,
                            k as int,
                            b0,
                            s0,
                            total as int,
                            e0,
                            u,
                        );
                    } else {
                        assert(self.is_done(tree, i, from, u) && self.is_done(tree, i, from, v));
                        assert(self.is_apart(tree, k as int, b0, s0, u, v));
                    }
                }
                from = next;
            }
        }
        if first {
            seen[p] = false;
        }
        proof {
            assert(seen@ =~= old(seen)@);
            assert forall|j: int| tree.is_node(j) && #[trigger] tree.in_subtree(i, j) implies
                self.is_marked(
                tree,
                k as int,
                boundary@,
                sel@,
                total as int,
                end as int,
                j,
            ) && self.is_done(tree, i, from, j) by {
                if j != i {
                    let a = choose|a: int| #[trigger] tree.is_edge(i, a) && tree.in_subtree(
                        tree.child(i, a),
                        j,
                    );
                    assert(tree.is_edge(i, a) && tree.in_subtree(tree.child(i, a), j));
                }
            }
        }
        end
    }

    /// Node `j` is node `i` or lies under one of its children from the `a`-th on.
    pub open spec fn is_done(&self, tree: &FlatTree, i: int, a: int, j: int) -> bool {
        j == i || exists|b: int|
            a <= b && #[trigger] tree.is_edge(i, b) && tree.in_subtree(tree.child(i, b), j)
    }

    proof fn lemma_done_step(&self, tree: &FlatTree, i: int, a: int, j: int)
        requires
            tree.wf(),
            tree.is_edge(i, a),
            self.is_done(tree, i, a, j),
        ensures
            tree.in_subtree(tree.child(i, a), j) || self.is_done(tree, i, a + 1, j),
    {
        if j != i {
            let b = choose|b: int|
                a <= b && #[trigger] tree.is_edge(i, b) && tree.in_subtree(tree.child(i, b), j);
            if b != a {
                assert(a + 1 <= b && tree.is_edge(i, b));
            }
        }
    }

    proof fn lemma_done_marked(
        &self,
        tree: &FlatTree,
        i: int,
        a: int,
        na: int,
        k: int,
        boundary: Seq<bool>,
        sel: Seq<usize>,
        lo: int,
        hi: int,
        j: int,
    )
        requires
            tree.wf(),
            tree.is_node(i),
            tree.is_node(j),
            na == tree.arity(i),
            self.is_done(tree, i, a, j),
            self.is_marked(tree, k, boundary, sel, lo, hi, i),
            forall|b: int, j: int|
                #![trigger tree.is_edge(i, b), tree.in_subtree(tree.child(i, b), j)]
                a <= b < na && tree.is_edge(i, b) && tree.is_node(j) && tree.in_subtree(
                    tree.child(i, b),
                    j,
                ) ==> self.is_marked(tree, k, boundary, sel, lo, hi, j),
        ensures
            self.is_marked(tree, k, boundary, sel, lo, hi, j),
    {
        if j != i {
            let b = choose|b: int|
                a <= b && #[trigger] tree.is_edge(i, b) && tree.in_subtree(tree.child(i, b), j);
            assert(tree.is_edge(i, b) && tree.in_subtree(tree.child(i, b), j));
        }
    }

    proof fn lemma_child_inside(&self, tree: &FlatTree, i: int, a: int, j: int)
        requires
            tree.wf(),
            tree.is_edge(i, a),
            tree.in_subtree(tree.child(i, a), j),
        ensures
            tree.in_subtree(i, j),
    {
        assert(tree.is_edge(i, a) && tree.in_subtree(tree.child(i, a), j));
    }

    /// Hands of all player nodes under the first `n` children of node `i`.
    pub open spec fn hands_after(&self, tree: &FlatTree, i: int, n: int) -> int {
        self.hands_below(tree, i, n as nat) - self.hands_below(tree, i, 0)
    }

    proof fn lemma_after_step(&self, tree: &FlatTree, i: int, a: int)
        requires
            tree.wf(),
            tree.is_edge(i, a),
        ensures
            self.hands_after(tree, i, a + 1) == self.hands_after(tree, i, a) + self.hands_below(
                tree,
                tree.child(i, a),
                tree.arity(tree.child(i, a)) as nat,
            ),
    {
        let n = (a + 1) as nat;
        assert((n - 1) as nat == a as nat);
    }

    proof fn lemma_after_nonneg(&self, tree: &FlatTree, i: int, a: int)
        requires
            tree.wf(),
            tree.is_node(i),
            0 <= a <= tree.arity(i),
        ensures
            0 <= self.hands_after(tree, i, a),
        decreases a,
    {
        if a > 0 {
            assert(tree.is_edge(i, a - 1));
            self.lemma_after_nonneg(tree, i, a - 1);
            self.lemma_after_step(tree, i, a - 1);
            let c = tree.child(i, a - 1);
            assert(tree.edge_ok(i, a - 1));
            self.lemma_hands_below(tree, c, tree.arity(c) as nat);
        }
    }

    proof fn lemma_below_at_least(&self, tree: &FlatTree, i: int, n: nat)
        requires
            tree.wf(),
            tree.is_node(i),
            n <= tree.arity(i),
        ensures
            0 <= self.hands_below(tree, i, 0) <= self.hands_below(tree, i, n),
    {
        self.lemma_hands_below(tree, i, 0);
        self.lemma_after_nonneg(tree, i, n as int);
    }
}

impl<T: Scalar> CpuMccfr<T> {
    /// Where players choose so far, they would choose again.
    pub open spec fn keeps_marks(&self, tree: &FlatTree) -> bool {
        forall|i: int|
            tree.is_node(i) && #[trigger] self.boundary@[i] ==> self.first_fixed(tree, i)
    }

    /// Sets up `k` continuations: the frozen strategy, and `k - 1` that lean toward a
    /// kind of action, whose probability is multiplied by `bias`. One continuation leaves
    /// no choice. Marks of an earlier call stay, with the entries that they had.
    #[verifier::rlimit(30)]
    pub fn setup_pluribus_continuations(&mut self, tree: &FlatTree, k: usize, bias: T)
        requires
            old(self).is_for(tree),
            1 <= k,
            k * old(self).hands_below(tree, 0, tree.arity(0) as nat) <= usize::MAX,
        ensures
            k == 1 || old(self).keeps_marks(tree) ==> final(self).is_for(tree),
            final(self).num_variants == k,
            k == 1 ==> *final(self) == (CpuMccfr { num_variants: 1, ..*old(self) }),
            k > 1 ==> {
                &&& final(self).frozen_variants@.len() == k
                &&& final(self).frozen_variants@[0]@ == old(self).frozen_variants@[0]@
                &&& forall|c: int|
                    1 <= c < k ==> (#[trigger] final(self).frozen_variants@[c])@ == old(
                        self,
                    ).variant_upto(tree, c, bias, tree.size() as nat)
                &&& final(self).boundary@ == Seq::new(
                    tree.size() as nat,
                    |i: int| old(self).first_fixed(tree, i) || old(self).boundary@[i],
                )
                &&& final(self).sel_offset@ == Seq::new(
                    tree.size() as nat,
                    |i: int|
                        if old(self).first_fixed(tree, i) {
                            old(self).choice_start(tree, k as int, i) as usize
                        } else {
                            old(self).sel_offset@[i]
                        },
                )
                &&& forall|i: int, j: int|
                    #![trigger final(self).boundary@[i], final(self).boundary@[j]]
                    tree.is_node(i) && tree.is_node(j) && old(self).keeps_marks(tree) ==> old(
                        self,
                    ).is_apart(
                        tree,
                        k as int,
                        final(self).boundary@,
                        final(self).sel_offset@,
                        i,
                        j,
                    )
                &&& final(self).sel_regret@ == flat(
                    T::s_zero(),
                    k * old(self).hands_chosen(tree, 0, tree.arity(0) as nat),
                )
                &&& final(self).sel_cum@ == final(self).sel_regret@
            },
            *final(self) == (CpuMccfr {
                num_variants: k,
                frozen_variants: final(self).frozen_variants,
                boundary: final(self).boundary,
                sel_offset: final(self).sel_offset,
                sel_regret: final(self).sel_regret,
                sel_cum: final(self).sel_cum,
                ..*old(self)
            }),
    {
        let ghost was = *self;
        if k == 1 {
            self.num_variants = 1;
            proof {
                assert forall|i: int| tree.is_node(i) && #[trigger] self.boundary@[i] implies
                    self.has_choice(tree, i) by {
                    assert(was.boundary@[i] && was.has_choice(tree, i));
                    assert(1 * self.hands_at(tree, i) <= was.num_variants * was.hands_at(tree, i))
                        by (nonlinear_arith)
                        requires
                            1 <= was.num_variants,
                            self.hands_at(tree, i) == was.hands_at(tree, i),
                            0 <= was.hands_at(tree, i),
                    ;
                }
                assert forall|i: int| tree.is_node(i) implies #[trigger] self.node_data_offset@[i]
                    == (if tree.nodes@[i].is_player() {
                    rooms_upto(tree, self.num_hands@, i as nat)
                } else {
                    UNUSED as int
                }) by {
                    assert(was.node_data_offset@[i] == self.node_data_offset@[i]);
                }
            }
            return;
        }
        let n: usize = tree.nodes.len();
        assert(self.frozen_variants@[0]@.len() == self.total());
        let mut variants: Vec<Vec<T>> = Vec::new();
        variants.push(row_copy(&self.frozen_variants[0]));
        let mut c: usize = 1;
        while c < k
            invariant
                1 <= c <= k,
                self.is_for(tree),
                *self == was,
                variants@.len() == c,
                variants@[0]@ == was.frozen_variants@[0]@,
                forall|d: int|
                    0 <= d < c ==> (#[trigger] variants@[d])@.len() == was.total(),
                forall|d: int|
                    1 <= d < c ==> (#[trigger] variants@[d])@ == was.variant_upto(
                        tree,
                        d,
                        bias,
                        tree.size() as nat,
                    ),
            decreases k - c,
        {
            let v = self.build_variant(tree, c, bias);
            variants.push(v);
            c += 1;
        }
        let mut seen: Vec<bool> = filled(false, tree.num_players as usize);
        let mut boundary: Vec<bool> = filled(false, n);
        let mut sel: Vec<usize> = filled(UNUSED, n);
        proof {
            assert forall|p: int| 0 <= p < tree.np() implies #[trigger] seen@[p]
                == self.fixed_above(tree, 0, p) by {
                if self.fixed_above(tree, 0, p) {
                    let j = choose|j: int| #[trigger] self.is_above(tree, j, 0, p);
                    tree.lemma_subtree_level(j, 0);
                }
            }
        }
        let total: usize = self.mark_choices(
            tree,
            0,
            k,
            &mut seen,
            &mut boundary,
            &mut sel,
            0,
        );
        proof {
            assert forall|j: int| tree.is_node(j) implies #[trigger] tree.in_subtree(0, j) by {
                tree.lemma_all_below_root(j);
            }
            assert forall|j: int| tree.is_node(j) implies #[trigger] boundary@[j]
                == was.first_fixed(tree, j) by {
                assert(tree.in_subtree(0, j));
            }
            assert(boundary@ =~= Seq::new(
                tree.size() as nat,
                |i: int| was.first_fixed(tree, i),
            ));
        }
        let ghost fresh = boundary@;
        let ghost starts = sel@;
        let mut i: usize = 0;
        while i < n
            invariant
                i <= n,
                n == tree.size(),
                *self == was,
                self.is_for(tree),
                boundary@.len() == n,
                sel@.len() == n,
                fresh.len() == n,
                starts.len() == n,
                forall|j: int| 0 <= j < n ==> #[trigger] fresh[j] == was.first_fixed(tree, j),
                forall|j: int| i <= j < n ==> #[trigger] boundary@[j] == fresh[j],
                forall|j: int| i <= j < n ==> #[trigger] sel@[j] == starts[j],
                forall|j: int|
                    0 <= j < i ==> #[trigger] boundary@[j] == (fresh[j] || was.boundary@[j]),
                forall|j: int|
                    0 <= j < i ==> #[trigger] sel@[j] == if fresh[j] {
                        starts[j]
                    } else {
                        was.sel_offset@[j]
                    },
            decreases n - i,
        {
            assert(boundary@[i as int] == fresh[i as int]);
            if !boundary[i] {
                boundary[i] = self.boundary[i];
                sel[i] = self.sel_offset[i];
            }
            i += 1;
        }
        proof {
            assert forall|j: int| 0 <= j < n && fresh[j] implies starts[j] == was.choice_start(
                tree,
                k as int,
                j,
            ) by {
                assert(tree.in_subtree(0, j));
                assert(was.is_marked(tree, k as int, fresh, starts, 0, total as int, j));
            }
            assert(boundary@ =~= Seq::new(
                tree.size() as nat,
                |i: int| was.first_fixed(tree, i) || was.boundary@[i],
            ));
            assert(sel@ =~= Seq::new(
                tree.size() as nat,
                |i: int|
                    if was.first_fixed(tree, i) {
                        was.choice_start(tree, k as int, i) as usize
                    } else {
                        was.sel_offset@[i]
                    },
            ));
        }
        self.num_variants = k;
        self.frozen_variants = variants;
        self.boundary = boundary;
        self.sel_offset = sel;
        self.sel_regret = filled(T::zero(), total);
        self.sel_cum = filled(T::zero(), total);
        proof {
            if was.keeps_marks(tree) {
                assert forall|i: int| tree.is_node(i) && #[trigger] self.boundary@[i] implies
                    self.has_choice(tree, i) by {
                    assert(tree.in_subtree(0, i));
                    assert(was.boundary@[i] ==> was.first_fixed(tree, i));
                    assert(was.is_marked(tree, k as int, fresh, starts, 0, total as int, i));
                    assert(0 <= k * self.hands_at(tree, i)) by (nonlinear_arith)
                        requires
                            0 <= self.hands_at(tree, i),
                    ;
                }
                assert forall|i: int, j: int|
                    #![trigger self.boundary@[i], self.boundary@[j]]
                    tree.is_node(i) && tree.is_node(j) implies was.is_apart(
                    tree,
                    k as int,
                    self.boundary@,
                    self.sel_offset@,
                    i,
                    j,
                ) by {
                    assert(tree.in_subtree(0, i) && tree.in_subtree(0, j));
                    assert(was.boundary@[i] ==> was.first_fixed(tree, i));
                    assert(was.boundary@[j] ==> was.first_fixed(tree, j));
                    assert(was.is_apart(tree, k as int, fresh, starts, i, j));
                }
            }
            assert forall|i: int| tree.is_node(i) implies #[trigger] self.node_data_offset@[i] == (
            if tree.nodes@[i].is_player() {
                rooms_upto(tree, self.num_hands@, i as nat)
            } else {
                UNUSED as int
            }) by {
                assert(was.node_data_offset@[i] == self.node_data_offset@[i]);
            }
        }
    }
}

} // verus!
