//! Values, regrets and average strategies before the flop, from the leaves up.
use vstd::prelude::*;

use crate::best_response::best_of;
use crate::grid::{cut, cut_of, grid, lemma_is_grid, put, put_into};
use crate::layout::{at, lemma_at_bound, lemma_row_inside, row, row_copy};
use crate::learn::{next_cum, DcfrParams};
use crate::mccfr_steps::{average, averaged};
use crate::preflop_cfr::{is_preflop_decision, INFOSET_ROOM, PreflopVectorCfr};
use crate::preflop_class::NUM_PREFLOP_CLASSES;
use crate::preflop_reach::{are_class_rows, are_seams, is_reach_table, is_seam, reached};
use crate::pseudo_harmonic::{lemma_parent_edge, parent_edge};
use crate::scalar::Scalar;
use crate::terminal::views;
use crate::tree::FlatTree;

verus! {

/// `f` values a node for a traverser from the class reach of `np` players, always in
/// the same way.
pub open spec fn is_valuer<T: Scalar, V: Fn(usize, u8, &Vec<Vec<T>>) -> Vec<T>>(
    f: &V,
    np: int,
) -> bool {
    &&& forall|i: usize, t: u8, rows: &Vec<Vec<T>>|
        are_class_rows(rows@, np) ==> #[trigger] call_requires(*f, (i, t, rows))
    &&& forall|i: usize, t: u8, rows: &Vec<Vec<T>>, v: Vec<T>|
        are_class_rows(rows@, np) && #[trigger] call_ensures(*f, (i, t, rows), v) ==> v@.len()
            == NUM_PREFLOP_CLASSES
    &&& forall|i: usize, t: u8, rows: &Vec<Vec<T>>, v: Vec<T>, rows2: &Vec<Vec<T>>, v2: Vec<T>|
        views(rows@) == views(rows2@) && #[trigger] call_ensures(*f, (i, t, rows), v)
            && #[trigger] call_ensures(*f, (i, t, rows2), v2) ==> v@ == v2@
}

/// `f` gives `v` for these rows.
pub open spec fn values_as<T: Scalar, V: Fn(usize, u8, &Vec<Vec<T>>) -> Vec<T>>(
    f: &V,
    i: usize,
    t: u8,
    rows: Vec<Vec<T>>,
    v: Vec<T>,
) -> bool {
    call_ensures(*f, (i, t, &rows), v)
}

/// What `f` says of node `i`.
pub open spec fn valued<T: Scalar, V: Fn(usize, u8, &Vec<Vec<T>>) -> Vec<T>>(
    f: &V,
    i: usize,
    t: u8,
    rows: Seq<Seq<T>>,
) -> Seq<T> {
    let (r, v) = choose|r: Vec<Vec<T>>, v: Vec<T>|
        views(r@) == rows && #[trigger] values_as(f, i, t, r, v);
    v@
}

/// Asks `f` of node `i`.
pub fn value_node<T: Scalar, V: Fn(usize, u8, &Vec<Vec<T>>) -> Vec<T>>(
    f: &V,
    i: usize,
    t: u8,
    rows: &Vec<Vec<T>>,
    Ghost(np): Ghost<int>,
) -> (v: Vec<T>)
    requires
        is_valuer(f, np),
        are_class_rows(rows@, np),
    ensures
        v@ == valued(f, i, t, views(rows@)),
        v@.len() == NUM_PREFLOP_CLASSES,
{
    let v = f(i, t, rows);
    proof {
        let seen = views(rows@);
        assert(views(rows@) == seen && values_as(f, i, t, *rows, v));
        let (r2, v2) = choose|r2: Vec<Vec<T>>, v2: Vec<T>|
            views(r2@) == seen && #[trigger] values_as(f, i, t, r2, v2);
        assert(call_ensures(*f, (i, t, &r2), v2));
    }
    v
}

/// Every player's row at node `i`.
pub open spec fn rows_at<T>(reach: Seq<Seq<T>>, i: int) -> Seq<Seq<T>> {
    Seq::new(reach.len(), |p: int| row(reach[p], NUM_PREFLOP_CLASSES as int, i))
}

/// Every player has a row for node `i`.
pub open spec fn has_row<T>(reach: Seq<Vec<T>>, i: int) -> bool {
    forall|p: int|
        0 <= p < reach.len() ==> i * NUM_PREFLOP_CLASSES + NUM_PREFLOP_CLASSES <= (
        #[trigger] reach[p])@.len()
}

/// Copies every player's row at a node.
pub fn rows_of<T: Copy>(reach: &Vec<Vec<T>>, i: usize) -> (out: Vec<Vec<T>>)
    requires
        has_row(reach@, i as int),
    ensures
        views(out@) == rows_at(views(reach@), i as int),
        are_class_rows(out@, reach@.len() as int),
{
    let np: usize = reach.len();
    let mut out: Vec<Vec<T>> = Vec::new();
    let mut p: usize = 0;
    while p < np
        invariant
            p <= np,
            np == reach@.len(),
            has_row(reach@, i as int),
            out@.len() == p,
            forall|q: int|
                0 <= q < p ==> (#[trigger] out@[q])@ == row(
                    reach@[q]@,
                    NUM_PREFLOP_CLASSES as int,
                    i as int,
                ) && out@[q]@.len() == NUM_PREFLOP_CLASSES,
        decreases np - p,
    {
        let total: usize = reach[p].len();
        assert(i * NUM_PREFLOP_CLASSES + NUM_PREFLOP_CLASSES <= reach@[p as int]@.len());
        out.push(cut_of(reach[p].as_slice(), i * NUM_PREFLOP_CLASSES, NUM_PREFLOP_CLASSES));
        p += 1;
    }
    assert(views(out@) =~= rows_at(views(reach@), i as int));
    out
}

/// A table has a row for every node.
pub proof fn lemma_has_row<T>(tree: &FlatTree, reach: Seq<Vec<T>>, i: int)
    requires
        is_reach_table(tree, reach),
        tree.is_node(i),
    ensures
        has_row(reach, i),
{
    lemma_row_inside(NUM_PREFLOP_CLASSES as int, tree.size(), i);
}

/// A regret after discounting the old one and adding the new.
pub open spec fn discounted<T: Scalar>(p: &DcfrParams<T>, r: T, inst: T) -> T {
    (if T::s_zero().s_at_most(r) {
        p.alpha()
    } else {
        p.beta()
    }).s_times(r).s_plus(inst)
}

/// Regrets of `na` actions after their values `vs` came in, over their average `avg`.
pub open spec fn regrets_after<T: Scalar>(
    p: &DcfrParams<T>,
    na: int,
    old_regrets: Seq<T>,
    vs: Seq<Seq<T>>,
    avg: Seq<T>,
) -> Seq<T> {
    grid(
        na,
        NUM_PREFLOP_CLASSES as int,
        |a: int, c: int|
            discounted(
                p,
                old_regrets[at(NUM_PREFLOP_CLASSES as int, a, c)],
                vs[a][c].s_minus(avg[c]),
            ),
    )
}

/// Cumulative strategy of `na` actions after one more round of the current one.
pub open spec fn cum_after<T: Scalar>(
    p: &DcfrParams<T>,
    na: int,
    cum: Seq<T>,
    strategy: Seq<T>,
) -> Seq<T> {
    grid(
        na,
        NUM_PREFLOP_CLASSES as int,
        |a: int, c: int|
            next_cum(
                p,
                cum[at(NUM_PREFLOP_CLASSES as int, a, c)],
                strategy[at(NUM_PREFLOP_CLASSES as int, a, c)],
            ),
    )
}

/// The list holds node `i`.
pub open spec fn is_leaf(leaves: Seq<usize>, i: int) -> bool {
    leaves.contains(i as usize)
}

/// Every way down from node `i` passes decisions before the flop, and ends at a leaf or
/// a terminal.
pub open spec fn can_sweep(tree: &FlatTree, leaves: Seq<usize>, i: int) -> bool
    decreases tree.max_depth + 1 - tree.level(i),
    when tree.wf() && tree.is_node(i)
{
    ||| is_leaf(leaves, i)
    ||| tree.nodes@[i].is_terminal()
    ||| is_preflop_decision(tree)(i) && forall|a: int| #[trigger]
        tree.is_edge(i, a) ==> can_sweep(tree, leaves, tree.child(i, a))
}

/// The walk from node `i` comes to node `j`: no leaf stands over it.
pub open spec fn is_swept(tree: &FlatTree, leaves: Seq<usize>, i: int, j: int) -> bool
    decreases tree.max_depth + 1 - tree.level(i),
    when tree.wf() && tree.is_node(i)
{
    j == i || (!is_leaf(leaves, i) && exists|a: int| #[trigger]
        tree.is_edge(i, a) && is_swept(tree, leaves, tree.child(i, a), j))
}

pub(crate) proof fn lemma_swept_inside(tree: &FlatTree, leaves: Seq<usize>, i: int, j: int)
    requires
        tree.wf(),
        tree.is_node(i),
        is_swept(tree, leaves, i, j),
    ensures
        tree.in_subtree(i, j),
        tree.is_node(j),
    decreases tree.max_depth + 1 - tree.level(i),
{
    if j != i {
        let a = choose|a: int| #[trigger]
            tree.is_edge(i, a) && is_swept(tree, leaves, tree.child(i, a), j);
        assert(tree.edge_ok(i, a));
        lemma_swept_inside(tree, leaves, tree.child(i, a), j);
    }
}

/// The tree before the flop holds decisions, terminals and the flop's chance nodes.
pub open spec fn ends_at_flop(tree: &FlatTree) -> bool {
    forall|i: int|
        tree.is_node(i) && #[trigger] reached(tree, i) ==> is_seam(tree, i)
            || tree.nodes@[i].is_terminal() || is_preflop_decision(tree)(i)
}

/// In such a tree every walk ends.
pub proof fn lemma_can_sweep(tree: &FlatTree, leaves: Seq<usize>, i: int)
    requires
        tree.wf(),
        ends_at_flop(tree),
        are_seams(tree, leaves),
        tree.is_node(i),
        reached(tree, i),
    ensures
        can_sweep(tree, leaves, i),
    decreases tree.max_depth + 1 - tree.level(i),
{
    if !is_leaf(leaves, i) && !tree.nodes@[i].is_terminal() {
        assert(is_preflop_decision(tree)(i));
        assert forall|a: int| #[trigger] tree.is_edge(i, a) implies can_sweep(
            tree,
            leaves,
            tree.child(i, a),
        ) by {
            let c = tree.child(i, a);
            assert(tree.edge_ok(i, a));
            assert(tree.node_ok(i));
            assert(c != 0);
            lemma_parent_edge(tree, c);
            let (j, b) = parent_edge(tree, c);
            assert(tree.is_edge(j, b) && tree.is_edge(i, a));
            assert(reached(tree, c));
            lemma_can_sweep(tree, leaves, c);
        }
    }
}

/// One walk: the solver as it starts, the traverser, the leaves with their values, the
/// reach, and how terminals are valued.
pub struct Pass<T, V> {
    pub m: PreflopVectorCfr<T>,
    pub t: u8,
    pub leaves: Seq<usize>,
    pub given: Seq<Seq<T>>,
    pub reach: Seq<Seq<T>>,
    pub f: V,
}

impl<T: Scalar, V: Fn(usize, u8, &Vec<Vec<T>>) -> Vec<T>> Pass<T, V> {
    /// The traverser's class values at node `i`: those given at a leaf, the terminal's,
    /// the strategy's mix at a decision of the traverser, and the sum over the actions
    /// at any other.
    pub open spec fn value(&self, tree: &FlatTree, i: int) -> Seq<T>
        decreases tree.max_depth + 1 - tree.level(i), 1int, 0nat,
        when tree.wf() && tree.is_node(i)
    {
        if is_leaf(self.leaves, i) {
            self.given[i]
        } else if tree.nodes@[i].is_terminal() {
            valued(&self.f, i as usize, self.t, rows_at(self.reach, i))
        } else {
            averaged(
                tree.nodes@[i].player_id == self.t,
                self.m.strategy_at(tree, i),
                NUM_PREFLOP_CLASSES as int,
                self.values(tree, i, tree.arity(i) as nat),
            )
        }
    }

    /// Values of the first `n` actions of node `i`.
    pub open spec fn values(&self, tree: &FlatTree, i: int, n: nat) -> Seq<Seq<T>>
        decreases tree.max_depth + 1 - tree.level(i), 0int, n,
        when tree.wf() && tree.is_node(i) && n <= tree.arity(i)
    {
        if n == 0 {
            Seq::empty()
        } else {
            proof {
                assert(tree.is_edge(i, n - 1));
                assert(tree.edge_ok(i, n - 1));
            }
            self.values(tree, i, (n - 1) as nat).push(self.value(tree, tree.child(i, n - 1)))
        }
    }

    /// Regrets and cumulative strategies after the walk under node `i`.
    pub open spec fn learned(
        &self,
        tree: &FlatTree,
        p: &DcfrParams<T>,
        i: int,
        books: (Seq<T>, Seq<T>),
    ) -> (Seq<T>, Seq<T>)
        decreases tree.max_depth + 1 - tree.level(i), 1int, 0nat,
        when tree.wf() && tree.is_node(i)
    {
        if is_leaf(self.leaves, i) || tree.nodes@[i].is_terminal() {
            books
        } else {
            let na = tree.arity(i);
            let below = self.learned_upto(tree, p, i, na as nat, books);
            if tree.nodes@[i].player_id == self.t {
                self.booked(tree, p, i, below)
            } else {
                below
            }
        }
    }

    /// The same after the first `n` actions of node `i`.
    pub open spec fn learned_upto(
        &self,
        tree: &FlatTree,
        p: &DcfrParams<T>,
        i: int,
        n: nat,
        books: (Seq<T>, Seq<T>),
    ) -> (Seq<T>, Seq<T>)
        decreases tree.max_depth + 1 - tree.level(i), 0int, n,
        when tree.wf() && tree.is_node(i) && n <= tree.arity(i)
    {
        if n == 0 {
            books
        } else {
            proof {
                assert(tree.is_edge(i, n - 1));
                assert(tree.edge_ok(i, n - 1));
            }
            self.learned(
                tree,
                p,
                tree.child(i, n - 1),
                self.learned_upto(tree, p, i, (n - 1) as nat, books),
            )
        }
    }

    /// What a decision of the traverser writes.
    pub open spec fn booked(
        &self,
        tree: &FlatTree,
        p: &DcfrParams<T>,
        i: int,
        books: (Seq<T>, Seq<T>),
    ) -> (Seq<T>, Seq<T>) {
        let na = tree.arity(i);
        let w = NUM_PREFLOP_CLASSES as int;
        let from = self.m.start(i);
        (
            put(
                books.0,
                from,
                regrets_after(
                    p,
                    na,
                    cut(books.0, from, na, w),
                    self.values(tree, i, na as nat),
                    self.value(tree, i),
                ),
            ),
            put(
                books.1,
                from,
                cum_after(p, na, cut(books.1, from, na, w), self.m.strategy_at(tree, i)),
            ),
        )
    }

    /// The best value that the traverser can get from node `i` on: the best action of
    /// its own at every decision.
    pub open spec fn best(&self, tree: &FlatTree, i: int) -> Seq<T>
        decreases tree.max_depth + 1 - tree.level(i), 1int, 0nat,
        when tree.wf() && tree.is_node(i)
    {
        if is_leaf(self.leaves, i) {
            self.given[i]
        } else if tree.nodes@[i].is_terminal() {
            valued(&self.f, i as usize, self.t, rows_at(self.reach, i))
        } else {
            let vs = self.bests(tree, i, tree.arity(i) as nat);
            if tree.nodes@[i].player_id == self.t {
                Seq::new(NUM_PREFLOP_CLASSES as nat, |c: int| best_of(vs, c, vs.len()))
            } else {
                averaged(false, Seq::empty(), NUM_PREFLOP_CLASSES as int, vs)
            }
        }
    }

    /// Best values of the first `n` actions of node `i`.
    pub open spec fn bests(&self, tree: &FlatTree, i: int, n: nat) -> Seq<Seq<T>>
        decreases tree.max_depth + 1 - tree.level(i), 0int, n,
        when tree.wf() && tree.is_node(i) && n <= tree.arity(i)
    {
        if n == 0 {
            Seq::empty()
        } else {
            proof {
                assert(tree.is_edge(i, n - 1));
                assert(tree.edge_ok(i, n - 1));
            }
            self.bests(tree, i, (n - 1) as nat).push(self.best(tree, tree.child(i, n - 1)))
        }
    }

    /// A solver that may have learned since the walk began, but plays as it did then.
    pub open spec fn plays_as(&self, m: &PreflopVectorCfr<T>) -> bool {
        *m == (PreflopVectorCfr { regrets: m.regrets, cum_strategy: m.cum_strategy, ..self.m })
    }

    /// Leaves still have their values.
    pub open spec fn leaves_kept(&self, tree: &FlatTree, cfv: Seq<Vec<T>>) -> bool {
        forall|j: int|
            tree.is_node(j) && #[trigger] is_leaf(self.leaves, j) ==> cfv[j]@ == self.given[j]
                && cfv[j]@.len() == NUM_PREFLOP_CLASSES
    }
}

/// What a decision writes into the regrets.
fn regrets_of<T: Scalar>(
    p: &DcfrParams<T>,
    na: usize,
    was: &Vec<T>,
    vs: &Vec<Vec<T>>,
    avg: &Vec<T>,
) -> (out: Vec<T>)
    requires
        was@.len() == na * NUM_PREFLOP_CLASSES,
        vs@.len() == na,
        forall|a: int| 0 <= a < na ==> (#[trigger] vs@[a])@.len() == NUM_PREFLOP_CLASSES,
        avg@.len() == NUM_PREFLOP_CLASSES,
    ensures
        out@ == regrets_after(p, na as int, was@, views(vs@), avg@),
        out@.len() == was@.len(),
{
    let w: usize = NUM_PREFLOP_CLASSES;
    let total: usize = was.len();
    let ghost f = |a: int, c: int|
        discounted(p, was@[at(w as int, a, c)], views(vs@)[a][c].s_minus(avg@[c]));
    let mut out: Vec<T> = Vec::new();
    let mut a: usize = 0;
    while a < na
        invariant
            a <= na,
            w == NUM_PREFLOP_CLASSES,
            total == na * w,
            total == was@.len(),
            vs@.len() == na,
            avg@.len() == w,
            forall|b: int| 0 <= b < na ==> (#[trigger] vs@[b])@.len() == w,
            f == (|a: int, c: int|
                discounted(p, was@[at(w as int, a, c)], views(vs@)[a][c].s_minus(avg@[c]))),
            out@.len() == a * w,
            forall|b: int, c: int|
                0 <= b < a && 0 <= c < w ==> #[trigger] out@[at(w as int, b, c)] == f(b, c),
        decreases na - a,
    {
        let mut c: usize = 0;
        while c < w
            invariant
                c <= w,
                a < na,
                w == NUM_PREFLOP_CLASSES,
                total == na * w,
                total == was@.len(),
                vs@.len() == na,
                avg@.len() == w,
                forall|b: int| 0 <= b < na ==> (#[trigger] vs@[b])@.len() == w,
                f == (|a: int, c: int|
                    discounted(p, was@[at(w as int, a, c)], views(vs@)[a][c].s_minus(avg@[c]))),
                out@.len() == a * w + c,
                forall|b: int, d: int|
                    0 <= b < a && 0 <= d < w ==> #[trigger] out@[at(w as int, b, d)] == f(b, d),
                forall|d: int|
                    0 <= d < c ==> #[trigger] out@[at(w as int, a as int, d)] == f(a as int, d),
            decreases w - c,
        {
            proof {
                lemma_at_bound(w as int, na as int, a as int, c as int);
            }
            assert(vs@[a as int]@.len() == w);
            let inst = vs[a][c].minus(avg[c]);
            let r = was[a * w + c];
            let kept = if T::zero().at_most(r) {
                p.alpha_t()
            } else {
                p.beta_t()
            };
            let ghost so_far = out@;
            out.push(kept.times(r).plus(inst));
            proof {
                assert forall|b: int, d: int| 0 <= b < a && 0 <= d < w implies #[trigger] out@[at(
                    w as int,
                    b,
                    d,
                )] == f(b, d) by {
                    lemma_at_bound(w as int, a as int, b, d);
                    assert(so_far[at(w as int, b, d)] == f(b, d));
                }
                assert forall|d: int| 0 <= d < c + 1 implies #[trigger] out@[at(
                    w as int,
                    a as int,
                    d,
                )] == f(a as int, d) by {
                    if d < c {
                        assert(so_far[at(w as int, a as int, d)] == f(a as int, d));
                    }
                }
            }
            c += 1;
        }
        proof {
            assert((a + 1) * w == a * w + w) by (nonlinear_arith);
            assert forall|b: int, d: int| 0 <= b < a + 1 && 0 <= d < w implies #[trigger] out@[at(
                w as int,
                b,
                d,
            )] == f(b, d) by {
                if b == a {
                    assert(out@[at(w as int, a as int, d)] == f(a as int, d));
                }
            }
        }
        a += 1;
    }
    proof {
        lemma_is_grid(out@, na as int, w as int, f);
    }
    out
}

/// What a decision writes into the cumulative strategy.
fn cum_of<T: Scalar>(p: &DcfrParams<T>, na: usize, cum: &Vec<T>, strategy: &Vec<T>) -> (out: Vec<T>)
    requires
        cum@.len() == na * NUM_PREFLOP_CLASSES,
        strategy@.len() == cum@.len(),
    ensures
        out@ == cum_after(p, na as int, cum@, strategy@),
        out@.len() == cum@.len(),
{
    let n: usize = cum.len();
    let w: usize = NUM_PREFLOP_CLASSES;
    let mut out: Vec<T> = Vec::new();
    let mut k: usize = 0;
    while k < n
        invariant
            k <= n,
            n == cum@.len(),
            n == strategy@.len(),
            out@.len() == k,
            forall|x: int| 0 <= x < k ==> #[trigger] out@[x] == next_cum(p, cum@[x], strategy@[x]),
        decreases n - k,
    {
        out.push(p.gamma_t().times(cum[k]).plus(strategy[k]));
        k += 1;
    }
    proof {
        let f = |a: int, c: int|
            next_cum(p, cum@[at(w as int, a, c)], strategy@[at(w as int, a, c)]);
        assert forall|a: int, c: int| 0 <= a < na && 0 <= c < w implies #[trigger] out@[at(
            w as int,
            a,
            c,
        )] == f(a, c) by {
            lemma_at_bound(w as int, na as int, a, c);
        }
        lemma_is_grid(out@, na as int, w as int, f);
    }
    out
}

/// Whether the list holds `i`.
fn holds(list: &Vec<usize>, i: usize) -> (r: bool)
    ensures
        r == list@.contains(i),
{
    let n: usize = list.len();
    let mut k: usize = 0;
    while k < n
        invariant
            k <= n,
            n == list@.len(),
            forall|l: int| 0 <= l < k ==> #[trigger] list@[l] != i,
        decreases n - k,
    {
        if list[k] == i {
            return true;
        }
        k += 1;
    }
    false
}

impl<T: Scalar> PreflopVectorCfr<T> {
    /// Writes a decision of the traverser into the books.
    fn book<V: Fn(usize, u8, &Vec<Vec<T>>) -> Vec<T>>(
        &mut self,
        tree: &FlatTree,
        node_idx: usize,
        vs: &Vec<Vec<T>>,
        s: &Vec<T>,
        avg: &Vec<T>,
        params: &DcfrParams<T>,
        Ghost(pass): Ghost<Pass<T, V>>,
    )
        requires
            old(self).is_for(tree),
            pass.plays_as(&*old(self)),
            tree.is_node(node_idx as int),
            old(self).has_infoset(node_idx as int),
            vs@.len() == tree.arity(node_idx as int),
            forall|a: int| 0 <= a < vs@.len() ==> (#[trigger] vs@[a])@.len() == NUM_PREFLOP_CLASSES,
            views(vs@) == pass.values(tree, node_idx as int, tree.arity(node_idx as int) as nat),
            s@ == pass.m.strategy_at(tree, node_idx as int),
            s@.len() == tree.arity(node_idx as int) * NUM_PREFLOP_CLASSES,
            avg@ == pass.value(tree, node_idx as int),
            avg@.len() == NUM_PREFLOP_CLASSES,
        ensures
            final(self).is_for(tree),
            pass.plays_as(final(self)),
            (final(self).regrets@, final(self).cum_strategy@) == pass.booked(
                tree,
                params,
                node_idx as int,
                (old(self).regrets@, old(self).cum_strategy@),
            ),
    {
        proof {
            self.lemma_room(tree, node_idx as int);
        }
        let na: usize = vs.len();
        let w: usize = NUM_PREFLOP_CLASSES;
        let off: usize = self.local_offset[node_idx] * INFOSET_ROOM;
        let was = cut_of(self.regrets.as_slice(), off, na * w);
        let vals = regrets_of(params, na, &was, vs, avg);
        put_into(&mut self.regrets, off, vals.as_slice());
        let cum = cut_of(self.cum_strategy.as_slice(), off, na * w);
        let plays = cum_of(params, na, &cum, s);
        put_into(&mut self.cum_strategy, off, plays.as_slice());
    }

    /// The walk under a node.
    #[verifier::rlimit(60)]
    fn bottom_up_recursive<V: Fn(usize, u8, &Vec<Vec<T>>) -> Vec<T>>(
        &mut self,
        tree: &FlatTree,
        node_idx: usize,
        traverser: u8,
        leaves: &Vec<usize>,
        reach: &Vec<Vec<T>>,
        f: &V,
        cfv: &mut Vec<Vec<T>>,
        params: &DcfrParams<T>,
        Ghost(pass): Ghost<Pass<T, V>>,
    )
        requires
            old(self).is_for(tree),
            pass.plays_as(&*old(self)),
            tree.is_node(node_idx as int),
            can_sweep(tree, leaves@, node_idx as int),
            is_reach_table(tree, reach@),
            is_valuer(f, tree.np()),
            old(cfv)@.len() == tree.size(),
            pass.t == traverser,
            pass.leaves == leaves@,
            pass.reach == views(reach@),
            pass.f == *f,
            pass.leaves_kept(tree, old(cfv)@),
        ensures
            final(self).is_for(tree),
            pass.plays_as(final(self)),
            (final(self).regrets@, final(self).cum_strategy@) == pass.learned(
                tree,
                params,
                node_idx as int,
                (old(self).regrets@, old(self).cum_strategy@),
            ),
            final(cfv)@.len() == tree.size(),
            forall|j: int| #[trigger]
                is_swept(tree, leaves@, node_idx as int, j) ==> final(cfv)@[j]@ == pass.value(
                    tree,
                    j,
                ) && final(cfv)@[j]@.len() == NUM_PREFLOP_CLASSES,
            forall|j: int|
                tree.is_node(j) && !#[trigger] is_swept(tree, leaves@, node_idx as int, j)
                    ==> final(cfv)@[j] == old(cfv)@[j],
        decreases tree.max_depth + 1 - tree.level(node_idx as int),
    {
        let ghost i = node_idx as int;
        let ghost start = cfv@;
        let ghost books = (self.regrets@, self.cum_strategy@);
        assert(tree.node_ok(i));
        if holds(leaves, node_idx) {
            return ;
        }
        let node = tree.nodes[node_idx];
        let na: usize = node.num_children as usize;
        if node.is_terminal() {
            proof {
                lemma_has_row(tree, reach@, i);
            }
            let rows = rows_of(reach, node_idx);
            let v = value_node(f, node_idx, traverser, &rows, Ghost(tree.np()));
            cfv.set(node_idx, v);
            return ;
        }
        let kids: &[u32] = tree.node_children(node_idx);
        let mut vs: Vec<Vec<T>> = Vec::new();
        let mut a: usize = 0;
        while a < na
            invariant
                a <= na,
                na == tree.arity(i),
                i == node_idx,
                kids@.len() == na,
                forall|b: int|
                    0 <= b < kids@.len() ==> (#[trigger] kids@[b]) as int == tree.child(i, b),
                self.is_for(tree),
                pass.plays_as(&*self),
                tree.is_node(i),
                !is_leaf(leaves@, i),
                forall|b: int| #[trigger]
                    tree.is_edge(i, b) ==> can_sweep(tree, leaves@, tree.child(i, b)),
                is_reach_table(tree, reach@),
                is_valuer(f, tree.np()),
                start.len() == tree.size(),
                cfv@.len() == tree.size(),
                pass.t == traverser,
                pass.leaves == leaves@,
                pass.reach == views(reach@),
                pass.f == *f,
                pass.leaves_kept(tree, start),
                pass.leaves_kept(tree, cfv@),
                (self.regrets@, self.cum_strategy@) == pass.learned_upto(
                    tree,
                    params,
                    i,
                    a as nat,
                    books,
                ),
                vs@.len() == a,
                views(vs@) == pass.values(tree, i, a as nat),
                forall|b: int| 0 <= b < a ==> (#[trigger] vs@[b])@.len() == NUM_PREFLOP_CLASSES,
                forall|b: int, j: int|
                    #![trigger tree.is_edge(i, b), is_swept(tree, leaves@, tree.child(i, b), j)]
                    0 <= b < a && tree.is_edge(i, b) && is_swept(
                        tree,
                        leaves@,
                        tree.child(i, b),
                        j,
                    ) ==> cfv@[j]@ == pass.value(tree, j) && cfv@[j]@.len()
                        == NUM_PREFLOP_CLASSES,
                forall|j: int|
                    tree.is_node(j) && !#[trigger] is_swept(tree, leaves@, i, j) ==> cfv@[j]
                        == start[j],
            decreases na - a,
        {
            let child: usize = kids[a] as usize;
            let ghost c = child as int;
            let ghost mid = cfv@;
            assert(tree.is_edge(i, a as int));
            assert(tree.edge_ok(i, a as int));
            self.bottom_up_recursive(
                tree,
                child,
                traverser,
                leaves,
                reach,
                f,
                cfv,
                params,
                Ghost(pass),
            );
            assert(is_swept(tree, leaves@, c, c));
            let v = row_copy(&cfv[child]);
            let ghost was = views(vs@);
            vs.push(v);
            proof {
                let end = cfv@;
                assert(views(vs@) =~= was.push(v@));
                assert forall|j: int| tree.is_node(j) && #[trigger] is_leaf(leaves@, j) implies end[j]@
                    == pass.given[j] && end[j]@.len() == NUM_PREFLOP_CLASSES by {
                    if is_swept(tree, leaves@, c, j) {
                        assert(pass.value(tree, j) == pass.given[j]);
                    }
                }
                assert forall|b: int, j: int|
                    #![trigger tree.is_edge(i, b), is_swept(tree, leaves@, tree.child(i, b), j)]
                    0 <= b < a + 1 && tree.is_edge(i, b) && is_swept(
                        tree,
                        leaves@,
                        tree.child(i, b),
                        j,
                    ) implies end[j]@ == pass.value(tree, j) && end[j]@.len()
                    == NUM_PREFLOP_CLASSES by {
                    assert(tree.edge_ok(i, b));
                    if b < a {
                        lemma_swept_inside(tree, leaves@, tree.child(i, b), j);
                        if is_swept(tree, leaves@, c, j) {
                            lemma_swept_inside(tree, leaves@, c, j);
                            tree.lemma_subtree_apart(c, tree.child(i, b), j);
                            assert(tree.is_edge(i, a as int) && tree.is_edge(i, b));
                        }
                        assert(mid[j]@ == pass.value(tree, j));
                    }
                }
                assert forall|j: int| tree.is_node(j) && !#[trigger] is_swept(tree, leaves@, i, j) implies end[j]
                    == start[j] by {
                    if is_swept(tree, leaves@, c, j) {
                        assert(tree.is_edge(i, a as int) && is_swept(
                            tree,
                            leaves@,
                            tree.child(i, a as int),
                            j,
                        ));
                    }
                }
            }
            a += 1;
            assert((a - 1) as nat == a - 1);
        }
        let own = node.player_id == traverser;
        proof {
            self.lemma_has_infoset(tree, i);
            self.lemma_room(tree, i);
        }
        let off: usize = self.local_offset[node_idx] * INFOSET_ROOM;
        let s = cut_of(self.strategy.as_slice(), off, na * NUM_PREFLOP_CLASSES);
        let avg = average(own, &s, NUM_PREFLOP_CLASSES, &vs);
        assert(avg@ == pass.value(tree, i));
        if own {
            self.book::<V>(tree, node_idx, &vs, &s, &avg, params, Ghost(pass));
        }
        let ghost mid = cfv@;
        cfv.set(node_idx, avg);
        proof {
            let end = cfv@;
            assert forall|j: int| #[trigger] is_swept(tree, leaves@, i, j) implies end[j]@
                == pass.value(tree, j) && end[j]@.len() == NUM_PREFLOP_CLASSES by {
                if j != i {
                    let b = choose|b: int| #[trigger]
                        tree.is_edge(i, b) && is_swept(tree, leaves@, tree.child(i, b), j);
                    assert(tree.edge_ok(i, b));
                    lemma_swept_inside(tree, leaves@, tree.child(i, b), j);
                    assert(mid[j]@ == pass.value(tree, j));
                }
            }
        }
    }

    /// Values the tree for the traverser from the leaves up, and learns at its decisions.
    ///
    /// `cfv` holds the values of the nodes of `chance_node_set`; those of the nodes over
    /// them are written to it.
    pub fn bottom_up_preflop_for_traverser<V: Fn(usize, u8, &Vec<Vec<T>>) -> Vec<T>>(
        &mut self,
        tree: &FlatTree,
        traverser: u8,
        chance_node_set: &Vec<usize>,
        reach: &Vec<Vec<T>>,
        terminal_value_fn: &V,
        cfv: &mut Vec<Vec<T>>,
        params: &DcfrParams<T>,
    )
        requires
            old(self).is_for(tree),
            can_sweep(tree, chance_node_set@, 0),
            is_reach_table(tree, reach@),
            is_valuer(terminal_value_fn, tree.np()),
            old(cfv)@.len() == tree.size(),
            forall|j: int|
                0 <= j < old(cfv)@.len() ==> (#[trigger] old(cfv)@[j])@.len()
                    == NUM_PREFLOP_CLASSES,
        ensures
            final(self).is_for(tree),
            *final(self) == (PreflopVectorCfr {
                regrets: final(self).regrets,
                cum_strategy: final(self).cum_strategy,
                ..*old(self)
            }),
            ({
                let pass = Pass {
                    m: *old(self),
                    t: traverser,
                    leaves: chance_node_set@,
                    given: views(old(cfv)@),
                    reach: views(reach@),
                    f: *terminal_value_fn,
                };
                &&& (final(self).regrets@, final(self).cum_strategy@) == pass.learned(
                    tree,
                    params,
                    0,
                    (old(self).regrets@, old(self).cum_strategy@),
                )
                &&& forall|j: int| #[trigger]
                    tree.is_node(j) ==> final(cfv)@[j]@ == (if is_swept(
                        tree,
                        chance_node_set@,
                        0,
                        j,
                    ) {
                        pass.value(tree, j)
                    } else {
                        old(cfv)@[j]@
                    })
            }),
            final(cfv)@.len() == tree.size(),
    {
        let ghost pass = Pass {
            m: *old(self),
            t: traverser,
            leaves: chance_node_set@,
            given: views(old(cfv)@),
            reach: views(reach@),
            f: *terminal_value_fn,
        };
        self.bottom_up_recursive(
            tree,
            0,
            traverser,
            chance_node_set,
            reach,
            terminal_value_fn,
            cfv,
            params,
            Ghost(pass),
        );
    }

    /// The traverser's best values under a node.
    #[verifier::rlimit(30)]
    fn br_recursive<V: Fn(usize, u8, &Vec<Vec<T>>) -> Vec<T>>(
        &self,
        tree: &FlatTree,
        node_idx: usize,
        traverser: u8,
        leaves: &Vec<usize>,
        reach: &Vec<Vec<T>>,
        f: &V,
        chance_cfv: &Vec<Vec<T>>,
    ) -> (v: Vec<T>)
        requires
            self.is_for(tree),
            tree.is_node(node_idx as int),
            is_reach_table(tree, reach@),
            is_valuer(f, tree.np()),
            have_values(tree, leaves@, chance_cfv@),
        ensures
            v@ == (Pass {
                m: *self,
                t: traverser,
                leaves: leaves@,
                given: views(chance_cfv@),
                reach: views(reach@),
                f: *f,
            }).best(tree, node_idx as int),
            v@.len() == NUM_PREFLOP_CLASSES,
        decreases tree.max_depth + 1 - tree.level(node_idx as int),
    {
        let ghost i = node_idx as int;
        let ghost pass = Pass {
            m: *self,
            t: traverser,
            leaves: leaves@,
            given: views(chance_cfv@),
            reach: views(reach@),
            f: *f,
        };
        assert(tree.node_ok(i));
        if holds(leaves, node_idx) {
            assert(is_leaf(leaves@, i));
            return row_copy(&chance_cfv[node_idx]);
        }
        let node = tree.nodes[node_idx];
        let na: usize = node.num_children as usize;
        if node.is_terminal() {
            proof {
                lemma_has_row(tree, reach@, i);
            }
            let rows = rows_of(reach, node_idx);
            return value_node(f, node_idx, traverser, &rows, Ghost(tree.np()));
        }
        let kids: &[u32] = tree.node_children(node_idx);
        let mut vs: Vec<Vec<T>> = Vec::new();
        let mut a: usize = 0;
        while a < na
            invariant
                a <= na,
                na == tree.arity(i),
                i == node_idx,
                kids@.len() == na,
                forall|b: int|
                    0 <= b < kids@.len() ==> (#[trigger] kids@[b]) as int == tree.child(i, b),
                self.is_for(tree),
                tree.is_node(i),
                is_reach_table(tree, reach@),
                is_valuer(f, tree.np()),
                have_values(tree, leaves@, chance_cfv@),
                pass == (Pass {
                    m: *self,
                    t: traverser,
                    leaves: leaves@,
                    given: views(chance_cfv@),
                    reach: views(reach@),
                    f: *f,
                }),
                vs@.len() == a,
                views(vs@) == pass.bests(tree, i, a as nat),
                forall|b: int| 0 <= b < a ==> (#[trigger] vs@[b])@.len() == NUM_PREFLOP_CLASSES,
            decreases na - a,
        {
            assert(tree.is_edge(i, a as int));
            assert(tree.edge_ok(i, a as int));
            let v = self.br_recursive(
                tree,
                kids[a] as usize,
                traverser,
                leaves,
                reach,
                f,
                chance_cfv,
            );
            let ghost was = views(vs@);
            vs.push(v);
            assert(views(vs@) =~= was.push(v@));
            a += 1;
            assert((a - 1) as nat == a - 1);
        }
        if node.player_id == traverser {
            let out = best_rows(&vs);
            assert(out@ =~= pass.best(tree, i));
            out
        } else {
            let none: Vec<T> = Vec::new();
            let out = average(false, &none, NUM_PREFLOP_CLASSES, &vs);
            assert(none@ =~= Seq::empty());
            out
        }
    }

    /// What the traverser gets at the root by answering the others' strategies best,
    /// given its values at the chance nodes.
    pub fn compute_traverser_br_value<V: Fn(usize, u8, &Vec<Vec<T>>) -> Vec<T>>(
        &self,
        tree: &FlatTree,
        traverser: u8,
        chance_node_set: &Vec<usize>,
        reach: &Vec<Vec<T>>,
        chance_cfv: &Vec<Vec<T>>,
        terminal_value_fn: &V,
    ) -> (v: Vec<T>)
        requires
            self.is_for(tree),
            is_reach_table(tree, reach@),
            is_valuer(terminal_value_fn, tree.np()),
            have_values(tree, chance_node_set@, chance_cfv@),
        ensures
            v@ == (Pass {
                m: *self,
                t: traverser,
                leaves: chance_node_set@,
                given: views(chance_cfv@),
                reach: views(reach@),
                f: *terminal_value_fn,
            }).best(tree, 0),
    {
        self.br_recursive(
            tree,
            0,
            traverser,
            chance_node_set,
            reach,
            terminal_value_fn,
            chance_cfv,
        )
    }
}

/// The leaves have a row of classes each.
pub open spec fn have_values<T>(tree: &FlatTree, leaves: Seq<usize>, cfv: Seq<Vec<T>>) -> bool {
    forall|i: int|
        tree.is_node(i) && #[trigger] is_leaf(leaves, i) ==> i < cfv.len() && cfv[i]@.len()
            == NUM_PREFLOP_CLASSES
}

/// The best of all rows, class by class.
fn best_rows<T: Scalar>(vs: &Vec<Vec<T>>) -> (out: Vec<T>)
    requires
        forall|b: int| 0 <= b < vs@.len() ==> (#[trigger] vs@[b])@.len() == NUM_PREFLOP_CLASSES,
    ensures
        out@.len() == NUM_PREFLOP_CLASSES,
        forall|c: int|
            0 <= c < NUM_PREFLOP_CLASSES ==> #[trigger] out@[c] == best_of(
                views(vs@),
                c,
                vs@.len(),
            ),
{
    let n: usize = vs.len();
    let mut out: Vec<T> = Vec::new();
    let mut c: usize = 0;
    while c < NUM_PREFLOP_CLASSES
        invariant
            c <= NUM_PREFLOP_CLASSES,
            n == vs@.len(),
            forall|b: int| 0 <= b < n ==> (#[trigger] vs@[b])@.len() == NUM_PREFLOP_CLASSES,
            out@.len() == c,
            forall|d: int| 0 <= d < c ==> #[trigger] out@[d] == best_of(views(vs@), d, n as nat),
        decreases NUM_PREFLOP_CLASSES - c,
    {
        let mut best: T = T::lowest();
        let mut a: usize = 0;
        while a < n
            invariant
                a <= n,
                c < NUM_PREFLOP_CLASSES,
                n == vs@.len(),
                forall|b: int| 0 <= b < n ==> (#[trigger] vs@[b])@.len() == NUM_PREFLOP_CLASSES,
                best == best_of(views(vs@), c as int, a as nat),
            decreases n - a,
        {
            assert(vs@[a as int]@.len() == NUM_PREFLOP_CLASSES);
            if best.below(vs[a][c]) {
                best = vs[a][c];
            }
            a += 1;
            assert((a - 1) as nat == a - 1);
        }
        out.push(best);
        c += 1;
    }
    out
}

} // verus!
