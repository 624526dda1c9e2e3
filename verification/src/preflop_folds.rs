//! Values of hands that end before the flop.
use vstd::prelude::*;

use crate::layout::row_copy;
use crate::scalar::Scalar;
use crate::terminal::views;
use crate::tree::FlatTree;

verus! {

/// The rows of all players but `t`, in order.
pub open spec fn others_of<T>(rows: Seq<Seq<T>>, t: int) -> Seq<Seq<T>> {
    rows.remove(t)
}

/// Of two players, the other is the one opponent: folds among many players, asked for two,
/// weigh the reach that folds between two weigh.
pub proof fn law_two_players_have_one_opponent<T>(rows: Seq<Seq<T>>, t: int)
    requires
        rows.len() == 2,
        0 <= t < 2,
    ensures
        others_of(rows, t) == seq![rows[1 - t]],
{
    assert(others_of(rows, t) =~= seq![rows[1 - t]]);
}

/// Copies the rows of all players but `t`.
pub fn others<T: Copy>(rows: &Vec<Vec<T>>, t: usize) -> (out: Vec<Vec<T>>)
    requires
        t < rows@.len(),
    ensures
        views(out@) == others_of(views(rows@), t as int),
{
    let n: usize = rows.len();
    let ghost goal = others_of(views(rows@), t as int);
    let mut out: Vec<Vec<T>> = Vec::new();
    let mut p: usize = 0;
    while p < n
        invariant
            p <= n,
            n == rows@.len(),
            t < n,
            goal == others_of(views(rows@), t as int),
            out@.len() == (if p <= t {
                p as int
            } else {
                p - 1
            }),
            forall|q: int| 0 <= q < out@.len() ==> (#[trigger] out@[q])@ == goal[q],
        decreases n - p,
    {
        if p != t {
            out.push(row_copy(&rows[p]));
        }
        p += 1;
    }
    assert(views(out@) =~= goal);
    out
}

/// Values folds between two players: what the traverser wins or loses, given by `delta`,
/// weighed by `weigh` over the hands that the opponent can hold beside each class.
pub struct HuFolds<'a, T, D, W> {
    pub tree: &'a FlatTree,
    pub blocking_matrix: &'a Vec<T>,
    pub delta: D,
    pub weigh: W,
}

pub fn make_production_terminal_value_fn_hu<'a, T, D, W>(
    tree: &'a FlatTree,
    blocking_matrix: &'a Vec<T>,
    delta: D,
    weigh: W,
) -> (f: HuFolds<'a, T, D, W>)
    ensures
        f == (HuFolds { tree, blocking_matrix, delta, weigh }),
{
    HuFolds { tree, blocking_matrix, delta, weigh }
}

/// `d` says what a fold is worth to the traverser.
pub open spec fn is_delta<T, D: Fn(&FlatTree, usize, u8) -> T>(
    f: &D,
    tree: &FlatTree,
    i: usize,
    t: u8,
    d: T,
) -> bool {
    call_ensures(*f, (tree, i, t), d)
}

impl<
    'a,
    T: Scalar,
    D: Fn(&FlatTree, usize, u8) -> T,
    W: Fn(&Vec<T>, &Vec<T>, T) -> Vec<T>,
> HuFolds<'a, T, D, W> {
    /// The fold's worth is asked for, and weighed over the opponent's reach.
    pub open spec fn is_value(&self, i: usize, t: u8, rows: Seq<Vec<T>>, v: Vec<T>) -> bool {
        exists|d: T| #[trigger]
            is_delta(&self.delta, self.tree, i, t, d) && call_ensures(
                self.weigh,
                (&rows[1 - t], self.blocking_matrix, d),
                v,
            )
    }

    pub fn value(&self, term_idx: usize, traverser: u8, reach_at_term: &Vec<Vec<T>>) -> (v: Vec<T>)
        requires
            traverser < 2,
            reach_at_term@.len() == 2,
            call_requires(self.delta, (self.tree, term_idx, traverser)),
            forall|d: T| #[trigger]
                is_delta(&self.delta, self.tree, term_idx, traverser, d) ==> call_requires(
                    self.weigh,
                    (&reach_at_term@[1 - traverser], self.blocking_matrix, d),
                ),
        ensures
            self.is_value(term_idx, traverser, reach_at_term@, v),
    {
        let f = &self.delta;
        let d = f(self.tree, term_idx, traverser);
        assert(is_delta(&self.delta, self.tree, term_idx, traverser, d));
        let opp: usize = (1 - traverser) as usize;
        let g = &self.weigh;
        g(&reach_at_term[opp], self.blocking_matrix, d)
    }
}

/// Values folds among many players. `weigh` takes the reach of all opponents.
pub struct MultiwayFolds<'a, D, W> {
    pub tree: &'a FlatTree,
    pub delta: D,
    pub weigh: W,
}

pub fn make_production_terminal_value_fn_multiway<'a, D, W>(
    tree: &'a FlatTree,
    delta: D,
    weigh: W,
) -> (f: MultiwayFolds<'a, D, W>)
    ensures
        f == (MultiwayFolds { tree, delta, weigh }),
{
    MultiwayFolds { tree, delta, weigh }
}

/// `w` weighs the opponents' reach so.
pub open spec fn weighs_others<T, W: Fn(&Vec<Vec<T>>, T) -> Vec<T>>(
    w: &W,
    opp: Vec<Vec<T>>,
    d: T,
    v: Vec<T>,
) -> bool {
    call_ensures(*w, (&opp, d), v)
}

/// The fold's worth is asked for, and weighed over the reach of all players but `t`.
pub open spec fn is_multiway_value<
    T,
    D: Fn(&FlatTree, usize, u8) -> T,
    W: Fn(&Vec<Vec<T>>, T) -> Vec<T>,
>(f: &MultiwayFolds<D, W>, i: usize, t: u8, rows: Seq<Seq<T>>, v: Vec<T>) -> bool {
    exists|d: T, opp: Vec<Vec<T>>|
        is_delta(&f.delta, f.tree, i, t, d) && views(opp@) == others_of(rows, t as int)
            && #[trigger] weighs_others(&f.weigh, opp, d, v)
}

/// Values a fold among many players.
pub fn multiway_value<
    T: Copy,
    D: Fn(&FlatTree, usize, u8) -> T,
    W: Fn(&Vec<Vec<T>>, T) -> Vec<T>,
>(
    f: &MultiwayFolds<D, W>,
    term_idx: usize,
    traverser: u8,
    reach_at_term: &Vec<Vec<T>>,
) -> (v: Vec<T>)
    requires
        traverser < f.tree.num_players,
        reach_at_term@.len() == f.tree.num_players,
        call_requires(f.delta, (f.tree, term_idx, traverser)),
        forall|opp: &Vec<Vec<T>>, d: T|
            views(opp@) == others_of(views(reach_at_term@), traverser as int)
                ==> #[trigger] call_requires(f.weigh, (opp, d)),
    ensures
        is_multiway_value(f, term_idx, traverser, views(reach_at_term@), v),
{
    let g = &f.delta;
    let d = g(f.tree, term_idx, traverser);
    assert(is_delta(&f.delta, f.tree, term_idx, traverser, d));
    let opp = others(reach_at_term, traverser as usize);
    let h = &f.weigh;
    let v = h(&opp, d);
    assert(weighs_others(&f.weigh, opp, d, v));
    v
}

/// Values folds among many players, opponents taken one by one against the classes that
/// they block.
pub struct PairwiseFolds<'a, T, D, W> {
    pub tree: &'a FlatTree,
    pub blocking_matrix: Vec<T>,
    pub delta: D,
    pub weigh: W,
}

pub fn make_bootstrap_terminal_value_fn_multiway_pairwise<'a, T, D, W>(
    tree: &'a FlatTree,
    blocking_matrix: Vec<T>,
    delta: D,
    weigh: W,
) -> (f: PairwiseFolds<'a, T, D, W>)
    ensures
        f == (PairwiseFolds { tree, blocking_matrix, delta, weigh }),
{
    PairwiseFolds { tree, blocking_matrix, delta, weigh }
}

/// `w` weighs the opponents' reach so.
pub open spec fn weighs_pairs<T, W: Fn(&Vec<Vec<T>>, T, &Vec<T>) -> Vec<T>>(
    w: &W,
    opp: Vec<Vec<T>>,
    d: T,
    blocking: Vec<T>,
    v: Vec<T>,
) -> bool {
    call_ensures(*w, (&opp, d, &blocking), v)
}

impl<
    'a,
    T: Scalar,
    D: Fn(&FlatTree, usize, u8) -> T,
    W: Fn(&Vec<Vec<T>>, T, &Vec<T>) -> Vec<T>,
> PairwiseFolds<'a, T, D, W> {
    /// The fold's worth is asked for, and weighed over the reach of all players but `t`.
    pub open spec fn is_value(&self, i: usize, t: u8, rows: Seq<Seq<T>>, v: Vec<T>) -> bool {
        exists|d: T, opp: Vec<Vec<T>>|
            is_delta(&self.delta, self.tree, i, t, d) && views(opp@) == others_of(rows, t as int)
                && #[trigger] weighs_pairs(&self.weigh, opp, d, self.blocking_matrix, v)
    }

    pub fn value(&self, term_idx: usize, traverser: u8, reach_at_term: &Vec<Vec<T>>) -> (v: Vec<T>)
        requires
            traverser < self.tree.num_players,
            reach_at_term@.len() == self.tree.num_players,
            call_requires(self.delta, (self.tree, term_idx, traverser)),
            forall|opp: &Vec<Vec<T>>, d: T, blocking: &Vec<T>|
                views(opp@) == others_of(views(reach_at_term@), traverser as int) && *blocking
                    == self.blocking_matrix ==> #[trigger] call_requires(
                    self.weigh,
                    (opp, d, blocking),
                ),
        ensures
            self.is_value(term_idx, traverser, views(reach_at_term@), v),
    {
        let g = &self.delta;
        let d = g(self.tree, term_idx, traverser);
        assert(is_delta(&self.delta, self.tree, term_idx, traverser, d));
        let opp = others(reach_at_term, traverser as usize);
        let h = &self.weigh;
        let v = h(&opp, d, &self.blocking_matrix);
        assert(weighs_pairs(&self.weigh, opp, d, self.blocking_matrix, v));
        v
    }
}

} // verus!
