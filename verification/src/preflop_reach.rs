//! How likely each class of hands reaches each node before the flop.
use vstd::prelude::*;

use crate::grid::{cut, cut_of};
use crate::layout::{
    flat, get_row, lemma_at_bound, lemma_flat_row, lemma_other_row, lemma_row_inside, only_row,
    put_row, row, row_copy,
};
use crate::mccfr_steps::after;
use crate::preflop_cfr::{INFOSET_ROOM, PreflopVectorCfr};
use crate::preflop_class::NUM_PREFLOP_CLASSES;
use crate::pseudo_harmonic::{lemma_parent_edge, parent_edge};
use crate::scalar::{filled, Scalar};
use crate::terminal::views;
use crate::tree::{BOARD_PREFLOP, FlatTree};

verus! {

/// Every node over `i` is a node before the flop.
pub open spec fn reached(tree: &FlatTree, i: int) -> bool
    decreases tree.level(i),
    when tree.wf() && tree.is_node(i)
{
    i == 0 || {
        let (j, a) = parent_edge(tree, i);
        proof {
            lemma_parent_edge(tree, i);
        }
        reached(tree, j) && tree.nodes@[j].board_state == BOARD_PREFLOP
    }
}

/// A node has one parent.
proof fn lemma_one_parent(tree: &FlatTree, i: int, a: int)
    requires
        tree.wf(),
        tree.is_edge(i, a),
    ensures
        tree.is_node(tree.child(i, a)),
        tree.child(i, a) != 0,
        parent_edge(tree, tree.child(i, a)) == (i, a),
{
    let c = tree.child(i, a);
    assert(tree.edge_ok(i, a));
    assert(tree.node_ok(i));
    lemma_parent_edge(tree, c);
    let (j, b) = parent_edge(tree, c);
    assert(tree.is_edge(j, b) && tree.is_edge(i, a));
}

/// Nothing under a node past the flop is reached.
proof fn lemma_cut_off(tree: &FlatTree, root: int, x: int)
    requires
        tree.wf(),
        tree.is_node(root),
        tree.in_subtree(root, x),
        x != root,
        !(reached(tree, root) && tree.nodes@[root].board_state == BOARD_PREFLOP),
    ensures
        tree.is_node(x),
        !reached(tree, x),
    decreases tree.level(x),
{
    tree.lemma_subtree_level(root, x);
    let (j, b) = tree.lemma_subtree_last(root, x);
    lemma_one_parent(tree, j, b);
    assert(tree.edge_ok(j, b));
    if j != root {
        lemma_cut_off(tree, root, j);
    }
}

/// A row of classes, each times its probability of action `a`.
fn played<T: Scalar>(raw: &Vec<T>, s: &Vec<T>, a: usize, na: usize) -> (out: Vec<T>)
    requires
        a < na,
        s@.len() == na * raw@.len(),
    ensures
        out@ == after(raw@, s@, a as int),
{
    let w: usize = raw.len();
    let total: usize = s.len();
    let mut out: Vec<T> = Vec::new();
    let mut h: usize = 0;
    while h < w
        invariant
            h <= w,
            w == raw@.len(),
            total == s@.len(),
            total == na * w,
            a < na,
            out@.len() == h,
            forall|k: int| 0 <= k < h ==> #[trigger] out@[k] == after(raw@, s@, a as int)[k],
        decreases w - h,
    {
        proof {
            lemma_at_bound(w as int, na as int, a as int, h as int);
        }
        out.push(raw[h].times(s[a * w + h]));
        h += 1;
    }
    assert(out@ =~= after(raw@, s@, a as int));
    out
}

/// Node `i` is a chance node that follows a node before the flop.
pub open spec fn is_seam(tree: &FlatTree, i: int) -> bool {
    &&& tree.is_node(i)
    &&& tree.nodes@[i].is_chance()
    &&& exists|j: int, a: int| #[trigger]
        tree.is_parent(j, a, i) && tree.nodes@[j].board_state == BOARD_PREFLOP
}

/// All of them, in order.
pub open spec fn are_seams(tree: &FlatTree, list: Seq<usize>) -> bool {
    &&& forall|k: int| 0 <= k < list.len() ==> is_seam(tree, (#[trigger] list[k]) as int)
    &&& forall|k: int, l: int|
        0 <= k < l < list.len() ==> (#[trigger] list[k]) < (#[trigger] list[l])
    &&& forall|i: int| #[trigger] is_seam(tree, i) ==> list.contains(i as usize)
}

impl<T: Scalar> PreflopVectorCfr<T> {
    /// The strategy of node `i`.
    pub open spec fn strategy_at(&self, tree: &FlatTree, i: int) -> Seq<T> {
        cut(self.strategy@, self.start(i), tree.arity(i), NUM_PREFLOP_CLASSES as int)
    }

    /// Reach of player `p` after action `a` of node `i`.
    pub open spec fn moved(&self, tree: &FlatTree, i: int, a: int, p: int, r: Seq<T>) -> Seq<T> {
        if tree.nodes@[i].is_player() && tree.nodes@[i].player_id == p {
            after(r, self.strategy_at(tree, i), a)
        } else {
            r
        }
    }

    /// Reach of player `p` at node `i`, from `first` at the root: the product of the
    /// player's own choices on the way. Nothing past the flop is reached.
    pub open spec fn reach_at(&self, tree: &FlatTree, first: Seq<T>, p: int, i: int) -> Seq<T>
        decreases tree.level(i),
        when tree.wf() && tree.is_node(i)
    {
        if i == 0 {
            first
        } else if !reached(tree, i) {
            flat(T::s_zero(), NUM_PREFLOP_CLASSES as int)
        } else {
            let (j, a) = parent_edge(tree, i);
            proof {
                lemma_parent_edge(tree, i);
            }
            self.moved(tree, j, a, p, self.reach_at(tree, first, p, j))
        }
    }

    /// Row `j` of every player holds the player's reach there.
    pub open spec fn row_done(
        &self,
        tree: &FlatTree,
        firsts: Seq<Seq<T>>,
        reach: Seq<Vec<T>>,
        j: int,
    ) -> bool {
        forall|p: int|
            0 <= p < tree.np() ==> row((#[trigger] reach[p])@, NUM_PREFLOP_CLASSES as int, j)
                == self.reach_at(tree, firsts[p], p, j)
    }

    proof fn lemma_done_kept(
        &self,
        tree: &FlatTree,
        firsts: Seq<Seq<T>>,
        a: Seq<Vec<T>>,
        b: Seq<Vec<T>>,
        j: int,
    )
        requires
            self.row_done(tree, firsts, a, j),
            rows_agree(tree, a, b, j),
        ensures
            self.row_done(tree, firsts, b, j),
    {
        assert forall|p: int| 0 <= p < tree.np() implies row(
            (#[trigger] b[p])@,
            NUM_PREFLOP_CLASSES as int,
            j,
        ) == self.reach_at(tree, firsts[p], p, j) by {
            assert(row(a[p]@, NUM_PREFLOP_CLASSES as int, j) == self.reach_at(
                tree,
                firsts[p],
                p,
                j,
            ));
        }
    }

    /// Fills the rows of child `a` of a node.
    fn step_reach(&self, tree: &FlatTree, node_idx: usize, a: usize, child: usize, reach: &mut Vec<Vec<T>>)
        requires
            self.is_for(tree),
            tree.is_edge(node_idx as int, a as int),
            child == tree.child(node_idx as int, a as int),
            tree.nodes@[node_idx as int].board_state == BOARD_PREFLOP,
            is_reach_table(tree, old(reach)@),
        ensures
            is_reach_table(tree, final(reach)@),
            forall|p: int|
                0 <= p < tree.np() ==> only_row(
                    (#[trigger] old(reach)@[p])@,
                    final(reach)@[p]@,
                    NUM_PREFLOP_CLASSES as int,
                    child as int,
                ) && row(final(reach)@[p]@, NUM_PREFLOP_CLASSES as int, child as int)
                    == self.moved(
                    tree,
                    node_idx as int,
                    a as int,
                    p,
                    row(old(reach)@[p]@, NUM_PREFLOP_CLASSES as int, node_idx as int),
                ),
    {
        assert(tree.edge_ok(node_idx as int, a as int));
        assert(tree.node_ok(node_idx as int));
        let node = tree.nodes[node_idx];
        let na: usize = node.num_children as usize;
        let np: usize = tree.num_players as usize;
        let nn: usize = tree.nodes.len();
        let w: usize = NUM_PREFLOP_CLASSES;
        let ghost before = reach@;
        let mut p: usize = 0;
        while p < np
            invariant
                p <= np,
                np == tree.np(),
                nn == tree.size(),
                w == NUM_PREFLOP_CLASSES,
                self.is_for(tree),
                node == tree.nodes@[node_idx as int],
                node.board_state == BOARD_PREFLOP,
                na == tree.arity(node_idx as int),
                a < na,
                node_idx < nn,
                child < nn,
                child == tree.child(node_idx as int, a as int),
                is_reach_table(tree, before),
                is_reach_table(tree, reach@),
                forall|q: int|
                    p <= q < np ==> #[trigger] reach@[q] == before[q],
                forall|q: int|
                    0 <= q < p ==> only_row(
                        (#[trigger] before[q])@,
                        reach@[q]@,
                        w as int,
                        child as int,
                    ) && row(reach@[q]@, w as int, child as int) == self.moved(
                        tree,
                        node_idx as int,
                        a as int,
                        q,
                        row(before[q]@, w as int, node_idx as int),
                    ),
            decreases np - p,
        {
            assert(before[p as int]@.len() == nn * w);
            assert(reach@[p as int] == before[p as int]);
            let mut vals: Vec<T> = get_row(&reach[p], w, nn, node_idx);
            if node.is_player() && node.player_id as usize == p {
                proof {
                    self.lemma_has_infoset(tree, node_idx as int);
                    self.lemma_room(tree, node_idx as int);
                }
                let local: usize = self.local_offset[node_idx];
                let s = cut_of(
                    self.strategy.as_slice(),
                    local * INFOSET_ROOM,
                    na * NUM_PREFLOP_CLASSES,
                );
                vals = played(&vals, &s, a, na);
            }
            let mut mine = row_copy(&reach[p]);
            put_row(&mut mine, w, nn, child, &vals);
            reach.set(p, mine);
            p += 1;
        }
    }

    /// Fills the rows under a node whose own rows are filled.
    #[verifier::rlimit(40)]
    fn propagate_reach_from(
        &self,
        tree: &FlatTree,
        node_idx: usize,
        reach: &mut Vec<Vec<T>>,
        Ghost(firsts): Ghost<Seq<Seq<T>>>,
    )
        requires
            self.is_for(tree),
            tree.is_node(node_idx as int),
            reached(tree, node_idx as int),
            is_reach_table(tree, old(reach)@),
            self.row_done(tree, firsts, old(reach)@, node_idx as int),
            forall|j: int| #[trigger]
                tree.in_subtree(node_idx as int, j) && j != node_idx ==> row_blank(
                    tree,
                    old(reach)@,
                    j,
                ),
        ensures
            is_reach_table(tree, final(reach)@),
            forall|j: int| #[trigger]
                tree.in_subtree(node_idx as int, j) ==> self.row_done(
                    tree,
                    firsts,
                    final(reach)@,
                    j,
                ),
            forall|j: int|
                tree.is_node(j) && !#[trigger] tree.in_subtree(node_idx as int, j) ==> rows_agree(
                    tree,
                    old(reach)@,
                    final(reach)@,
                    j,
                ),
        decreases tree.max_depth + 1 - tree.level(node_idx as int),
    {
        let ghost i = node_idx as int;
        let ghost start = reach@;
        assert(tree.node_ok(i));
        let node = tree.nodes[node_idx];
        if node.board_state != BOARD_PREFLOP {
            proof {
                assert forall|j: int| #[trigger] tree.in_subtree(i, j) implies self.row_done(
                    tree,
                    firsts,
                    reach@,
                    j,
                ) by {
                    if j != i {
                        lemma_cut_off(tree, i, j);
                        assert(j != 0) by {
                            tree.lemma_subtree_level(i, j);
                        }
                        assert(row_blank(tree, reach@, j));
                    }
                }
            }
            return ;
        }
        let na: usize = node.num_children as usize;
        let kids: &[u32] = tree.node_children(node_idx);
        let mut a: usize = 0;
        proof {
            assert forall|b: int, j: int|
                #![trigger tree.is_edge(i, b), tree.in_subtree(tree.child(i, b), j)]
                tree.is_edge(i, b) && tree.in_subtree(tree.child(i, b), j) implies row_blank(
                tree,
                start,
                j,
            ) by {
                assert(tree.edge_ok(i, b));
                tree.lemma_subtree_level(tree.child(i, b), j);
                assert(tree.in_subtree(i, j));
            }
        }
        while a < na
            invariant
                a <= na,
                na == tree.arity(i),
                i == node_idx,
                kids@.len() == na,
                forall|b: int|
                    0 <= b < kids@.len() ==> (#[trigger] kids@[b]) as int == tree.child(i, b),
                self.is_for(tree),
                tree.is_node(i),
                reached(tree, i),
                node == tree.nodes@[i],
                node.board_state == BOARD_PREFLOP,
                is_reach_table(tree, start),
                is_reach_table(tree, reach@),
                self.row_done(tree, firsts, start, i),
                rows_agree(tree, start, reach@, i),
                forall|j: int|
                    tree.is_node(j) && !#[trigger] tree.in_subtree(i, j) ==> rows_agree(
                        tree,
                        start,
                        reach@,
                        j,
                    ),
                forall|b: int, j: int|
                    #![trigger tree.is_edge(i, b), tree.in_subtree(tree.child(i, b), j)]
                    0 <= b < a && tree.is_edge(i, b) && tree.in_subtree(tree.child(i, b), j)
                        ==> self.row_done(tree, firsts, reach@, j),
                forall|b: int, j: int|
                    #![trigger tree.is_edge(i, b), tree.in_subtree(tree.child(i, b), j)]
                    a <= b && tree.is_edge(i, b) && tree.in_subtree(tree.child(i, b), j)
                        ==> row_blank(tree, reach@, j),
            decreases na - a,
        {
            let child: usize = kids[a] as usize;
            let ghost c = child as int;
            let ghost mid0 = reach@;
            proof {
                assert(tree.is_edge(i, a as int));
                assert(tree.edge_ok(i, a as int));
                lemma_one_parent(tree, i, a as int);
                assert(reached(tree, c));
            }
            self.step_reach(tree, node_idx, a, child, reach);
            let ghost mid = reach@;
            proof {
                lemma_step(tree, mid0, mid, c);
                assert(self.row_done(tree, firsts, mid, c)) by {
                    assert forall|p: int| 0 <= p < tree.np() implies row(
                        (#[trigger] mid[p])@,
                        NUM_PREFLOP_CLASSES as int,
                        c,
                    ) == self.reach_at(tree, firsts[p], p, c) by {
                        assert(row(start[p]@, NUM_PREFLOP_CLASSES as int, i) == self.reach_at(
                            tree,
                            firsts[p],
                            p,
                            i,
                        ));
                        assert(mid0[p] == mid0[p]);
                    }
                }
                assert forall|j: int| #[trigger] tree.in_subtree(c, j) && j != c implies row_blank(
                    tree,
                    mid,
                    j,
                ) by {
                    tree.lemma_subtree_level(c, j);
                    assert(tree.in_subtree(tree.child(i, a as int), j));
                    assert(row_blank(tree, mid0, j));
                    assert(rows_agree(tree, mid0, mid, j));
                    lemma_blank_kept(tree, mid0, mid, j);
                }
            }
            self.propagate_reach_from(tree, child, reach, Ghost(firsts));
            proof {
                let end = reach@;
                assert(tree.level(c) == tree.level(i) + 1);
                assert(!tree.in_subtree(c, i)) by {
                    if tree.in_subtree(c, i) {
                        tree.lemma_subtree_level(c, i);
                    }
                }
                assert(tree.in_subtree(c, c));
                assert(rows_agree(tree, mid0, mid, i));
                assert(rows_agree(tree, start, end, i));
                assert forall|j: int| tree.is_node(j) && !#[trigger] tree.in_subtree(i, j) implies rows_agree(
                    tree,
                    start,
                    end,
                    j,
                ) by {
                    if tree.in_subtree(c, j) {
                        assert(tree.is_edge(i, a as int) && tree.in_subtree(tree.child(i, a as int), j));
                    }
                    assert(rows_agree(tree, mid0, mid, j));
                }
                assert forall|b: int, j: int|
                    #![trigger tree.is_edge(i, b), tree.in_subtree(tree.child(i, b), j)]
                    0 <= b < a + 1 && tree.is_edge(i, b) && tree.in_subtree(tree.child(i, b), j)
                    implies self.row_done(tree, firsts, end, j) by {
                    assert(tree.edge_ok(i, b));
                    if b < a {
                        tree.lemma_subtree_level(tree.child(i, b), j);
                        if tree.in_subtree(c, j) {
                            tree.lemma_subtree_apart(c, tree.child(i, b), j);
                            assert(tree.is_edge(i, a as int) && tree.is_edge(i, b));
                        }
                        assert(self.row_done(tree, firsts, mid0, j));
                        assert(rows_agree(tree, mid0, mid, j));
                        assert(rows_agree(tree, mid, end, j));
                        self.lemma_done_kept(tree, firsts, mid0, mid, j);
                        self.lemma_done_kept(tree, firsts, mid, end, j);
                    }
                }
                assert forall|b: int, j: int|
                    #![trigger tree.is_edge(i, b), tree.in_subtree(tree.child(i, b), j)]
                    a + 1 <= b && tree.is_edge(i, b) && tree.in_subtree(tree.child(i, b), j)
                    implies row_blank(tree, end, j) by {
                    assert(tree.edge_ok(i, b));
                    tree.lemma_subtree_level(tree.child(i, b), j);
                    if tree.in_subtree(c, j) {
                        tree.lemma_subtree_apart(c, tree.child(i, b), j);
                        assert(tree.is_edge(i, a as int) && tree.is_edge(i, b));
                    }
                    assert(row_blank(tree, mid0, j));
                    assert(rows_agree(tree, mid0, mid, j));
                    assert(rows_agree(tree, mid, end, j));
                    lemma_blank_kept(tree, mid0, mid, j);
                    lemma_blank_kept(tree, mid, end, j);
                }
            }
            a += 1;
        }
        proof {
            assert forall|j: int| #[trigger] tree.in_subtree(i, j) implies self.row_done(
                tree,
                firsts,
                reach@,
                j,
            ) by {
                if j == i {
                    assert(rows_agree(tree, start, reach@, i));
                    self.lemma_done_kept(tree, firsts, start, reach@, i);
                } else {
                    let b = choose|b: int| #[trigger]
                        tree.is_edge(i, b) && tree.in_subtree(tree.child(i, b), j);
                    assert(tree.is_edge(i, b) && tree.in_subtree(tree.child(i, b), j));
                }
            }
        }
    }

    /// Every player's reach at every node, a row of classes each. At the root it is the
    /// given one, or full.
    pub fn compute_preflop_reach(&self, tree: &FlatTree, initial_reach: Option<&Vec<Vec<T>>>) -> (reach: Vec<
        Vec<T>,
    >)
        requires
            self.is_for(tree),
            initial_reach matches Some(ir) ==> are_class_rows(ir@, tree.np()),
            tree.size() * NUM_PREFLOP_CLASSES <= usize::MAX,
        ensures
            is_reach_table(tree, reach@),
            forall|i: int|
                tree.is_node(i) ==> #[trigger] self.row_done(
                    tree,
                    first_reach(initial_reach, tree.np()),
                    reach@,
                    i,
                ),
    {
        let np: usize = tree.num_players as usize;
        let nn: usize = tree.nodes.len();
        let w: usize = NUM_PREFLOP_CLASSES;
        let ghost firsts = first_reach(initial_reach, tree.np());
        let mut reach: Vec<Vec<T>> = Vec::new();
        let mut p: usize = 0;
        while p < np
            invariant
                p <= np,
                np == tree.np(),
                nn == tree.size(),
                tree.wf(),
                w == NUM_PREFLOP_CLASSES,
                nn * w <= usize::MAX,
                initial_reach matches Some(ir) ==> are_class_rows(ir@, tree.np()),
                firsts == first_reach(initial_reach, tree.np()),
                reach@.len() == p,
                forall|q: int|
                    0 <= q < p ==> (#[trigger] reach@[q])@.len() == nn * w && row(
                        reach@[q]@,
                        w as int,
                        0,
                    ) == firsts[q] && forall|j: int|
                        0 < j < nn ==> #[trigger] row(reach@[q]@, w as int, j) == flat(
                            T::s_zero(),
                            w as int,
                        ),
            decreases np - p,
        {
            let mut mine: Vec<T> = filled(T::zero(), nn * w);
            let vals: Vec<T> = match initial_reach {
                Some(ir) => {
                    assert(ir@[p as int]@.len() == w);
                    row_copy(&ir[p])
                },
                None => filled(T::one(), w),
            };
            let ghost blank = mine@;
            assert(vals@ =~= firsts[p as int]);
            put_row(&mut mine, w, nn, 0, &vals);
            proof {
                assert(blank =~= flat(T::s_zero(), nn * w));
                assert forall|j: int| 0 < j < nn implies #[trigger] row(mine@, w as int, j) == flat(
                    T::s_zero(),
                    w as int,
                ) by {
                    lemma_row_inside(w as int, nn as int, j);
                    lemma_other_row(blank, mine@, w as int, 0, j);
                    lemma_flat_row(T::s_zero(), w as int, nn as int, j);
                }
            }
            reach.push(mine);
            p += 1;
        }
        proof {
            assert(self.row_done(tree, firsts, reach@, 0));
            assert forall|j: int| #[trigger] tree.in_subtree(0, j) && j != 0 implies row_blank(
                tree,
                reach@,
                j,
            ) by {
                tree.lemma_subtree_level(0, j);
            }
        }
        self.propagate_reach_from(tree, 0, &mut reach, Ghost(firsts));
        proof {
            assert forall|i: int| tree.is_node(i) implies #[trigger] self.row_done(
                tree,
                firsts,
                reach@,
                i,
            ) by {
                tree.lemma_all_below_root(i);
            }
        }
        reach
    }

    /// The chance nodes that follow the nodes before the flop, in order.
    pub fn preflop_chance_node_indices(&self, tree: &FlatTree) -> (out: Vec<usize>)
        requires
            tree.wf(),
        ensures
            are_seams(tree, out@),
    {
        let nn: usize = tree.nodes.len();
        let mut marked: Vec<bool> = filled(false, nn);
        let mut j: usize = 0;
        while j < nn
            invariant
                j <= nn,
                nn == tree.size(),
                tree.wf(),
                marked@.len() == nn,
                forall|i: int| #[trigger]
                    tree.is_node(i) ==> (marked@[i] <==> seam_upto(tree, i, j as int, 0)),
            decreases nn - j,
        {
            let node = tree.nodes[j];
            assert(tree.node_ok(j as int));
            let na: usize = node.num_children as usize;
            if node.board_state == BOARD_PREFLOP {
                let kids: &[u32] = tree.node_children(j);
                let mut a: usize = 0;
                while a < na
                    invariant
                        a <= na,
                        j < nn,
                        nn == tree.size(),
                        tree.wf(),
                        node == tree.nodes@[j as int],
                        node.board_state == BOARD_PREFLOP,
                        na == tree.arity(j as int),
                        kids@.len() == na,
                        forall|b: int|
                            0 <= b < kids@.len() ==> (#[trigger] kids@[b]) as int == tree.child(
                                j as int,
                                b,
                            ),
                        marked@.len() == nn,
                        forall|i: int| #[trigger]
                            tree.is_node(i) ==> (marked@[i] <==> seam_upto(
                                tree,
                                i,
                                j as int,
                                a as int,
                            )),
                    decreases na - a,
                {
                    let child: usize = kids[a] as usize;
                    assert(tree.is_edge(j as int, a as int));
                    assert(tree.edge_ok(j as int, a as int));
                    let ghost was = marked@;
                    if tree.nodes[child].is_chance() {
                        marked.set(child, true);
                    }
                    proof {
                        assert forall|i: int| #[trigger] tree.is_node(i) implies (marked@[i]
                            <==> seam_upto(tree, i, j as int, a + 1)) by {
                            assert(was[i] <==> seam_upto(tree, i, j as int, a as int));
                            if seam_upto(tree, i, j as int, a + 1) {
                                let (k, b) = choose|k: int, b: int| #[trigger]
                                    is_marker(tree, i, j as int, a + 1, k, b);
                                if !(k == j && b == a) {
                                    assert(is_marker(tree, i, j as int, a as int, k, b));
                                }
                            }
                            if was[i] {
                                let (k, b) = choose|k: int, b: int| #[trigger]
                                    is_marker(tree, i, j as int, a as int, k, b);
                                assert(is_marker(tree, i, j as int, a + 1, k, b));
                            }
                            if i == child && tree.nodes@[child as int].is_chance() {
                                assert(is_marker(tree, i, j as int, a + 1, j as int, a as int));
                            }
                        }
                    }
                    a += 1;
                }
            }
            proof {
                assert forall|i: int| #[trigger] tree.is_node(i) implies (marked@[i] <==> seam_upto(
                    tree,
                    i,
                    j + 1,
                    0,
                )) by {
                    let n: int = if node.board_state == BOARD_PREFLOP {
                        na as int
                    } else {
                        0
                    };
                    assert(marked@[i] <==> seam_upto(tree, i, j as int, n));
                    if seam_upto(tree, i, j + 1, 0) {
                        let (k, b) = choose|k: int, b: int| #[trigger]
                            is_marker(tree, i, j + 1, 0, k, b);
                        assert(is_marker(tree, i, j as int, n, k, b));
                    }
                    if seam_upto(tree, i, j as int, n) {
                        let (k, b) = choose|k: int, b: int| #[trigger]
                            is_marker(tree, i, j as int, n, k, b);
                        assert(is_marker(tree, i, j + 1, 0, k, b));
                    }
                }
            }
            j += 1;
        }
        let mut out: Vec<usize> = Vec::new();
        let mut i: usize = 0;
        while i < nn
            invariant
                i <= nn,
                nn == tree.size(),
                marked@.len() == nn,
                forall|x: int| #[trigger]
                    tree.is_node(x) ==> (marked@[x] <==> seam_upto(tree, x, nn as int, 0)),
                forall|k: int|
                    0 <= k < out@.len() ==> (#[trigger] out@[k]) < i && marked@[out@[k] as int],
                forall|k: int, l: int|
                    0 <= k < l < out@.len() ==> (#[trigger] out@[k]) < (#[trigger] out@[l]),
                forall|x: int| 0 <= x < i && #[trigger] marked@[x] ==> out@.contains(x as usize),
            decreases nn - i,
        {
            let ghost was = out@;
            if marked[i] {
                out.push(i);
                assert(out@[out@.len() - 1] == i);
                assert forall|x: int| 0 <= x < i + 1 && #[trigger] marked@[x] implies out@.contains(
                    x as usize,
                ) by {
                    if x < i {
                        let k = choose|k: int| 0 <= k < was.len() && was[k] == x as usize;
                        assert(out@[k] == x as usize);
                    }
                }
            }
            i += 1;
        }
        proof {
            assert forall|x: int| #[trigger] is_seam(tree, x) implies out@.contains(x as usize) by {
                let (k, b) = choose|k: int, b: int| #[trigger]
                    tree.is_parent(k, b, x) && tree.nodes@[k].board_state == BOARD_PREFLOP;
                assert(tree.is_node(x));
                assert(is_marker(tree, x, nn as int, 0, k, b));
                assert(marked@[x]);
            }
            assert forall|k: int| 0 <= k < out@.len() implies is_seam(
                tree,
                (#[trigger] out@[k]) as int,
            ) by {
                let x = out@[k] as int;
                assert(tree.is_node(x));
                let (j, b) = choose|j: int, b: int| #[trigger]
                    is_marker(tree, x, nn as int, 0, j, b);
                assert(tree.is_parent(j, b, x) && tree.nodes@[j].board_state == BOARD_PREFLOP);
            }
        }
        out
    }
}

/// Edge `(k, b)` stands before edge `(j, a)`, and makes node `i` a seam.
spec fn is_marker(tree: &FlatTree, i: int, j: int, a: int, k: int, b: int) -> bool {
    &&& tree.is_parent(k, b, i)
    &&& tree.nodes@[k].board_state == BOARD_PREFLOP
    &&& tree.nodes@[i].is_chance()
    &&& k < j || k == j && b < a
}

spec fn seam_upto(tree: &FlatTree, i: int, j: int, a: int) -> bool {
    exists|k: int, b: int| #[trigger] is_marker(tree, i, j, a, k, b)
}

/// One row of classes per player.
pub open spec fn are_class_rows<T>(rows: Seq<Vec<T>>, np: int) -> bool {
    &&& rows.len() == np
    &&& forall|p: int| 0 <= p < np ==> (#[trigger] rows[p])@.len() == NUM_PREFLOP_CLASSES
}

/// One row of classes per player and node.
pub open spec fn is_reach_table<T>(tree: &FlatTree, reach: Seq<Vec<T>>) -> bool {
    &&& reach.len() == tree.np()
    &&& forall|p: int|
        0 <= p < tree.np() ==> (#[trigger] reach[p])@.len() == tree.size() * NUM_PREFLOP_CLASSES
}

/// Row `j` is zero for every player.
pub open spec fn row_blank<T: Scalar>(tree: &FlatTree, reach: Seq<Vec<T>>, j: int) -> bool {
    forall|p: int|
        0 <= p < tree.np() ==> row((#[trigger] reach[p])@, NUM_PREFLOP_CLASSES as int, j) == flat(
            T::s_zero(),
            NUM_PREFLOP_CLASSES as int,
        )
}

/// Row `j` is the same in both tables.
pub open spec fn rows_agree<T>(
    tree: &FlatTree,
    a: Seq<Vec<T>>,
    b: Seq<Vec<T>>,
    j: int,
) -> bool {
    forall|p: int|
        0 <= p < tree.np() ==> row((#[trigger] a[p])@, NUM_PREFLOP_CLASSES as int, j) == row(
            b[p]@,
            NUM_PREFLOP_CLASSES as int,
            j,
        )
}

proof fn lemma_blank_kept<T: Scalar>(tree: &FlatTree, a: Seq<Vec<T>>, b: Seq<Vec<T>>, j: int)
    requires
        row_blank(tree, a, j),
        rows_agree(tree, a, b, j),
    ensures
        row_blank(tree, b, j),
{
    assert forall|p: int| 0 <= p < tree.np() implies row(
        (#[trigger] b[p])@,
        NUM_PREFLOP_CLASSES as int,
        j,
    ) == flat(T::s_zero(), NUM_PREFLOP_CLASSES as int) by {
        assert(row(a[p]@, NUM_PREFLOP_CLASSES as int, j) == flat(
            T::s_zero(),
            NUM_PREFLOP_CLASSES as int,
        ));
    }
}

/// Rows other than the written one stay.
proof fn lemma_step<T>(tree: &FlatTree, a: Seq<Vec<T>>, b: Seq<Vec<T>>, c: int)
    requires
        is_reach_table(tree, a),
        is_reach_table(tree, b),
        forall|p: int|
            0 <= p < tree.np() ==> only_row(
                (#[trigger] a[p])@,
                b[p]@,
                NUM_PREFLOP_CLASSES as int,
                c,
            ),
    ensures
        forall|j: int|
            tree.is_node(j) && j != c ==> #[trigger] rows_agree(tree, a, b, j),
{
    let w = NUM_PREFLOP_CLASSES as int;
    assert forall|j: int| tree.is_node(j) && j != c implies #[trigger] rows_agree(tree, a, b, j) by {
        assert forall|p: int| 0 <= p < tree.np() implies row((#[trigger] a[p])@, w, j) == row(
            b[p]@,
            w,
            j,
        ) by {
            assert(b[p]@.len() == tree.size() * w);
            lemma_row_inside(w, tree.size(), j);
            lemma_other_row(a[p]@, b[p]@, w, c, j);
        }
    }
}

/// What every player starts with.
pub open spec fn first_reach<T: Scalar>(initial: Option<&Vec<Vec<T>>>, np: int) -> Seq<Seq<T>> {
    match initial {
        Some(ir) => views(ir@),
        None => Seq::new(
            np as nat,
            |p: int| flat(T::s_one(), NUM_PREFLOP_CLASSES as int),
        ),
    }
}

/// The reach at a node is the reach at its parent, times the parent's strategy where the
/// parent is the player's own decision.
pub proof fn law_reach_is_a_product<T: Scalar>(
    m: &PreflopVectorCfr<T>,
    tree: &FlatTree,
    first: Seq<T>,
    p: int,
    i: int,
    a: int,
)
    requires
        tree.wf(),
        tree.is_edge(i, a),
        reached(tree, i),
        tree.nodes@[i].board_state == BOARD_PREFLOP,
    ensures
        m.reach_at(tree, first, p, tree.child(i, a)) == (if tree.nodes@[i].is_player()
            && tree.nodes@[i].player_id == p {
            after(m.reach_at(tree, first, p, i), m.strategy_at(tree, i), a)
        } else {
            m.reach_at(tree, first, p, i)
        }),
{
    lemma_one_parent(tree, i, a);
}

} // verus!
