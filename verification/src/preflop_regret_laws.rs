//! What the walks before the flop write, entry by entry.
use vstd::prelude::*;

use crate::exact::{
    is_exact, lemma_orders, lemma_spread_difference, lemma_sum_add, lemma_sum_times, lemma_undo,
    lemma_units, Exact,
};
use crate::gain_laws::{faded, lemma_same_shift};
use crate::grid::lemma_grid;
use crate::layout::at;
use crate::learn::{discounts, next_cum, DcfrParams};
use crate::mccfr_steps::weighted;
use crate::postflop_oracle::PostflopValueOracle;
use crate::preflop_cfr::{law_infosets_are_apart, PreflopVectorCfr};
use crate::preflop_class::NUM_PREFLOP_CLASSES;
use crate::preflop_iterations::{are_rounds, given_values, is_iteration, is_round, is_scene_of};
use crate::preflop_laws::keeps_infoset;
use crate::preflop_run::Scene;
use crate::preflop_walk::{can_sweep, discounted, is_leaf, is_swept, lemma_swept_inside, Pass};
use crate::scalar::{sum_upto, Scalar, Widen};
use crate::tree::FlatTree;

verus! {

/// The place of action `a` and class `c` of node `j` in the books.
pub open spec fn entry_of<T: Scalar>(m: &PreflopVectorCfr<T>, j: int, a: int, c: int) -> int {
    m.start(j) + at(NUM_PREFLOP_CLASSES as int, a, c)
}

impl<T: Scalar, V: Fn(usize, u8, &Vec<Vec<T>>) -> Vec<T>> Pass<T, V> {
    /// What action `a` of node `j` is worth more than the node, with class `c`.
    pub open spec fn gain_of(&self, tree: &FlatTree, j: int, a: int, c: int) -> T {
        self.value(tree, tree.child(j, a))[c] - self.value(tree, j)[c]
    }

    /// Every entry of node `j` has its old regret, faded, plus what the action gains, and
    /// its old cumulative strategy by `gamma`, plus what is played.
    pub open spec fn books_gains(
        &self,
        tree: &FlatTree,
        p: &DcfrParams<T>,
        j: int,
        books: (Seq<T>, Seq<T>),
        after: (Seq<T>, Seq<T>),
    ) -> bool {
        forall|a: int, c: int|
            #![trigger entry_of(&self.m, j, a, c)]
            0 <= a < tree.arity(j) && 0 <= c < NUM_PREFLOP_CLASSES ==> {
                let x = entry_of(&self.m, j, a, c);
                &&& after.0[x] == faded(p, books.0[x]) + self.gain_of(tree, j, a, c)
                &&& after.1[x] == p.gamma() * books.1[x] + self.m.strategy@[x]
            }
    }

    proof fn lemma_values_of(&self, tree: &FlatTree, i: int, n: nat)
        requires
            tree.wf(),
            tree.is_node(i),
            n <= tree.arity(i),
        ensures
            self.values(tree, i, n).len() == n,
            forall|a: int|
                0 <= a < n ==> #[trigger] self.values(tree, i, n)[a] == self.value(
                    tree,
                    tree.child(i, a),
                ),
        decreases n,
    {
        if n > 0 {
            self.lemma_values_of(tree, i, (n - 1) as nat);
            let last: int = n - 1;
            let prev = self.values(tree, i, last as nat);
            let all = self.values(tree, i, n);
            assert(tree.is_edge(i, last));
            assert(tree.edge_ok(i, last));
            assert(all == prev.push(self.value(tree, tree.child(i, last))));
            assert forall|a: int| 0 <= a < n implies #[trigger] all[a] == self.value(
                tree,
                tree.child(i, a),
            ) by {
                if a < last {
                    assert(all[a] == prev[a]);
                }
            }
        }
    }

    /// A walk leaves the entries of every node outside the subtree as they were.
    pub proof fn law_walks_stay_inside(
        &self,
        tree: &FlatTree,
        p: &DcfrParams<T>,
        i: int,
        books: (Seq<T>, Seq<T>),
        j: int,
    )
        requires
            self.m.is_for(tree),
            tree.is_node(i),
            can_sweep(tree, self.leaves, i),
            tree.is_node(j),
            self.m.has_infoset(j),
            !tree.in_subtree(i, j),
        ensures
            keeps_infoset(&self.m, j, books, self.learned(tree, p, i, books)),
        decreases tree.max_depth + 1 - tree.level(i), 1int, 0nat,
    {
        if !is_leaf(self.leaves, i) && !tree.nodes@[i].is_terminal() {
            self.lemma_stay_inside_upto(tree, p, i, tree.arity(i) as nat, books, j);
            assert(i != j);
            self.lemma_booked_apart(
                tree,
                p,
                i,
                self.learned_upto(tree, p, i, tree.arity(i) as nat, books),
                j,
            );
        }
    }

    proof fn lemma_stay_inside_upto(
        &self,
        tree: &FlatTree,
        p: &DcfrParams<T>,
        i: int,
        n: nat,
        books: (Seq<T>, Seq<T>),
        j: int,
    )
        requires
            self.m.is_for(tree),
            tree.is_node(i),
            can_sweep(tree, self.leaves, i),
            !is_leaf(self.leaves, i),
            !tree.nodes@[i].is_terminal(),
            n <= tree.arity(i),
            tree.is_node(j),
            self.m.has_infoset(j),
            forall|a: int| #[trigger] tree.is_edge(i, a) && a < n ==> !tree.in_subtree(
                tree.child(i, a),
                j,
            ),
        ensures
            keeps_infoset(&self.m, j, books, self.learned_upto(tree, p, i, n, books)),
        decreases tree.max_depth + 1 - tree.level(i), 0int, n,
    {
        if n > 0 {
            let k: int = n - 1;
            assert(tree.is_edge(i, k));
            assert(tree.edge_ok(i, k));
            self.lemma_stay_inside_upto(tree, p, i, k as nat, books, j);
            self.law_walks_stay_inside(
                tree,
                p,
                tree.child(i, k),
                self.learned_upto(tree, p, i, k as nat, books),
                j,
            );
        }
    }

    /// What a decision writes leaves the entries of other nodes alone.
    proof fn lemma_booked_apart(
        &self,
        tree: &FlatTree,
        p: &DcfrParams<T>,
        i: int,
        books: (Seq<T>, Seq<T>),
        j: int,
    )
        requires
            self.m.is_for(tree),
            tree.is_node(i),
            can_sweep(tree, self.leaves, i),
            !is_leaf(self.leaves, i),
            !tree.nodes@[i].is_terminal(),
            tree.is_node(j),
            self.m.has_infoset(j),
            i != j,
        ensures
            keeps_infoset(&self.m, j, books, self.booked(tree, p, i, books)),
    {
        self.m.lemma_has_infoset(tree, i);
        self.m.lemma_room(tree, i);
        self.m.lemma_room(tree, j);
        if i < j {
            law_infosets_are_apart(&self.m, tree, i, j);
        } else {
            law_infosets_are_apart(&self.m, tree, j, i);
        }
    }

    /// What a decision writes into its own entries.
    proof fn lemma_booked_here(
        &self,
        tree: &FlatTree,
        p: &DcfrParams<T>,
        j: int,
        books: (Seq<T>, Seq<T>),
    )
        requires
            self.m.is_for(tree),
            tree.is_node(j),
            self.m.has_infoset(j),
            books.0.len() == self.m.total(),
            books.1.len() == self.m.total(),
        ensures
            self.books_gains(tree, p, j, books, self.booked(tree, p, j, books)),
            self.booked(tree, p, j, books).0.len() == books.0.len(),
            self.booked(tree, p, j, books).1.len() == books.1.len(),
    {
        let na = tree.arity(j);
        let w = NUM_PREFLOP_CLASSES as int;
        let from = self.m.start(j);
        let after = self.booked(tree, p, j, books);
        self.m.lemma_room(tree, j);
        self.lemma_values_of(tree, j, na as nat);
        let vs = self.values(tree, j, na as nat);
        let avg = self.value(tree, j);
        let old_regrets = books.0.subrange(from, from + na * w);
        let old_cum = books.1.subrange(from, from + na * w);
        let played = self.m.strategy@.subrange(from, from + na * w);
        let f = |a: int, c: int| discounted(p, old_regrets[at(w, a, c)], vs[a][c].s_minus(avg[c]));
        let g = |a: int, c: int| next_cum(p, old_cum[at(w, a, c)], played[at(w, a, c)]);
        assert forall|a: int, c: int|
            #![trigger entry_of(&self.m, j, a, c)]
            0 <= a < na && 0 <= c < NUM_PREFLOP_CLASSES implies {
            let x = entry_of(&self.m, j, a, c);
            &&& after.0[x] == faded(p, books.0[x]) + self.gain_of(tree, j, a, c)
            &&& after.1[x] == p.gamma() * books.1[x] + self.m.strategy@[x]
        } by {
            let x = entry_of(&self.m, j, a, c);
            lemma_grid(na, w, f, a, c);
            lemma_grid(na, w, g, a, c);
            assert(old_regrets[at(w, a, c)] == books.0[x]);
            assert(old_cum[at(w, a, c)] == books.1[x]);
            assert(played[at(w, a, c)] == self.m.strategy@[x]);
            assert(vs[a] == self.value(tree, tree.child(j, a)));
            assert(after.0[x] == f(a, c));
            assert(after.1[x] == g(a, c));
        }
    }

    /// A walk from node `i` writes every decision `j` of the traverser that it comes to
    /// just once: each regret is the old one, faded, plus what the action is worth more
    /// than the node.
    pub proof fn law_walks_book_each_gain_once(
        &self,
        tree: &FlatTree,
        p: &DcfrParams<T>,
        i: int,
        books: (Seq<T>, Seq<T>),
        j: int,
    )
        requires
            self.m.is_for(tree),
            tree.is_node(i),
            can_sweep(tree, self.leaves, i),
            is_swept(tree, self.leaves, i, j),
            !is_leaf(self.leaves, j),
            tree.is_node(j),
            self.m.has_infoset(j),
            tree.nodes@[j].player_id == self.t,
            books.0.len() == self.m.total(),
            books.1.len() == self.m.total(),
        ensures
            self.books_gains(tree, p, j, books, self.learned(tree, p, i, books)),
        decreases tree.max_depth + 1 - tree.level(i), 1int, 0nat,
    {
        let na = tree.arity(i);
        self.m.lemma_room(tree, j);
        let below = self.learned_upto(tree, p, i, na as nat, books);
        if i == j {
            assert(!tree.nodes@[i].is_terminal());
            assert forall|a: int| #[trigger] tree.is_edge(i, a) && a < na implies !tree.in_subtree(
                tree.child(i, a),
                j,
            ) by {
                assert(tree.edge_ok(i, a));
                if tree.in_subtree(tree.child(i, a), j) {
                    tree.lemma_subtree_level(tree.child(i, a), j);
                }
            }
            self.lemma_stay_inside_upto(tree, p, i, na as nat, books, j);
            self.lemma_booked_here(tree, p, j, below);
            self.lemma_through(tree, p, j, books, below, self.learned(tree, p, i, books));
        } else {
            let a = choose|a: int| #[trigger]
                tree.is_edge(i, a) && is_swept(tree, self.leaves, tree.child(i, a), j);
            assert(tree.edge_ok(i, a));
            assert(!is_leaf(self.leaves, i));
            assert(tree.node_ok(i));
            self.lemma_books_upto(tree, p, i, na as nat, books, j, a);
            self.lemma_booked_apart(tree, p, i, below, j);
            self.lemma_then_kept(tree, p, j, books, below, self.learned(tree, p, i, books));
        }
    }

    /// Entries that were kept up to `mid` and booked from there.
    proof fn lemma_through(
        &self,
        tree: &FlatTree,
        p: &DcfrParams<T>,
        j: int,
        books: (Seq<T>, Seq<T>),
        mid: (Seq<T>, Seq<T>),
        after: (Seq<T>, Seq<T>),
    )
        requires
            self.m.is_for(tree),
            tree.is_node(j),
            self.m.has_infoset(j),
            books.0.len() == self.m.total(),
            books.1.len() == self.m.total(),
            keeps_infoset(&self.m, j, books, mid),
            self.books_gains(tree, p, j, mid, after),
        ensures
            self.books_gains(tree, p, j, books, after),
    {
        let na = tree.arity(j);
        let w = NUM_PREFLOP_CLASSES as int;
        self.m.lemma_room(tree, j);
        assert forall|a: int, c: int|
            #![trigger entry_of(&self.m, j, a, c)]
            0 <= a < na && 0 <= c < NUM_PREFLOP_CLASSES implies {
            let x = entry_of(&self.m, j, a, c);
            &&& after.0[x] == faded(p, books.0[x]) + self.gain_of(tree, j, a, c)
            &&& after.1[x] == p.gamma() * books.1[x] + self.m.strategy@[x]
        } by {
            let x = entry_of(&self.m, j, a, c);
            lemma_grid(na, w, |a: int, c: int| T::s_zero(), a, c);
            assert(mid.0[x] == books.0[x]);
            assert(mid.1[x] == books.1[x]);
        }
    }

    /// Entries that were booked up to `mid` and kept from there.
    proof fn lemma_then_kept(
        &self,
        tree: &FlatTree,
        p: &DcfrParams<T>,
        j: int,
        books: (Seq<T>, Seq<T>),
        mid: (Seq<T>, Seq<T>),
        after: (Seq<T>, Seq<T>),
    )
        requires
            self.m.is_for(tree),
            tree.is_node(j),
            self.m.has_infoset(j),
            mid.0.len() == self.m.total(),
            mid.1.len() == self.m.total(),
            keeps_infoset(&self.m, j, mid, after),
            self.books_gains(tree, p, j, books, mid),
        ensures
            self.books_gains(tree, p, j, books, after),
    {
        let na = tree.arity(j);
        let w = NUM_PREFLOP_CLASSES as int;
        self.m.lemma_room(tree, j);
        assert forall|a: int, c: int|
            #![trigger entry_of(&self.m, j, a, c)]
            0 <= a < na && 0 <= c < NUM_PREFLOP_CLASSES implies {
            let x = entry_of(&self.m, j, a, c);
            &&& after.0[x] == faded(p, books.0[x]) + self.gain_of(tree, j, a, c)
            &&& after.1[x] == p.gamma() * books.1[x] + self.m.strategy@[x]
        } by {
            let x = entry_of(&self.m, j, a, c);
            lemma_grid(na, w, |a: int, c: int| T::s_zero(), a, c);
            assert(after.0[x] == mid.0[x]);
            assert(after.1[x] == mid.1[x]);
        }
    }

    /// Books keep their length.
    proof fn lemma_lengths(
        &self,
        tree: &FlatTree,
        p: &DcfrParams<T>,
        i: int,
        books: (Seq<T>, Seq<T>),
    )
        requires
            self.m.is_for(tree),
            tree.is_node(i),
        ensures
            self.learned(tree, p, i, books).0.len() == books.0.len(),
            self.learned(tree, p, i, books).1.len() == books.1.len(),
        decreases tree.max_depth + 1 - tree.level(i), 1int, 0nat,
    {
        if !is_leaf(self.leaves, i) && !tree.nodes@[i].is_terminal() {
            self.lemma_lengths_upto(tree, p, i, tree.arity(i) as nat, books);
        }
    }

    proof fn lemma_lengths_upto(
        &self,
        tree: &FlatTree,
        p: &DcfrParams<T>,
        i: int,
        n: nat,
        books: (Seq<T>, Seq<T>),
    )
        requires
            self.m.is_for(tree),
            tree.is_node(i),
            n <= tree.arity(i),
        ensures
            self.learned_upto(tree, p, i, n, books).0.len() == books.0.len(),
            self.learned_upto(tree, p, i, n, books).1.len() == books.1.len(),
        decreases tree.max_depth + 1 - tree.level(i), 0int, n,
    {
        if n > 0 {
            let k: int = n - 1;
            assert(tree.is_edge(i, k));
            assert(tree.edge_ok(i, k));
            self.lemma_lengths_upto(tree, p, i, k as nat, books);
            self.lemma_lengths(
                tree,
                p,
                tree.child(i, k),
                self.learned_upto(tree, p, i, k as nat, books),
            );
        }
    }

    /// After the first `n` actions the entries of a node under action `a` are untouched, or
    /// booked once.
    proof fn lemma_books_upto(
        &self,
        tree: &FlatTree,
        p: &DcfrParams<T>,
        i: int,
        n: nat,
        books: (Seq<T>, Seq<T>),
        j: int,
        a: int,
    )
        requires
            self.m.is_for(tree),
            tree.is_node(i),
            can_sweep(tree, self.leaves, i),
            !is_leaf(self.leaves, i),
            !tree.nodes@[i].is_terminal(),
            a < n <= tree.arity(i),
            tree.is_edge(i, a),
            is_swept(tree, self.leaves, tree.child(i, a), j),
            !is_leaf(self.leaves, j),
            tree.is_node(j),
            self.m.has_infoset(j),
            tree.nodes@[j].player_id == self.t,
            books.0.len() == self.m.total(),
            books.1.len() == self.m.total(),
        ensures
            self.books_gains(tree, p, j, books, self.learned_upto(tree, p, i, n, books)),
            self.learned_upto(tree, p, i, n, books).0.len() == books.0.len(),
            self.learned_upto(tree, p, i, n, books).1.len() == books.1.len(),
        decreases tree.max_depth + 1 - tree.level(i), 0int, n,
    {
        let k: int = n - 1;
        assert(tree.is_edge(i, k));
        assert(tree.edge_ok(i, k));
        assert(tree.edge_ok(i, a));
        let c = tree.child(i, a);
        lemma_swept_inside(tree, self.leaves, c, j);
        self.lemma_lengths_upto(tree, p, i, k as nat, books);
        let mid = self.learned_upto(tree, p, i, k as nat, books);
        self.lemma_lengths(tree, p, tree.child(i, k), mid);
        let after = self.learned_upto(tree, p, i, n, books);
        if k == a {
            assert forall|b: int| #[trigger] tree.is_edge(i, b) && b < k implies !tree.in_subtree(
                tree.child(i, b),
                j,
            ) by {
                self.lemma_other_child(tree, i, a, b, j);
            }
            self.lemma_stay_inside_upto(tree, p, i, k as nat, books, j);
            self.law_walks_book_each_gain_once(tree, p, c, mid, j);
            self.lemma_through(tree, p, j, books, mid, after);
        } else {
            self.lemma_books_upto(tree, p, i, k as nat, books, j, a);
            self.lemma_other_child(tree, i, a, k, j);
            self.law_walks_stay_inside(tree, p, tree.child(i, k), mid, j);
            self.lemma_then_kept(tree, p, j, books, mid, after);
        }
    }

    proof fn lemma_other_child(&self, tree: &FlatTree, i: int, a: int, b: int, j: int)
        requires
            tree.wf(),
            tree.is_node(i),
            tree.is_edge(i, a),
            tree.is_edge(i, b),
            a != b,
            tree.in_subtree(tree.child(i, a), j),
        ensures
            !tree.in_subtree(tree.child(i, b), j),
    {
        assert(tree.edge_ok(i, a));
        assert(tree.edge_ok(i, b));
        if tree.in_subtree(tree.child(i, b), j) {
            tree.lemma_subtree_apart(tree.child(i, a), tree.child(i, b), j);
        }
    }
}

impl<T: Scalar, V: Fn(usize, u8, &Vec<Vec<T>>) -> Vec<T>> Pass<T, V> {
    /// The walk comes to node `j`, a decision of the traverser.
    pub open spec fn comes_to(&self, tree: &FlatTree, j: int) -> bool {
        &&& self.m.is_for(tree)
        &&& can_sweep(tree, self.leaves, 0)
        &&& is_swept(tree, self.leaves, 0, j)
        &&& !is_leaf(self.leaves, j)
        &&& tree.is_node(j)
        &&& self.m.has_infoset(j)
        &&& tree.nodes@[j].player_id == self.t
    }

    /// Two passes of a traverser, one after the other: each regret after both is `alpha` or
    /// `beta` times the regret after the first, plus what the action gains in the second,
    /// and the same holds of the first.
    pub proof fn law_two_walks_accumulate(
        &self,
        tree: &FlatTree,
        p: &DcfrParams<T>,
        then: &Self,
        q: &DcfrParams<T>,
        books: (Seq<T>, Seq<T>),
        j: int,
        a: int,
        c: int,
    )
        requires
            self.comes_to(tree, j),
            then.comes_to(tree, j),
            then.m.local_offset == self.m.local_offset,
            then.m.infoset_count == self.m.infoset_count,
            books.0.len() == self.m.total(),
            books.1.len() == self.m.total(),
            0 <= a < tree.arity(j),
            0 <= c < NUM_PREFLOP_CLASSES,
        ensures
            ({
                let x = entry_of(&self.m, j, a, c);
                let r = books.0[x];
                let first = self.learned(tree, p, 0, books);
                let second = then.learned(tree, q, 0, first);
                let g1 = self.value(tree, tree.child(j, a))[c] - self.value(tree, j)[c];
                let g2 = then.value(tree, tree.child(j, a))[c] - then.value(tree, j)[c];
                let r1 = (if T::s_zero().s_at_most(r) {
                    p.alpha()
                } else {
                    p.beta()
                }) * r + g1;
                &&& first.0[x] == r1
                &&& second.0[x] == (if T::s_zero().s_at_most(r1) {
                    q.alpha()
                } else {
                    q.beta()
                }) * r1 + g2
            }),
    {
        let first = self.learned(tree, p, 0, books);
        let x = entry_of(&self.m, j, a, c);
        self.law_walks_book_each_gain_once(tree, p, 0, books, j);
        self.lemma_lengths(tree, p, 0, books);
        then.law_walks_book_each_gain_once(tree, q, 0, first, j);
        assert(entry_of(&then.m, j, a, c) == x);
    }

    /// Two walks that differ in one old regret, neither negative, write regrets that differ
    /// by `alpha` times the difference, where numbers are exact.
    pub proof fn law_walks_remember(
        &self,
        tree: &FlatTree,
        p: &DcfrParams<T>,
        books: (Seq<T>, Seq<T>),
        others: (Seq<T>, Seq<T>),
        j: int,
        a: int,
        c: int,
    )
        requires
            is_exact::<T>(),
            self.comes_to(tree, j),
            books.0.len() == self.m.total(),
            books.1.len() == self.m.total(),
            others.0.len() == self.m.total(),
            others.1.len() == self.m.total(),
            0 <= a < tree.arity(j),
            0 <= c < NUM_PREFLOP_CLASSES,
            T::s_zero().s_at_most(books.0[entry_of(&self.m, j, a, c)]),
            T::s_zero().s_at_most(others.0[entry_of(&self.m, j, a, c)]),
        ensures
            ({
                let x = entry_of(&self.m, j, a, c);
                self.learned(tree, p, 0, books).0[x] - self.learned(tree, p, 0, others).0[x]
                    == p.alpha() * (books.0[x] - others.0[x])
            }),
    {
        let x = entry_of(&self.m, j, a, c);
        self.law_walks_book_each_gain_once(tree, p, 0, books, j);
        self.law_walks_book_each_gain_once(tree, p, 0, others, j);
        let (r, s) = (books.0[x], others.0[x]);
        lemma_same_shift(p.alpha() * r, p.alpha() * s, self.gain_of(tree, j, a, c));
        lemma_spread_difference(p.alpha(), r, s);
    }

    /// Where numbers are exact and the strategy's probabilities for a class add up to one,
    /// what the actions gain over the node, each times its probability, adds up to nothing.
    pub proof fn law_gains_cancel_out(&self, tree: &FlatTree, j: int, c: int)
        requires
            is_exact::<T>(),
            self.comes_to(tree, j),
            0 <= c < NUM_PREFLOP_CLASSES,
            sum_upto(self.probabilities(tree, j, c), tree.arity(j) as nat) == T::s_one(),
        ensures
            sum_upto(self.played_gains(tree, j, c), tree.arity(j) as nat) == T::s_zero(),
    {
        let na = tree.arity(j);
        let n = na as nat;
        let w = NUM_PREFLOP_CLASSES as int;
        let vs = self.values(tree, j, n);
        let s = self.m.strategy_at(tree, j);
        let avg = self.value(tree, j)[c];
        self.m.lemma_has_infoset(tree, j);
        self.m.lemma_room(tree, j);
        self.lemma_values_of(tree, j, n);
        let p = self.probabilities(tree, j, c);
        let f = weighted(s, w, vs, c);
        let g = self.played_gains(tree, j, c);
        let k = |a: int| avg * p(a);
        assert forall|a: int| 0 <= a < n implies #[trigger] f(a) == g(a) + k(a) by {
            lemma_grid(na, w, |a: int, c: int| T::s_zero(), a, c);
            assert(s[at(w, a, c)] == self.m.strategy@[entry_of(&self.m, j, a, c)]);
            assert(vs[a] == self.value(tree, tree.child(j, a)));
            let v = vs[a][c];
            lemma_spread_difference(p(a), v, avg);
            lemma_undo(p(a) * v, p(a) * avg);
            lemma_orders(p(a), avg, avg);
        }
        lemma_sum_add(g, k, f, n);
        lemma_sum_times(avg, p, k, n);
        lemma_units(avg);
        assert(avg == sum_upto(f, n));
        lemma_undo(sum_upto(g, n), avg);
        lemma_undo(T::s_zero(), avg);
        lemma_orders(sum_upto(g, n), avg, avg);
        lemma_orders(T::s_zero(), avg, avg);
    }

    /// The probabilities of the actions of node `j` with class `c`.
    pub open spec fn probabilities(&self, tree: &FlatTree, j: int, c: int) -> spec_fn(int) -> T {
        |a: int| self.m.strategy@[entry_of(&self.m, j, a, c)]
    }

    /// What the actions gain over node `j` with class `c`, each times its probability.
    pub open spec fn played_gains(&self, tree: &FlatTree, j: int, c: int) -> spec_fn(int) -> T {
        |a: int| self.m.strategy@[entry_of(&self.m, j, a, c)] * self.gain_of(tree, j, a, c)
    }
}

/// What action `a` of node `j` gains in each of the passes.
pub open spec fn pass_gains<T: Scalar, V: Fn(usize, u8, &Vec<Vec<T>>) -> Vec<T>>(
    tree: &FlatTree,
    passes: Seq<Pass<T, V>>,
    j: int,
    a: int,
    c: int,
) -> spec_fn(int) -> T {
    |k: int| passes[k].value(tree, tree.child(j, a))[c] - passes[k].value(tree, j)[c]
}

/// What is played in each of the passes.
pub open spec fn pass_plays<T: Scalar, V: Fn(usize, u8, &Vec<Vec<T>>) -> Vec<T>>(
    passes: Seq<Pass<T, V>>,
    x: int,
) -> spec_fn(int) -> T {
    |k: int| passes[k].m.strategy@[x]
}

/// Without discounts and where numbers are exact, the regrets after any number of walks are
/// those before them plus the sum, over all walks, of what the action is worth more than
/// the node; the cumulative strategy is that before them plus all that was played.
pub proof fn law_undiscounted_walks_add_up<T: Scalar, V: Fn(usize, u8, &Vec<Vec<T>>) -> Vec<T>>(
    tree: &FlatTree,
    p: &DcfrParams<T>,
    passes: Seq<Pass<T, V>>,
    books: Seq<(Seq<T>, Seq<T>)>,
    j: int,
    a: int,
    c: int,
    x: int,
    n: nat,
)
    requires
        is_exact::<T>(),
        p.alpha() == T::s_one(),
        p.beta() == T::s_one(),
        p.gamma() == T::s_one(),
        0 <= a < tree.arity(j),
        0 <= c < NUM_PREFLOP_CLASSES,
        forall|k: int|
            0 <= k < n ==> {
                &&& (#[trigger] passes[k]).comes_to(tree, j)
                &&& entry_of(&passes[k].m, j, a, c) == x
                &&& books[k].0.len() == passes[k].m.total()
                &&& books[k].1.len() == passes[k].m.total()
                &&& books[k + 1] == passes[k].learned(tree, p, 0, books[k])
            },
    ensures
        books[n as int].0[x] == books[0].0[x] + sum_upto(pass_gains(tree, passes, j, a, c), n),
        books[n as int].1[x] == books[0].1[x] + sum_upto(pass_plays(passes, x), n),
    decreases n,
{
    let (r, s) = (books[0].0[x], books[0].1[x]);
    if n == 0 {
        lemma_units(r);
        lemma_units(s);
    } else {
        let m = (n - 1) as nat;
        let k: int = n - 1;
        law_undiscounted_walks_add_up(tree, p, passes, books, j, a, c, x, m);
        let pass = passes[k];
        pass.law_walks_book_each_gain_once(tree, p, 0, books[k], j);
        assert(entry_of(&pass.m, j, a, c) == x);
        let f = pass_gains(tree, passes, j, a, c);
        let g = pass_plays(passes, x);
        lemma_units(books[k].0[x]);
        lemma_units(books[k].1[x]);
        lemma_orders(r, sum_upto(f, m), f(k));
        lemma_orders(s, sum_upto(g, m), g(k));
    }
}

/// A pass for traverser `t` over the scene, played with the matched strategies.
pub open spec fn is_pass_of<T: Scalar, E, R, G, H, V>(
    sc: &Scene<T, E, R, G, H, V>,
    matched: &PreflopVectorCfr<T>,
    t: u8,
    pass: Pass<T, V>,
) -> bool {
    &&& pass.t == t
    &&& pass.leaves == sc.list
    &&& pass.reach == sc.reach
    &&& pass.f == sc.f
    &&& plays_alike(&pass.m, matched)
}

/// Solvers that differ in what they learned at most.
pub open spec fn plays_alike<T>(a: &PreflopVectorCfr<T>, b: &PreflopVectorCfr<T>) -> bool {
    &&& a.num_players == b.num_players
    &&& a.infoset_count == b.infoset_count
    &&& a.local_offset == b.local_offset
    &&& a.iteration == b.iteration
    &&& a.strategy == b.strategy
    &&& a.regrets@.len() == b.regrets@.len()
    &&& a.cum_strategy@.len() == b.cum_strategy@.len()
}

/// Node `j` was booked once, by a pass of its owner.
pub open spec fn is_booked_once<
    T: Scalar,
    E: Fn([u8; 3], &Vec<T>) -> Vec<T>,
    R: Fn([u8; 3], &Vec<T>) -> Vec<T>,
    G: Fn(&Vec<Vec<T>>) -> Vec<T>,
    H: Fn(&Vec<usize>, &Vec<Vec<T>>) -> Vec<T>,
    V: Fn(usize, u8, &Vec<Vec<T>>) -> Vec<T>,
>(
    sc: &Scene<T, E, R, G, H, V>,
    params: &DcfrParams<T>,
    m: &PreflopVectorCfr<T>,
    m2: &PreflopVectorCfr<T>,
    j: int,
) -> bool {
    exists|pass: Pass<T, V>| #[trigger]
        is_pass_of(sc, m, sc.tree.nodes@[j].player_id, pass) && pass.books_gains(
            &sc.tree,
            params,
            j,
            (m.regrets@, m.cum_strategy@),
            (m2.regrets@, m2.cum_strategy@),
        )
}

/// Through the rounds of the first `n` traversers a decision keeps its entries until its
/// owner's round, is booked once in it, and keeps them from then on.
pub proof fn law_rounds_book_each_decision_once<
    T: Scalar,
    O: PostflopValueOracle<T>,
    E: Fn([u8; 3], &Vec<T>) -> Vec<T>,
    R: Fn([u8; 3], &Vec<T>) -> Vec<T>,
    G: Fn(&Vec<Vec<T>>) -> Vec<T>,
    H: Fn(&Vec<usize>, &Vec<Vec<T>>) -> Vec<T>,
    V: Fn(usize, u8, &Vec<Vec<T>>) -> Vec<T>,
>(
    sc: &Scene<T, E, R, G, H, V>,
    params: &DcfrParams<T>,
    m: &PreflopVectorCfr<T>,
    o: &O,
    m2: &PreflopVectorCfr<T>,
    o2: &O,
    j: int,
    n: nat,
)
    requires
        m.is_for(&sc.tree),
        can_sweep(&sc.tree, sc.list, 0),
        is_swept(&sc.tree, sc.list, 0, j),
        !is_leaf(sc.list, j),
        sc.tree.is_node(j),
        m.has_infoset(j),
        n <= sc.tree.np(),
        are_rounds(sc, params, m, o, m2, o2, n),
    ensures
        plays_alike(m2, m),
        n <= sc.tree.nodes@[j].player_id ==> keeps_infoset(
            m,
            j,
            (m.regrets@, m.cum_strategy@),
            (m2.regrets@, m2.cum_strategy@),
        ),
        n > sc.tree.nodes@[j].player_id ==> is_booked_once(sc, params, m, m2, j),
    decreases n,
{
    let tree = &sc.tree;
    let owner = tree.nodes@[j].player_id;
    if n > 0 {
        let t = (n - 1) as u8;
        assert(t as int == n - 1);
        let (mm, mo) = choose|mm: PreflopVectorCfr<T>, mo: O|
            are_rounds(sc, params, m, o, &mm, &mo, (n - 1) as nat) && #[trigger] is_round(
                sc,
                params,
                t,
                &mm,
                &mo,
                m2,
                o2,
            );
        law_rounds_book_each_decision_once(sc, params, m, o, &mm, &mo, j, (n - 1) as nat);
        let vs = choose|vs: Seq<Seq<T>>| #[trigger]
            sc.are_valued(t, &mo, o2, vs, sc.list.len()) && {
                let pass = Pass {
                    m: mm,
                    t,
                    leaves: sc.list,
                    given: given_values(sc.tree.size(), sc.list, vs),
                    reach: sc.reach,
                    f: sc.f,
                };
                &&& pass.plays_as(m2)
                &&& (m2.regrets@, m2.cum_strategy@) == pass.learned(
                    &sc.tree,
                    params,
                    0,
                    (mm.regrets@, mm.cum_strategy@),
                )
            };
        let pass = Pass {
            m: mm,
            t,
            leaves: sc.list,
            given: given_values(sc.tree.size(), sc.list, vs),
            reach: sc.reach,
            f: sc.f,
        };
        assert(mm.is_for(tree));
        let was = (m.regrets@, m.cum_strategy@);
        let mid = (mm.regrets@, mm.cum_strategy@);
        let now = (m2.regrets@, m2.cum_strategy@);
        pass.lemma_lengths(tree, params, 0, mid);
        assert(tree.is_node(0));
        if t == owner {
            pass.law_walks_book_each_gain_once(tree, params, 0, mid, j);
            pass.lemma_through(tree, params, j, was, mid, now);
            assert(is_pass_of(sc, m, owner, pass));
        } else {
            pass.law_others_keep_their_books(tree, params, 0, mid, j);
            assert(mm.start(j) == m.start(j));
            if n > owner {
                let earlier = choose|earlier: Pass<T, V>| #[trigger]
                    is_pass_of(sc, m, owner, earlier) && earlier.books_gains(
                        tree,
                        params,
                        j,
                        was,
                        mid,
                    );
                assert(earlier.m.is_for(tree));
                assert(earlier.m.start(j) == m.start(j));
                earlier.lemma_then_kept(tree, params, j, was, mid, now);
                assert(is_pass_of(sc, m, owner, earlier));
            }
        }
    }
}

/// One iteration books every decision before the flop once: each regret afterwards is the
/// regret before, times the iteration's discount, plus what the action is worth more than
/// the node in its owner's pass.
pub proof fn law_iterations_accumulate<
    T: Widen,
    O: PostflopValueOracle<T>,
    E: Fn([u8; 3], &Vec<T>) -> Vec<T>,
    R: Fn([u8; 3], &Vec<T>) -> Vec<T>,
    G: Fn(&Vec<Vec<T>>) -> Vec<T>,
    H: Fn(&Vec<usize>, &Vec<Vec<T>>) -> Vec<T>,
    V: Fn(usize, u8, &Vec<Vec<T>>) -> Vec<T>,
>(
    sc: &Scene<T, E, R, G, H, V>,
    m: &PreflopVectorCfr<T>,
    o: &O,
    m2: &PreflopVectorCfr<T>,
    o2: &O,
    j: int,
) -> (found: (DcfrParams<T>, Pass<T, V>))
    requires
        m.is_for(&sc.tree),
        can_sweep(&sc.tree, sc.list, 0),
        is_swept(&sc.tree, sc.list, 0, j),
        !is_leaf(sc.list, j),
        sc.tree.is_node(j),
        m.has_infoset(j),
        m.matched_upto(&sc.tree, sc.tree.decision_node_ids@.len()).len() == m.total(),
        is_iteration(sc, m, o, m2, o2),
    ensures
        (found.0.alpha(), found.0.beta(), found.0.gamma()) == discounts::<T>(m.iteration as int),
        found.1.t == sc.tree.nodes@[j].player_id,
        found.1.leaves == sc.list,
        found.1.reach == sc.reach,
        found.1.m.strategy@ == m.matched_upto(&sc.tree, sc.tree.decision_node_ids@.len()),
        found.1.m.local_offset == m.local_offset,
        found.1.books_gains(
            &sc.tree,
            &found.0,
            j,
            (m.regrets@, m.cum_strategy@),
            (m2.regrets@, m2.cum_strategy@),
        ),
{
    let (params, matched, o1, last, o3) = choose|
        params: DcfrParams<T>,
        matched: PreflopVectorCfr<T>,
        o1: O,
        last: PreflopVectorCfr<T>,
        o3: O,
    |
        #![trigger is_scene_of(sc, m, &matched), are_rounds(sc, &params, &matched, &o1, &last, &o3, sc.tree.np() as nat)]
        is_scene_of(sc, m, &matched) && (params.alpha(), params.beta(), params.gamma())
            == discounts::<T>(m.iteration as int) && o.s_begins(&o1, m.iteration) && are_rounds(
            sc,
            &params,
            &matched,
            &o1,
            &last,
            &o3,
            sc.tree.np() as nat,
        ) && o3.s_ends(o2, m.iteration) && *m2 == (PreflopVectorCfr {
            iteration: (m.iteration + 1) as u32,
            ..last
        });
    let owner = sc.tree.nodes@[j].player_id;
    assert(matched.is_for(&sc.tree));
    matched.lemma_has_infoset(&sc.tree, j);
    assert(sc.tree.node_ok(j));
    law_rounds_book_each_decision_once(
        sc,
        &params,
        &matched,
        &o1,
        &last,
        &o3,
        j,
        sc.tree.np() as nat,
    );
    let pass = choose|pass: Pass<T, V>| #[trigger]
        is_pass_of(sc, &matched, owner, pass) && pass.books_gains(
            &sc.tree,
            &params,
            j,
            (matched.regrets@, matched.cum_strategy@),
            (last.regrets@, last.cum_strategy@),
        );
    (params, pass)
}

} // verus!
