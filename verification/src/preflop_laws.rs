//! What a walk leaves alone.
use vstd::prelude::*;

use crate::learn::DcfrParams;
use crate::preflop_cfr::{law_infosets_are_apart, INFOSET_ROOM, PreflopVectorCfr};
use crate::preflop_walk::{can_sweep, is_leaf, Pass};
use crate::scalar::Scalar;
use crate::tree::FlatTree;

verus! {

/// The books keep their length, and the entries of node `j`'s infoset.
pub open spec fn keeps_infoset<T: Scalar>(
    m: &PreflopVectorCfr<T>,
    j: int,
    books: (Seq<T>, Seq<T>),
    after: (Seq<T>, Seq<T>),
) -> bool {
    &&& after.0.len() == books.0.len()
    &&& after.1.len() == books.1.len()
    &&& forall|x: int|
        m.start(j) <= x < m.start(j) + INFOSET_ROOM && x < books.0.len() ==> #[trigger] after.0[x]
            == books.0[x]
    &&& forall|x: int|
        m.start(j) <= x < m.start(j) + INFOSET_ROOM && x < books.1.len() ==> #[trigger] after.1[x]
            == books.1[x]
}

impl<T: Scalar, V: Fn(usize, u8, &Vec<Vec<T>>) -> Vec<T>> Pass<T, V> {
    /// A walk for one traverser leaves the regrets and the cumulative strategy of every
    /// other player's infosets as they were.
    pub proof fn law_others_keep_their_books(
        &self,
        tree: &FlatTree,
        p: &DcfrParams<T>,
        i: int,
        books: (Seq<T>, Seq<T>),
        j: int,
    )
        requires
            self.m.is_for(tree),
            tree.is_node(i),
            can_sweep(tree, self.leaves, i),
            tree.is_node(j),
            self.m.has_infoset(j),
            tree.nodes@[j].player_id != self.t,
        ensures
            keeps_infoset(&self.m, j, books, self.learned(tree, p, i, books)),
        decreases tree.max_depth + 1 - tree.level(i), 1int, 0nat,
    {
        if !is_leaf(self.leaves, i) && !tree.nodes@[i].is_terminal() {
            let na = tree.arity(i);
            self.lemma_others_keep_upto(tree, p, i, na as nat, books, j);
            self.m.lemma_has_infoset(tree, i);
            if tree.nodes@[i].player_id == self.t {
                self.m.lemma_room(tree, i);
                self.m.lemma_room(tree, j);
                if i < j {
                    law_infosets_are_apart(&self.m, tree, i, j);
                } else {
                    law_infosets_are_apart(&self.m, tree, j, i);
                }
            }
        }
    }

    proof fn lemma_others_keep_upto(
        &self,
        tree: &FlatTree,
        p: &DcfrParams<T>,
        i: int,
        n: nat,
        books: (Seq<T>, Seq<T>),
        j: int,
    )
        requires
            self.m.is_for(tree),
            tree.is_node(i),
            can_sweep(tree, self.leaves, i),
            !is_leaf(self.leaves, i),
            !tree.nodes@[i].is_terminal(),
            n <= tree.arity(i),
            tree.is_node(j),
            self.m.has_infoset(j),
            tree.nodes@[j].player_id != self.t,
        ensures
            keeps_infoset(&self.m, j, books, self.learned_upto(tree, p, i, n, books)),
        decreases tree.max_depth + 1 - tree.level(i), 0int, n,
    {
        if n > 0 {
            let k: int = n - 1;
            assert(tree.is_edge(i, k));
            assert(tree.edge_ok(i, k));
            self.lemma_others_keep_upto(tree, p, i, k as nat, books, j);
            self.law_others_keep_their_books(
                tree,
                p,
                tree.child(i, k),
                self.learned_upto(tree, p, i, k as nat, books),
                j,
            );
        }
    }
}

} // verus!
