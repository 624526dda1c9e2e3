//! Counterfactual regret minimisation before the flop, on classes of hands.
use vstd::prelude::*;

use crate::bank::{share, shares_into};
use crate::grid::{cut, cut_of, grid, lemma_is_grid, put, put_into};
use crate::layout::{count_upto, flat, lemma_count_bound};
use crate::preflop_class::NUM_PREFLOP_CLASSES;
use crate::scalar::{filled, match_eps, s_match_eps, Scalar};
use crate::tree::{BOARD_PREFLOP, FlatTree, MAX_NA_PREFLOP, UNUSED};

verus! {

/// Entries that one infoset takes.
pub const INFOSET_ROOM: usize = 2704;

/// Tells the decisions before the flop.
pub open spec fn is_preflop_decision(tree: &FlatTree) -> spec_fn(int) -> bool {
    |i: int| tree.nodes@[i].board_state == BOARD_PREFLOP && tree.nodes@[i].is_player()
}

/// Every decision before the flop fits its infoset.
pub open spec fn fits_infosets(tree: &FlatTree) -> bool {
    forall|i: int|
        tree.is_node(i) && #[trigger] is_preflop_decision(tree)(i) ==> tree.arity(i)
            <= MAX_NA_PREFLOP
}

/// Regrets and strategies of the decisions before the flop: one infoset per decision,
/// one row of classes per action.
pub struct PreflopVectorCfr<T> {
    pub num_players: u8,
    pub infoset_count: usize,
    /// Infoset of each decision before the flop; `UNUSED` for all other nodes.
    pub local_offset: Vec<usize>,
    pub iteration: u32,
    pub strategy: Vec<T>,
    pub regrets: Vec<T>,
    pub cum_strategy: Vec<T>,
}

/// The uniform strategy of `na` actions.
pub open spec fn uniform<T: Scalar>(na: int) -> Seq<T> {
    flat(T::s_one().s_over(T::s_of(na)), na * NUM_PREFLOP_CLASSES)
}

/// Regret matching for all classes; what is not over the match threshold counts as
/// zero.
pub open spec fn class_matched<T: Scalar>(regrets: Seq<T>, na: int) -> Seq<T> {
    grid(
        na,
        NUM_PREFLOP_CLASSES as int,
        |a: int, c: int|
            share(regrets, NUM_PREFLOP_CLASSES as int, na, s_match_eps::<T>(), a, c),
    )
}

/// Computes [`class_matched`].
fn match_classes<T: Scalar>(regrets: &Vec<T>, na: usize) -> (out: Vec<T>)
    requires
        regrets@.len() == na * NUM_PREFLOP_CLASSES,
    ensures
        out@ == class_matched(regrets@, na as int),
        out@.len() == regrets@.len(),
{
    let n: usize = regrets.len();
    let w: usize = NUM_PREFLOP_CLASSES;
    let mut out: Vec<T> = filled(T::zero(), n);
    shares_into(regrets.as_slice(), na, w, match_eps::<T>(), &mut out, 0);
    proof {
        assert(out@.subrange(0, na * w) =~= out@);
        lemma_is_grid(
            out@,
            na as int,
            w as int,
            |a: int, c: int| share(regrets@, w as int, na as int, s_match_eps::<T>(), a, c),
        );
    }
    out
}

impl<T: Scalar> PreflopVectorCfr<T> {
    /// Where the entries of node `i` start.
    pub open spec fn start(&self, i: int) -> int {
        self.local_offset@[i] * INFOSET_ROOM
    }

    pub open spec fn total(&self) -> int {
        self.infoset_count * INFOSET_ROOM
    }

    /// Node `i` is a decision with an infoset.
    pub open spec fn has_infoset(&self, i: int) -> bool {
        self.local_offset@[i] != UNUSED
    }

    /// The buffers are laid out for this tree.
    pub open spec fn is_for(&self, tree: &FlatTree) -> bool {
        &&& tree.wf()
        &&& fits_infosets(tree)
        &&& self.num_players == tree.num_players
        &&& self.local_offset@.len() == tree.size()
        &&& self.infoset_count == count_upto(is_preflop_decision(tree), tree.size() as nat)
        &&& self.total() < UNUSED
        &&& forall|i: int|
            tree.is_node(i) ==> #[trigger] self.local_offset@[i] == (if is_preflop_decision(
                tree,
            )(i) {
                count_upto(is_preflop_decision(tree), i as nat) as int
            } else {
                UNUSED as int
            })
        &&& self.strategy@.len() == self.total()
        &&& self.regrets@.len() == self.total()
        &&& self.cum_strategy@.len() == self.total()
    }

    /// Decisions before the flop have an infoset.
    pub proof fn lemma_has_infoset(&self, tree: &FlatTree, i: int)
        requires
            self.is_for(tree),
            tree.is_node(i),
        ensures
            self.has_infoset(i) <==> is_preflop_decision(tree)(i),
    {
        lemma_count_bound(is_preflop_decision(tree), i as nat);
        assert(self.local_offset@[i] == self.local_offset@[i]);
    }

    /// Decisions have their entries.
    pub proof fn lemma_room(&self, tree: &FlatTree, i: int)
        requires
            self.is_for(tree),
            tree.is_node(i),
            self.has_infoset(i),
        ensures
            is_preflop_decision(tree)(i),
            tree.arity(i) <= MAX_NA_PREFLOP,
            0 <= self.start(i),
            self.start(i) + INFOSET_ROOM <= self.total(),
            self.start(i) + tree.arity(i) * NUM_PREFLOP_CLASSES <= self.total(),
            tree.arity(i) * NUM_PREFLOP_CLASSES <= INFOSET_ROOM,
    {
        let f = is_preflop_decision(tree);
        assert(self.local_offset@[i] == count_upto(f, i as nat));
        lemma_count_rises(f, i as nat, tree.size() as nat);
        assert(f(i));
    }

    /// The strategy once the first `n` nodes have been given a uniform one.
    pub open spec fn uniform_upto(&self, tree: &FlatTree, n: nat) -> Seq<T>
        decreases n,
    {
        if n == 0 {
            flat(T::s_zero(), self.total())
        } else {
            let prev = self.uniform_upto(tree, (n - 1) as nat);
            if self.has_infoset(n - 1) && tree.arity(n - 1) > 0 {
                put(prev, self.start(n - 1), uniform::<T>(tree.arity(n - 1)))
            } else {
                prev
            }
        }
    }

    /// A solver for the tree: uniform strategies, nothing learned yet.
    pub fn new(tree: &FlatTree) -> (m: PreflopVectorCfr<T>)
        requires
            tree.wf(),
            fits_infosets(tree),
            count_upto(is_preflop_decision(tree), tree.size() as nat) * INFOSET_ROOM < UNUSED,
        ensures
            m.is_for(tree),
            m.iteration == 0,
            m.strategy@ == m.uniform_upto(tree, tree.size() as nat),
            m.regrets@ == flat(T::s_zero(), m.total()),
            m.cum_strategy@ == flat(T::s_zero(), m.total()),
    {
        let nn: usize = tree.nodes.len();
        let ghost f = is_preflop_decision(tree);
        let mut local_offset: Vec<usize> = Vec::new();
        let mut count: usize = 0;
        let mut i: usize = 0;
        while i < nn
            invariant
                i <= nn,
                nn == tree.size(),
                nn <= u32::MAX,
                f == is_preflop_decision(tree),
                count == count_upto(f, i as nat),
                count <= i,
                local_offset@.len() == i,
                forall|k: int|
                    0 <= k < i ==> #[trigger] local_offset@[k] == (if f(k) {
                        count_upto(f, k as nat) as int
                    } else {
                        UNUSED as int
                    }),
            decreases nn - i,
        {
            let node = tree.nodes[i];
            if node.board_state == BOARD_PREFLOP && node.is_player() {
                local_offset.push(count);
                count += 1;
            } else {
                local_offset.push(UNUSED);
            }
            i += 1;
            assert((i - 1) as nat == i - 1);
        }
        let total: usize = count * INFOSET_ROOM;
        let zeros: Vec<T> = filled(T::zero(), total);
        let mut m = PreflopVectorCfr {
            num_players: tree.num_players,
            infoset_count: count,
            local_offset,
            iteration: 0,
            strategy: zeros,
            regrets: filled(T::zero(), total),
            cum_strategy: filled(T::zero(), total),
        };
        assert(m.is_for(tree));
        m.init_uniform_strategy(tree);
        m
    }

    /// Gives every decision its uniform strategy.
    fn init_uniform_strategy(&mut self, tree: &FlatTree)
        requires
            old(self).is_for(tree),
            old(self).strategy@ == flat(T::s_zero(), old(self).total()),
        ensures
            final(self).is_for(tree),
            final(self).strategy@ == old(self).uniform_upto(tree, tree.size() as nat),
            *final(self) == (PreflopVectorCfr { strategy: final(self).strategy, ..*old(self) }),
            final(self).uniform_upto(tree, tree.size() as nat) == old(self).uniform_upto(
                tree,
                tree.size() as nat,
            ),
    {
        let nn: usize = tree.nodes.len();
        let mut i: usize = 0;
        while i < nn
            invariant
                i <= nn,
                nn == tree.size(),
                old(self).is_for(tree),
                *self == (PreflopVectorCfr { strategy: self.strategy, ..*old(self) }),
                self.strategy@.len() == self.total(),
                self.strategy@ == old(self).uniform_upto(tree, i as nat),
            decreases nn - i,
        {
            let local: usize = self.local_offset[i];
            let na: usize = tree.nodes[i].num_children as usize;
            if local != UNUSED && na > 0 {
                proof {
                    old(self).lemma_room(tree, i as int);
                }
                let x = T::one().over(T::of_usize(na));
                let vals: Vec<T> = filled(x, na * NUM_PREFLOP_CLASSES);
                assert(vals@ =~= uniform::<T>(na as int));
                put_into(&mut self.strategy, local * INFOSET_ROOM, vals.as_slice());
            }
            i += 1;
            assert((i - 1) as nat == i - 1);
        }
        proof {
            lemma_same_uniform(&*old(self), &*self, tree, tree.size() as nat);
        }
    }

    /// The strategy once the first `n` decisions have been matched to their regrets.
    pub open spec fn matched_upto(&self, tree: &FlatTree, n: nat) -> Seq<T>
        decreases n,
    {
        if n == 0 {
            self.strategy@
        } else {
            let prev = self.matched_upto(tree, (n - 1) as nat);
            let i = tree.decision_node_ids@[n - 1] as int;
            if self.has_infoset(i) && tree.arity(i) > 0 {
                put(
                    prev,
                    self.start(i),
                    class_matched(
                        cut(
                            self.regrets@,
                            self.start(i),
                            tree.arity(i),
                            NUM_PREFLOP_CLASSES as int,
                        ),
                        tree.arity(i),
                    ),
                )
            } else {
                prev
            }
        }
    }

    /// Matches the strategy of every decision to its regrets.
    pub fn compute_preflop_strategy(&mut self, tree: &FlatTree)
        requires
            old(self).is_for(tree),
        ensures
            final(self).is_for(tree),
            final(self).strategy@ == old(self).matched_upto(
                tree,
                tree.decision_node_ids@.len(),
            ),
            *final(self) == (PreflopVectorCfr { strategy: final(self).strategy, ..*old(self) }),
    {
        let n: usize = tree.decision_node_ids.len();
        let mut k: usize = 0;
        while k < n
            invariant
                k <= n,
                n == tree.decision_node_ids@.len(),
                old(self).is_for(tree),
                *self == (PreflopVectorCfr { strategy: self.strategy, ..*old(self) }),
                self.strategy@.len() == self.total(),
                self.strategy@ == old(self).matched_upto(tree, k as nat),
            decreases n - k,
        {
            let i: usize = tree.decision_node_ids[k] as usize;
            assert(tree.decision_node_ids@[k as int] < tree.size());
            let local: usize = self.local_offset[i];
            let na: usize = tree.nodes[i].num_children as usize;
            if local != UNUSED && na > 0 {
                proof {
                    old(self).lemma_room(tree, i as int);
                }
                let block = cut_of(
                    self.regrets.as_slice(),
                    local * INFOSET_ROOM,
                    na * NUM_PREFLOP_CLASSES,
                );
                let vals = match_classes(&block, na);
                put_into(&mut self.strategy, local * INFOSET_ROOM, vals.as_slice());
            }
            k += 1;
            assert((k - 1) as nat == k - 1);
        }
    }

    pub fn infoset_count(&self) -> (n: usize)
        ensures
            n == self.infoset_count,
    {
        self.infoset_count
    }

    pub fn iteration(&self) -> (n: u32)
        ensures
            n == self.iteration,
    {
        self.iteration
    }
}

proof fn lemma_same_uniform<T: Scalar>(
    a: &PreflopVectorCfr<T>,
    b: &PreflopVectorCfr<T>,
    tree: &FlatTree,
    n: nat,
)
    requires
        a.local_offset == b.local_offset,
        a.infoset_count == b.infoset_count,
    ensures
        a.uniform_upto(tree, n) == b.uniform_upto(tree, n),
    decreases n,
{
    if n > 0 {
        lemma_same_uniform(a, b, tree, (n - 1) as nat);
    }
}

pub proof fn lemma_count_rises(f: spec_fn(int) -> bool, n: nat, m: nat)
    requires
        n <= m,
    ensures
        count_upto(f, n) <= count_upto(f, m),
        n < m && f(n as int) ==> count_upto(f, n) < count_upto(f, m),
    decreases m,
{
    if n < m {
        lemma_count_rises(f, n, (m - 1) as nat);
    }
}

/// Every decision has an infoset of its own.
pub proof fn law_infosets_are_apart<T: Scalar>(
    m: &PreflopVectorCfr<T>,
    tree: &FlatTree,
    i: int,
    j: int,
)
    requires
        m.is_for(tree),
        tree.is_node(i),
        tree.is_node(j),
        i < j,
        m.has_infoset(i),
        m.has_infoset(j),
    ensures
        m.start(i) + INFOSET_ROOM <= m.start(j),
{
    let f = is_preflop_decision(tree);
    assert(m.local_offset@[i] == count_upto(f, i as nat));
    assert(m.local_offset@[j] == count_upto(f, j as nat));
    m.lemma_room(tree, i);
    lemma_count_rises(f, i as nat, j as nat);
}

} // verus!
