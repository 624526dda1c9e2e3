//! A solver with one buffer of regrets and strategies for the whole tree.
//!
//! Player node `i` has its entries from `node_data_offset[i]` on: one row of hands
//! per action. The solver can freeze nodes to a fixed strategy, stop at depth
//! limits, answer quantally instead of by regret matching, and walk a snapshot of
//! its strategy in place of the live one.
use vstd::prelude::*;

use crate::bank::{share, shares_into};
use crate::best_response::{entries, plain_share, plain_shares};
use crate::grid::{cut, cut_of, grid, lemma_is_grid, put, put_into};
use crate::layout::{at, flat, lemma_at_bound, lemma_at_inj, lemma_row_inside};
use crate::scalar::{filled, sum_upto, Scalar};
use crate::terminal::views;
use crate::tree::{FlatTree, UNUSED};

verus! {

/// Entries that node `i` takes.
pub open spec fn node_room(tree: &FlatTree, hands: Seq<usize>, i: int) -> int {
    if tree.nodes@[i].is_player() {
        tree.arity(i) * hands[tree.nodes@[i].player_id as int]
    } else {
        0
    }
}

/// Entries that the first `n` nodes take.
pub open spec fn rooms_upto(tree: &FlatTree, hands: Seq<usize>, n: nat) -> int
    decreases n,
{
    if n == 0 {
        0
    } else {
        rooms_upto(tree, hands, (n - 1) as nat) + node_room(tree, hands, n - 1)
    }
}

pub proof fn lemma_rooms_rise(tree: &FlatTree, hands: Seq<usize>, n: nat, k: nat)
    requires
        n <= k,
    ensures
        0 <= rooms_upto(tree, hands, n) <= rooms_upto(tree, hands, k),
        n < k ==> rooms_upto(tree, hands, n) + node_room(tree, hands, n as int) <= rooms_upto(
            tree,
            hands,
            k,
        ),
    decreases k,
{
    if k > 0 {
        assert(0 <= node_room(tree, hands, k - 1)) by (nonlinear_arith)
            requires
                node_room(tree, hands, k - 1) == (if tree.nodes@[k - 1].is_player() {
                    tree.arity(k - 1) * hands[tree.nodes@[k - 1].player_id as int]
                } else {
                    0
                }),
                0 <= tree.arity(k - 1),
        ;
        if n < k {
            lemma_rooms_rise(tree, hands, n, (k - 1) as nat);
        } else {
            lemma_rooms_rise(tree, hands, (n - 1) as nat, (k - 1) as nat);
        }
    }
}

/// What a walk writes.
pub struct Ledger<T> {
    pub regrets: Seq<T>,
    pub cum: Seq<T>,
    /// Action values, added up; what a quantal response answers to.
    pub seen: Seq<T>,
    pub sel_regret: Seq<T>,
    pub sel_cum: Seq<T>,
}

pub struct CpuMccfr<T> {
    pub num_players: u8,
    pub num_hands: Vec<usize>,
    pub regrets: Vec<T>,
    pub cum_strategy: Vec<T>,
    /// Where a node's entries start; `UNUSED` where it has none.
    pub node_data_offset: Vec<usize>,
    pub iteration: u32,
    /// Per player, how sharply a quantal response prefers better actions. None: regret
    /// matching.
    pub lambda: Option<Vec<T>>,
    pub last_cfv: Vec<T>,
    /// Nodes that play a fixed strategy and are not updated.
    pub frozen: Vec<bool>,
    /// Continuations that a player can choose from on entering the frozen part.
    pub num_variants: usize,
    /// The frozen strategies, once per continuation.
    pub frozen_variants: Vec<Vec<T>>,
    /// Nodes at which their owner chooses a continuation.
    pub boundary: Vec<bool>,
    pub sel_offset: Vec<usize>,
    pub sel_regret: Vec<T>,
    pub sel_cum: Vec<T>,
    /// Nodes valued by the game's continuation value.
    pub depth_limit: Vec<bool>,
    pub snapshot: Vec<T>,
    pub use_snapshot: bool,
    /// Discount exponents for positive regret, negative regret and strategy.
    pub dcfr: Option<(T, T, T)>,
}

/// The average action value of hand `h`.
pub open spec fn mean_value<T: Scalar>(seen: Seq<T>, nh: int, denom: T, a: int, h: int) -> T {
    seen[at(nh, a, h)].s_over(denom)
}

/// The largest average value of the first `n` actions.
pub open spec fn peak<T: Scalar>(seen: Seq<T>, nh: int, denom: T, h: int, n: nat) -> T
    decreases n,
{
    if n == 0 {
        T::s_lowest()
    } else {
        peak(seen, nh, denom, h, (n - 1) as nat).s_larger(
            mean_value(seen, nh, denom, n - 1, h),
        )
    }
}

/// The weight of action `a` by its distance from the best one.
pub open spec fn heat<T: Scalar>(
    seen: Seq<T>,
    nh: int,
    na: int,
    lambda: T,
    denom: T,
    a: int,
    h: int,
) -> T {
    lambda.s_times(
        mean_value(seen, nh, denom, a, h).s_minus(peak(seen, nh, denom, h, na as nat)),
    ).s_exp()
}

/// The weights of hand `h`, by action.
pub open spec fn heats<T: Scalar>(
    seen: Seq<T>,
    nh: int,
    na: int,
    lambda: T,
    denom: T,
    h: int,
) -> spec_fn(int) -> T {
    |a: int| heat(seen, nh, na, lambda, denom, a, h)
}

/// The quantal response: weights exponential in the average values, as parts of
/// their sum.
pub open spec fn logit<T: Scalar>(
    seen: Seq<T>,
    nh: int,
    na: int,
    lambda: T,
    denom: T,
    a: int,
    h: int,
) -> T {
    let z = sum_upto(heats(seen, nh, na, lambda, denom, h), na as nat);
    heat(seen, nh, na, lambda, denom, a, h).s_over(
        if T::s_zero().s_below(z) {
            z
        } else {
            T::s_one()
        },
    )
}

/// The quantal responses of all hands.
pub open spec fn logits<T: Scalar>(seen: Seq<T>, na: int, nh: int, lambda: T, denom: T) -> Seq<T> {
    grid(na, nh, |a: int, h: int| logit(seen, nh, na, lambda, denom, a, h))
}

/// Regret matching for all hands.
pub open spec fn matched<T: Scalar>(regrets: Seq<T>, na: int, nh: int) -> Seq<T> {
    grid(na, nh, |a: int, h: int| share(regrets, nh, na, T::s_zero(), a, h))
}

/// Computes [`matched`].
pub fn matched_of<T: Scalar>(regrets: &[T], na: usize, nh: usize) -> (out: Vec<T>)
    requires
        regrets@.len() == na * nh,
    ensures
        out@ == matched(regrets@, na as int, nh as int),
        out@.len() == na * nh,
{
    let n: usize = regrets.len();
    let mut out: Vec<T> = filled(T::zero(), n);
    shares_into(regrets, na, nh, T::zero(), &mut out, 0);
    proof {
        assert(out@.subrange(0, na * nh) =~= out@);
        lemma_is_grid(
            out@,
            na as int,
            nh as int,
            |a: int, h: int| share(regrets@, nh as int, na as int, T::s_zero(), a, h),
        );
    }
    out
}

/// Computes [`logits`].
fn logits_of<T: Scalar>(seen: &[T], na: usize, nh: usize, lambda: T, denom: T) -> (out: Vec<T>)
    requires
        seen@.len() == na * nh,
    ensures
        out@ == logits(seen@, na as int, nh as int, lambda, denom),
        out@.len() == na * nh,
{
    let n: usize = seen.len();
    let ghost f = |a: int, h: int| logit(seen@, nh as int, na as int, lambda, denom, a, h);
    let mut out: Vec<T> = filled(T::zero(), n);
    let mut h: usize = 0;
    while h < nh
        invariant
            h <= nh,
            n == na * nh,
            seen@.len() == n,
            out@.len() == n,
            f == (|a: int, h: int| logit(seen@, nh as int, na as int, lambda, denom, a, h)),
            forall|a: int, g: int|
                0 <= a < na && 0 <= g < h ==> #[trigger] out@[at(nh as int, a, g)] == f(a, g),
        decreases nh - h,
    {
        let mut top: T = T::lowest();
        let mut a: usize = 0;
        while a < na
            invariant
                a <= na,
                h < nh,
                n == na * nh,
                seen@.len() == n,
                top == peak(seen@, nh as int, denom, h as int, a as nat),
            decreases na - a,
        {
            proof {
                lemma_at_bound(nh as int, na as int, a as int, h as int);
            }
            top = top.larger(seen[a * nh + h].over(denom));
            a += 1;
        }
        let ghost fs = heats(seen@, nh as int, na as int, lambda, denom, h as int);
        let mut z: T = T::zero();
        let mut ws: Vec<T> = Vec::new();
        let mut a: usize = 0;
        while a < na
            invariant
                a <= na,
                h < nh,
                n == na * nh,
                seen@.len() == n,
                top == peak(seen@, nh as int, denom, h as int, na as nat),
                fs == heats(seen@, nh as int, na as int, lambda, denom, h as int),
                z == sum_upto(fs, a as nat),
                ws@.len() == a,
                forall|b: int|
                    0 <= b < a ==> #[trigger] ws@[b] == heat(
                        seen@,
                        nh as int,
                        na as int,
                        lambda,
                        denom,
                        b,
                        h as int,
                    ),
            decreases na - a,
        {
            proof {
                lemma_at_bound(nh as int, na as int, a as int, h as int);
            }
            let w = lambda.times(seen[a * nh + h].over(denom).minus(top)).exp();
            assert(w == fs(a as int));
            ws.push(w);
            z = z.plus(w);
            a += 1;
        }
        let z = if T::zero().below(z) {
            z
        } else {
            T::one()
        };
        let mut a: usize = 0;
        while a < na
            invariant
                a <= na,
                h < nh,
                n == na * nh,
                out@.len() == n,
                ws@.len() == na,
                f == (|a: int, h: int| logit(seen@, nh as int, na as int, lambda, denom, a, h)),
                forall|b: int|
                    0 <= b < na ==> (#[trigger] ws@[b]).s_over(z) == f(b, h as int),
                forall|b: int, g: int|
                    0 <= b < na && 0 <= g < nh && (g < h || (g == h && b < a))
                        ==> #[trigger] out@[at(nh as int, b, g)] == f(b, g),
            decreases na - a,
        {
            proof {
                lemma_at_bound(nh as int, na as int, a as int, h as int);
            }
            let ghost was = out@;
            let w = ws[a].over(z);
            out[a * nh + h] = w;
            proof {
                assert forall|b: int, g: int|
                    0 <= b < na && 0 <= g < nh && (g < h || (g == h && b < a + 1)) implies
                    #[trigger] out@[at(nh as int, b, g)] == f(b, g) by {
                    lemma_at_bound(nh as int, na as int, b, g);
                    if at(nh as int, b, g) == at(nh as int, a as int, h as int) {
                        lemma_at_inj(nh as int, b, g, a as int, h as int);
                    } else {
                        assert(was[at(nh as int, b, g)] == f(b, g));
                    }
                }
            }
            a += 1;
        }
        h += 1;
    }
    proof {
        lemma_is_grid(out@, na as int, nh as int, f);
    }
    out
}

impl<T: Scalar> CpuMccfr<T> {
    /// The buffers that a walk writes.
    pub open spec fn ledger(&self) -> Ledger<T> {
        Ledger {
            regrets: self.regrets@,
            cum: self.cum_strategy@,
            seen: self.last_cfv@,
            sel_regret: self.sel_regret@,
            sel_cum: self.sel_cum@,
        }
    }

    /// Hands of the owner of node `i`.
    pub open spec fn hands_at(&self, tree: &FlatTree, i: int) -> int {
        self.num_hands@[tree.nodes@[i].player_id as int] as int
    }

    pub open spec fn offset(&self, i: int) -> int {
        self.node_data_offset@[i] as int
    }

    /// Entries of the whole tree.
    pub open spec fn total(&self) -> int {
        self.regrets@.len() as int
    }

    /// Node `i` has its own entries.
    pub open spec fn has_room(&self, tree: &FlatTree, i: int) -> bool {
        &&& self.offset(i) != UNUSED
        &&& self.offset(i) + tree.arity(i) * self.hands_at(tree, i) <= self.total()
        &&& 0 <= tree.arity(i) * self.hands_at(tree, i)
    }

    /// The selection entries of node `i`.
    pub open spec fn has_choice(&self, tree: &FlatTree, i: int) -> bool {
        &&& tree.nodes@[i].is_player()
        &&& self.sel_offset@[i] + self.num_variants * self.hands_at(tree, i)
            <= self.sel_regret@.len()
        &&& 0 <= self.num_variants * self.hands_at(tree, i)
    }

    /// All buffers are laid out for this tree.
    pub open spec fn is_for(&self, tree: &FlatTree) -> bool {
        &&& tree.wf()
        &&& self.num_players == tree.num_players
        &&& self.num_hands@.len() == tree.np()
        &&& self.node_data_offset@.len() == tree.size()
        &&& forall|i: int|
            tree.is_node(i) ==> #[trigger] self.node_data_offset@[i] == (
            if tree.nodes@[i].is_player() {
                rooms_upto(tree, self.num_hands@, i as nat)
            } else {
                UNUSED as int
            })
        &&& self.regrets@.len() == rooms_upto(tree, self.num_hands@, tree.size() as nat)
        &&& self.regrets@.len() < UNUSED
        &&& self.cum_strategy@.len() == self.regrets@.len()
        &&& self.last_cfv@.len() == self.regrets@.len()
        &&& self.lambda matches Some(l) ==> l@.len() == tree.np()
        &&& self.frozen@.len() == tree.size()
        &&& 1 <= self.num_variants <= self.frozen_variants@.len()
        &&& forall|c: int|
            0 <= c < self.frozen_variants@.len() ==> (#[trigger] self.frozen_variants@[c])@.len()
                == self.regrets@.len()
        &&& self.boundary@.len() == tree.size()
        &&& self.sel_offset@.len() == tree.size()
        &&& self.sel_cum@.len() == self.sel_regret@.len()
        &&& forall|i: int|
            tree.is_node(i) && #[trigger] self.boundary@[i] ==> self.has_choice(tree, i)
        &&& self.depth_limit@.len() == tree.size()
        &&& self.use_snapshot ==> self.snapshot@.len() == self.regrets@.len()
    }

    /// Everything but the written buffers is the same.
    pub open spec fn same_rules(&self, other: &Self) -> bool {
        &&& self.num_players == other.num_players
        &&& self.num_hands == other.num_hands
        &&& self.node_data_offset == other.node_data_offset
        &&& self.iteration == other.iteration
        &&& self.lambda == other.lambda
        &&& self.frozen == other.frozen
        &&& self.num_variants == other.num_variants
        &&& self.frozen_variants == other.frozen_variants
        &&& self.boundary == other.boundary
        &&& self.sel_offset == other.sel_offset
        &&& self.depth_limit == other.depth_limit
        &&& self.snapshot == other.snapshot
        &&& self.use_snapshot == other.use_snapshot
        &&& self.dcfr == other.dcfr
    }

    /// Player nodes have their entries.
    pub proof fn lemma_room(&self, tree: &FlatTree, i: int)
        requires
            self.is_for(tree),
            tree.is_node(i),
            tree.nodes@[i].is_player(),
        ensures
            self.has_room(tree, i),
    {
        lemma_rooms_rise(tree, self.num_hands@, i as nat, tree.size() as nat);
        assert(self.node_data_offset@[i] == rooms_upto(tree, self.num_hands@, i as nat));
        assert(0 <= tree.arity(i) * self.hands_at(tree, i)) by (nonlinear_arith)
            requires
                0 <= tree.arity(i),
                0 <= self.hands_at(tree, i),
        ;
    }

    /// Iterations that the accumulated action values stand for, at least one.
    pub open spec fn seen_count(&self) -> T {
        T::s_of(self.iteration as int).s_minus(T::s_one()).s_larger(T::s_one())
    }

    /// The strategy at node `i` from the ledger: frozen, quantal, or by regret matching.
    pub open spec fn current(&self, l: Ledger<T>, i: int, na: int, nh: int, player: int) -> Seq<T> {
        let off = self.offset(i);
        if self.frozen@[i] {
            cut(self.frozen_variants@[0]@, off, na, nh)
        } else {
            match self.lambda {
                Some(lambda) => logits(
                    cut(l.seen, off, na, nh),
                    na,
                    nh,
                    lambda@[player],
                    self.seen_count(),
                ),
                None => matched(cut(l.regrets, off, na, nh), na, nh),
            }
        }
    }

    /// A solver for the tree, without any regret or strategy yet.
    pub fn new(tree: &FlatTree, num_hands: Vec<usize>) -> (m: CpuMccfr<T>)
        requires
            tree.wf(),
            num_hands@.len() == tree.np(),
            rooms_upto(tree, num_hands@, tree.size() as nat) < UNUSED,
        ensures
            m.is_for(tree),
            m.num_hands@ == num_hands@,
            m.iteration == 0,
            m.regrets@ == flat(
                T::s_zero(),
                rooms_upto(tree, num_hands@, tree.size() as nat),
            ),
            m.cum_strategy@ == m.regrets@,
            m.last_cfv@ == m.regrets@,
            m.lambda is None,
            m.dcfr is None,
            !m.use_snapshot,
            m.num_variants == 1,
            m.frozen_variants@.len() == 1,
            m.frozen@ == flat(false, tree.size()),
            m.boundary@ == flat(false, tree.size()),
            m.depth_limit@ == flat(false, tree.size()),
            m.sel_regret@.len() == 0,
    {
        let n: usize = tree.nodes.len();
        let mut offsets: Vec<usize> = Vec::new();
        let mut total: usize = 0;
        let mut i: usize = 0;
        while i < n
            invariant
                i <= n,
                n == tree.size(),
                tree.wf(),
                num_hands@.len() == tree.np(),
                rooms_upto(tree, num_hands@, n as nat) < UNUSED,
                total == rooms_upto(tree, num_hands@, i as nat),
                offsets@.len() == i,
                forall|k: int|
                    0 <= k < i ==> #[trigger] offsets@[k] == (if tree.nodes@[k].is_player() {
                        rooms_upto(tree, num_hands@, k as nat)
                    } else {
                        UNUSED as int
                    }),
            decreases n - i,
        {
            proof {
                lemma_rooms_rise(tree, num_hands@, i as nat, n as nat);
                assert(tree.node_ok(i as int));
            }
            if tree.nodes[i].is_player() {
                offsets.push(total);
                proof {
                    assert(node_room(tree, num_hands@, i as int) == tree.arity(i as int)
                        * num_hands@[tree.nodes@[i as int].player_id as int]);
                    assert(0 <= node_room(tree, num_hands@, i as int)) by (nonlinear_arith)
                        requires
                            node_room(tree, num_hands@, i as int) == tree.arity(i as int)
                                * num_hands@[tree.nodes@[i as int].player_id as int],
                            0 <= tree.arity(i as int),
                    ;
                    lemma_rooms_rise(tree, num_hands@, 0, i as nat);
                }
                total = total + tree.nodes[i].num_children as usize
                    * num_hands[tree.nodes[i].player_id as usize];
            } else {
                offsets.push(UNUSED);
            }
            i += 1;
        }
        let mut variants: Vec<Vec<T>> = Vec::new();
        variants.push(filled(T::zero(), total));
        CpuMccfr {
            num_players: tree.num_players,
            num_hands,
            regrets: filled(T::zero(), total),
            cum_strategy: filled(T::zero(), total),
            node_data_offset: offsets,
            iteration: 0,
            lambda: None,
            last_cfv: filled(T::zero(), total),
            frozen: filled(false, n),
            num_variants: 1,
            frozen_variants: variants,
            boundary: filled(false, n),
            sel_offset: filled(UNUSED, n),
            sel_regret: Vec::new(),
            sel_cum: Vec::new(),
            depth_limit: filled(false, n),
            snapshot: Vec::new(),
            use_snapshot: false,
            dcfr: None,
        }
    }

    /// Discounts regrets and strategies from now on, by these exponents.
    pub fn set_dcfr(&mut self, alpha: T, beta: T, gamma: T)
        ensures
            *final(self) == (CpuMccfr { dcfr: Some((alpha, beta, gamma)), ..*old(self) }),
    {
        self.dcfr = Some((alpha, beta, gamma));
    }

    /// Walks a snapshot of the strategy from now on.
    pub fn enable_parallel(&mut self)
        ensures
            final(self).use_snapshot,
            final(self).snapshot@ == flat(T::s_zero(), old(self).total()),
            *final(self) == (CpuMccfr {
                use_snapshot: true,
                snapshot: final(self).snapshot,
                ..*old(self)
            }),
    {
        self.use_snapshot = true;
        self.snapshot = filled(T::zero(), self.regrets.len());
    }

    /// Answers quantally from now on, each player as sharply as given.
    pub fn set_lambda(&mut self, lambda: Vec<T>)
        requires
            lambda@.len() == old(self).num_players,
        ensures
            *final(self) == (CpuMccfr { lambda: Some(lambda), ..*old(self) }),
    {
        self.lambda = Some(lambda);
    }

    /// Stops at these nodes, and only these.
    pub fn set_depth_limit(&mut self, nodes: &[usize])
        requires
            forall|k: int|
                0 <= k < nodes@.len() ==> (#[trigger] nodes@[k]) < old(self).depth_limit@.len(),
        ensures
            final(self).depth_limit@ == Seq::new(
                old(self).depth_limit@.len(),
                |i: int| nodes@.contains(i as usize),
            ),
            *final(self) == (CpuMccfr { depth_limit: final(self).depth_limit, ..*old(self) }),
    {
        let n: usize = self.depth_limit.len();
        let mut marks: Vec<bool> = filled(false, n);
        let mut k: usize = 0;
        while k < nodes.len()
            invariant
                k <= nodes@.len(),
                marks@.len() == n,
                forall|j: int| 0 <= j < nodes@.len() ==> (#[trigger] nodes@[j]) < n,
                forall|i: int|
                    0 <= i < n ==> #[trigger] marks@[i] == nodes@.take(k as int).contains(
                        i as usize,
                    ),
            decreases nodes@.len() - k,
        {
            let ghost was = marks@;
            let x: usize = nodes[k];
            marks[x] = true;
            proof {
                let t = nodes@.take(k as int);
                let u = nodes@.take(k + 1);
                assert(u =~= t.push(x));
                assert forall|i: int| 0 <= i < n implies #[trigger] marks@[i] == u.contains(
                    i as usize,
                ) by {
                    if i == x {
                        assert(u[k as int] == x);
                    } else {
                        assert(was[i] == t.contains(i as usize));
                        if t.contains(i as usize) {
                            let j = choose|j: int| 0 <= j < t.len() && t[j] == i as usize;
                            assert(u[j] == i as usize);
                        }
                        if u.contains(i as usize) {
                            let j = choose|j: int| 0 <= j < u.len() && u[j] == i as usize;
                            assert(j < k);
                            assert(t[j] == i as usize);
                        }
                    }
                }
            }
            k += 1;
        }
        proof {
            assert(nodes@.take(k as int) =~= nodes@);
            assert(marks@ =~= Seq::new(n as nat, |i: int| nodes@.contains(i as usize)));
        }
        self.depth_limit = marks;
    }

    /// Adds a weighted strategy to what node `node_idx` has accumulated.
    pub fn seed_cum(&mut self, node_idx: usize, strat: &[T], weight: T)
        requires
            node_idx < old(self).node_data_offset@.len(),
            old(self).offset(node_idx as int) != UNUSED ==> old(self).offset(node_idx as int)
                + strat@.len() <= old(self).cum_strategy@.len(),
        ensures
            old(self).offset(node_idx as int) == UNUSED ==> *final(self) == *old(self),
            old(self).offset(node_idx as int) != UNUSED ==> final(self).cum_strategy@ == put(
                old(self).cum_strategy@,
                old(self).offset(node_idx as int),
                Seq::new(
                    strat@.len(),
                    |x: int|
                        old(self).cum_strategy@[old(self).offset(node_idx as int) + x].s_plus(
                            weight.s_times(strat@[x]),
                        ),
                ),
            ),
            *final(self) == (CpuMccfr { cum_strategy: final(self).cum_strategy, ..*old(self) }),
    {
        let off: usize = self.node_data_offset[node_idx];
        if off == UNUSED {
            return;
        }
        let n: usize = strat.len();
        let total: usize = self.cum_strategy.len();
        let ghost was = self.cum_strategy@;
        let ghost vals = Seq::new(
            strat@.len(),
            |x: int| was[off + x].s_plus(weight.s_times(strat@[x])),
        );
        let mut k: usize = 0;
        while k < n
            invariant
                k <= n,
                n == strat@.len(),
                off + n <= total,
                total == was.len(),
                vals == Seq::new(
                    strat@.len(),
                    |x: int| was[off + x].s_plus(weight.s_times(strat@[x])),
                ),
                self.cum_strategy@ == put(was, off as int, vals.take(k as int)),
                *self == (CpuMccfr { cum_strategy: self.cum_strategy, ..*old(self) }),
            decreases n - k,
        {
            let x = self.cum_strategy[off + k].plus(weight.times(strat[k]));
            self.cum_strategy[off + k] = x;
            k += 1;
            assert(self.cum_strategy@ =~= put(was, off as int, vals.take(k as int)));
        }
        assert(vals.take(n as int) =~= vals);
    }

    /// Fixes the strategy of a player node: it plays `strat` and is not updated.
    pub fn freeze_node(&mut self, node_idx: usize, strat: &[T])
        requires
            node_idx < old(self).node_data_offset@.len(),
            node_idx < old(self).frozen@.len(),
            old(self).offset(node_idx as int) != UNUSED,
            1 <= old(self).frozen_variants@.len(),
            old(self).offset(node_idx as int) + strat@.len() <= old(self).frozen_variants@[0]@.len(),
            old(self).frozen_variants@[0]@.len() == old(self).cum_strategy@.len(),
        ensures
            final(self).frozen@ == old(self).frozen@.update(node_idx as int, true),
            final(self).frozen_variants@.len() == old(self).frozen_variants@.len(),
            final(self).frozen_variants@[0]@ == put(
                old(self).frozen_variants@[0]@,
                old(self).offset(node_idx as int),
                strat@,
            ),
            forall|c: int|
                1 <= c < old(self).frozen_variants@.len()
                    ==> #[trigger] final(self).frozen_variants@[c] == old(self).frozen_variants@[c],
            final(self).cum_strategy@ == put(
                old(self).cum_strategy@,
                old(self).offset(node_idx as int),
                strat@,
            ),
            *final(self) == (CpuMccfr {
                frozen: final(self).frozen,
                frozen_variants: final(self).frozen_variants,
                cum_strategy: final(self).cum_strategy,
                ..*old(self)
            }),
    {
        let off: usize = self.node_data_offset[node_idx];
        self.frozen[node_idx] = true;
        let mut first: Vec<T> = cut_of(
            self.frozen_variants[0].as_slice(),
            0,
            self.frozen_variants[0].len(),
        );
        assert(first@ =~= old(self).frozen_variants@[0]@);
        put_into(&mut first, off, strat);
        self.frozen_variants[0] = first;
        put_into(&mut self.cum_strategy, off, strat);
    }

    /// The strategy at a node, from what the solver has learned.
    pub fn compute_strategy(&self, node_idx: usize, num_actions: usize, nh: usize, player: u8) -> (s:
        Vec<T>)
        requires
            node_idx < self.node_data_offset@.len(),
            node_idx < self.frozen@.len(),
            1 <= self.frozen_variants@.len(),
            self.offset(node_idx as int) + num_actions * nh <= self.total(),
            self.last_cfv@.len() == self.total(),
            self.frozen_variants@[0]@.len() == self.total(),
            self.lambda matches Some(l) ==> player < l@.len(),
        ensures
            s@ == self.current(
                self.ledger(),
                node_idx as int,
                num_actions as int,
                nh as int,
                player as int,
            ),
            s@.len() == num_actions * nh,
    {
        let total: usize = self.regrets.len();
        let off: usize = self.node_data_offset[node_idx];
        assert(0 <= num_actions * nh) by (nonlinear_arith)
            requires
                0 <= num_actions,
                0 <= nh,
        ;
        let n: usize = num_actions * nh;
        if self.frozen[node_idx] {
            return cut_of(self.frozen_variants[0].as_slice(), off, n);
        }
        match &self.lambda {
            Some(lambda) => {
                let denom = T::of_usize(self.iteration as usize).minus(T::one()).larger(T::one());
                let seen = cut_of(self.last_cfv.as_slice(), off, n);
                logits_of(seen.as_slice(), num_actions, nh, lambda[player as usize], denom)
            },
            None => {
                let regrets = cut_of(self.regrets.as_slice(), off, n);
                matched_of(regrets.as_slice(), num_actions, nh)
            },
        }
    }
}

/// The rows of a flat table.
pub open spec fn table_rows<T>(buf: Seq<T>, from: int, n: int, w: int) -> Seq<Seq<T>> {
    Seq::new(n as nat, |i: int| Seq::new(w as nat, |j: int| buf[from + at(w, i, j)]))
}

/// Splits a flat table into its rows.
fn split_rows<T: Copy>(buf: &[T], from: usize, n: usize, w: usize) -> (rows: Vec<Vec<T>>)
    requires
        from + n * w <= buf@.len(),
    ensures
        views(rows@) == table_rows(buf@, from as int, n as int, w as int),
{
    let total: usize = buf.len();
    let ghost want = table_rows(buf@, from as int, n as int, w as int);
    let mut rows: Vec<Vec<T>> = Vec::new();
    let mut i: usize = 0;
    while i < n
        invariant
            i <= n,
            total == buf@.len(),
            from + n * w <= total,
            want == table_rows(buf@, from as int, n as int, w as int),
            rows@.len() == i,
            forall|k: int| 0 <= k < i ==> (#[trigger] rows@[k])@ == want[k],
        decreases n - i,
    {
        proof {
            lemma_row_inside(w as int, n as int, i as int);
        }
        let row = cut_of(buf, from + i * w, w);
        assert(row@ =~= want[i as int]);
        rows.push(row);
        i += 1;
    }
    assert(views(rows@) =~= want);
    rows
}

/// Hand `h`'s part in action `a`: its share of what was accumulated, or where that is
/// not positive, what `other` says.
pub open spec fn share_or<T: Scalar>(
    cum: Seq<T>,
    from: int,
    nh: int,
    na: int,
    other: Seq<T>,
    a: int,
    h: int,
) -> T {
    let total = sum_upto(entries(cum, from, nh, h), na as nat);
    if T::s_zero().s_below(total) {
        cum[from + at(nh, a, h)].s_over(total)
    } else {
        other[at(nh, a, h)]
    }
}

/// Computes [`share_or`] for all actions and hands.
fn shares_or<T: Scalar>(cum: &[T], from: usize, na: usize, nh: usize, other: &[T]) -> (out: Vec<T>)
    requires
        from + na * nh <= cum@.len(),
        other@.len() == na * nh,
    ensures
        out@ == grid(
            na as int,
            nh as int,
            |a: int, h: int| share_or(cum@, from as int, nh as int, na as int, other@, a, h),
        ),
        out@.len() == na * nh,
{
    let total: usize = cum.len();
    let n: usize = other.len();
    let ghost f = |a: int, h: int|
        share_or(cum@, from as int, nh as int, na as int, other@, a, h);
    let mut out: Vec<T> = filled(T::zero(), n);
    let mut h: usize = 0;
    while h < nh
        invariant
            h <= nh,
            n == na * nh,
            total == cum@.len(),
            from + n <= total,
            other@.len() == n,
            out@.len() == n,
            f == (|a: int, h: int|
                share_or(cum@, from as int, nh as int, na as int, other@, a, h)),
            forall|a: int, g: int|
                0 <= a < na && 0 <= g < h ==> #[trigger] out@[at(nh as int, a, g)] == f(a, g),
        decreases nh - h,
    {
        let ghost col = entries(cum@, from as int, nh as int, h as int);
        let mut sum: T = T::zero();
        let mut a: usize = 0;
        while a < na
            invariant
                a <= na,
                h < nh,
                n == na * nh,
                total == cum@.len(),
                from + n <= total,
                col == entries(cum@, from as int, nh as int, h as int),
                sum == sum_upto(col, a as nat),
            decreases na - a,
        {
            proof {
                lemma_at_bound(nh as int, na as int, a as int, h as int);
                assert(col(a as int) == cum@[from + at(nh as int, a as int, h as int)]);
            }
            sum = sum.plus(cum[from + a * nh + h]);
            a += 1;
        }
        let positive = T::zero().below(sum);
        let mut a: usize = 0;
        while a < na
            invariant
                a <= na,
                h < nh,
                n == na * nh,
                total == cum@.len(),
                from + n <= total,
                other@.len() == n,
                out@.len() == n,
                sum == sum_upto(entries(cum@, from as int, nh as int, h as int), na as nat),
                positive == T::s_zero().s_below(sum),
                f == (|a: int, h: int|
                    share_or(cum@, from as int, nh as int, na as int, other@, a, h)),
                forall|b: int, g: int|
                    0 <= b < na && 0 <= g < nh && (g < h || (g == h && b < a))
                        ==> #[trigger] out@[at(nh as int, b, g)] == f(b, g),
            decreases na - a,
        {
            proof {
                lemma_at_bound(nh as int, na as int, a as int, h as int);
            }
            let ghost was = out@;
            let x: usize = a * nh + h;
            let v = if positive {
                cum[from + x].over(sum)
            } else {
                other[x]
            };
            assert(v == f(a as int, h as int));
            out[x] = v;
            proof {
                assert forall|b: int, g: int|
                    0 <= b < na && 0 <= g < nh && (g < h || (g == h && b < a + 1)) implies
                    #[trigger] out@[at(nh as int, b, g)] == f(b, g) by {
                    lemma_at_bound(nh as int, na as int, b, g);
                    if at(nh as int, b, g) == at(nh as int, a as int, h as int) {
                        lemma_at_inj(nh as int, b, g, a as int, h as int);
                    } else {
                        assert(was[at(nh as int, b, g)] == f(b, g));
                    }
                }
            }
            a += 1;
        }
        h += 1;
    }
    proof {
        lemma_is_grid(out@, na as int, nh as int, f);
    }
    out
}

impl<T: Scalar> CpuMccfr<T> {
    /// Node `i` has `na` rows of `nh` entries, or none at all.
    pub open spec fn can_read(&self, i: int, na: int, nh: int) -> bool {
        &&& 0 <= i < self.node_data_offset@.len()
        &&& self.cum_strategy@.len() == self.total()
        &&& self.offset(i) != UNUSED ==> self.offset(i) + na * nh <= self.total()
    }

    /// The regrets of a node, by action; none where it has no entries.
    pub fn get_regrets(&self, node_idx: usize, num_actions: usize, nh: usize) -> (rows: Vec<Vec<T>>)
        requires
            self.can_read(node_idx as int, num_actions as int, nh as int),
        ensures
            views(rows@) == if self.offset(node_idx as int) == UNUSED {
                Seq::empty()
            } else {
                table_rows(
                    self.regrets@,
                    self.offset(node_idx as int),
                    num_actions as int,
                    nh as int,
                )
            },
    {
        let off: usize = self.node_data_offset[node_idx];
        if off == UNUSED {
            let rows: Vec<Vec<T>> = Vec::new();
            assert(views(rows@) =~= Seq::empty());
            return rows;
        }
        split_rows(self.regrets.as_slice(), off, num_actions, nh)
    }

    /// The accumulated strategy of a node, by action; none where it has no entries.
    pub fn get_cum_strategy(&self, node_idx: usize, num_actions: usize, nh: usize) -> (rows: Vec<
        Vec<T>,
    >)
        requires
            self.can_read(node_idx as int, num_actions as int, nh as int),
        ensures
            views(rows@) == if self.offset(node_idx as int) == UNUSED {
                Seq::empty()
            } else {
                table_rows(
                    self.cum_strategy@,
                    self.offset(node_idx as int),
                    num_actions as int,
                    nh as int,
                )
            },
    {
        let off: usize = self.node_data_offset[node_idx];
        if off == UNUSED {
            let rows: Vec<Vec<T>> = Vec::new();
            assert(views(rows@) =~= Seq::empty());
            return rows;
        }
        split_rows(self.cum_strategy.as_slice(), off, num_actions, nh)
    }

    /// The strategy at a node, by action; a quantal response is the first player's.
    pub fn get_current_strategy(&self, node_idx: usize, num_actions: usize, nh: usize) -> (rows: Vec<
        Vec<T>,
    >)
        requires
            node_idx < self.node_data_offset@.len(),
            node_idx < self.frozen@.len(),
            1 <= self.frozen_variants@.len(),
            self.offset(node_idx as int) + num_actions * nh <= self.total(),
            self.last_cfv@.len() == self.total(),
            self.frozen_variants@[0]@.len() == self.total(),
            self.lambda matches Some(l) ==> 1 <= l@.len(),
        ensures
            views(rows@) == table_rows(
                self.current(
                    self.ledger(),
                    node_idx as int,
                    num_actions as int,
                    nh as int,
                    0,
                ),
                0,
                num_actions as int,
                nh as int,
            ),
    {
        let raw = self.compute_strategy(node_idx, num_actions, nh, 0);
        split_rows(raw.as_slice(), 0, num_actions, nh)
    }

    /// The average strategy of a node, by action. Hands that have accumulated nothing
    /// play their current strategy.
    pub fn get_average_strategy_fb(
        &self,
        node_idx: usize,
        num_actions: usize,
        nh: usize,
        player: u8,
    ) -> (rows: Vec<Vec<T>>)
        requires
            self.can_read(node_idx as int, num_actions as int, nh as int),
            node_idx < self.frozen@.len(),
            1 <= self.frozen_variants@.len(),
            self.last_cfv@.len() == self.total(),
            self.frozen_variants@[0]@.len() == self.total(),
            self.lambda matches Some(l) ==> player < l@.len(),
        ensures
            views(rows@) == if self.offset(node_idx as int) == UNUSED {
                Seq::empty()
            } else {
                table_rows(
                    grid(
                        num_actions as int,
                        nh as int,
                        |a: int, h: int|
                            share_or(
                                self.cum_strategy@,
                                self.offset(node_idx as int),
                                nh as int,
                                num_actions as int,
                                self.current(
                                    self.ledger(),
                                    node_idx as int,
                                    num_actions as int,
                                    nh as int,
                                    player as int,
                                ),
                                a,
                                h,
                            ),
                    ),
                    0,
                    num_actions as int,
                    nh as int,
                )
            },
    {
        let off: usize = self.node_data_offset[node_idx];
        if off == UNUSED {
            let rows: Vec<Vec<T>> = Vec::new();
            assert(views(rows@) =~= Seq::empty());
            return rows;
        }
        let current = self.compute_strategy(node_idx, num_actions, nh, player);
        let mixed = shares_or(
            self.cum_strategy.as_slice(),
            off,
            num_actions,
            nh,
            current.as_slice(),
        );
        proof {
            let f = |a: int, h: int|
                share_or(
                    self.cum_strategy@,
                    off as int,
                    nh as int,
                    num_actions as int,
                    current@,
                    a,
                    h,
                );
            assert(mixed@ =~= grid(num_actions as int, nh as int, f));
        }
        split_rows(mixed.as_slice(), 0, num_actions, nh)
    }

    /// The average strategy of a node, by action; uniform for hands that have accumulated
    /// nothing.
    pub fn get_average_strategy(&self, node_idx: usize, num_actions: usize, nh: usize) -> (rows: Vec<
        Vec<T>,
    >)
        requires
            self.can_read(node_idx as int, num_actions as int, nh as int),
        ensures
            views(rows@) == if self.offset(node_idx as int) == UNUSED {
                Seq::empty()
            } else {
                Seq::new(
                    num_actions as nat,
                    |a: int|
                        Seq::new(
                            nh as nat,
                            |h: int|
                                plain_share(
                                    self.cum_strategy@,
                                    self.offset(node_idx as int),
                                    nh as int,
                                    num_actions as int,
                                    a,
                                    h,
                                ),
                        ),
                )
            },
    {
        let off: usize = self.node_data_offset[node_idx];
        if off == UNUSED {
            let rows: Vec<Vec<T>> = Vec::new();
            assert(views(rows@) =~= Seq::empty());
            return rows;
        }
        let shares = plain_shares(self.cum_strategy.as_slice(), off, num_actions, nh);
        let rows = split_rows(shares.as_slice(), 0, num_actions, nh);
        proof {
            let want = Seq::new(
                num_actions as nat,
                |a: int|
                    Seq::new(
                        nh as nat,
                        |h: int|
                            plain_share(
                                self.cum_strategy@,
                                off as int,
                                nh as int,
                                num_actions as int,
                                a,
                                h,
                            ),
                    ),
            );
            assert forall|a: int| 0 <= a < num_actions implies (#[trigger] views(rows@)[a])
                == want[a] by {
                assert forall|h: int| 0 <= h < nh implies views(rows@)[a][h] == want[a][h] by {
                    assert(shares@[at(nh as int, a, h)] == plain_share(
                        self.cum_strategy@,
                        off as int,
                        nh as int,
                        num_actions as int,
                        a,
                        h,
                    ));
                }
                assert(views(rows@)[a] =~= want[a]);
            }
            assert(views(rows@) =~= want);
        }
        rows
    }

    pub fn node_offsets(&self) -> (s: &[usize])
        ensures
            s@ == self.node_data_offset@,
    {
        self.node_data_offset.as_slice()
    }

    pub fn iteration_count(&self) -> (n: u32)
        ensures
            n == self.iteration,
    {
        self.iteration
    }

    pub fn cum_strategy_slice(&self) -> (s: &[T])
        ensures
            s@ == self.cum_strategy@,
    {
        self.cum_strategy.as_slice()
    }

    pub fn regrets_slice(&self) -> (s: &[T])
        ensures
            s@ == self.regrets@,
    {
        self.regrets.as_slice()
    }

    /// The snapshot once the first `n` nodes have been looked at: every player node that
    /// is not frozen gets its current strategy.
    pub open spec fn snapshot_upto(&self, tree: &FlatTree, n: nat) -> Seq<T>
        decreases n,
    {
        if n == 0 {
            self.snapshot@
        } else {
            let prev = self.snapshot_upto(tree, (n - 1) as nat);
            let i = n - 1;
            if tree.nodes@[i].is_player() && !self.frozen@[i] {
                put(
                    prev,
                    self.offset(i),
                    self.current(
                        self.ledger(),
                        i,
                        tree.arity(i),
                        self.hands_at(tree, i),
                        tree.nodes@[i].player_id as int,
                    ),
                )
            } else {
                prev
            }
        }
    }

    /// Takes the snapshot of the strategy.
    pub fn compute_snapshot(&mut self, tree: &FlatTree)
        requires
            old(self).is_for(tree),
            old(self).use_snapshot,
        ensures
            final(self).is_for(tree),
            final(self).snapshot@ == old(self).snapshot_upto(tree, tree.size() as nat),
            *final(self) == (CpuMccfr { snapshot: final(self).snapshot, ..*old(self) }),
    {
        let n: usize = tree.nodes.len();
        let mut snapshot: Vec<T> = cut_of(self.snapshot.as_slice(), 0, self.snapshot.len());
        assert(snapshot@ =~= self.snapshot@);
        let mut i: usize = 0;
        while i < n
            invariant
                i <= n,
                n == tree.size(),
                self.is_for(tree),
                *self == *old(self),
                snapshot@.len() == self.total(),
                snapshot@ == self.snapshot_upto(tree, i as nat),
            decreases n - i,
        {
            assert(tree.node_ok(i as int));
            if tree.nodes[i].is_player() && !self.frozen[i] {
                proof {
                    self.lemma_room(tree, i as int);
                    assert(self.frozen_variants@[0]@.len() == self.total());
                }
                let na: usize = tree.nodes[i].num_children as usize;
                let player: u8 = tree.nodes[i].player_id;
                let nh: usize = self.num_hands[player as usize];
                let s = self.compute_strategy(i, na, nh, player);
                put_into(&mut snapshot, self.node_data_offset[i], s.as_slice());
            }
            i += 1;
        }
        self.snapshot = snapshot;
    }
}

} // verus!
