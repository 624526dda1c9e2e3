//! Values of fixed strategies and of best responses to them.
use vstd::prelude::*;

use crate::game::{is_reach, plays_on, GameSpec};
use crate::layout::{at, flat, lemma_at_bound, row_copy};
use crate::scalar::{filled, sum_upto, Scalar, Widen};
use crate::terminal::views;
use crate::tree::{FlatTree, UNUSED};

verus! {

/// Entries of column `h` of rows of `w`, from `base` on, by action.
pub open spec fn entries<T>(values: Seq<T>, base: int, w: int, h: int) -> spec_fn(int) -> T {
    |a: int| values[base + at(w, a, h)]
}

/// Action `a`'s share of what the entries of its column add up to; all actions
/// alike where that is not positive.
pub open spec fn plain_share<T: Scalar>(
    values: Seq<T>,
    base: int,
    w: int,
    na: int,
    a: int,
    h: int,
) -> T {
    let total = sum_upto(entries(values, base, w, h), na as nat);
    if T::s_zero().s_below(total) {
        values[base + at(w, a, h)].s_over(total)
    } else {
        T::s_one().s_over(T::s_of(na))
    }
}

/// The shares of the first `na` rows of `w` entries from `base` on.
pub fn plain_shares<T: Scalar>(values: &[T], base: usize, na: usize, w: usize) -> (out: Vec<T>)
    requires
        base + na * w <= values@.len(),
    ensures
        out@.len() == na * w,
        forall|a: int, h: int|
            0 <= a < na && 0 <= h < w ==> #[trigger] out@[at(w as int, a, h)] == plain_share(
                values@,
                base as int,
                w as int,
                na as int,
                a,
                h,
            ),
{
    let ghost wi = w as int;
    let ghost b = base as int;
    let len: usize = values.len();
    let mut totals: Vec<T> = Vec::new();
    let mut h: usize = 0;
    while h < w
        invariant
            h <= w,
            wi == w,
            b == base,
            len == values@.len(),
            base + na * w <= values@.len(),
            totals@.len() == h,
            forall|k: int|
                0 <= k < h ==> #[trigger] totals@[k] == sum_upto(
                    entries(values@, b, wi, k),
                    na as nat,
                ),
        decreases w - h,
    {
        let mut total = T::zero();
        let mut a: usize = 0;
        while a < na
            invariant
                a <= na,
                h < w,
                wi == w,
                b == base,
                len == values@.len(),
                base + na * w <= values@.len(),
                total == sum_upto(entries(values@, b, wi, h as int), a as nat),
            decreases na - a,
        {
            proof {
                lemma_at_bound(wi, na as int, a as int, h as int);
            }
            total = total.plus(values[base + (a * w + h)]);
            a += 1;
        }
        totals.push(total);
        h += 1;
    }
    let mut out: Vec<T> = Vec::new();
    let mut a: usize = 0;
    while a < na
        invariant
            a <= na,
            wi == w,
            b == base,
            len == values@.len(),
            base + na * w <= values@.len(),
            totals@.len() == w,
            forall|k: int|
                0 <= k < w ==> #[trigger] totals@[k] == sum_upto(
                    entries(values@, b, wi, k),
                    na as nat,
                ),
            out@.len() == a * w,
            forall|c: int, k: int|
                0 <= c < a && 0 <= k < wi ==> #[trigger] out@[at(wi, c, k)] == plain_share(
                    values@,
                    b,
                    wi,
                    na as int,
                    c,
                    k,
                ),
        decreases na - a,
    {
        let mut h: usize = 0;
        while h < w
            invariant
                h <= w,
                a < na,
                wi == w,
                b == base,
                len == values@.len(),
                base + na * w <= values@.len(),
                totals@.len() == w,
                forall|k: int|
                    0 <= k < w ==> #[trigger] totals@[k] == sum_upto(
                        entries(values@, b, wi, k),
                        na as nat,
                    ),
                out@.len() == a * w + h,
                forall|c: int, k: int|
                    0 <= c < a && 0 <= k < wi || c == a && 0 <= k < h ==> #[trigger] out@[at(
                        wi,
                        c,
                        k,
                    )] == plain_share(values@, b, wi, na as int, c, k),
            decreases w - h,
        {
            let ghost before = out@;
            proof {
                lemma_at_bound(wi, na as int, a as int, h as int);
            }
            let total = totals[h];
            if T::zero().below(total) {
                out.push(values[base + (a * w + h)].over(total));
            } else {
                out.push(T::one().over(T::of_usize(na)));
            }
            proof {
                assert forall|c: int, k: int|
                    0 <= c < a && 0 <= k < wi || c == a && 0 <= k < h + 1 implies #[trigger] out@[at(
                    wi,
                    c,
                    k,
                )] == plain_share(values@, b, wi, na as int, c, k) by {
                    if c < a {
                        lemma_at_bound(wi, a as int, c, k);
                        assert(before[at(wi, c, k)] == out@[at(wi, c, k)]);
                    } else if k < h {
                        assert(before[at(wi, c, k)] == out@[at(wi, c, k)]);
                    }
                }
            }
            h += 1;
        }
        proof {
            assert(a * w + w == (a + 1) * w) by (nonlinear_arith);
        }
        a += 1;
    }
    out
}

/// Cumulative strategies of a whole tree, with the place of each node's.
pub struct StrategyProfile<'a, T> {
    pub cum_strategy: &'a [T],
    pub node_offsets_u32: Option<&'a [u32]>,
    pub node_offsets_usize: Option<&'a [usize]>,
    pub nh: usize,
}

impl<'a, T: Scalar> StrategyProfile<'a, T> {
    /// Where node `i`'s entries start; `UNUSED` where it has none.
    pub open spec fn offset(&self, i: int) -> int {
        match self.node_offsets_u32 {
            Some(o) => o@[i] as int,
            None => match self.node_offsets_usize {
                Some(o) => o@[i] as int,
                None => UNUSED as int,
            },
        }
    }

    /// Every player node of the tree has its entries, or none.
    pub open spec fn covers(&self, tree: &FlatTree) -> bool {
        &&& self.node_offsets_u32 matches Some(o) ==> o@.len() == tree.size()
        &&& self.node_offsets_usize matches Some(o) ==> o@.len() == tree.size()
        &&& forall|i: int|
            tree.is_node(i) && (#[trigger] tree.nodes@[i]).is_player() && self.offset(i) != UNUSED
                ==> self.offset(i) + tree.arity(i) * self.nh <= self.cum_strategy@.len()
        &&& forall|i: int|
            tree.is_node(i) && (#[trigger] tree.nodes@[i]).is_player() ==> tree.arity(i) * self.nh
                <= usize::MAX
    }

    /// The probability that hand `h` takes action `a` of `na` at node `i`.
    pub open spec fn sigma(&self, i: int, na: int, a: int, h: int) -> T {
        if self.offset(i) == UNUSED {
            T::s_one().s_over(T::s_of(na))
        } else {
            plain_share(self.cum_strategy@, self.offset(i), self.nh as int, na, a, h)
        }
    }

    pub fn from_u32_offsets(cum_strategy: &'a [T], node_offsets: &'a [u32], nh: usize) -> (p:
        StrategyProfile<'a, T>)
        ensures
            p.cum_strategy@ == cum_strategy@,
            p.nh == nh,
            p.node_offsets_u32 == Some(node_offsets),
            p.node_offsets_usize is None,
            forall|i: int| #[trigger] p.offset(i) == node_offsets@[i],
    {
        StrategyProfile {
            cum_strategy,
            node_offsets_u32: Some(node_offsets),
            node_offsets_usize: None,
            nh,
        }
    }

    pub fn from_usize_offsets(cum_strategy: &'a [T], node_offsets: &'a [usize], nh: usize) -> (p:
        StrategyProfile<'a, T>)
        ensures
            p.cum_strategy@ == cum_strategy@,
            p.nh == nh,
            p.node_offsets_u32 is None,
            p.node_offsets_usize == Some(node_offsets),
            forall|i: int| #[trigger] p.offset(i) == node_offsets@[i],
    {
        StrategyProfile {
            cum_strategy,
            node_offsets_u32: None,
            node_offsets_usize: Some(node_offsets),
            nh,
        }
    }

    fn node_offset(&self, node_idx: usize) -> (o: usize)
        requires
            self.node_offsets_u32 matches Some(o) ==> node_idx < o@.len(),
            self.node_offsets_usize matches Some(o) ==> node_idx < o@.len(),
        ensures
            o == self.offset(node_idx as int),
    {
        match self.node_offsets_u32 {
            Some(offsets) => offsets[node_idx] as usize,
            None => match self.node_offsets_usize {
                Some(offsets) => offsets[node_idx],
                None => UNUSED,
            },
        }
    }

    /// The strategy of a player node, one row of hands per action.
    fn get_strategy(&self, tree: &FlatTree, node_idx: usize, num_actions: usize) -> (s: Vec<T>)
        requires
            self.covers(tree),
            tree.is_node(node_idx as int),
            tree.nodes@[node_idx as int].is_player(),
            num_actions == tree.arity(node_idx as int),
        ensures
            s@.len() == num_actions * self.nh,
            forall|a: int, h: int|
                0 <= a < num_actions && 0 <= h < self.nh ==> #[trigger] s@[at(
                    self.nh as int,
                    a,
                    h,
                )] == self.sigma(node_idx as int, num_actions as int, a, h),
    {
        let offset: usize = self.node_offset(node_idx);
        if offset == UNUSED {
            let uniform = T::one().over(T::of_usize(num_actions));
            let s = filled(uniform, num_actions * self.nh);
            proof {
                assert forall|a: int, h: int| 0 <= a < num_actions && 0 <= h < self.nh implies #[trigger] s@[at(
                    self.nh as int,
                    a,
                    h,
                )] == self.sigma(node_idx as int, num_actions as int, a, h) by {
                    lemma_at_bound(self.nh as int, num_actions as int, a, h);
                }
            }
            s
        } else {
            plain_shares(self.cum_strategy, offset, num_actions, self.nh)
        }
    }
}

/// Column `h` of the children's values.
pub open spec fn across<T>(vs: Seq<Seq<T>>, h: int) -> spec_fn(int) -> T {
    |a: int| vs[a][h]
}

/// The same, each times the probability of its action.
pub open spec fn across_played<T: Scalar>(
    prof: &StrategyProfile<T>,
    i: int,
    vs: Seq<Seq<T>>,
    h: int,
) -> spec_fn(int) -> T {
    |a: int| prof.sigma(i, vs.len() as int, a, h).s_times(vs[a][h])
}

/// The largest of the first `n` children's values of hand `h`.
pub open spec fn best_of<T: Scalar>(vs: Seq<Seq<T>>, h: int, n: nat) -> T
    decreases n,
{
    if n == 0 {
        T::s_lowest()
    } else {
        let prev = best_of(vs, h, (n - 1) as nat);
        if prev.s_below(vs[n - 1][h]) {
            vs[n - 1][h]
        } else {
            prev
        }
    }
}

/// The value of player node `i` from its children's values `vs`: for the target
/// the best child or the strategy's mix, for anyone else the sum.
pub open spec fn decided<T: Scalar>(
    tree: &FlatTree,
    prof: &StrategyProfile<T>,
    target: u8,
    best: bool,
    i: int,
    nh: int,
    vs: Seq<Seq<T>>,
) -> Seq<T> {
    Seq::new(
        nh as nat,
        |h: int|
            if tree.nodes@[i].player_id != target {
                sum_upto(across(vs, h), vs.len())
            } else if best {
                best_of(vs, h, vs.len())
            } else {
                sum_upto(across_played(prof, i, vs, h), vs.len())
            },
    )
}

/// The reach after the owner of node `i` took action `a`.
pub open spec fn reach_after<T: Scalar>(
    tree: &FlatTree,
    prof: &StrategyProfile<T>,
    i: int,
    a: int,
    reach: Seq<Seq<T>>,
) -> Seq<Seq<T>> {
    let p = tree.nodes@[i].player_id as int;
    reach.update(
        p,
        Seq::new(
            reach[p].len(),
            |h: int| reach[p][h].s_times(prof.sigma(i, tree.arity(i), a, h)),
        ),
    )
}

/// Values so far plus a chance times new ones.
pub open spec fn blended<T: Widen, G: GameSpec<T>>(g: &G, outcome: int, v: Seq<T>, w: Seq<T>) -> Seq<
    T,
> {
    Seq::new(v.len(), |h: int| v[h].s_plus(g.s_chance(outcome, h).s_times(w[h])))
}

/// The target's values at node `i`, and the game as the walk leaves it.
pub open spec fn walk<T: Widen, G: GameSpec<T>>(
    tree: &FlatTree,
    g: G,
    prof: &StrategyProfile<T>,
    target: u8,
    best: bool,
    i: int,
    reach: Seq<Seq<T>>,
) -> (Seq<T>, G)
    decreases tree.max_depth + 1 - tree.level(i), 1int, 0int,
    when tree.wf() && tree.is_node(i)
{
    let n = tree.nodes@[i];
    if n.is_terminal() || (n.is_chance() && tree.arity(i) == 0) {
        (g.s_terminal(target, i, tree, reach), g)
    } else if n.is_chance() {
        if g.s_outcomes() > 0 && tree.arity(i) == 1 {
            let (v, g2) = walk_deals(tree, g, prof, target, best, i, reach, g.s_outcomes() as nat);
            (v, g2.s_clear())
        } else {
            walk_branches(tree, g, prof, target, best, i, reach, tree.arity(i) as nat)
        }
    } else {
        let (vs, g2) = walk_actions(
            tree,
            g,
            prof,
            target,
            best,
            i,
            reach,
            tree.arity(i) as nat,
        );
        (decided(tree, prof, target, best, i, g.s_hands(target as int), vs), g2)
    }
}

/// The first `n` outcomes of the deal at node `i`, one after the other.
pub open spec fn walk_deals<T: Widen, G: GameSpec<T>>(
    tree: &FlatTree,
    g: G,
    prof: &StrategyProfile<T>,
    target: u8,
    best: bool,
    i: int,
    reach: Seq<Seq<T>>,
    n: nat,
) -> (Seq<T>, G)
    decreases tree.max_depth + 1 - tree.level(i), 0int, n,
    when tree.wf() && tree.is_node(i)
{
    if n == 0 || !tree.is_edge(i, 0) {
        (flat(T::s_zero(), g.s_hands(target as int)), g)
    } else {
        let (v, g1) = walk_deals(tree, g, prof, target, best, i, reach, (n - 1) as nat);
        let (w, g2) = walk(
            tree,
            g1.s_set(n - 1),
            prof,
            target,
            best,
            tree.child(i, 0),
            reach,
        );
        (blended(&g2, n - 1, v, w), g2)
    }
}

/// The first `n` children of the deal at node `i`, each an outcome of its own.
pub open spec fn walk_branches<T: Widen, G: GameSpec<T>>(
    tree: &FlatTree,
    g: G,
    prof: &StrategyProfile<T>,
    target: u8,
    best: bool,
    i: int,
    reach: Seq<Seq<T>>,
    n: nat,
) -> (Seq<T>, G)
    decreases tree.max_depth + 1 - tree.level(i), 0int, n,
    when tree.wf() && tree.is_node(i) && n <= tree.arity(i)
{
    if n == 0 || !tree.is_edge(i, n - 1) {
        (flat(T::s_zero(), g.s_hands(target as int)), g)
    } else {
        let (v, g1) = walk_branches(tree, g, prof, target, best, i, reach, (n - 1) as nat);
        let (w, g2) = walk(tree, g1, prof, target, best, tree.child(i, n - 1), reach);
        (blended(&g2, n - 1, v, w), g2)
    }
}

/// The values of the first `n` actions at player node `i`.
pub open spec fn walk_actions<T: Widen, G: GameSpec<T>>(
    tree: &FlatTree,
    g: G,
    prof: &StrategyProfile<T>,
    target: u8,
    best: bool,
    i: int,
    reach: Seq<Seq<T>>,
    n: nat,
) -> (Seq<Seq<T>>, G)
    decreases tree.max_depth + 1 - tree.level(i), 0int, n,
    when tree.wf() && tree.is_node(i) && n <= tree.arity(i)
{
    if n == 0 || !tree.is_edge(i, n - 1) {
        (Seq::empty(), g)
    } else {
        let (vs, g1) = walk_actions(tree, g, prof, target, best, i, reach, (n - 1) as nat);
        let (w, g2) = walk(
            tree,
            g1,
            prof,
            target,
            best,
            tree.child(i, n - 1),
            reach_after(tree, prof, i, n - 1, reach),
        );
        (vs.push(w), g2)
    }
}

/// The game is played on the tree, with the profile's hands.
pub open spec fn is_played<T: Widen, G: GameSpec<T>>(g: &G, tree: &FlatTree, nh: int) -> bool {
    plays_on(g, tree) && forall|p: int| #[trigger] g.s_hands(p) == nh
}

/// The walk from node `i` asks the game only for deals that it can make, and for chances
/// that it can tell.
pub open spec fn can_walk<T: Widen, G: GameSpec<T>>(
    tree: &FlatTree,
    g: G,
    prof: &StrategyProfile<T>,
    target: u8,
    best: bool,
    i: int,
    reach: Seq<Seq<T>>,
) -> bool
    decreases tree.max_depth + 1 - tree.level(i), 1int, 0int,
    when tree.wf() && tree.is_node(i)
{
    let n = tree.nodes@[i];
    if n.is_terminal() || (n.is_chance() && tree.arity(i) == 0) {
        true
    } else if n.is_chance() {
        if g.s_outcomes() > 0 && tree.arity(i) == 1 {
            can_deal_upto(tree, g, prof, target, best, i, reach, g.s_outcomes() as nat)
        } else {
            can_branch_upto(tree, g, prof, target, best, i, reach, tree.arity(i) as nat)
        }
    } else {
        can_act_upto(tree, g, prof, target, best, i, reach, tree.arity(i) as nat)
    }
}

/// The same of the first `n` outcomes of the deal at node `i`.
pub open spec fn can_deal_upto<T: Widen, G: GameSpec<T>>(
    tree: &FlatTree,
    g: G,
    prof: &StrategyProfile<T>,
    target: u8,
    best: bool,
    i: int,
    reach: Seq<Seq<T>>,
    n: nat,
) -> bool
    decreases tree.max_depth + 1 - tree.level(i), 0int, n,
    when tree.wf() && tree.is_node(i)
{
    if n == 0 || !tree.is_edge(i, 0) {
        true
    } else {
        let o = n - 1;
        let g1 = walk_deals(tree, g, prof, target, best, i, reach, (n - 1) as nat).1;
        let c = tree.child(i, 0);
        &&& can_deal_upto(tree, g, prof, target, best, i, reach, (n - 1) as nat)
        &&& 0 <= o < g1.s_outcomes() || g1.s_can_deal(o)
        &&& can_walk(tree, g1.s_set(o), prof, target, best, c, reach)
        &&& walk(tree, g1.s_set(o), prof, target, best, c, reach).1.s_can_ask(o)
    }
}

/// The same of the first `n` children of the deal at node `i`.
pub open spec fn can_branch_upto<T: Widen, G: GameSpec<T>>(
    tree: &FlatTree,
    g: G,
    prof: &StrategyProfile<T>,
    target: u8,
    best: bool,
    i: int,
    reach: Seq<Seq<T>>,
    n: nat,
) -> bool
    decreases tree.max_depth + 1 - tree.level(i), 0int, n,
    when tree.wf() && tree.is_node(i) && n <= tree.arity(i)
{
    if n == 0 || !tree.is_edge(i, n - 1) {
        true
    } else {
        let o = n - 1;
        let g1 = walk_branches(tree, g, prof, target, best, i, reach, (n - 1) as nat).1;
        let c = tree.child(i, n - 1);
        &&& can_branch_upto(tree, g, prof, target, best, i, reach, (n - 1) as nat)
        &&& can_walk(tree, g1, prof, target, best, c, reach)
        &&& walk(tree, g1, prof, target, best, c, reach).1.s_can_ask(o)
    }
}

/// The same of the first `n` actions at node `i`.
pub open spec fn can_act_upto<T: Widen, G: GameSpec<T>>(
    tree: &FlatTree,
    g: G,
    prof: &StrategyProfile<T>,
    target: u8,
    best: bool,
    i: int,
    reach: Seq<Seq<T>>,
    n: nat,
) -> bool
    decreases tree.max_depth + 1 - tree.level(i), 0int, n,
    when tree.wf() && tree.is_node(i) && n <= tree.arity(i)
{
    if n == 0 || !tree.is_edge(i, n - 1) {
        true
    } else {
        let g1 = walk_actions(tree, g, prof, target, best, i, reach, (n - 1) as nat).1;
        &&& can_act_upto(tree, g, prof, target, best, i, reach, (n - 1) as nat)
        &&& can_walk(
            tree,
            g1,
            prof,
            target,
            best,
            tree.child(i, n - 1),
            reach_after(tree, prof, i, n - 1, reach),
        )
    }
}

/// The game has one deal at most, and knows the chances of every branch of the tree.
pub open spec fn deals_once<T: Widen, G: GameSpec<T>>(g: &G, tree: &FlatTree) -> bool {
    &&& g.s_valid()
    &&& g.s_single_deal()
    &&& forall|k: int| 0 <= k < g.s_outcomes() ==> #[trigger] g.s_can_ask(k)
    &&& forall|i: int, k: int|
        #![trigger tree.nodes@[i], g.s_can_ask(k)]
        tree.is_node(i) && tree.nodes@[i].is_chance() && 0 <= k < tree.arity(i) ==> g.s_can_ask(k)
}

/// A state that a walk can leave behind.
spec fn kept<T: Widen, G: GameSpec<T>>(g: &G, h: &G, tree: &FlatTree) -> bool {
    &&& deals_once(h, tree)
    &&& g.s_outcomes() == h.s_outcomes()
    &&& forall|k: int| g.s_can_ask(k) ==> #[trigger] h.s_can_ask(k)
}

proof fn lemma_kept<T: Widen, G: GameSpec<T>>(g: &G, h: &G, tree: &FlatTree)
    requires
        deals_once(g, tree),
        h.s_valid(),
        h.s_single_deal(),
        g.s_outcomes() == h.s_outcomes(),
        forall|k: int| g.s_can_ask(k) ==> #[trigger] h.s_can_ask(k),
    ensures
        kept(g, h, tree),
{
    assert forall|i: int, k: int|
        #![trigger tree.nodes@[i], h.s_can_ask(k)]
        tree.is_node(i) && tree.nodes@[i].is_chance() && 0 <= k < tree.arity(i) implies h.s_can_ask(
        k,
    ) by {
        assert(g.s_can_ask(k));
    }
    assert forall|k: int| 0 <= k < h.s_outcomes() implies #[trigger] h.s_can_ask(k) by {
        assert(g.s_can_ask(k));
    }
}

/// A game with one deal at most can be walked from every node, and is left as it can be
/// walked again.
pub proof fn law_single_deals_can_be_walked<T: Widen, G: GameSpec<T>>(
    tree: &FlatTree,
    g: G,
    prof: &StrategyProfile<T>,
    target: u8,
    best: bool,
    i: int,
    reach: Seq<Seq<T>>,
)
    requires
        tree.wf(),
        tree.is_node(i),
        deals_once(&g, tree),
    ensures
        can_walk(tree, g, prof, target, best, i, reach),
        deals_once(&walk(tree, g, prof, target, best, i, reach).1, tree),
{
    lemma_walked(tree, g, prof, target, best, i, reach);
}

proof fn lemma_walked<T: Widen, G: GameSpec<T>>(
    tree: &FlatTree,
    g: G,
    prof: &StrategyProfile<T>,
    target: u8,
    best: bool,
    i: int,
    reach: Seq<Seq<T>>,
)
    requires
        tree.wf(),
        tree.is_node(i),
        deals_once(&g, tree),
    ensures
        can_walk(tree, g, prof, target, best, i, reach),
        kept(&g, &walk(tree, g, prof, target, best, i, reach).1, tree),
    decreases tree.max_depth + 1 - tree.level(i), 1int, 0int,
{
    let n = tree.nodes@[i];
    if !(n.is_terminal() || (n.is_chance() && tree.arity(i) == 0)) {
        if n.is_chance() {
            if g.s_outcomes() > 0 && tree.arity(i) == 1 {
                let m = g.s_outcomes() as nat;
                lemma_deals_walked(tree, g, prof, target, best, i, reach, m);
                let g2 = walk_deals(tree, g, prof, target, best, i, reach, m).1;
                g2.lemma_clear();
                lemma_kept(&g2, &g2.s_clear(), tree);
            } else {
                lemma_branches_walked(tree, g, prof, target, best, i, reach, tree.arity(i) as nat);
            }
        } else {
            lemma_actions_walked(tree, g, prof, target, best, i, reach, tree.arity(i) as nat);
        }
    }
}

proof fn lemma_deals_walked<T: Widen, G: GameSpec<T>>(
    tree: &FlatTree,
    g: G,
    prof: &StrategyProfile<T>,
    target: u8,
    best: bool,
    i: int,
    reach: Seq<Seq<T>>,
    n: nat,
)
    requires
        tree.wf(),
        tree.is_node(i),
        deals_once(&g, tree),
        n <= g.s_outcomes(),
    ensures
        can_deal_upto(tree, g, prof, target, best, i, reach, n),
        kept(&g, &walk_deals(tree, g, prof, target, best, i, reach, n).1, tree),
    decreases tree.max_depth + 1 - tree.level(i), 0int, n,
{
    if n > 0 && tree.is_edge(i, 0) {
        lemma_deals_walked(tree, g, prof, target, best, i, reach, (n - 1) as nat);
        let g1 = walk_deals(tree, g, prof, target, best, i, reach, (n - 1) as nat).1;
        let o: int = n - 1;
        assert(tree.edge_ok(i, 0));
        g1.lemma_set(o);
        lemma_kept(&g1, &g1.s_set(o), tree);
        lemma_walked(tree, g1.s_set(o), prof, target, best, tree.child(i, 0), reach);
        let g2 = walk(tree, g1.s_set(o), prof, target, best, tree.child(i, 0), reach).1;
        assert(g2.s_can_ask(o));
    }
}

proof fn lemma_branches_walked<T: Widen, G: GameSpec<T>>(
    tree: &FlatTree,
    g: G,
    prof: &StrategyProfile<T>,
    target: u8,
    best: bool,
    i: int,
    reach: Seq<Seq<T>>,
    n: nat,
)
    requires
        tree.wf(),
        tree.is_node(i),
        tree.nodes@[i].is_chance(),
        n <= tree.arity(i),
        deals_once(&g, tree),
    ensures
        can_branch_upto(tree, g, prof, target, best, i, reach, n),
        kept(&g, &walk_branches(tree, g, prof, target, best, i, reach, n).1, tree),
    decreases tree.max_depth + 1 - tree.level(i), 0int, n,
{
    if n > 0 {
        lemma_branches_walked(tree, g, prof, target, best, i, reach, (n - 1) as nat);
        let g1 = walk_branches(tree, g, prof, target, best, i, reach, (n - 1) as nat).1;
        let o: int = n - 1;
        assert(tree.is_edge(i, o));
        assert(tree.edge_ok(i, o));
        lemma_walked(tree, g1, prof, target, best, tree.child(i, o), reach);
        let g2 = walk(tree, g1, prof, target, best, tree.child(i, o), reach).1;
        assert(g2.s_can_ask(o));
    }
}

proof fn lemma_actions_walked<T: Widen, G: GameSpec<T>>(
    tree: &FlatTree,
    g: G,
    prof: &StrategyProfile<T>,
    target: u8,
    best: bool,
    i: int,
    reach: Seq<Seq<T>>,
    n: nat,
)
    requires
        tree.wf(),
        tree.is_node(i),
        n <= tree.arity(i),
        deals_once(&g, tree),
    ensures
        can_act_upto(tree, g, prof, target, best, i, reach, n),
        kept(&g, &walk_actions(tree, g, prof, target, best, i, reach, n).1, tree),
    decreases tree.max_depth + 1 - tree.level(i), 0int, n,
{
    if n > 0 {
        lemma_actions_walked(tree, g, prof, target, best, i, reach, (n - 1) as nat);
        let g1 = walk_actions(tree, g, prof, target, best, i, reach, (n - 1) as nat).1;
        let a: int = n - 1;
        assert(tree.is_edge(i, a));
        assert(tree.edge_ok(i, a));
        lemma_walked(
            tree,
            g1,
            prof,
            target,
            best,
            tree.child(i, a),
            reach_after(tree, prof, i, a, reach),
        );
    }
}

/// A row times the probabilities of one action.
pub fn row_after<T: Scalar>(raw: &Vec<T>, sigma: &Vec<T>, a: usize, na: usize) -> (out: Vec<T>)
    requires
        a < na,
        sigma@.len() == na * raw@.len(),
    ensures
        out@ == Seq::new(
            raw@.len(),
            |h: int| raw@[h].s_times(sigma@[at(raw@.len() as int, a as int, h)]),
        ),
{
    let nh: usize = raw.len();
    let total: usize = sigma.len();
    let mut out: Vec<T> = Vec::new();
    let mut h: usize = 0;
    while h < nh
        invariant
            h <= nh,
            nh == raw@.len(),
            a < na,
            total == sigma@.len(),
            sigma@.len() == na * raw@.len(),
            out@.len() == h,
            forall|k: int|
                0 <= k < h ==> #[trigger] out@[k] == raw@[k].s_times(
                    sigma@[at(nh as int, a as int, k)],
                ),
        decreases nh - h,
    {
        proof {
            lemma_at_bound(nh as int, na as int, a as int, h as int);
        }
        out.push(raw[h].times(sigma[a * nh + h]));
        h += 1;
    }
    out
}

/// Adds the values of one outcome, times its chance.
fn blend<T: Widen, G: GameSpec<T>>(g: &G, outcome: usize, v: Vec<T>, w: &Vec<T>, target: u8) -> (out:
    Vec<T>)
    requires
        g.s_valid(),
        g.s_can_ask(outcome as int),
        target < g.s_players(),
        v@.len() == g.s_hands(target as int),
        w@.len() == v@.len(),
    ensures
        out@ == blended(g, outcome as int, v@, w@),
{
    let mut out: Vec<T> = Vec::new();
    let mut h: usize = 0;
    while h < v.len()
        invariant
            h <= v@.len(),
            g.s_valid(),
            g.s_can_ask(outcome as int),
            target < g.s_players(),
            v@.len() == g.s_hands(target as int),
            w@.len() == v@.len(),
            out@.len() == h,
            forall|k: int|
                0 <= k < h ==> #[trigger] out@[k] == blended(g, outcome as int, v@, w@)[k],
        decreases v@.len() - h,
    {
        out.push(v[h].plus(g.chance_probability(outcome, h).times(w[h])));
        h += 1;
    }
    assert(out@ =~= blended(g, outcome as int, v@, w@));
    out
}

/// The value of a player node from those of its actions.
fn decide<T: Scalar>(
    tree: &FlatTree,
    prof: &StrategyProfile<T>,
    target: u8,
    best: bool,
    node_idx: usize,
    nh: usize,
    vs: &Vec<Vec<T>>,
    sigma: &Vec<T>,
) -> (out: Vec<T>)
    requires
        tree.is_node(node_idx as int),
        nh == prof.nh,
        vs@.len() == tree.arity(node_idx as int),
        forall|a: int| 0 <= a < vs@.len() ==> (#[trigger] vs@[a])@.len() == nh,
        sigma@.len() == vs@.len() * nh,
        forall|a: int, h: int|
            0 <= a < vs@.len() && 0 <= h < nh ==> #[trigger] sigma@[at(nh as int, a, h)]
                == prof.sigma(node_idx as int, vs@.len() as int, a, h),
    ensures
        out@ == decided(tree, prof, target, best, node_idx as int, nh as int, views(vs@)),
{
    let ghost i = node_idx as int;
    let ghost vv = views(vs@);
    let total: usize = sigma.len();
    let own = tree.nodes[node_idx].player_id == target;
    let mut out: Vec<T> = Vec::new();
    let mut h: usize = 0;
    while h < nh
        invariant
            h <= nh,
            nh == prof.nh,
            i == node_idx,
            vv == views(vs@),
            total == sigma@.len(),
            own == (tree.nodes@[i].player_id == target),
            forall|a: int| 0 <= a < vs@.len() ==> (#[trigger] vs@[a])@.len() == nh,
            sigma@.len() == vs@.len() * nh,
            forall|a: int, k: int|
                0 <= a < vs@.len() && 0 <= k < nh ==> #[trigger] sigma@[at(nh as int, a, k)]
                    == prof.sigma(i, vs@.len() as int, a, k),
            out@.len() == h,
            forall|k: int|
                0 <= k < h ==> #[trigger] out@[k] == decided(
                    tree,
                    prof,
                    target,
                    best,
                    i,
                    nh as int,
                    vv,
                )[k],
        decreases nh - h,
    {
        let mut x = if own && best {
            T::lowest()
        } else {
            T::zero()
        };
        let mut a: usize = 0;
        while a < vs.len()
            invariant
                a <= vs@.len(),
                h < nh,
                i == node_idx,
                vv == views(vs@),
                total == sigma@.len(),
                forall|c: int| 0 <= c < vs@.len() ==> (#[trigger] vs@[c])@.len() == nh,
                sigma@.len() == vs@.len() * nh,
                forall|c: int, k: int|
                    0 <= c < vs@.len() && 0 <= k < nh ==> #[trigger] sigma@[at(nh as int, c, k)]
                        == prof.sigma(i, vs@.len() as int, c, k),
                x == if !own {
                    sum_upto(across(vv, h as int), a as nat)
                } else if best {
                    best_of(vv, h as int, a as nat)
                } else {
                    sum_upto(across_played(prof, i, vv, h as int), a as nat)
                },
            decreases vs@.len() - a,
        {
            let y = vs[a][h];
            assert(vv[a as int][h as int] == y);
            if !own {
                x = x.plus(y);
            } else if best {
                if x.below(y) {
                    x = y;
                }
            } else {
                proof {
                    lemma_at_bound(nh as int, vs@.len() as int, a as int, h as int);
                    assert(sigma@[at(nh as int, a as int, h as int)] == prof.sigma(
                        i,
                        vs@.len() as int,
                        a as int,
                        h as int,
                    ));
                }
                x = x.plus(sigma[a * nh + h].times(y));
            }
            a += 1;
        }
        out.push(x);
        h += 1;
    }
    assert(out@ =~= decided(tree, prof, target, best, i, nh as int, vv));
    out
}

proof fn lemma_can_deal_fewer<T: Widen, G: GameSpec<T>>(
    tree: &FlatTree,
    g: G,
    prof: &StrategyProfile<T>,
    target: u8,
    best: bool,
    i: int,
    reach: Seq<Seq<T>>,
    n: nat,
    m: nat,
)
    requires
        tree.wf(),
        tree.is_node(i),
        m <= n,
        can_deal_upto(tree, g, prof, target, best, i, reach, n),
    ensures
        can_deal_upto(tree, g, prof, target, best, i, reach, m),
    decreases n,
{
    if m < n {
        let k: int = n - 1;
        assert(tree.is_edge(i, k) || k >= tree.arity(i));
        lemma_can_deal_fewer(tree, g, prof, target, best, i, reach, (n - 1) as nat, m);
    }
}

proof fn lemma_can_branch_fewer<T: Widen, G: GameSpec<T>>(
    tree: &FlatTree,
    g: G,
    prof: &StrategyProfile<T>,
    target: u8,
    best: bool,
    i: int,
    reach: Seq<Seq<T>>,
    n: nat,
    m: nat,
)
    requires
        tree.wf(),
        tree.is_node(i),
        m <= n,
        n <= tree.arity(i),
        can_branch_upto(tree, g, prof, target, best, i, reach, n),
    ensures
        can_branch_upto(tree, g, prof, target, best, i, reach, m),
    decreases n,
{
    if m < n {
        let k: int = n - 1;
        assert(tree.is_edge(i, k) || k >= tree.arity(i));
        lemma_can_branch_fewer(tree, g, prof, target, best, i, reach, (n - 1) as nat, m);
    }
}

proof fn lemma_can_act_fewer<T: Widen, G: GameSpec<T>>(
    tree: &FlatTree,
    g: G,
    prof: &StrategyProfile<T>,
    target: u8,
    best: bool,
    i: int,
    reach: Seq<Seq<T>>,
    n: nat,
    m: nat,
)
    requires
        tree.wf(),
        tree.is_node(i),
        m <= n,
        n <= tree.arity(i),
        can_act_upto(tree, g, prof, target, best, i, reach, n),
    ensures
        can_act_upto(tree, g, prof, target, best, i, reach, m),
    decreases n,
{
    if m < n {
        let k: int = n - 1;
        assert(tree.is_edge(i, k) || k >= tree.arity(i));
        lemma_can_act_fewer(tree, g, prof, target, best, i, reach, (n - 1) as nat, m);
    }
}

/// Walks the tree under the profile: the target plays its best actions, or its
/// own strategy.
fn walk_value<T: Widen, G: GameSpec<T>>(
    tree: &FlatTree,
    game: &mut G,
    strategy: &StrategyProfile<T>,
    target_player: u8,
    best: bool,
    node_idx: usize,
    cfreach: &mut Vec<Vec<T>>,
) -> (values: Vec<T>)
    requires
        tree.is_node(node_idx as int),
        is_played(&*old(game), tree, strategy.nh as int),
        strategy.covers(tree),
        target_player < tree.num_players,
        is_reach(&*old(game), views(old(cfreach)@)),
        can_walk(
            tree,
            *old(game),
            strategy,
            target_player,
            best,
            node_idx as int,
            views(old(cfreach)@),
        ),
    ensures
        (values@, *final(game)) == walk(
            tree,
            *old(game),
            strategy,
            target_player,
            best,
            node_idx as int,
            views(old(cfreach)@),
        ),
        values@.len() == strategy.nh,
        views(final(cfreach)@) == views(old(cfreach)@),
        is_played(&*final(game), tree, strategy.nh as int),
    decreases tree.max_depth + 1 - tree.level(node_idx as int),
{
    let ghost i = node_idx as int;
    let ghost g0 = *game;
    let ghost reach = views(cfreach@);
    let ghost nh = strategy.nh as int;
    let node = tree.nodes[node_idx];
    assert(tree.node_ok(i));
    assert(g0.s_hands(target_player as int) == nh);
    let n: usize = node.num_children as usize;
    if node.is_terminal() || (node.is_chance() && n == 0) {
        proof {
            assert forall|p: int| 0 <= p < cfreach@.len() implies (#[trigger] cfreach@[p])@.len()
                == game.s_hands(p) by {
                assert(reach[p].len() == game.s_hands(p));
            }
        }
        return game.evaluate_terminal(target_player, node_idx, tree, cfreach);
    }
    let nh_t: usize = game.num_hands(target_player);
    let children = tree.node_children(node_idx);
    if node.is_chance() {
        let mut cfv: Vec<T> = filled(T::zero(), nh_t);
        assert(cfv@ =~= flat(T::s_zero(), nh));
        let outcomes: usize = game.num_chance_outcomes();
        if outcomes > 0 && n == 1 {
            proof {
                assert(tree.is_edge(i, 0));
                assert(tree.edge_ok(i, 0));
            }
            let child: usize = children[0] as usize;
            let mut k: usize = 0;
            while k < outcomes
                invariant
                    k <= outcomes,
                    i == node_idx,
                    tree.wf(),
                    tree.is_edge(i, 0),
                    tree.edge_ok(i, 0),
                    child == tree.child(i, 0),
                    nh == strategy.nh,
                    is_played(&g0, tree, nh),
                    strategy.covers(tree),
                    target_player < tree.num_players,
                    is_played(&*game, tree, nh),
                    can_deal_upto(
                        tree,
                        g0,
                        strategy,
                        target_player,
                        best,
                        i,
                        reach,
                        outcomes as nat,
                    ),
                    views(cfreach@) == reach,
                    is_reach(&g0, reach),
                    cfv@.len() == nh,
                    (cfv@, *game) == walk_deals(
                        tree,
                        g0,
                        strategy,
                        target_player,
                        best,
                        i,
                        reach,
                        k as nat,
                    ),
                decreases outcomes - k,
            {
                let ghost g1 = *game;
                proof {
                    lemma_can_deal_fewer(
                        tree,
                        g0,
                        strategy,
                        target_player,
                        best,
                        i,
                        reach,
                        outcomes as nat,
                        (k + 1) as nat,
                    );
                    assert(((k + 1) as nat - 1) as nat == k as nat);
                }
                game.set_chance_outcome(k);
                proof {
                    g1.lemma_set(k as int);
                    assert forall|p: int| #[trigger] game.s_hands(p) == nh by {
                        assert(g1.s_hands(p) == nh);
                    }
                    assert forall|p: int| 0 <= p < reach.len() implies (#[trigger] reach[p]).len()
                        == game.s_hands(p) by {
                        assert(g0.s_hands(p) == nh);
                    }
                }
                let ghost gs = *game;
                let w = walk_value(tree, game, strategy, target_player, best, child, cfreach);
                proof {
                    assert(game.s_hands(target_player as int) == nh);
                    assert(game.s_can_ask(k as int));
                }
                cfv = blend(&*game, k, cfv, &w, target_player);
                k += 1;
            }
            let ghost g3 = *game;
            game.clear_chance_outcome();
            proof {
                g3.lemma_clear();
                assert forall|p: int| #[trigger] game.s_hands(p) == nh by {
                    assert(g3.s_hands(p) == nh);
                }
            }
            return cfv;
        }
        let mut a: usize = 0;
        while a < n
            invariant
                a <= n,
                i == node_idx,
                tree.wf(),
                tree.is_node(i),
                tree.nodes@[i].is_chance(),
                n == tree.arity(i),
                children@.len() == n,
                forall|c: int| 0 <= c < n ==> (#[trigger] children@[c]) as int == tree.child(i, c),
                nh == strategy.nh,
                is_played(&g0, tree, nh),
                strategy.covers(tree),
                target_player < tree.num_players,
                is_played(&*game, tree, nh),
                can_branch_upto(tree, g0, strategy, target_player, best, i, reach, n as nat),
                views(cfreach@) == reach,
                is_reach(&g0, reach),
                cfv@.len() == nh,
                (cfv@, *game) == walk_branches(
                    tree,
                    g0,
                    strategy,
                    target_player,
                    best,
                    i,
                    reach,
                    a as nat,
                ),
            decreases n - a,
        {
            proof {
                assert(tree.is_edge(i, a as int));
                assert(tree.edge_ok(i, a as int));
                lemma_can_branch_fewer(
                    tree,
                    g0,
                    strategy,
                    target_player,
                    best,
                    i,
                    reach,
                    n as nat,
                    (a + 1) as nat,
                );
                assert(((a + 1) as nat - 1) as nat == a as nat);
                assert forall|p: int| 0 <= p < reach.len() implies (#[trigger] reach[p]).len()
                    == game.s_hands(p) by {
                    assert(g0.s_hands(p) == nh);
                }
            }
            let child: usize = children[a] as usize;
            let w = walk_value(tree, game, strategy, target_player, best, child, cfreach);
            proof {
                assert(game.s_hands(target_player as int) == nh);
                assert(game.s_can_ask(a as int));
            }
            cfv = blend(&*game, a, cfv, &w, target_player);
            a += 1;
        }
        return cfv;
    }
    let player: usize = node.player_id as usize;
    let sigma = strategy.get_strategy(tree, node_idx, n);
    let mut cfv_all: Vec<Vec<T>> = Vec::new();
    let mut a: usize = 0;
    while a < n
        invariant
            a <= n,
            i == node_idx,
            tree.wf(),
            tree.is_node(i),
            n == tree.arity(i),
            player == tree.nodes@[i].player_id,
            player < tree.np(),
            children@.len() == n,
            forall|c: int| 0 <= c < n ==> (#[trigger] children@[c]) as int == tree.child(i, c),
            nh == strategy.nh,
            is_played(&g0, tree, nh),
            strategy.covers(tree),
            target_player < tree.num_players,
            sigma@.len() == n * strategy.nh,
            forall|c: int, h: int|
                0 <= c < n && 0 <= h < nh ==> #[trigger] sigma@[at(nh, c, h)] == strategy.sigma(
                    i,
                    n as int,
                    c,
                    h,
                ),
            is_played(&*game, tree, nh),
            can_act_upto(tree, g0, strategy, target_player, best, i, reach, n as nat),
            views(cfreach@) == reach,
            is_reach(&g0, reach),
            cfv_all@.len() == a,
            forall|c: int| 0 <= c < a ==> (#[trigger] cfv_all@[c])@.len() == nh,
            (views(cfv_all@), *game) == walk_actions(
                tree,
                g0,
                strategy,
                target_player,
                best,
                i,
                reach,
                a as nat,
            ),
        decreases n - a,
    {
        proof {
            assert(tree.is_edge(i, a as int));
            assert(tree.edge_ok(i, a as int));
            lemma_can_act_fewer(
                tree,
                g0,
                strategy,
                target_player,
                best,
                i,
                reach,
                n as nat,
                (a + 1) as nat,
            );
            assert(((a + 1) as nat - 1) as nat == a as nat);
            assert(cfreach@.len() == reach.len());
            assert(g0.s_hands(player as int) == nh);
            assert(reach[player as int].len() == nh);
            assert(cfreach@[player as int]@ == reach[player as int]);
        }
        let child: usize = children[a] as usize;
        let saved = row_copy(&cfreach[player]);
        let acted = row_after(&saved, &sigma, a, n);
        cfreach[player] = acted;
        let ghost mid = reach_after(tree, strategy, i, a as int, reach);
        proof {
            assert(mid[player as int] =~= cfreach@[player as int]@);
            assert(views(cfreach@) =~= mid);
            assert forall|p: int| 0 <= p < mid.len() implies (#[trigger] mid[p]).len()
                == game.s_hands(p) by {
                assert(g0.s_hands(p) == nh);
                assert(game.s_hands(p) == nh);
                assert(reach[p].len() == nh);
            }
        }
        let ghost before = views(cfv_all@);
        let w = walk_value(tree, game, strategy, target_player, best, child, cfreach);
        proof {
            assert(cfreach@.len() == reach.len());
            assert forall|p: int| 0 <= p < reach.len() implies (#[trigger] cfreach@[p])@ == mid[p] by {
                assert(views(cfreach@)[p] == mid[p]);
            }
        }
        let ghost ws = w@;
        cfreach[player] = saved;
        assert(views(cfreach@) =~= reach);
        cfv_all.push(w);
        assert(views(cfv_all@) =~= before.push(ws));
        a += 1;
    }
    decide(tree, strategy, target_player, best, node_idx, nh_t, &cfv_all, &sigma)
}

/// The reach that a value for `player` starts from: all ones for that player,
/// the initial weights for everyone else.
pub open spec fn first_reach<T: Widen, G: GameSpec<T>>(g: &G, player: u8, nh: int) -> Seq<Seq<T>> {
    Seq::new(
        g.s_players() as nat,
        |p: int|
            if p == player {
                flat(T::s_one(), nh)
            } else {
                g.s_weight(p)
            },
    )
}

/// Sets up [`first_reach`].
pub fn starting_reach<T: Widen, G: GameSpec<T>>(game: &G, player: u8, np: u8, nh: usize) -> (reach:
    Vec<Vec<T>>)
    requires
        game.s_valid(),
        game.s_players() == np,
        forall|p: int| #[trigger] game.s_hands(p) == nh,
    ensures
        views(reach@) == first_reach(game, player, nh as int),
        is_reach(game, views(reach@)),
{
    let mut reach: Vec<Vec<T>> = Vec::new();
    let mut p: u8 = 0;
    while p < np
        invariant
            p <= np,
            game.s_valid(),
            game.s_players() == np,
            forall|q: int| #[trigger] game.s_hands(q) == nh,
            reach@.len() == p,
            forall|q: int|
                0 <= q < p ==> (#[trigger] reach@[q])@ == first_reach(game, player, nh as int)[q]
                    && reach@[q]@.len() == nh,
        decreases np - p,
    {
        assert(game.s_hands(p as int) == nh);
        if p == player {
            let ones = filled(T::one(), nh);
            assert(ones@ =~= flat(T::s_one(), nh as int));
            reach.push(ones);
        } else {
            reach.push(game.initial_weight(p));
        }
        p += 1;
    }
    assert(views(reach@) =~= first_reach(game, player, nh as int));
    reach
}

/// The values a best response against the profile has for `player`, and the
/// game as the walk leaves it.
pub open spec fn response<T: Widen, G: GameSpec<T>>(
    tree: &FlatTree,
    g: G,
    prof: &StrategyProfile<T>,
    player: u8,
    best: bool,
) -> (Seq<T>, G) {
    walk(tree, g, prof, player, best, 0, first_reach(&g, player, prof.nh as int))
}

/// The walk behind [`response`] asks only for what the game can tell.
pub open spec fn can_respond<T: Widen, G: GameSpec<T>>(
    tree: &FlatTree,
    g: G,
    prof: &StrategyProfile<T>,
    player: u8,
    best: bool,
) -> bool {
    can_walk(tree, g, prof, player, best, 0, first_reach(&g, player, prof.nh as int))
}

/// The values of a best response against the profile.
pub fn best_response_value<T: Widen, G: GameSpec<T>>(
    tree: &FlatTree,
    game: &mut G,
    strategy: &StrategyProfile<T>,
    player: u8,
) -> (values: Vec<T>)
    requires
        is_played(&*old(game), tree, strategy.nh as int),
        can_respond(tree, *old(game), strategy, player, true),
        strategy.covers(tree),
        player < tree.num_players,
    ensures
        (values@, *final(game)) == response(tree, *old(game), strategy, player, true),
        values@.len() == strategy.nh,
        is_played(&*final(game), tree, strategy.nh as int),
{
    let mut cfreach = starting_reach(&*game, player, tree.num_players, strategy.nh);
    walk_value(tree, game, strategy, player, true, 0, &mut cfreach)
}

/// The values of the profile itself.
pub fn strategy_value<T: Widen, G: GameSpec<T>>(
    tree: &FlatTree,
    game: &mut G,
    strategy: &StrategyProfile<T>,
    player: u8,
) -> (values: Vec<T>)
    requires
        is_played(&*old(game), tree, strategy.nh as int),
        can_respond(tree, *old(game), strategy, player, false),
        strategy.covers(tree),
        player < tree.num_players,
    ensures
        (values@, *final(game)) == response(tree, *old(game), strategy, player, false),
        values@.len() == strategy.nh,
        is_played(&*final(game), tree, strategy.nh as int),
{
    let mut cfreach = starting_reach(&*game, player, tree.num_players, strategy.nh);
    walk_value(tree, game, strategy, player, false, 0, &mut cfreach)
}

/// The entries of a row, by hand.
pub open spec fn entries_of<T>(w: Seq<T>) -> spec_fn(int) -> T {
    |h: int| w[h]
}

/// `total` and what the first `n` hands gain by best responding, each weighted
/// by its part of the reach.
pub open spec fn gained<T: Scalar>(
    total: T,
    reach: Seq<T>,
    sum: T,
    br: Seq<T>,
    sv: Seq<T>,
    n: nat,
) -> T
    decreases n,
{
    if n == 0 {
        total
    } else {
        let h = n - 1;
        gained(total, reach, sum, br, sv, h as nat).s_plus(
            reach[h].s_over(sum).s_times(br[h].s_minus(sv[h])),
        )
    }
}

/// What the first `n` players gain by best responding, and the game as the
/// walks leave it.
pub open spec fn exploited<T: Widen, G: GameSpec<T>>(
    tree: &FlatTree,
    g: G,
    prof: &StrategyProfile<T>,
    n: nat,
) -> (T, G)
    decreases n,
{
    if n == 0 {
        (T::s_zero(), g)
    } else {
        let (total, g0) = exploited(tree, g, prof, (n - 1) as nat);
        let p = (n - 1) as u8;
        let (br, g1) = response(tree, g0, prof, p, true);
        let (sv, g2) = response(tree, g1, prof, p, false);
        let reach = g2.s_weight(p as int);
        let sum = sum_upto(entries_of(reach), reach.len());
        if T::s_zero().s_below(sum) {
            (gained(total, reach, sum, br, sv, br.len()), g2)
        } else {
            (total, g2)
        }
    }
}

/// The walks of the first `n` players ask only for what the game can tell.
pub open spec fn can_exploit<T: Widen, G: GameSpec<T>>(
    tree: &FlatTree,
    g: G,
    prof: &StrategyProfile<T>,
    n: nat,
) -> bool
    decreases n,
{
    n == 0 || {
        let g0 = exploited(tree, g, prof, (n - 1) as nat).1;
        let p = (n - 1) as u8;
        &&& can_exploit(tree, g, prof, (n - 1) as nat)
        &&& can_respond(tree, g0, prof, p, true)
        &&& can_respond(tree, response(tree, g0, prof, p, true).1, prof, p, false)
    }
}

proof fn lemma_can_exploit_fewer<T: Widen, G: GameSpec<T>>(
    tree: &FlatTree,
    g: G,
    prof: &StrategyProfile<T>,
    n: nat,
    m: nat,
)
    requires
        m <= n,
        can_exploit(tree, g, prof, n),
    ensures
        can_exploit(tree, g, prof, m),
    decreases n,
{
    if m < n {
        lemma_can_exploit_fewer(tree, g, prof, (n - 1) as nat, m);
    }
}

/// What all players together gain by best responding to the profile.
pub fn exploitability<T: Widen, G: GameSpec<T>>(
    tree: &FlatTree,
    game: &mut G,
    strategy: &StrategyProfile<T>,
) -> (total: T)
    requires
        is_played(&*old(game), tree, strategy.nh as int),
        strategy.covers(tree),
        can_exploit(tree, *old(game), strategy, tree.num_players as nat),
    ensures
        (total, *final(game)) == exploited(tree, *old(game), strategy, tree.num_players as nat),
{
    let ghost g0 = *game;
    let np: u8 = tree.num_players;
    let mut total = T::zero();
    let mut p: u8 = 0;
    while p < np
        invariant
            p <= np,
            np == tree.num_players,
            is_played(&*game, tree, strategy.nh as int),
            can_exploit(tree, g0, strategy, np as nat),
            strategy.covers(tree),
            (total, *game) == exploited(tree, g0, strategy, p as nat),
        decreases np - p,
    {
        let ghost start = total;
        proof {
            lemma_can_exploit_fewer(tree, g0, strategy, np as nat, (p + 1) as nat);
            assert(((p + 1) as nat - 1) as nat == p as nat);
            assert(((p + 1) as nat - 1) as u8 == p);
        }
        let br = best_response_value(tree, game, strategy, p);
        let sv = strategy_value(tree, game, strategy, p);
        assert(game.s_hands(p as int) == strategy.nh);
        let reach = game.initial_weight(p);
        let mut sum = T::zero();
        let mut h: usize = 0;
        while h < reach.len()
            invariant
                h <= reach@.len(),
                sum == sum_upto(entries_of(reach@), h as nat),
            decreases reach@.len() - h,
        {
            sum = sum.plus(reach[h]);
            h += 1;
        }
        if T::zero().below(sum) {
            let mut k: usize = 0;
            while k < br.len()
                invariant
                    k <= br@.len(),
                    br@.len() == sv@.len(),
                    br@.len() == reach@.len(),
                    total == gained(start, reach@, sum, br@, sv@, k as nat),
                decreases br@.len() - k,
            {
                total = total.plus(reach[k].over(sum).times(br[k].minus(sv[k])));
                k += 1;
            }
        }
        p += 1;
    }
    total
}

} // verus!
