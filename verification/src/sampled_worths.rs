//! What a node is worth to a walk that learns.
use vstd::prelude::*;

use crate::best_response::across;
use crate::exact::{is_exact, lemma_sum_times, lemma_units, Exact};
use crate::game::GameSpec;
use crate::layout::at;
use crate::mccfr::{CpuMccfr, Ledger};
use crate::mccfr_par::{par_actions, par_branch, par_deals, Entry};
use crate::mccfr_steps::{after, weighted};
use crate::mccfr_walk::{branch_count, branch_edge, chances, walk, walk_actions, walk_deals, Trip};
use crate::scalar::{lemma_sum_ext, sum_upto, Scalar, Widen};
use crate::tree::FlatTree;

verus! {

/// A strategy splits the reach over its actions: where its probabilities add up to one, what
/// goes on with each action makes up the whole.
pub proof fn law_actions_share_out_the_reach<T: Scalar>(raw: Seq<T>, s: Seq<T>, h: int, n: nat)
    requires
        is_exact::<T>(),
        0 <= h < raw.len(),
        sum_upto(|a: int| s[at(raw.len() as int, a, h)], n) == T::s_one(),
    ensures
        sum_upto(|a: int| after(raw, s, a)[h], n) == raw[h],
{
    lemma_sum_times(
        raw[h],
        |a: int| s[at(raw.len() as int, a, h)],
        |a: int| after(raw, s, a)[h],
        n,
    );
    lemma_units(raw[h]);
}

/// A deal splits the reach over its outcomes: where the chances add up to one, what goes on
/// with each outcome makes up the whole, the traverser's own and everyone's.
pub proof fn law_deals_share_out_the_reach<T: Widen, G: GameSpec<T>>(
    t: Trip<T>,
    g: &G,
    nh: int,
    p: int,
    h: int,
    n: nat,
)
    requires
        is_exact::<T>(),
        0 <= p < t.reach.len(),
        0 <= h < nh,
        h < t.mine.len(),
        h < t.reach[p].len(),
        sum_upto(|o: int| g.s_chance(o, h), n) == T::s_one(),
    ensures
        sum_upto(|o: int| t.dealt(chances(g, o, nh)).mine[h], n) == t.mine[h],
        sum_upto(|o: int| t.dealt(chances(g, o, nh)).reach[p][h], n) == t.reach[p][h],
{
    let f = |o: int| g.s_chance(o, h);
    lemma_sum_times(t.mine[h], f, |o: int| t.dealt(chances(g, o, nh)).mine[h], n);
    lemma_sum_times(t.reach[p][h], f, |o: int| t.dealt(chances(g, o, nh)).reach[p][h], n);
    lemma_units(t.mine[h]);
    lemma_units(t.reach[p][h]);
}

/// What each branch of chance node `i` is worth to hand `h`, walked one after the other.
pub open spec fn branch_worths<T: Widen, G: GameSpec<T>>(
    m: &CpuMccfr<T>,
    tree: &FlatTree,
    g: G,
    l: Ledger<T>,
    i: int,
    t: Trip<T>,
    h: int,
) -> spec_fn(int) -> T {
    |o: int|
        walk(
            m,
            tree,
            g.s_set(o),
            walk_deals(m, tree, g, l, i, t, o as nat).1,
            tree.child(i, branch_edge(tree, &g, i, o)),
            t.dealt(chances(&g, o, m.num_hands@[t.traverser as int] as int)),
        ).0[h]
}

proof fn lemma_branches<T: Widen, G: GameSpec<T>>(
    m: &CpuMccfr<T>,
    tree: &FlatTree,
    g: G,
    l: Ledger<T>,
    i: int,
    t: Trip<T>,
    h: int,
    n: nat,
)
    requires
        tree.wf(),
        tree.is_edge(i, 0),
        n <= branch_count(tree, &g, i),
        0 <= h < m.num_hands@[t.traverser as int],
    ensures
        walk_deals(m, tree, g, l, i, t, n).0.len() == m.num_hands@[t.traverser as int],
        walk_deals(m, tree, g, l, i, t, n).0[h] == sum_upto(
            branch_worths(m, tree, g, l, i, t, h),
            n,
        ),
    decreases n,
{
    if n > 0 {
        assert(tree.is_edge(i, branch_edge(tree, &g, i, n - 1)));
        lemma_branches(m, tree, g, l, i, t, h, (n - 1) as nat);
    }
}

/// A node of chance is worth what all its branches are worth.
pub proof fn law_all_branches_count<T: Widen, G: GameSpec<T>>(
    m: &CpuMccfr<T>,
    tree: &FlatTree,
    g: G,
    l: Ledger<T>,
    i: int,
    t: Trip<T>,
    h: int,
)
    requires
        tree.wf(),
        tree.is_edge(i, 0),
        tree.nodes@[i].is_chance(),
        !tree.nodes@[i].is_terminal(),
        !m.depth_limit@[i],
        0 <= h < m.num_hands@[t.traverser as int],
    ensures
        walk(m, tree, g, l, i, t).0[h] == sum_upto(
            branch_worths(m, tree, g, l, i, t, h),
            branch_count(tree, &g, i) as nat,
        ),
{
    lemma_branches(m, tree, g, l, i, t, h, branch_count(tree, &g, i) as nat);
}

/// What the walk under action `a` of node `i` gives.
pub open spec fn action_value<T: Widen, G: GameSpec<T>>(
    m: &CpuMccfr<T>,
    tree: &FlatTree,
    g: G,
    l: Ledger<T>,
    i: int,
    t: Trip<T>,
    s: Seq<T>,
    a: int,
) -> Seq<T> {
    walk(
        m,
        tree,
        g,
        walk_actions(m, tree, g, l, i, t, s, a as nat).1,
        tree.child(i, a),
        t.acted(tree.nodes@[i].player_id as int, s, a),
    ).0
}

proof fn lemma_action_values<T: Widen, G: GameSpec<T>>(
    m: &CpuMccfr<T>,
    tree: &FlatTree,
    g: G,
    l: Ledger<T>,
    i: int,
    t: Trip<T>,
    s: Seq<T>,
    n: nat,
)
    requires
        tree.wf(),
        tree.is_node(i),
        n <= tree.arity(i),
    ensures
        walk_actions(m, tree, g, l, i, t, s, n).0.len() == n,
        forall|a: int|
            0 <= a < n ==> #[trigger] walk_actions(m, tree, g, l, i, t, s, n).0[a] == action_value(
                m,
                tree,
                g,
                l,
                i,
                t,
                s,
                a,
            ),
    decreases n,
{
    if n > 0 {
        assert(tree.is_edge(i, n - 1));
        lemma_action_values(m, tree, g, l, i, t, s, (n - 1) as nat);
    }
}

/// A decision is worth what all its actions are worth: to its owner by how often the strategy
/// takes them, to anyone else as they come.
pub proof fn law_all_actions_count<T: Widen, G: GameSpec<T>>(
    m: &CpuMccfr<T>,
    tree: &FlatTree,
    g: G,
    l: Ledger<T>,
    i: int,
    t: Trip<T>,
    h: int,
)
    requires
        tree.wf(),
        tree.is_node(i),
        tree.arity(i) >= 0,
        !tree.nodes@[i].is_chance(),
        !tree.nodes@[i].is_terminal(),
        !m.depth_limit@[i],
        !m.chooses(tree, i, t.var),
        0 <= h < m.num_hands@[t.traverser as int],
    ensures
        ({
            let n = tree.arity(i) as nat;
            let s = m.play(tree, l, i, t.var);
            let nh = m.num_hands@[t.traverser as int] as int;
            walk(m, tree, g, l, i, t).0[h] == if tree.nodes@[i].player_id == t.traverser {
                sum_upto(
                    |a: int| s[at(nh, a, h)] * action_value(m, tree, g, l, i, t, s, a)[h],
                    n,
                )
            } else {
                sum_upto(|a: int| action_value(m, tree, g, l, i, t, s, a)[h], n)
            }
        }),
{
    let n = tree.arity(i) as nat;
    let s = m.play(tree, l, i, t.var);
    let nh = m.num_hands@[t.traverser as int] as int;
    lemma_action_values(m, tree, g, l, i, t, s, n);
    let vs = walk_actions(m, tree, g, l, i, t, s, n).0;
    let f = |a: int| s[at(nh, a, h)] * action_value(m, tree, g, l, i, t, s, a)[h];
    let k = |a: int| action_value(m, tree, g, l, i, t, s, a)[h];
    assert forall|a: int| 0 <= a < n implies #[trigger] f(a) == weighted(s, nh, vs, h)(a) by {
        assert(vs[a] == action_value(m, tree, g, l, i, t, s, a));
    }
    assert forall|a: int| 0 <= a < n implies #[trigger] k(a) == across(vs, h)(a) by {
        assert(vs[a] == action_value(m, tree, g, l, i, t, s, a));
    }
    lemma_sum_ext(f, weighted(s, nh, vs, h), n);
    lemma_sum_ext(k, across(vs, h), n);
}

/// Branches walked side by side are worth as much together, and every note that one of them
/// takes is kept.
pub proof fn law_branches_keep_their_notes<T: Widen, G: GameSpec<T>>(
    m: &CpuMccfr<T>,
    tree: &FlatTree,
    g: G,
    sel: Seq<T>,
    i: int,
    t: Trip<T>,
    h: int,
    n: nat,
)
    requires
        0 <= h < m.num_hands@[t.traverser as int],
        tree.wf(),
        tree.is_node(i),
    ensures
        par_deals(m, tree, g, sel, i, t, n).0.len() == m.num_hands@[t.traverser as int],
        par_deals(m, tree, g, sel, i, t, n).0[h] == sum_upto(
            |o: int| par_branch(m, tree, g, sel, i, t, o).0[h],
            n,
        ),
        forall|o: int, e: Entry<T>|
            0 <= o < n && #[trigger] par_branch(m, tree, g, sel, i, t, o).1.contains(e)
                ==> par_deals(m, tree, g, sel, i, t, n).1.contains(e),
    decreases n,
{
    if n > 0 {
        let k = (n - 1) as nat;
        law_branches_keep_their_notes(m, tree, g, sel, i, t, h, k);
        let es = par_deals(m, tree, g, sel, i, t, k).1;
        let fs = par_branch(m, tree, g, sel, i, t, n - 1).1;
        lemma_both_kept(es, fs);
    }
}

proof fn lemma_both_kept<A>(a: Seq<A>, b: Seq<A>)
    ensures
        forall|x: A| a.contains(x) || b.contains(x) ==> #[trigger] (a + b).contains(x),
{
    assert forall|x: A| a.contains(x) || b.contains(x) implies #[trigger] (a + b).contains(x) by {
        if a.contains(x) {
            let k = choose|k: int| 0 <= k < a.len() && a[k] == x;
            assert((a + b)[k] == x);
        } else {
            let k = choose|k: int| 0 <= k < b.len() && b[k] == x;
            assert((a + b)[a.len() + k] == x);
        }
    }
}

/// Every note that the walk under an action takes is kept.
pub proof fn law_actions_keep_their_notes<T: Widen, G: GameSpec<T>>(
    m: &CpuMccfr<T>,
    tree: &FlatTree,
    g: G,
    sel: Seq<T>,
    i: int,
    t: Trip<T>,
    s: Seq<T>,
    k: nat,
    n: nat,
)
    requires
        tree.wf(),
        tree.is_node(i),
        k <= n <= tree.arity(i),
    ensures
        par_actions(m, tree, g, sel, i, t, s, n).0.len() == n,
        forall|a: int|
            0 <= a < k ==> #[trigger] par_actions(m, tree, g, sel, i, t, s, n).0[a]
                == par_actions(m, tree, g, sel, i, t, s, k).0[a],
        forall|e: Entry<T>| #[trigger]
            par_actions(m, tree, g, sel, i, t, s, k).1.contains(e) ==> par_actions(
                m,
                tree,
                g,
                sel,
                i,
                t,
                s,
                n,
            ).1.contains(e),
    decreases n,
{
    if n > 0 {
        assert(tree.is_edge(i, n - 1));
    }
    if k < n {
        let p = (n - 1) as nat;
        law_actions_keep_their_notes(m, tree, g, sel, i, t, s, k, p);
        let (vs, es) = par_actions(m, tree, g, sel, i, t, s, p);
        let (ws, all) = par_actions(m, tree, g, sel, i, t, s, n);
        let fs = all.subrange(es.len() as int, all.len() as int);
        assert(all =~= es + fs);
        lemma_both_kept(es, fs);
    } else if n > 0 {
        law_actions_keep_their_notes(m, tree, g, sel, i, t, s, (n - 1) as nat, (n - 1) as nat);
    }
}

} // verus!
