//! What holds of every walk of [`CpuMccfr`].
use vstd::prelude::*;

use crate::game::GameSpec;
use crate::grid::{cut, put};
use crate::mccfr::{lemma_rooms_rise, rooms_upto, CpuMccfr, Ledger};
use crate::mccfr_par::{
    entered, entered_one, par_actions, par_branch, par_choices, par_deals, par_walk, sel_after,
    Entry,
};
use crate::mccfr_run::{are_iterations, first_trip, is_iteration, par_round, walk_round};
use crate::mccfr_steps::{averaged, floored, gains, plays, row_sum, stacked};
use crate::mccfr_walk::{
    branch_count, branch_edge, chances, is_ledger, is_trip, lemma_only_ledger, stage, walk,
    walk_actions, walk_choices, walk_deals, Trip,
};
use crate::scalar::{Scalar, Widen};
use crate::tree::{FlatTree, UNUSED};

verus! {

/// Node `j` has entries that a walk of `traverser` has no business with.
pub open spec fn is_foreign<T: Scalar>(m: &CpuMccfr<T>, tree: &FlatTree, traverser: u8, j: int) -> bool {
    tree.is_node(j) && tree.nodes@[j].is_player() && (tree.nodes@[j].player_id != traverser
        || m.frozen@[j])
}

/// The entries of node `j` are the same in both ledgers.
pub open spec fn keeps_node<T: Scalar>(
    m: &CpuMccfr<T>,
    tree: &FlatTree,
    a: Ledger<T>,
    b: Ledger<T>,
    j: int,
) -> bool {
    let (off, na, nh) = (m.offset(j), tree.arity(j), m.hands_at(tree, j));
    &&& cut(b.regrets, off, na, nh) == cut(a.regrets, off, na, nh)
    &&& cut(b.cum, off, na, nh) == cut(a.cum, off, na, nh)
    &&& cut(b.seen, off, na, nh) == cut(a.seen, off, na, nh)
}

/// Nothing foreign was touched.
spec fn keeps_foreign<T: Scalar>(
    m: &CpuMccfr<T>,
    tree: &FlatTree,
    traverser: u8,
    a: Ledger<T>,
    b: Ledger<T>,
) -> bool {
    &&& is_ledger(m, b)
    &&& forall|j: int| #[trigger] is_foreign(m, tree, traverser, j) ==> keeps_node(m, tree, a, b, j)
}

/// Writing the entries of one node leaves those of another.
proof fn lemma_put_apart<T: Scalar>(
    m: &CpuMccfr<T>,
    tree: &FlatTree,
    buf: Seq<T>,
    vals: Seq<T>,
    i: int,
    j: int,
)
    requires
        m.is_for(tree),
        tree.is_node(i),
        tree.is_node(j),
        i != j,
        tree.nodes@[i].is_player(),
        tree.nodes@[j].is_player(),
        buf.len() == m.total(),
        vals.len() == tree.arity(i) * m.hands_at(tree, i) || vals.len() == 0,
    ensures
        cut(put(buf, m.offset(i), vals), m.offset(j), tree.arity(j), m.hands_at(tree, j)) == cut(
            buf,
            m.offset(j),
            tree.arity(j),
            m.hands_at(tree, j),
        ),
{
    m.lemma_room(tree, i);
    m.lemma_room(tree, j);
    assert(m.node_data_offset@[i] == rooms_upto(tree, m.num_hands@, i as nat));
    assert(m.node_data_offset@[j] == rooms_upto(tree, m.num_hands@, j as nat));
    if i < j {
        lemma_rooms_rise(tree, m.num_hands@, i as nat, j as nat);
    } else {
        lemma_rooms_rise(tree, m.num_hands@, j as nat, i as nat);
    }
    assert(cut(put(buf, m.offset(i), vals), m.offset(j), tree.arity(j), m.hands_at(tree, j)) =~= cut(
        buf,
        m.offset(j),
        tree.arity(j),
        m.hands_at(tree, j),
    ));
}

proof fn lemma_acted<T: Scalar>(m: &CpuMccfr<T>, t: Trip<T>, p: int, s: Seq<T>, a: int)
    requires
        is_trip(m, t),
        0 <= p < t.reach.len(),
    ensures
        is_trip(m, t.acted(p, s, a)),
{
    let u = t.acted(p, s, a);
    assert forall|q: int| 0 <= q < u.reach.len() implies (#[trigger] u.reach[q]).len()
        == m.num_hands@[q] by {
        assert(t.reach[q].len() == m.num_hands@[q]);
    }
}

proof fn lemma_dealt<T: Scalar>(m: &CpuMccfr<T>, t: Trip<T>, by: Seq<T>)
    requires
        is_trip(m, t),
    ensures
        is_trip(m, t.dealt(by)),
{
    let u = t.dealt(by);
    assert forall|q: int| 0 <= q < u.reach.len() implies (#[trigger] u.reach[q]).len()
        == m.num_hands@[q] by {
        assert(t.reach[q].len() == m.num_hands@[q]);
    }
}

proof fn lemma_with<T: Scalar>(m: &CpuMccfr<T>, t: Trip<T>, p: int, c: usize)
    requires
        is_trip(m, t),
        0 <= p < t.var.len(),
        c < m.num_variants,
    ensures
        is_trip(m, t.with(p, c)),
{
    let u = t.with(p, c);
    assert forall|q: int| 0 <= q < u.var.len() implies (#[trigger] u.var[q] matches Some(d) ==> d
        < m.num_variants) by {
        if q != p {
            assert(u.var[q] == t.var[q]);
        }
    }
}

/// A player's walk writes only the entries of its own nodes, and of those only the ones
/// that are not frozen.
pub proof fn law_walk_writes_own_nodes<T: Widen, G: GameSpec<T>>(
    m: &CpuMccfr<T>,
    tree: &FlatTree,
    g: G,
    l: Ledger<T>,
    i: int,
    t: Trip<T>,
    j: int,
)
    requires
        m.is_for(tree),
        is_ledger(m, l),
        tree.is_node(i),
        is_trip(m, t),
        is_foreign(m, tree, t.traverser, j),
    ensures
        keeps_node(m, tree, l, walk(m, tree, g, l, i, t).1, j),
{
    lemma_walk_keeps(m, tree, g, l, i, t);
}

proof fn lemma_walk_keeps<T: Widen, G: GameSpec<T>>(
    m: &CpuMccfr<T>,
    tree: &FlatTree,
    g: G,
    l: Ledger<T>,
    i: int,
    t: Trip<T>,
)
    requires
        m.is_for(tree),
        is_ledger(m, l),
        tree.is_node(i),
        is_trip(m, t),
    ensures
        keeps_foreign(m, tree, t.traverser, l, walk(m, tree, g, l, i, t).1),
    decreases tree.max_depth + 1 - tree.level(i), stage(tree, i, t), 0int,
{
    let n = tree.nodes@[i];
    assert(tree.node_ok(i));
    let own = n.player_id == t.traverser;
    let nh = m.num_hands@[t.traverser as int] as int;
    if m.depth_limit@[i] {
    } else if n.is_terminal() || (n.is_chance() && tree.arity(i) == 0) {
    } else if n.is_chance() {
        lemma_deals_keep(m, tree, g, l, i, t, branch_count(tree, &g, i) as nat);
    } else if m.chooses(tree, i, t.var) {
        let s = m.choice(tree, l.sel_regret, i);
        lemma_choices_keep(m, tree, g, l, i, t, s, m.num_variants as nat);
    } else {
        let s = m.play(tree, l, i, t.var);
        lemma_actions_keep(m, tree, g, l, i, t, s, tree.arity(i) as nat);
        let (vs, l2) = walk_actions(m, tree, g, l, i, t, s, tree.arity(i) as nat);
        if own && !m.frozen@[i] {
            lemma_actions_count(m, tree, g, l, i, t, s, tree.arity(i) as nat);
            let avg = averaged(own, s, nh, vs);
            let l3 = m.learned(l2, i, t.weight, t.mine, s, vs, avg);
            m.lemma_room(tree, i);
            assert(gains(t.weight, nh, vs, avg).len() == tree.arity(i) * nh);
            assert(plays(t.weight, vs.len() as int, t.mine, s).len() == tree.arity(i) * nh);
            assert(stacked(nh, vs).len() == tree.arity(i) * nh);
            assert forall|j: int| #[trigger] is_foreign(m, tree, t.traverser, j) implies keeps_node(
                m,
                tree,
                l,
                l3,
                j,
            ) by {
                assert(keeps_node(m, tree, l, l2, j));
                let off = m.offset(i);
                let ga = gains(t.weight, nh, vs, avg);
                let pl = plays(t.weight, vs.len() as int, t.mine, s);
                let st = stacked(nh, vs);
                lemma_put_apart(
                    m,
                    tree,
                    l2.regrets,
                    Seq::new(
                        ga.len(),
                        |x: int| floored(l2.regrets[off + x].s_plus(ga[x])),
                    ),
                    i,
                    j,
                );
                lemma_put_apart(
                    m,
                    tree,
                    l2.cum,
                    Seq::new(pl.len(), |x: int| l2.cum[off + x].s_plus(pl[x])),
                    i,
                    j,
                );
                lemma_put_apart(
                    m,
                    tree,
                    l2.seen,
                    Seq::new(st.len(), |x: int| l2.seen[off + x].s_plus(st[x])),
                    i,
                    j,
                );
            }
        }
    }
}

proof fn lemma_deals_keep<T: Widen, G: GameSpec<T>>(
    m: &CpuMccfr<T>,
    tree: &FlatTree,
    g: G,
    l: Ledger<T>,
    i: int,
    t: Trip<T>,
    n: nat,
)
    requires
        m.is_for(tree),
        is_ledger(m, l),
        tree.is_node(i),
        is_trip(m, t),
    ensures
        keeps_foreign(m, tree, t.traverser, l, walk_deals(m, tree, g, l, i, t, n).1),
    decreases tree.max_depth + 1 - tree.level(i), 1int, n,
{
    let e = branch_edge(tree, &g, i, n - 1);
    if n > 0 && tree.is_edge(i, e) {
        lemma_deals_keep(m, tree, g, l, i, t, (n - 1) as nat);
        let nh = m.num_hands@[t.traverser as int] as int;
        let by = chances(&g, n - 1, nh);
        let l1 = walk_deals(m, tree, g, l, i, t, (n - 1) as nat).1;
        lemma_dealt(m, t, by);
        lemma_walk_keeps(m, tree, g.s_set(n - 1), l1, tree.child(i, e), t.dealt(by));
        let l2 = walk_deals(m, tree, g, l, i, t, n).1;
        assert forall|j: int| #[trigger] is_foreign(m, tree, t.traverser, j) implies keeps_node(
            m,
            tree,
            l,
            l2,
            j,
        ) by {
            assert(keeps_node(m, tree, l, l1, j) && keeps_node(m, tree, l1, l2, j));
        }
    }
}

proof fn lemma_actions_keep<T: Widen, G: GameSpec<T>>(
    m: &CpuMccfr<T>,
    tree: &FlatTree,
    g: G,
    l: Ledger<T>,
    i: int,
    t: Trip<T>,
    s: Seq<T>,
    n: nat,
)
    requires
        m.is_for(tree),
        is_ledger(m, l),
        tree.is_node(i),
        tree.nodes@[i].is_player(),
        is_trip(m, t),
    ensures
        keeps_foreign(m, tree, t.traverser, l, walk_actions(m, tree, g, l, i, t, s, n).1),
    decreases tree.max_depth + 1 - tree.level(i), 1int, n,
{
    if n > 0 && tree.is_edge(i, n - 1) {
        assert(tree.node_ok(i));
        lemma_actions_keep(m, tree, g, l, i, t, s, (n - 1) as nat);
        let p = tree.nodes@[i].player_id as int;
        let l1 = walk_actions(m, tree, g, l, i, t, s, (n - 1) as nat).1;
        lemma_acted(m, t, p, s, n - 1);
        lemma_walk_keeps(m, tree, g, l1, tree.child(i, n - 1), t.acted(p, s, n - 1));
        let l2 = walk_actions(m, tree, g, l, i, t, s, n).1;
        assert forall|j: int| #[trigger] is_foreign(m, tree, t.traverser, j) implies keeps_node(
            m,
            tree,
            l,
            l2,
            j,
        ) by {
            assert(keeps_node(m, tree, l, l1, j) && keeps_node(m, tree, l1, l2, j));
        }
    }
}

proof fn lemma_actions_count<T: Widen, G: GameSpec<T>>(
    m: &CpuMccfr<T>,
    tree: &FlatTree,
    g: G,
    l: Ledger<T>,
    i: int,
    t: Trip<T>,
    s: Seq<T>,
    n: nat,
)
    requires
        tree.wf(),
        tree.is_node(i),
        n <= tree.arity(i),
    ensures
        walk_actions(m, tree, g, l, i, t, s, n).0.len() == n,
    decreases n,
{
    if n > 0 {
        assert(tree.is_edge(i, n - 1));
        lemma_actions_count(m, tree, g, l, i, t, s, (n - 1) as nat);
    }
}

proof fn lemma_choices_keep<T: Widen, G: GameSpec<T>>(
    m: &CpuMccfr<T>,
    tree: &FlatTree,
    g: G,
    l: Ledger<T>,
    i: int,
    t: Trip<T>,
    s: Seq<T>,
    n: nat,
)
    requires
        m.is_for(tree),
        is_ledger(m, l),
        tree.is_node(i),
        tree.nodes@[i].is_player(),
        is_trip(m, t),
        n <= m.num_variants,
    ensures
        keeps_foreign(m, tree, t.traverser, l, walk_choices(m, tree, g, l, i, t, s, n).1),
    decreases tree.max_depth + 1 - tree.level(i), 4int, n,
{
    let p = tree.nodes@[i].player_id as int;
    if n > 0 && 0 <= p < t.var.len() {
        lemma_choices_keep(m, tree, g, l, i, t, s, (n - 1) as nat);
        let l1 = walk_choices(m, tree, g, l, i, t, s, (n - 1) as nat).1;
        lemma_acted(m, t, p, s, n - 1);
        lemma_with(m, t.acted(p, s, n - 1), p, (n - 1) as usize);
        lemma_walk_keeps(
            m,
            tree,
            g,
            l1,
            i,
            t.acted(p, s, n - 1).with(p, (n - 1) as usize),
        );
        let l2 = walk_choices(m, tree, g, l, i, t, s, n).1;
        assert forall|j: int| #[trigger] is_foreign(m, tree, t.traverser, j) implies keeps_node(
            m,
            tree,
            l,
            l2,
            j,
        ) by {
            assert(keeps_node(m, tree, l, l1, j) && keeps_node(m, tree, l1, l2, j));
        }
    }
}

/// A frozen node plays the strategy that it was frozen to, as long as its owner has not
/// chosen another continuation.
pub proof fn law_frozen_node_plays_its_strategy<T: Scalar>(
    m: &CpuMccfr<T>,
    tree: &FlatTree,
    l: Ledger<T>,
    i: int,
    before: Seq<T>,
    strat: Seq<T>,
    var: Seq<Option<usize>>,
)
    requires
        m.is_for(tree),
        tree.is_node(i),
        tree.nodes@[i].is_player(),
        m.frozen@[i],
        before.len() == m.total(),
        strat.len() == tree.arity(i) * m.hands_at(tree, i),
        m.frozen_variants@[0]@ == put(before, m.offset(i), strat),
        var[tree.nodes@[i].player_id as int] is None,
    ensures
        m.play(tree, l, i, var) == strat,
{
    m.lemma_room(tree, i);
    assert(m.play(tree, l, i, var) =~= strat);
}

/// An entry is about a node of the traverser: a choice at one of its boundary nodes, or
/// the actions of one that is not frozen.
pub open spec fn is_own_entry<T: Scalar>(
    m: &CpuMccfr<T>,
    tree: &FlatTree,
    traverser: u8,
    e: Entry<T>,
    i: int,
) -> bool {
    &&& tree.is_node(i)
    &&& tree.nodes@[i].is_player()
    &&& tree.nodes@[i].player_id == traverser
    &&& if e.selection {
        m.boundary@[i] && e.from == m.sel_offset@[i]
    } else {
        &&& !m.frozen@[i] && e.from == m.offset(i)
        &&& e.gained.len() == tree.arity(i) * m.hands_at(tree, i)
        &&& e.taken.len() == e.gained.len()
        &&& e.seen.len() == e.gained.len() || e.seen.len() == 0
    }
}

/// Some node of the traverser is what the entry is about.
pub open spec fn is_own<T: Scalar>(m: &CpuMccfr<T>, tree: &FlatTree, traverser: u8, e: Entry<T>) -> bool {
    exists|i: int| #[trigger] is_own_entry(m, tree, traverser, e, i)
}

pub open spec fn are_own<T: Scalar>(
    m: &CpuMccfr<T>,
    tree: &FlatTree,
    traverser: u8,
    es: Seq<Entry<T>>,
) -> bool {
    forall|k: int| 0 <= k < es.len() ==> is_own(m, tree, traverser, #[trigger] es[k])
}

proof fn lemma_own_join<T: Scalar>(
    m: &CpuMccfr<T>,
    tree: &FlatTree,
    traverser: u8,
    a: Seq<Entry<T>>,
    b: Seq<Entry<T>>,
)
    requires
        are_own(m, tree, traverser, a),
        are_own(m, tree, traverser, b),
    ensures
        are_own(m, tree, traverser, a + b),
{
    assert forall|k: int| 0 <= k < (a + b).len() implies is_own(
        m,
        tree,
        traverser,
        #[trigger] (a + b)[k],
    ) by {
        if k < a.len() {
            assert(is_own(m, tree, traverser, a[k]));
        } else {
            assert(is_own(m, tree, traverser, b[k - a.len()]));
        }
    }
}

/// A player's walk of the snapshot notes down entries of its own nodes only, so that the
/// walks of different players have nothing to write in common.
pub proof fn law_notes_are_of_own_nodes<T: Widen, G: GameSpec<T>>(
    m: &CpuMccfr<T>,
    tree: &FlatTree,
    g: G,
    sel: Seq<T>,
    i: int,
    t: Trip<T>,
)
    requires
        m.is_for(tree),
        tree.is_node(i),
        is_trip(m, t),
    ensures
        are_own(m, tree, t.traverser, par_walk(m, tree, g, sel, i, t).1),
    decreases tree.max_depth + 1 - tree.level(i), stage(tree, i, t), 0int,
{
    let n = tree.nodes@[i];
    assert(tree.node_ok(i));
    let own = n.player_id == t.traverser;
    let nh = m.num_hands@[t.traverser as int] as int;
    if m.depth_limit@[i] {
    } else if n.is_terminal() || (n.is_chance() && tree.arity(i) == 0) {
    } else if n.is_chance() {
        lemma_deals_own(m, tree, g, sel, i, t, branch_count(tree, &g, i) as nat);
    } else if m.chooses(tree, i, t.var) {
        let s = m.choice(tree, sel, i);
        lemma_choices_own(m, tree, g, sel, i, t, s, m.num_variants as nat);
        let (vs, es) = par_choices(m, tree, g, sel, i, t, s, m.num_variants as nat);
        if own {
            let e = m.choice_entry(i, t.weight, t.mine, s, vs, averaged(own, s, nh, vs));
            assert(is_own_entry(m, tree, t.traverser, e, i));
            assert(is_own(m, tree, t.traverser, e));
            assert forall|k: int| 0 <= k < es.push(e).len() implies is_own(
                m,
                tree,
                t.traverser,
                #[trigger] es.push(e)[k],
            ) by {
                if k < es.len() {
                    assert(is_own(m, tree, t.traverser, es[k]));
                }
            }
        }
    } else {
        let s = m.play(tree, m.ledger(), i, t.var);
        lemma_par_actions_own(m, tree, g, sel, i, t, s, tree.arity(i) as nat);
        let (vs, es) = par_actions(m, tree, g, sel, i, t, s, tree.arity(i) as nat);
        if own && !m.frozen@[i] {
            let avg = averaged(own, s, nh, vs);
            let e = m.action_entry(i, t.weight, t.mine, s, vs, avg);
            m.lemma_room(tree, i);
            assert(e.gained.len() == tree.arity(i) * m.hands_at(tree, i));
            assert(is_own_entry(m, tree, t.traverser, e, i));
            assert(is_own(m, tree, t.traverser, e));
            assert forall|k: int| 0 <= k < es.push(e).len() implies is_own(
                m,
                tree,
                t.traverser,
                #[trigger] es.push(e)[k],
            ) by {
                if k < es.len() {
                    assert(is_own(m, tree, t.traverser, es[k]));
                }
            }
        }
    }
}

proof fn lemma_deals_own<T: Widen, G: GameSpec<T>>(
    m: &CpuMccfr<T>,
    tree: &FlatTree,
    g: G,
    sel: Seq<T>,
    i: int,
    t: Trip<T>,
    n: nat,
)
    requires
        m.is_for(tree),
        tree.is_node(i),
        is_trip(m, t),
    ensures
        are_own(m, tree, t.traverser, par_deals(m, tree, g, sel, i, t, n).1),
    decreases tree.max_depth + 1 - tree.level(i), 1int, n,
{
    if n > 0 {
        lemma_deals_own(m, tree, g, sel, i, t, (n - 1) as nat);
        let e = branch_edge(tree, &g, i, n - 1);
        let nh = m.num_hands@[t.traverser as int] as int;
        let by = chances(&g, n - 1, nh);
        if tree.is_edge(i, e) {
            lemma_dealt(m, t, by);
            law_notes_are_of_own_nodes(m, tree, g, sel, tree.child(i, e), t.dealt(by));
        }
        lemma_own_join(
            m,
            tree,
            t.traverser,
            par_deals(m, tree, g, sel, i, t, (n - 1) as nat).1,
            par_branch(m, tree, g, sel, i, t, n - 1).1,
        );
    }
}

proof fn lemma_par_actions_own<T: Widen, G: GameSpec<T>>(
    m: &CpuMccfr<T>,
    tree: &FlatTree,
    g: G,
    sel: Seq<T>,
    i: int,
    t: Trip<T>,
    s: Seq<T>,
    n: nat,
)
    requires
        m.is_for(tree),
        tree.is_node(i),
        tree.nodes@[i].is_player(),
        is_trip(m, t),
        n <= tree.arity(i),
    ensures
        are_own(m, tree, t.traverser, par_actions(m, tree, g, sel, i, t, s, n).1),
        par_actions(m, tree, g, sel, i, t, s, n).0.len() == n,
    decreases tree.max_depth + 1 - tree.level(i), 1int, n,
{
    if n > 0 {
        assert(tree.is_edge(i, n - 1));
        assert(tree.node_ok(i));
        lemma_par_actions_own(m, tree, g, sel, i, t, s, (n - 1) as nat);
        let p = tree.nodes@[i].player_id as int;
        let es = par_actions(m, tree, g, sel, i, t, s, (n - 1) as nat).1;
        let sel2 = sel_after(sel, es, es.len());
        lemma_acted(m, t, p, s, n - 1);
        law_notes_are_of_own_nodes(
            m,
            tree,
            g,
            sel2,
            tree.child(i, n - 1),
            t.acted(p, s, n - 1),
        );
        lemma_own_join(
            m,
            tree,
            t.traverser,
            es,
            par_walk(m, tree, g, sel2, tree.child(i, n - 1), t.acted(p, s, n - 1)).1,
        );
    }
}

proof fn lemma_choices_own<T: Widen, G: GameSpec<T>>(
    m: &CpuMccfr<T>,
    tree: &FlatTree,
    g: G,
    sel: Seq<T>,
    i: int,
    t: Trip<T>,
    s: Seq<T>,
    n: nat,
)
    requires
        m.is_for(tree),
        tree.is_node(i),
        tree.nodes@[i].is_player(),
        is_trip(m, t),
        n <= m.num_variants,
    ensures
        are_own(m, tree, t.traverser, par_choices(m, tree, g, sel, i, t, s, n).1),
    decreases tree.max_depth + 1 - tree.level(i), 4int, n,
{
    let p = tree.nodes@[i].player_id as int;
    if n > 0 && 0 <= p < t.var.len() {
        lemma_choices_own(m, tree, g, sel, i, t, s, (n - 1) as nat);
        let es = par_choices(m, tree, g, sel, i, t, s, (n - 1) as nat).1;
        let sel2 = sel_after(sel, es, es.len());
        let u = t.acted(p, s, n - 1).with(p, (n - 1) as usize);
        lemma_acted(m, t, p, s, n - 1);
        lemma_with(m, t.acted(p, s, n - 1), p, (n - 1) as usize);
        law_notes_are_of_own_nodes(m, tree, g, sel2, i, u);
        lemma_own_join(
            m,
            tree,
            t.traverser,
            es,
            par_walk(m, tree, g, sel2, i, u).1,
        );
    }
}

/// A walk of the snapshot does not depend on what the buffers have learned since it was
/// taken.
pub proof fn law_snapshot_walk_ignores_ledger<T: Widen, G: GameSpec<T>>(
    a: &CpuMccfr<T>,
    b: &CpuMccfr<T>,
    tree: &FlatTree,
    g: G,
    sel: Seq<T>,
    i: int,
    t: Trip<T>,
)
    requires
        tree.wf(),
        tree.is_node(i),
        a.same_rules(b),
        a.use_snapshot,
    ensures
        par_walk(a, tree, g, sel, i, t) == par_walk(b, tree, g, sel, i, t),
    decreases tree.max_depth + 1 - tree.level(i), stage(tree, i, t), 0int,
{
    let n = tree.nodes@[i];
    if a.depth_limit@[i] {
    } else if n.is_terminal() || (n.is_chance() && tree.arity(i) == 0) {
    } else if n.is_chance() {
        lemma_deals_ignore(a, b, tree, g, sel, i, t, branch_count(tree, &g, i) as nat);
    } else if a.chooses(tree, i, t.var) {
        let s = a.choice(tree, sel, i);
        lemma_choices_ignore(a, b, tree, g, sel, i, t, s, a.num_variants as nat);
    } else {
        let s = a.play(tree, a.ledger(), i, t.var);
        assert(s == b.play(tree, b.ledger(), i, t.var));
        lemma_actions_ignore(a, b, tree, g, sel, i, t, s, tree.arity(i) as nat);
    }
}

proof fn lemma_deals_ignore<T: Widen, G: GameSpec<T>>(
    a: &CpuMccfr<T>,
    b: &CpuMccfr<T>,
    tree: &FlatTree,
    g: G,
    sel: Seq<T>,
    i: int,
    t: Trip<T>,
    n: nat,
)
    requires
        tree.wf(),
        tree.is_node(i),
        a.same_rules(b),
        a.use_snapshot,
    ensures
        par_deals(a, tree, g, sel, i, t, n) == par_deals(b, tree, g, sel, i, t, n),
    decreases tree.max_depth + 1 - tree.level(i), 1int, n,
{
    if n > 0 {
        lemma_deals_ignore(a, b, tree, g, sel, i, t, (n - 1) as nat);
        let e = branch_edge(tree, &g, i, n - 1);
        let nh = a.num_hands@[t.traverser as int] as int;
        if tree.is_edge(i, e) {
            law_snapshot_walk_ignores_ledger(
                a,
                b,
                tree,
                g,
                sel,
                tree.child(i, e),
                t.dealt(chances(&g, n - 1, nh)),
            );
        }
        assert(par_branch(a, tree, g, sel, i, t, n - 1) == par_branch(
            b,
            tree,
            g,
            sel,
            i,
            t,
            n - 1,
        ));
    }
}

proof fn lemma_actions_ignore<T: Widen, G: GameSpec<T>>(
    a: &CpuMccfr<T>,
    b: &CpuMccfr<T>,
    tree: &FlatTree,
    g: G,
    sel: Seq<T>,
    i: int,
    t: Trip<T>,
    s: Seq<T>,
    n: nat,
)
    requires
        tree.wf(),
        tree.is_node(i),
        a.same_rules(b),
        a.use_snapshot,
    ensures
        par_actions(a, tree, g, sel, i, t, s, n) == par_actions(b, tree, g, sel, i, t, s, n),
    decreases tree.max_depth + 1 - tree.level(i), 1int, n,
{
    if n > 0 && tree.is_edge(i, n - 1) {
        lemma_actions_ignore(a, b, tree, g, sel, i, t, s, (n - 1) as nat);
        let es = par_actions(a, tree, g, sel, i, t, s, (n - 1) as nat).1;
        law_snapshot_walk_ignores_ledger(
            a,
            b,
            tree,
            g,
            sel_after(sel, es, es.len()),
            tree.child(i, n - 1),
            t.acted(tree.nodes@[i].player_id as int, s, n - 1),
        );
    }
}

proof fn lemma_choices_ignore<T: Widen, G: GameSpec<T>>(
    a: &CpuMccfr<T>,
    b: &CpuMccfr<T>,
    tree: &FlatTree,
    g: G,
    sel: Seq<T>,
    i: int,
    t: Trip<T>,
    s: Seq<T>,
    n: nat,
)
    requires
        tree.wf(),
        tree.is_node(i),
        a.same_rules(b),
        a.use_snapshot,
    ensures
        par_choices(a, tree, g, sel, i, t, s, n) == par_choices(b, tree, g, sel, i, t, s, n),
    decreases tree.max_depth + 1 - tree.level(i), 4int, n,
{
    let p = tree.nodes@[i].player_id as int;
    if n > 0 && 0 <= p < t.var.len() {
        lemma_choices_ignore(a, b, tree, g, sel, i, t, s, (n - 1) as nat);
        let es = par_choices(a, tree, g, sel, i, t, s, (n - 1) as nat).1;
        law_snapshot_walk_ignores_ledger(
            a,
            b,
            tree,
            g,
            sel_after(sel, es, es.len()),
            i,
            t.acted(p, s, n - 1).with(p, (n - 1) as usize),
        );
    }
}

/// Every player's initial weights are one per hand.
pub open spec fn has_weights<T: Widen, G: GameSpec<T>>(m: &CpuMccfr<T>, g: &G) -> bool {
    forall|p: int|
        0 <= p < m.num_hands@.len() ==> (#[trigger] g.s_weight(p)).len() == m.num_hands@[p]
}

proof fn lemma_first_trip<T: Widen, G: GameSpec<T>>(
    m: &CpuMccfr<T>,
    tree: &FlatTree,
    g: &G,
    p: u8,
    weight: T,
)
    requires
        m.is_for(tree),
        has_weights(m, g),
        p < tree.np(),
    ensures
        is_trip(m, first_trip(g, tree.np(), p, weight)),
{
    let t = first_trip(g, tree.np(), p, weight);
    assert forall|q: int| 0 <= q < t.reach.len() implies (#[trigger] t.reach[q]).len()
        == m.num_hands@[q] by {
        assert(g.s_weight(q).len() == m.num_hands@[q]);
    }
    assert(g.s_weight(p as int).len() == m.num_hands@[p as int]);
}

/// The walks of all players keep a frozen node.
proof fn lemma_round_keeps<T: Widen, G: GameSpec<T>>(
    m: &CpuMccfr<T>,
    tree: &FlatTree,
    g: G,
    l: Ledger<T>,
    weight: T,
    n: nat,
    j: int,
)
    requires
        m.is_for(tree),
        has_weights(m, &g),
        is_ledger(m, l),
        n <= tree.np(),
        tree.is_node(j),
        tree.nodes@[j].is_player(),
        m.frozen@[j],
    ensures
        is_ledger(m, walk_round(m, tree, g, l, weight, n).1),
        keeps_node(m, tree, l, walk_round(m, tree, g, l, weight, n).1, j),
    decreases n,
{
    if n > 0 {
        lemma_round_keeps(m, tree, g, l, weight, (n - 1) as nat, j);
        let l1 = walk_round(m, tree, g, l, weight, (n - 1) as nat).1;
        let p = (n - 1) as u8;
        let t = first_trip(&g, tree.np(), p, weight);
        lemma_first_trip(m, tree, &g, p, weight);
        lemma_walk_keeps(m, tree, g, l1, 0, t);
        assert(is_foreign(m, tree, p, j));
    }
}

/// The entry is about some player's own node.
spec fn is_someones<T: Scalar>(m: &CpuMccfr<T>, tree: &FlatTree, e: Entry<T>) -> bool {
    exists|p: u8| #[trigger] is_own(m, tree, p, e)
}

spec fn are_someones<T: Scalar>(m: &CpuMccfr<T>, tree: &FlatTree, es: Seq<Entry<T>>) -> bool {
    forall|k: int| 0 <= k < es.len() ==> is_someones(m, tree, #[trigger] es[k])
}

proof fn lemma_par_round_own<T: Widen, G: GameSpec<T>>(
    m: &CpuMccfr<T>,
    tree: &FlatTree,
    g: G,
    weight: T,
    n: nat,
)
    requires
        m.is_for(tree),
        has_weights(m, &g),
        n <= tree.np(),
    ensures
        are_someones(m, tree, par_round(m, tree, g, weight, n).1),
    decreases n,
{
    if n > 0 {
        lemma_par_round_own(m, tree, g, weight, (n - 1) as nat);
        let es = par_round(m, tree, g, weight, (n - 1) as nat).1;
        let sel = if m.num_variants > 1 {
            sel_after(m.sel_regret@, es, es.len())
        } else {
            m.sel_regret@
        };
        let p = (n - 1) as u8;
        let t = first_trip(&g, tree.np(), p, weight);
        lemma_first_trip(m, tree, &g, p, weight);
        law_notes_are_of_own_nodes(m, tree, g, sel, 0, t);
        let fs = par_walk(m, tree, g, sel, 0, t).1;
        assert forall|k: int| 0 <= k < (es + fs).len() implies is_someones(
            m,
            tree,
            #[trigger] (es + fs)[k],
        ) by {
            if k < es.len() {
                assert(is_someones(m, tree, es[k]));
            } else {
                assert(is_own(m, tree, p, fs[k - es.len()]));
            }
        }
    }
}

/// Entries of nodes that are not frozen keep a frozen node.
proof fn lemma_entered_keeps<T: Widen>(
    m: &CpuMccfr<T>,
    tree: &FlatTree,
    l: Ledger<T>,
    es: Seq<Entry<T>>,
    disc: (T, T, T),
    n: nat,
    j: int,
)
    requires
        m.is_for(tree),
        is_ledger(m, l),
        are_someones(m, tree, es),
        n <= es.len(),
        tree.is_node(j),
        tree.nodes@[j].is_player(),
        m.frozen@[j],
    ensures
        is_ledger(m, entered(l, es, disc, n)),
        keeps_node(m, tree, l, entered(l, es, disc, n), j),
    decreases n,
{
    if n > 0 {
        lemma_entered_keeps(m, tree, l, es, disc, (n - 1) as nat, j);
        let a = entered(l, es, disc, (n - 1) as nat);
        let e = es[n - 1];
        assert(is_someones(m, tree, e));
        let p = choose|p: u8| #[trigger] is_own(m, tree, p, e);
        let i = choose|i: int| #[trigger] is_own_entry(m, tree, p, e, i);
        if !e.selection {
            let b = entered_one(a, e, disc);
            m.lemma_room(tree, i);
            m.lemma_room(tree, j);
            lemma_rooms_apart(m, tree, i, j);
            let (off, na, nh) = (m.offset(j), tree.arity(j), m.hands_at(tree, j));
            assert(cut(b.regrets, off, na, nh) =~= cut(a.regrets, off, na, nh));
            assert(cut(b.cum, off, na, nh) =~= cut(a.cum, off, na, nh));
            assert(cut(b.seen, off, na, nh) =~= cut(a.seen, off, na, nh));
        }
    }
}

/// The entries of two nodes do not overlap.
proof fn lemma_rooms_apart<T: Scalar>(m: &CpuMccfr<T>, tree: &FlatTree, i: int, j: int)
    requires
        m.is_for(tree),
        tree.is_node(i),
        tree.is_node(j),
        i != j,
        tree.nodes@[i].is_player(),
        tree.nodes@[j].is_player(),
    ensures
        m.offset(i) + tree.arity(i) * m.hands_at(tree, i) <= m.offset(j) || m.offset(j)
            + tree.arity(j) * m.hands_at(tree, j) <= m.offset(i),
{
    assert(m.node_data_offset@[i] == rooms_upto(tree, m.num_hands@, i as nat));
    assert(m.node_data_offset@[j] == rooms_upto(tree, m.num_hands@, j as nat));
    if i < j {
        lemma_rooms_rise(tree, m.num_hands@, i as nat, j as nat);
    } else {
        lemma_rooms_rise(tree, m.num_hands@, j as nat, i as nat);
    }
}

proof fn lemma_snapshot_len<T: Scalar>(m: &CpuMccfr<T>, tree: &FlatTree, n: nat)
    ensures
        m.snapshot_upto(tree, n).len() == m.snapshot@.len(),
    decreases n,
{
    if n > 0 {
        lemma_snapshot_len(m, tree, (n - 1) as nat);
    }
}

proof fn lemma_iteration_keeps<T: Widen, G: GameSpec<T>>(
    m0: CpuMccfr<T>,
    m1: CpuMccfr<T>,
    tree: &FlatTree,
    g: G,
    v: Seq<T>,
    j: int,
)
    requires
        m0.is_for(tree),
        has_weights(&m0, &g),
        tree.is_node(j),
        tree.nodes@[j].is_player(),
        m0.frozen@[j],
        is_iteration(m0, m1, tree, g, v),
    ensures
        m1.is_for(tree),
        m1.num_hands == m0.num_hands,
        m1.node_data_offset == m0.node_data_offset,
        m1.frozen == m0.frozen,
        keeps_node(&m0, tree, m0.ledger(), m1.ledger(), j),
{
    let m = CpuMccfr { iteration: (m0.iteration + 1) as u32, snapshot: m1.snapshot, ..m0 };
    let timed = CpuMccfr { iteration: (m0.iteration + 1) as u32, ..m0 };
    let np = tree.np() as nat;
    let (weight, disc) = m.step();
    lemma_snapshot_len(&timed, tree, tree.size() as nat);
    assert(m.is_for(tree)) by {
        assert forall|i: int| tree.is_node(i) && #[trigger] m.boundary@[i] implies m.has_choice(
            tree,
            i,
        ) by {
            assert(m0.boundary@[i] && m0.has_choice(tree, i));
        }
        assert forall|i: int| tree.is_node(i) implies #[trigger] m.node_data_offset@[i] == (
        if tree.nodes@[i].is_player() {
            rooms_upto(tree, m.num_hands@, i as nat)
        } else {
            UNUSED as int
        }) by {
            assert(m0.node_data_offset@[i] == m.node_data_offset@[i]);
        }
    }
    if m0.use_snapshot {
        let es = par_round(&m, tree, g, weight, np).1;
        lemma_par_round_own(&m, tree, g, weight, np);
        lemma_entered_keeps(&m, tree, m0.ledger(), es, disc, es.len(), j);
    } else {
        lemma_round_keeps(&m, tree, g, m0.ledger(), weight, np, j);
    }
    lemma_only_ledger(&m, &m1, tree);
}

/// A whole run, on the live strategy or on a snapshot, leaves the regrets, the cumulative
/// strategy and the last values of a frozen node as they were.
pub proof fn law_run_keeps_frozen_nodes<T: Widen, G: GameSpec<T>>(
    m0: CpuMccfr<T>,
    m1: CpuMccfr<T>,
    tree: &FlatTree,
    g: G,
    sums: Seq<T>,
    n: nat,
    j: int,
)
    requires
        m0.is_for(tree),
        has_weights(&m0, &g),
        tree.is_node(j),
        tree.nodes@[j].is_player(),
        m0.frozen@[j],
        are_iterations(m0, m1, tree, g, sums, n),
    ensures
        m1.is_for(tree),
        m1.num_hands == m0.num_hands,
        m1.node_data_offset == m0.node_data_offset,
        m1.frozen == m0.frozen,
        keeps_node(&m0, tree, m0.ledger(), m1.ledger(), j),
    decreases n,
{
    if n > 0 {
        let (m, prev, v) = choose|m: CpuMccfr<T>, prev: Seq<T>, v: Seq<T>|
            #![trigger is_iteration(m, m1, tree, g, v), row_sum(prev, v)]
            {
                &&& is_iteration(m, m1, tree, g, v)
                &&& are_iterations(m0, m, tree, g, prev, (n - 1) as nat)
                &&& sums == row_sum(prev, v)
            };
        law_run_keeps_frozen_nodes(m0, m, tree, g, prev, (n - 1) as nat, j);
        lemma_iteration_keeps(m, m1, tree, g, v, j);
    }
}

} // verus!
