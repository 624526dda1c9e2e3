//! The walk of [`CpuMccfr`] over the live strategy, deal by deal.
use vstd::prelude::*;

use crate::best_response::row_after;
use crate::game::{plays_on, GameSpec};
use crate::grid::{cut, cut_of};
use crate::layout::{flat, row_copy};
use crate::mccfr::{matched, matched_of, rooms_upto, CpuMccfr, Ledger};
use crate::mccfr_steps::{
    add_floored, add_into, add_rows_of, added, added_floored, after, average, averaged, gains,
    gains_of, plays, plays_of, row_scaled, row_sum, rows_scaled, scale_row, scale_rows, stack,
    stacked,
};
use crate::scalar::{filled, Scalar, Widen};
use crate::terminal::views;
use crate::tree::{FlatTree, UNUSED};

verus! {

/// The only child of chance node `i` stands for every outcome of the next deal.
pub open spec fn one_child<T: Widen, G: GameSpec<T>>(tree: &FlatTree, g: &G, i: int) -> bool {
    g.s_outcomes() > 0 && tree.arity(i) == 1
}

/// Branches of chance node `i`.
pub open spec fn branch_count<T: Widen, G: GameSpec<T>>(tree: &FlatTree, g: &G, i: int) -> int {
    if one_child(tree, g, i) {
        g.s_outcomes()
    } else {
        tree.arity(i)
    }
}

/// The edge of chance node `i` that outcome `o` takes.
pub open spec fn branch_edge<T: Widen, G: GameSpec<T>>(tree: &FlatTree, g: &G, i: int, o: int) -> int {
    if one_child(tree, g, i) {
        0
    } else {
        o
    }
}

/// Outcome `o` can be asked for and dealt.
pub open spec fn can_take<T: Widen, G: GameSpec<T>>(g: &G, o: int) -> bool {
    g.s_can_ask(o) && (0 <= o < g.s_outcomes() || g.s_can_deal(o))
}

/// Every deal on the way from node `i` down to the limits can be made and taken back.
pub open spec fn deals_fit<T: Widen, G: GameSpec<T>>(
    limits: Seq<bool>,
    tree: &FlatTree,
    g: G,
    i: int,
) -> bool
    decreases tree.max_depth + 1 - tree.level(i),
    when tree.wf() && tree.is_node(i)
{
    let n = tree.nodes@[i];
    if limits[i] || n.is_terminal() || tree.arity(i) == 0 {
        true
    } else if n.is_chance() {
        &&& g.s_can_undo()
        &&& forall|o: int|
            0 <= o < branch_count(tree, &g, i) ==> {
                let e = branch_edge(tree, &g, i, o);
                &&& #[trigger] can_take(&g, o)
                &&& tree.is_edge(i, e) ==> deals_fit(limits, tree, g.s_set(o), tree.child(i, e))
            }
    } else {
        forall|a: int| #[trigger] tree.is_edge(i, a) ==> deals_fit(
            limits,
            tree,
            g,
            tree.child(i, a),
        )
    }
}

/// The chances of outcome `o`, hand by hand.
pub open spec fn chances<T: Widen, G: GameSpec<T>>(g: &G, o: int, nh: int) -> Seq<T> {
    Seq::new(nh as nat, |h: int| g.s_chance(o, h))
}

/// Asks for the chances of an outcome.
pub fn ask_chances<T: Widen, G: GameSpec<T>>(game: &G, outcome: usize, traverser: u8, nh: usize) -> (out:
    Vec<T>)
    requires
        game.s_valid(),
        traverser < game.s_players(),
        game.s_hands(traverser as int) == nh,
        game.s_can_ask(outcome as int),
    ensures
        out@ == chances(game, outcome as int, nh as int),
{
    let mut out: Vec<T> = Vec::new();
    let mut h: usize = 0;
    while h < nh
        invariant
            h <= nh,
            game.s_valid(),
            traverser < game.s_players(),
            game.s_hands(traverser as int) == nh,
            game.s_can_ask(outcome as int),
            out@.len() == h,
            forall|k: int|
                0 <= k < h ==> #[trigger] out@[k] == game.s_chance(outcome as int, k),
        decreases nh - h,
    {
        out.push(game.chance_probability(outcome, h));
        h += 1;
    }
    assert(out@ =~= chances(game, outcome as int, nh as int));
    out
}

impl<T: Scalar> CpuMccfr<T> {
    /// The strategy that node `i` plays: frozen nodes the continuation that their owner
    /// chose, all others the snapshot or what the ledger says.
    pub open spec fn play(&self, tree: &FlatTree, l: Ledger<T>, i: int, var: Seq<Option<usize>>) -> Seq<
        T,
    > {
        let p = tree.nodes@[i].player_id as int;
        let na = tree.arity(i);
        let nh = self.hands_at(tree, i);
        if self.frozen@[i] {
            let c = match var[p] {
                Some(c) => c as int,
                None => 0,
            };
            cut(self.frozen_variants@[c]@, self.offset(i), na, nh)
        } else if self.use_snapshot {
            cut(self.snapshot@, self.offset(i), na, nh)
        } else {
            self.current(l, i, na, nh, p)
        }
    }

    /// The owner of node `i` has to choose its continuation there.
    pub open spec fn chooses(&self, tree: &FlatTree, i: int, var: Seq<Option<usize>>) -> bool {
        self.frozen@[i] && self.boundary@[i] && var[tree.nodes@[i].player_id as int] is None
    }

    /// With what probability each continuation is chosen at node `i`.
    pub open spec fn choice(&self, tree: &FlatTree, sel_regret: Seq<T>, i: int) -> Seq<T> {
        let nh = self.hands_at(tree, i);
        let k = self.num_variants as int;
        matched(cut(sel_regret, self.sel_offset@[i] as int, k, nh), k, nh)
    }

    /// The ledger after the owner of node `i` has learned its action values.
    pub open spec fn learned(
        &self,
        l: Ledger<T>,
        i: int,
        weight: T,
        mine: Seq<T>,
        s: Seq<T>,
        vs: Seq<Seq<T>>,
        avg: Seq<T>,
    ) -> Ledger<T> {
        let off = self.offset(i);
        let nh = mine.len() as int;
        Ledger {
            regrets: added_floored(l.regrets, off, gains(weight, nh, vs, avg)),
            cum: added(l.cum, off, plays(weight, vs.len() as int, mine, s)),
            seen: if self.lambda is Some {
                added(l.seen, off, stacked(nh, vs))
            } else {
                l.seen
            },
            ..l
        }
    }

    /// The ledger after the owner of node `i` has learned the values of its continuations.
    pub open spec fn chosen(
        &self,
        l: Ledger<T>,
        i: int,
        weight: T,
        mine: Seq<T>,
        s: Seq<T>,
        vs: Seq<Seq<T>>,
        avg: Seq<T>,
    ) -> Ledger<T> {
        let off = self.sel_offset@[i] as int;
        let nh = mine.len() as int;
        Ledger {
            sel_regret: added_floored(l.sel_regret, off, gains(weight, nh, vs, avg)),
            sel_cum: added(l.sel_cum, off, plays(weight, vs.len() as int, mine, s)),
            ..l
        }
    }
}

/// Who walks, from where, with what.
pub struct Trip<T> {
    pub traverser: u8,
    pub weight: T,
    /// Reach of every player.
    pub reach: Seq<Seq<T>>,
    /// The traverser's own reach.
    pub mine: Seq<T>,
    /// The continuation that each player has chosen so far.
    pub var: Seq<Option<usize>>,
}

impl<T: Scalar> Trip<T> {
    /// Player `p` takes action `a` of strategy `s`.
    pub open spec fn acted(self, p: int, s: Seq<T>, a: int) -> Trip<T> {
        if p == self.traverser {
            Trip { mine: after(self.mine, s, a), ..self }
        } else {
            Trip { reach: self.reach.update(p, after(self.reach[p], s, a)), ..self }
        }
    }

    /// An outcome of these chances is dealt.
    pub open spec fn dealt(self, by: Seq<T>) -> Trip<T> {
        Trip { mine: row_scaled(self.mine, by), reach: rows_scaled(self.reach, by), ..self }
    }

    /// Player `p` chooses continuation `c`.
    pub open spec fn with(self, p: int, c: usize) -> Trip<T> {
        Trip { var: self.var.update(p, Some(c)), ..self }
    }
}

/// Order of the steps at one node, for termination.
pub open spec fn stage<T>(tree: &FlatTree, i: int, t: Trip<T>) -> int {
    if t.var[tree.nodes@[i].player_id as int] is None {
        5
    } else {
        2
    }
}

/// The traverser's values at node `i`, and the ledger after the walk.
pub open spec fn walk<T: Widen, G: GameSpec<T>>(
    m: &CpuMccfr<T>,
    tree: &FlatTree,
    g: G,
    l: Ledger<T>,
    i: int,
    t: Trip<T>,
) -> (Seq<T>, Ledger<T>)
    decreases tree.max_depth + 1 - tree.level(i), stage(tree, i, t), 0int,
    when tree.wf() && tree.is_node(i)
{
    let n = tree.nodes@[i];
    let p = n.player_id as int;
    let own = n.player_id == t.traverser;
    let nh = m.num_hands@[t.traverser as int] as int;
    if m.depth_limit@[i] {
        (g.s_continuation(t.traverser, i, tree, t.reach), l)
    } else if n.is_terminal() || (n.is_chance() && tree.arity(i) == 0) {
        (g.s_terminal(t.traverser, i, tree, t.reach), l)
    } else if n.is_chance() {
        walk_deals(m, tree, g, l, i, t, branch_count(tree, &g, i) as nat)
    } else if m.chooses(tree, i, t.var) {
        let s = m.choice(tree, l.sel_regret, i);
        let (vs, l2) = walk_choices(m, tree, g, l, i, t, s, m.num_variants as nat);
        let avg = averaged(own, s, nh, vs);
        (
            avg,
            if own {
                m.chosen(l2, i, t.weight, t.mine, s, vs, avg)
            } else {
                l2
            },
        )
    } else {
        let s = m.play(tree, l, i, t.var);
        let (vs, l2) = walk_actions(m, tree, g, l, i, t, s, tree.arity(i) as nat);
        let avg = averaged(own, s, nh, vs);
        (
            avg,
            if own && !m.frozen@[i] {
                m.learned(l2, i, t.weight, t.mine, s, vs, avg)
            } else {
                l2
            },
        )
    }
}

/// The first `n` branches of chance node `i`, added up.
pub open spec fn walk_deals<T: Widen, G: GameSpec<T>>(
    m: &CpuMccfr<T>,
    tree: &FlatTree,
    g: G,
    l: Ledger<T>,
    i: int,
    t: Trip<T>,
    n: nat,
) -> (Seq<T>, Ledger<T>)
    decreases tree.max_depth + 1 - tree.level(i), 1int, n,
    when tree.wf() && tree.is_node(i)
{
    let nh = m.num_hands@[t.traverser as int] as int;
    let e = branch_edge(tree, &g, i, n - 1);
    if n == 0 || !tree.is_edge(i, e) {
        (flat(T::s_zero(), nh), l)
    } else {
        let (v, l1) = walk_deals(m, tree, g, l, i, t, (n - 1) as nat);
        let (w, l2) = walk(
            m,
            tree,
            g.s_set(n - 1),
            l1,
            tree.child(i, e),
            t.dealt(chances(&g, n - 1, nh)),
        );
        (row_sum(v, w), l2)
    }
}

/// The values of the first `n` actions of player node `i`.
pub open spec fn walk_actions<T: Widen, G: GameSpec<T>>(
    m: &CpuMccfr<T>,
    tree: &FlatTree,
    g: G,
    l: Ledger<T>,
    i: int,
    t: Trip<T>,
    s: Seq<T>,
    n: nat,
) -> (Seq<Seq<T>>, Ledger<T>)
    decreases tree.max_depth + 1 - tree.level(i), 1int, n,
    when tree.wf() && tree.is_node(i)
{
    if n == 0 || !tree.is_edge(i, n - 1) {
        (Seq::empty(), l)
    } else {
        let (vs, l1) = walk_actions(m, tree, g, l, i, t, s, (n - 1) as nat);
        let (w, l2) = walk(
            m,
            tree,
            g,
            l1,
            tree.child(i, n - 1),
            t.acted(tree.nodes@[i].player_id as int, s, n - 1),
        );
        (vs.push(w), l2)
    }
}

/// The values of the first `n` continuations at node `i`.
pub open spec fn walk_choices<T: Widen, G: GameSpec<T>>(
    m: &CpuMccfr<T>,
    tree: &FlatTree,
    g: G,
    l: Ledger<T>,
    i: int,
    t: Trip<T>,
    s: Seq<T>,
    n: nat,
) -> (Seq<Seq<T>>, Ledger<T>)
    decreases tree.max_depth + 1 - tree.level(i), 4int, n,
    when tree.wf() && tree.is_node(i)
{
    let p = tree.nodes@[i].player_id as int;
    if n == 0 || !(0 <= p < t.var.len()) {
        (Seq::empty(), l)
    } else {
        let (vs, l1) = walk_choices(m, tree, g, l, i, t, s, (n - 1) as nat);
        let (w, l2) = walk(
            m,
            tree,
            g,
            l1,
            i,
            t.acted(p, s, n - 1).with(p, (n - 1) as usize),
        );
        (vs.push(w), l2)
    }
}

/// The game and the solver count the same hands.
pub open spec fn same_hands<T: Widen, G: GameSpec<T>>(m: &CpuMccfr<T>, g: &G) -> bool {
    forall|p: int| 0 <= p < m.num_hands@.len() ==> #[trigger] g.s_hands(p) == m.num_hands@[p]
}

/// The trip fits the solver.
pub open spec fn is_trip<T: Scalar>(m: &CpuMccfr<T>, t: Trip<T>) -> bool {
    &&& t.traverser < m.num_hands@.len()
    &&& t.reach.len() == m.num_hands@.len()
    &&& forall|p: int|
        0 <= p < t.reach.len() ==> (#[trigger] t.reach[p]).len() == m.num_hands@[p]
    &&& t.mine.len() == m.num_hands@[t.traverser as int]
    &&& t.var.len() == m.num_hands@.len()
    &&& forall|p: int|
        0 <= p < t.var.len() ==> (#[trigger] t.var[p] matches Some(c) ==> c < m.num_variants)
}

/// The ledger is as large as the solver's.
pub open spec fn is_ledger<T: Scalar>(m: &CpuMccfr<T>, l: Ledger<T>) -> bool {
    &&& l.regrets.len() == m.regrets@.len()
    &&& l.cum.len() == m.regrets@.len()
    &&& l.seen.len() == m.regrets@.len()
    &&& l.sel_regret.len() == m.sel_regret@.len()
    &&& l.sel_cum.len() == m.sel_regret@.len()
}

/// Only the ledger changed, and not in size.
pub open spec fn only_ledger<T: Scalar>(was: &CpuMccfr<T>, new: &CpuMccfr<T>) -> bool {
    &&& new.same_rules(was)
    &&& is_ledger(was, new.ledger())
}

pub proof fn lemma_only_ledger<T: Scalar>(was: &CpuMccfr<T>, new: &CpuMccfr<T>, tree: &FlatTree)
    requires
        was.is_for(tree),
        only_ledger(was, new),
    ensures
        new.is_for(tree),
{
    assert forall|i: int| tree.is_node(i) && #[trigger] new.boundary@[i] implies new.has_choice(
        tree,
        i,
    ) by {
        assert(was.boundary@[i]);
        assert(was.has_choice(tree, i));
    }
    assert forall|i: int| tree.is_node(i) implies #[trigger] new.node_data_offset@[i] == (
    if tree.nodes@[i].is_player() {
        rooms_upto(tree, new.num_hands@, i as nat)
    } else {
        UNUSED as int
    }) by {
        assert(was.node_data_offset@[i] == (if tree.nodes@[i].is_player() {
            rooms_upto(tree, was.num_hands@, i as nat)
        } else {
            UNUSED as int
        }));
    }
}

/// What the walk reads besides the ledger decides its result.
pub proof fn lemma_same_rules<T: Widen, G: GameSpec<T>>(
    a: &CpuMccfr<T>,
    b: &CpuMccfr<T>,
    tree: &FlatTree,
    g: G,
    l: Ledger<T>,
    i: int,
    t: Trip<T>,
)
    requires
        tree.wf(),
        tree.is_node(i),
        a.same_rules(b),
    ensures
        walk(a, tree, g, l, i, t) == walk(b, tree, g, l, i, t),
    decreases tree.max_depth + 1 - tree.level(i), stage(tree, i, t), 0int,
{
    let n = tree.nodes@[i];
    if a.depth_limit@[i] {
    } else if n.is_terminal() || (n.is_chance() && tree.arity(i) == 0) {
    } else if n.is_chance() {
        lemma_same_deals(a, b, tree, g, l, i, t, branch_count(tree, &g, i) as nat);
    } else if a.chooses(tree, i, t.var) {
        let s = a.choice(tree, l.sel_regret, i);
        lemma_same_choices(a, b, tree, g, l, i, t, s, a.num_variants as nat);
    } else {
        let s = a.play(tree, l, i, t.var);
        assert(s == b.play(tree, l, i, t.var));
        lemma_same_actions(a, b, tree, g, l, i, t, s, tree.arity(i) as nat);
    }
}

proof fn lemma_same_deals<T: Widen, G: GameSpec<T>>(
    a: &CpuMccfr<T>,
    b: &CpuMccfr<T>,
    tree: &FlatTree,
    g: G,
    l: Ledger<T>,
    i: int,
    t: Trip<T>,
    n: nat,
)
    requires
        tree.wf(),
        tree.is_node(i),
        a.same_rules(b),
    ensures
        walk_deals(a, tree, g, l, i, t, n) == walk_deals(b, tree, g, l, i, t, n),
    decreases tree.max_depth + 1 - tree.level(i), 1int, n,
{
    let e = branch_edge(tree, &g, i, n - 1);
    if n > 0 && tree.is_edge(i, e) {
        lemma_same_deals(a, b, tree, g, l, i, t, (n - 1) as nat);
        let nh = a.num_hands@[t.traverser as int] as int;
        let l1 = walk_deals(a, tree, g, l, i, t, (n - 1) as nat).1;
        lemma_same_rules(
            a,
            b,
            tree,
            g.s_set(n - 1),
            l1,
            tree.child(i, e),
            t.dealt(chances(&g, n - 1, nh)),
        );
    }
}

proof fn lemma_same_actions<T: Widen, G: GameSpec<T>>(
    a: &CpuMccfr<T>,
    b: &CpuMccfr<T>,
    tree: &FlatTree,
    g: G,
    l: Ledger<T>,
    i: int,
    t: Trip<T>,
    s: Seq<T>,
    n: nat,
)
    requires
        tree.wf(),
        tree.is_node(i),
        a.same_rules(b),
    ensures
        walk_actions(a, tree, g, l, i, t, s, n) == walk_actions(b, tree, g, l, i, t, s, n),
    decreases tree.max_depth + 1 - tree.level(i), 1int, n,
{
    if n > 0 && tree.is_edge(i, n - 1) {
        lemma_same_actions(a, b, tree, g, l, i, t, s, (n - 1) as nat);
        let l1 = walk_actions(a, tree, g, l, i, t, s, (n - 1) as nat).1;
        lemma_same_rules(
            a,
            b,
            tree,
            g,
            l1,
            tree.child(i, n - 1),
            t.acted(tree.nodes@[i].player_id as int, s, n - 1),
        );
    }
}

proof fn lemma_same_choices<T: Widen, G: GameSpec<T>>(
    a: &CpuMccfr<T>,
    b: &CpuMccfr<T>,
    tree: &FlatTree,
    g: G,
    l: Ledger<T>,
    i: int,
    t: Trip<T>,
    s: Seq<T>,
    n: nat,
)
    requires
        tree.wf(),
        tree.is_node(i),
        a.same_rules(b),
    ensures
        walk_choices(a, tree, g, l, i, t, s, n) == walk_choices(b, tree, g, l, i, t, s, n),
    decreases tree.max_depth + 1 - tree.level(i), 4int, n,
{
    let p = tree.nodes@[i].player_id as int;
    if n > 0 && 0 <= p < t.var.len() {
        lemma_same_choices(a, b, tree, g, l, i, t, s, (n - 1) as nat);
        let l1 = walk_choices(a, tree, g, l, i, t, s, (n - 1) as nat).1;
        lemma_same_rules(
            a,
            b,
            tree,
            g,
            l1,
            i,
            t.acted(p, s, n - 1).with(p, (n - 1) as usize),
        );
    }
}

/// The trip that these values describe.
pub open spec fn trip_of<T>(
    traverser: u8,
    weight: T,
    cfreach: &Vec<Vec<T>>,
    mine: &Vec<T>,
    var: &Vec<Option<usize>>,
) -> Trip<T> {
    Trip { traverser, weight, reach: views(cfreach@), mine: mine@, var: var@ }
}

/// Lets player `p` act: scales its row by the strategy, and returns the row as it was.
pub fn act<T: Scalar>(
    traverser: u8,
    player: u8,
    s: &Vec<T>,
    a: usize,
    na: usize,
    cfreach: &mut Vec<Vec<T>>,
    mine: &mut Vec<T>,
) -> (saved: Vec<T>)
    requires
        a < na,
        player < old(cfreach)@.len(),
        player == traverser ==> s@.len() == na * old(mine)@.len(),
        player != traverser ==> s@.len() == na * old(cfreach)@[player as int]@.len(),
    ensures
        player == traverser ==> saved@ == old(mine)@ && final(mine)@ == after(
            old(mine)@,
            s@,
            a as int,
        ) && views(final(cfreach)@) == views(old(cfreach)@),
        player != traverser ==> saved@ == old(cfreach)@[player as int]@ && final(mine)@ == old(
            mine,
        )@ && views(final(cfreach)@) == views(old(cfreach)@).update(
            player as int,
            after(old(cfreach)@[player as int]@, s@, a as int),
        ),
{
    if player == traverser {
        let saved = row_copy(mine);
        let new = row_after(mine, s, a, na);
        assert(new@ =~= after(mine@, s@, a as int));
        *mine = new;
        saved
    } else {
        let p: usize = player as usize;
        let saved = row_copy(&cfreach[p]);
        let new = row_after(&cfreach[p], s, a, na);
        assert(new@ =~= after(cfreach@[p as int]@, s@, a as int));
        cfreach[p] = new;
        assert(views(cfreach@) =~= views(old(cfreach)@).update(
            player as int,
            after(old(cfreach)@[player as int]@, s@, a as int),
        ));
        saved
    }
}

/// Takes [`act`] back.
pub fn unact<T: Scalar>(
    traverser: u8,
    player: u8,
    saved: Vec<T>,
    cfreach: &mut Vec<Vec<T>>,
    mine: &mut Vec<T>,
    Ghost(reach): Ghost<Seq<Seq<T>>>,
    Ghost(was): Ghost<Seq<T>>,
)
    requires
        player < reach.len(),
        old(cfreach)@.len() == reach.len(),
        player == traverser ==> saved@ == was && views(old(cfreach)@) == reach,
        player != traverser ==> saved@ == reach[player as int] && old(mine)@ == was && exists|r: Seq<
            T,
        >| views(old(cfreach)@) == #[trigger] reach.update(player as int, r),
    ensures
        final(mine)@ == was,
        views(final(cfreach)@) == reach,
{
    if player == traverser {
        *mine = saved;
    } else {
        let ghost before = views(cfreach@);
        let ghost r = choose|r: Seq<T>| before == #[trigger] reach.update(player as int, r);
        cfreach[player as usize] = saved;
        proof {
            assert forall|p: int| 0 <= p < reach.len() implies #[trigger] views(cfreach@)[p]
                == reach[p] by {
                if p != player {
                    assert(before[p] == reach.update(player as int, r)[p]);
                    assert(views(cfreach@)[p] == before[p]);
                }
            }
            assert(views(cfreach@) =~= reach);
        }
    }
}

impl<T: Widen> CpuMccfr<T> {
    /// Computes [`CpuMccfr::play`] from the live ledger.
    pub fn played(&self, tree: &FlatTree, node_idx: usize, var: &Vec<Option<usize>>) -> (s: Vec<T>)
        requires
            self.is_for(tree),
            tree.is_node(node_idx as int),
            tree.nodes@[node_idx as int].is_player(),
            var@.len() == tree.np(),
            forall|p: int|
                0 <= p < var@.len() ==> (#[trigger] var@[p] matches Some(c) ==> c
                    < self.num_variants),
        ensures
            s@ == self.play(tree, self.ledger(), node_idx as int, var@),
            s@.len() == tree.arity(node_idx as int) * self.hands_at(tree, node_idx as int),
    {
        proof {
            self.lemma_room(tree, node_idx as int);
            assert(tree.node_ok(node_idx as int));
        }
        let player: u8 = tree.nodes[node_idx].player_id;
        let na: usize = tree.nodes[node_idx].num_children as usize;
        let nh: usize = self.num_hands[player as usize];
        let off: usize = self.node_data_offset[node_idx];
        let total: usize = self.regrets.len();
        let n: usize = na * nh;
        if self.frozen[node_idx] {
            let c: usize = match var[player as usize] {
                Some(c) => c,
                None => 0,
            };
            assert(self.frozen_variants@[c as int]@.len() == total);
            cut_of(self.frozen_variants[c].as_slice(), off, n)
        } else if self.use_snapshot {
            cut_of(self.snapshot.as_slice(), off, n)
        } else {
            assert(self.frozen_variants@[0]@.len() == total);
            self.compute_strategy(node_idx, na, nh, player)
        }
    }

    /// Computes [`CpuMccfr::choice`].
    pub fn compute_sel_strategy(&self, tree: &FlatTree, node_idx: usize, sel_regret: &Vec<T>) -> (s:
        Vec<T>)
        requires
            self.is_for(tree),
            tree.is_node(node_idx as int),
            self.boundary@[node_idx as int],
            sel_regret@.len() == self.sel_regret@.len(),
        ensures
            s@ == self.choice(tree, sel_regret@, node_idx as int),
            s@.len() == self.num_variants * self.hands_at(tree, node_idx as int),
    {
        proof {
            assert(self.has_choice(tree, node_idx as int));
            assert(tree.node_ok(node_idx as int));
        }
        let player: u8 = tree.nodes[node_idx].player_id;
        let k: usize = self.num_variants;
        let nh: usize = self.num_hands[player as usize];
        let len: usize = sel_regret.len();
        let row = cut_of(sel_regret.as_slice(), self.sel_offset[node_idx], k * nh);
        matched_of(row.as_slice(), k, nh)
    }

    /// Walks the tree under node `node_idx` for one traverser: returns its values there,
    /// and adds what it learns to the solver's buffers.
    #[verifier::rlimit(60)]
    pub fn walk_cfr<G: GameSpec<T>>(
        &mut self,
        tree: &FlatTree,
        game: &mut G,
        traverser: u8,
        node_idx: usize,
        cfreach: &mut Vec<Vec<T>>,
        mine: &mut Vec<T>,
        weight: T,
        var: &mut Vec<Option<usize>>,
    ) -> (values: Vec<T>)
        requires
            old(self).is_for(tree),
            plays_on(&*old(game), tree),
            same_hands(&*old(self), &*old(game)),
            tree.is_node(node_idx as int),
            is_trip(&*old(self), trip_of(traverser, weight, &*old(cfreach), &*old(mine), &*old(var))),
            deals_fit(old(self).depth_limit@, tree, *old(game), node_idx as int),
        ensures
            (values@, final(self).ledger()) == walk(
                &*old(self),
                tree,
                *old(game),
                old(self).ledger(),
                node_idx as int,
                trip_of(traverser, weight, &*old(cfreach), &*old(mine), &*old(var)),
            ),
            values@.len() == old(self).num_hands@[traverser as int],
            only_ledger(&*old(self), &*final(self)),
            final(self).is_for(tree),
            *final(game) == *old(game),
            views(final(cfreach)@) == views(old(cfreach)@),
            final(mine)@ == old(mine)@,
            final(var)@ == old(var)@,
        decreases
            tree.max_depth + 1 - tree.level(node_idx as int),
            stage(
                tree,
                node_idx as int,
                trip_of(traverser, weight, &*old(cfreach), &*old(mine), &*old(var)),
            ),
    {
        let ghost i = node_idx as int;
        let ghost t = trip_of(traverser, weight, cfreach, mine, var);
        let node = tree.nodes[node_idx];
        proof {
            assert(tree.node_ok(i));
            assert(game.s_hands(traverser as int) == self.num_hands@[traverser as int]);
            assert forall|p: int| 0 <= p < cfreach@.len() implies (#[trigger] cfreach@[p])@.len()
                == game.s_hands(p) by {
                assert(t.reach[p].len() == self.num_hands@[p]);
                assert(game.s_hands(p) == self.num_hands@[p]);
            }
        }
        if self.depth_limit[node_idx] {
            return game.evaluate_continuation(traverser, node_idx, tree, cfreach);
        }
        if node.is_terminal() || (node.is_chance() && node.num_children == 0) {
            return game.evaluate_terminal(traverser, node_idx, tree, cfreach);
        }
        if node.is_chance() {
            return self.walk_deals(
                tree,
                game,
                traverser,
                node_idx,
                cfreach,
                mine,
                weight,
                var,
            );
        }
        let player: u8 = node.player_id;
        if self.frozen[node_idx] && self.boundary[node_idx] && var[player as usize].is_none() {
            return self.boundary_select(
                tree,
                game,
                traverser,
                node_idx,
                cfreach,
                mine,
                weight,
                var,
            );
        }
        let s = self.played(tree, node_idx, var);
        let vs = self.walk_actions(
            tree,
            game,
            traverser,
            node_idx,
            cfreach,
            mine,
            weight,
            var,
            &s,
        );
        let ghost vv = views(vs@);
        let nh: usize = self.num_hands[traverser as usize];
        let own = player == traverser;
        assert forall|a: int| 0 <= a < vs@.len() implies (#[trigger] vs@[a])@.len() == nh by {
            assert(vv[a] == vs@[a]@);
        }
        let avg = average(own, &s, nh, &vs);
        if own && !self.frozen[node_idx] {
            proof {
                self.lemma_room(tree, i);
            }
            let off: usize = self.node_data_offset[node_idx];
            let gained = gains_of(weight, nh, &vs, &avg);
            let taken = plays_of(weight, vs.len(), mine, &s);
            add_floored(&mut self.regrets, off, &gained);
            add_into(&mut self.cum_strategy, off, &taken);
            if self.lambda.is_some() {
                let flat_vs = stack(nh, &vs);
                add_into(&mut self.last_cfv, off, &flat_vs);
            }
            proof {
                lemma_only_ledger(&*old(self), &*self, tree);
            }
        }
        avg
    }

    /// Walks all outcomes of a deal.
    #[verifier::rlimit(60)]
    fn walk_deals<G: GameSpec<T>>(
        &mut self,
        tree: &FlatTree,
        game: &mut G,
        traverser: u8,
        node_idx: usize,
        cfreach: &mut Vec<Vec<T>>,
        mine: &mut Vec<T>,
        weight: T,
        var: &mut Vec<Option<usize>>,
    ) -> (values: Vec<T>)
        requires
            old(self).is_for(tree),
            plays_on(&*old(game), tree),
            same_hands(&*old(self), &*old(game)),
            tree.is_node(node_idx as int),
            is_trip(&*old(self), trip_of(traverser, weight, &*old(cfreach), &*old(mine), &*old(var))),
            deals_fit(old(self).depth_limit@, tree, *old(game), node_idx as int),
            !old(self).depth_limit@[node_idx as int],
            tree.nodes@[node_idx as int].is_chance(),
            tree.arity(node_idx as int) > 0,
        ensures
            (values@, final(self).ledger()) == walk_deals(
                &*old(self),
                tree,
                *old(game),
                old(self).ledger(),
                node_idx as int,
                trip_of(traverser, weight, &*old(cfreach), &*old(mine), &*old(var)),
                branch_count(tree, &*old(game), node_idx as int) as nat,
            ),
            values@.len() == old(self).num_hands@[traverser as int],
            only_ledger(&*old(self), &*final(self)),
            final(self).is_for(tree),
            *final(game) == *old(game),
            views(final(cfreach)@) == views(old(cfreach)@),
            final(mine)@ == old(mine)@,
            final(var)@ == old(var)@,
        decreases tree.max_depth + 1 - tree.level(node_idx as int), 1int,
    {
        let ghost i = node_idx as int;
        let ghost g = *game;
        let ghost t = trip_of(traverser, weight, cfreach, mine, var);
        let ghost l = self.ledger();
        let nh: usize = self.num_hands[traverser as usize];
        assert(g.s_hands(traverser as int) == nh);
        let children = tree.node_children(node_idx);
        let outcomes: usize = game.num_chance_outcomes();
        let single = outcomes > 0 && children.len() == 1;
        let count: usize = if single {
            outcomes
        } else {
            children.len()
        };
        let mut total: Vec<T> = filled(T::zero(), nh);
        assert(total@ =~= flat(T::s_zero(), nh as int));
        let mut o: usize = 0;
        while o < count
            invariant
                o <= count,
                0 < count,
                i == node_idx,
                tree.is_node(i),
                g == *old(game),
                t == trip_of(traverser, weight, &*old(cfreach), &*old(mine), &*old(var)),
                l == old(self).ledger(),
                old(self).is_for(tree),
                self.is_for(tree),
                only_ledger(&*old(self), &*self),
                plays_on(&g, tree),
                same_hands(&*old(self), &g),
                is_trip(&*old(self), t),
                deals_fit(old(self).depth_limit@, tree, g, i),
                !old(self).depth_limit@[i],
                tree.nodes@[i].is_chance(),
                tree.arity(i) > 0,
                nh == old(self).num_hands@[traverser as int],
                g.s_hands(traverser as int) == nh,
                single == one_child(tree, &g, i),
                count == branch_count(tree, &g, i),
                children@.len() == tree.arity(i),
                forall|a: int|
                    0 <= a < children@.len() ==> (#[trigger] children@[a]) as int == tree.child(
                        i,
                        a,
                    ),
                o == 0 ==> *game == g,
                o > 0 ==> *game == g.s_set(o - 1) && can_take(&g, o - 1),
                views(cfreach@) == t.reach,
                mine@ == t.mine,
                var@ == t.var,
                total@.len() == nh,
                (total@, self.ledger()) == walk_deals(
                    &*old(self),
                    tree,
                    g,
                    l,
                    i,
                    t,
                    o as nat,
                ),
            decreases count - o,
        {
            if o > 0 {
                proof {
                    g.lemma_set(o - 1);
                    g.lemma_undo(o - 1);
                }
                game.clear_chance_outcome();
            }
            let ghost e = branch_edge(tree, &g, i, o as int);
            proof {
                assert(can_take(&g, o as int));
                g.lemma_set(o as int);
                assert(tree.is_edge(i, e));
                assert(tree.edge_ok(i, e));
            }
            let by = ask_chances(game, o, traverser, nh);
            game.set_chance_outcome(o);
            let child: usize = if single {
                children[0] as usize
            } else {
                children[o] as usize
            };
            let mut reach2 = scale_rows(cfreach, &by);
            let mut mine2 = scale_row(mine, &by);
            let ghost t2 = t.dealt(by@);
            proof {
                assert(trip_of(traverser, weight, &reach2, &mine2, var) == t2);
                assert forall|p: int| 0 <= p < t2.reach.len() implies (
                #[trigger] t2.reach[p]).len() == self.num_hands@[p] by {
                    assert(t.reach[p].len() == self.num_hands@[p]);
                }
                assert(is_trip(&*self, t2));
                assert forall|p: int| 0 <= p < self.num_hands@.len() implies
                    #[trigger] game.s_hands(p) == self.num_hands@[p] by {
                    assert(g.s_set(o as int).s_hands(p) == g.s_hands(p));
                }
                lemma_same_rules(
                    &*self,
                    &*old(self),
                    tree,
                    g.s_set(o as int),
                    self.ledger(),
                    child as int,
                    t2,
                );
            }
            let w = self.walk_cfr(
                tree,
                game,
                traverser,
                child,
                &mut reach2,
                &mut mine2,
                weight,
                var,
            );
            add_rows_of(&mut total, &w);
            o += 1;
            assert((o - 1) as nat == o - 1);
        }
        proof {
            g.lemma_set(count - 1);
            g.lemma_undo(count - 1);
        }
        game.clear_chance_outcome();
        total
    }

    /// Walks all actions of a player node.
    #[verifier::rlimit(60)]
    fn walk_actions<G: GameSpec<T>>(
        &mut self,
        tree: &FlatTree,
        game: &mut G,
        traverser: u8,
        node_idx: usize,
        cfreach: &mut Vec<Vec<T>>,
        mine: &mut Vec<T>,
        weight: T,
        var: &mut Vec<Option<usize>>,
        s: &Vec<T>,
    ) -> (vs: Vec<Vec<T>>)
        requires
            old(self).is_for(tree),
            plays_on(&*old(game), tree),
            same_hands(&*old(self), &*old(game)),
            tree.is_node(node_idx as int),
            is_trip(&*old(self), trip_of(traverser, weight, &*old(cfreach), &*old(mine), &*old(var))),
            deals_fit(old(self).depth_limit@, tree, *old(game), node_idx as int),
            !old(self).depth_limit@[node_idx as int],
            tree.nodes@[node_idx as int].is_player(),
            s@.len() == tree.arity(node_idx as int) * old(self).hands_at(tree, node_idx as int),
        ensures
            (views(vs@), final(self).ledger()) == walk_actions(
                &*old(self),
                tree,
                *old(game),
                old(self).ledger(),
                node_idx as int,
                trip_of(traverser, weight, &*old(cfreach), &*old(mine), &*old(var)),
                s@,
                tree.arity(node_idx as int) as nat,
            ),
            vs@.len() == tree.arity(node_idx as int),
            forall|a: int|
                0 <= a < vs@.len() ==> (#[trigger] views(vs@)[a]).len()
                    == old(self).num_hands@[traverser as int],
            only_ledger(&*old(self), &*final(self)),
            final(self).is_for(tree),
            *final(game) == *old(game),
            views(final(cfreach)@) == views(old(cfreach)@),
            final(mine)@ == old(mine)@,
            final(var)@ == old(var)@,
        decreases tree.max_depth + 1 - tree.level(node_idx as int), 1int,
    {
        let ghost i = node_idx as int;
        let ghost g = *game;
        let ghost t = trip_of(traverser, weight, cfreach, mine, var);
        let ghost l = self.ledger();
        assert(tree.node_ok(i));
        let player: u8 = tree.nodes[node_idx].player_id;
        let ghost p = player as int;
        let children = tree.node_children(node_idx);
        let na: usize = children.len();
        let mut vs: Vec<Vec<T>> = Vec::new();
        assert(views(vs@) =~= Seq::empty());
        let mut a: usize = 0;
        while a < na
            invariant
                a <= na,
                na == tree.arity(i),
                i == node_idx,
                tree.is_node(i),
                p == player,
                player == tree.nodes@[i].player_id,
                p < tree.np(),
                g == *old(game),
                *game == g,
                t == trip_of(traverser, weight, &*old(cfreach), &*old(mine), &*old(var)),
                l == old(self).ledger(),
                old(self).is_for(tree),
                self.is_for(tree),
                only_ledger(&*old(self), &*self),
                plays_on(&g, tree),
                same_hands(&*old(self), &g),
                is_trip(&*old(self), t),
                deals_fit(old(self).depth_limit@, tree, g, i),
                !old(self).depth_limit@[i],
                tree.nodes@[i].is_player(),
                s@.len() == na * old(self).hands_at(tree, i),
                children@.len() == na,
                forall|b: int|
                    0 <= b < children@.len() ==> (#[trigger] children@[b]) as int == tree.child(
                        i,
                        b,
                    ),
                views(cfreach@) == t.reach,
                mine@ == t.mine,
                var@ == t.var,
                vs@.len() == a,
                forall|b: int|
                    0 <= b < a ==> (#[trigger] views(vs@)[b]).len()
                        == old(self).num_hands@[traverser as int],
                (views(vs@), self.ledger()) == walk_actions(
                    &*old(self),
                    tree,
                    g,
                    l,
                    i,
                    t,
                    s@,
                    a as nat,
                ),
            decreases na - a,
        {
            proof {
                assert(tree.is_edge(i, a as int));
                assert(tree.edge_ok(i, a as int));
                assert(t.reach[p].len() == self.num_hands@[p]);
                assert(views(cfreach@)[p] == cfreach@[p]@);
            }
            let saved = act(traverser, player, s, a, na, cfreach, mine);
            let ghost t2 = t.acted(p, s@, a as int);
            let child: usize = children[a] as usize;
            proof {
                assert(trip_of(traverser, weight, cfreach, mine, var) == t2);
                assert forall|q: int| 0 <= q < t2.reach.len() implies (
                #[trigger] t2.reach[q]).len() == self.num_hands@[q] by {
                    assert(t.reach[q].len() == self.num_hands@[q]);
                }
                assert(is_trip(&*self, t2));
                lemma_same_rules(
                    &*self,
                    &*old(self),
                    tree,
                    g,
                    self.ledger(),
                    child as int,
                    t2,
                );
            }
            let w = self.walk_cfr(tree, game, traverser, child, cfreach, mine, weight, var);
            proof {
                if player != traverser {
                    assert(views(cfreach@) == t.reach.update(
                        p,
                        after(t.reach[p], s@, a as int),
                    ));
                }
            }
            unact(traverser, player, saved, cfreach, mine, Ghost(t.reach), Ghost(t.mine));
            let ghost vv = views(vs@);
            vs.push(w);
            assert(views(vs@) =~= vv.push(w@));
            a += 1;
            assert((a - 1) as nat == a - 1);
        }
        vs
    }

    /// The owner of a boundary node chooses its continuation: walks all of them, and
    /// learns which is best.
    #[verifier::rlimit(60)]
    fn boundary_select<G: GameSpec<T>>(
        &mut self,
        tree: &FlatTree,
        game: &mut G,
        traverser: u8,
        node_idx: usize,
        cfreach: &mut Vec<Vec<T>>,
        mine: &mut Vec<T>,
        weight: T,
        var: &mut Vec<Option<usize>>,
    ) -> (values: Vec<T>)
        requires
            old(self).is_for(tree),
            plays_on(&*old(game), tree),
            same_hands(&*old(self), &*old(game)),
            tree.is_node(node_idx as int),
            is_trip(&*old(self), trip_of(traverser, weight, &*old(cfreach), &*old(mine), &*old(var))),
            deals_fit(old(self).depth_limit@, tree, *old(game), node_idx as int),
            !old(self).depth_limit@[node_idx as int],
            tree.nodes@[node_idx as int].is_player(),
            old(self).chooses(tree, node_idx as int, old(var)@),
        ensures
            (values@, final(self).ledger()) == walk(
                &*old(self),
                tree,
                *old(game),
                old(self).ledger(),
                node_idx as int,
                trip_of(traverser, weight, &*old(cfreach), &*old(mine), &*old(var)),
            ),
            values@.len() == old(self).num_hands@[traverser as int],
            only_ledger(&*old(self), &*final(self)),
            final(self).is_for(tree),
            *final(game) == *old(game),
            views(final(cfreach)@) == views(old(cfreach)@),
            final(mine)@ == old(mine)@,
            final(var)@ == old(var)@,
        decreases tree.max_depth + 1 - tree.level(node_idx as int), 4int,
    {
        let ghost i = node_idx as int;
        let ghost g = *game;
        let ghost t = trip_of(traverser, weight, cfreach, mine, var);
        let ghost l = self.ledger();
        proof {
            assert(tree.node_ok(i));
            assert(self.has_choice(tree, i));
        }
        let player: u8 = tree.nodes[node_idx].player_id;
        let ghost p = player as int;
        let k: usize = self.num_variants;
        let s = self.compute_sel_strategy(tree, node_idx, &self.sel_regret);
        let mut vs: Vec<Vec<T>> = Vec::new();
        assert(views(vs@) =~= Seq::empty());
        let mut c: usize = 0;
        while c < k
            invariant
                c <= k,
                k == old(self).num_variants,
                i == node_idx,
                tree.is_node(i),
                p == player,
                player == tree.nodes@[i].player_id,
                p < tree.np(),
                g == *old(game),
                *game == g,
                t == trip_of(traverser, weight, &*old(cfreach), &*old(mine), &*old(var)),
                l == old(self).ledger(),
                old(self).is_for(tree),
                self.is_for(tree),
                only_ledger(&*old(self), &*self),
                plays_on(&g, tree),
                same_hands(&*old(self), &g),
                is_trip(&*old(self), t),
                deals_fit(old(self).depth_limit@, tree, g, i),
                tree.nodes@[i].is_player(),
                t.var[p] is None,
                s@.len() == k * old(self).hands_at(tree, i),
                views(cfreach@) == t.reach,
                mine@ == t.mine,
                var@ == t.var,
                vs@.len() == c,
                forall|b: int|
                    0 <= b < c ==> (#[trigger] views(vs@)[b]).len()
                        == old(self).num_hands@[traverser as int],
                (views(vs@), self.ledger()) == walk_choices(
                    &*old(self),
                    tree,
                    g,
                    l,
                    i,
                    t,
                    s@,
                    c as nat,
                ),
            decreases k - c,
        {
            proof {
                assert(t.reach[p].len() == self.num_hands@[p]);
                assert(views(cfreach@)[p] == cfreach@[p]@);
            }
            let saved = act(traverser, player, &s, c, k, cfreach, mine);
            var[player as usize] = Some(c);
            let ghost t2 = t.acted(p, s@, c as int).with(p, c);
            proof {
                assert(trip_of(traverser, weight, cfreach, mine, var) == t2);
                assert forall|q: int| 0 <= q < t2.reach.len() implies (
                #[trigger] t2.reach[q]).len() == self.num_hands@[q] by {
                    assert(t.reach[q].len() == self.num_hands@[q]);
                }
                assert forall|q: int| 0 <= q < t2.var.len() implies (
                #[trigger] t2.var[q] matches Some(d) ==> d < self.num_variants) by {
                    if q != p {
                        assert(t2.var[q] == t.var[q]);
                    }
                }
                assert(is_trip(&*self, t2));
                lemma_same_rules(&*self, &*old(self), tree, g, self.ledger(), i, t2);
            }
            let w = self.walk_cfr(tree, game, traverser, node_idx, cfreach, mine, weight, var);
            var[player as usize] = None;
            proof {
                assert(var@ =~= t.var);
                if player != traverser {
                    assert(views(cfreach@) == t.reach.update(
                        p,
                        after(t.reach[p], s@, c as int),
                    ));
                }
            }
            unact(traverser, player, saved, cfreach, mine, Ghost(t.reach), Ghost(t.mine));
            let ghost vv = views(vs@);
            vs.push(w);
            assert(views(vs@) =~= vv.push(w@));
            c += 1;
            assert((c - 1) as nat == c - 1);
        }
        let ghost vv = views(vs@);
        let nh: usize = self.num_hands[traverser as usize];
        let own = player == traverser;
        assert forall|a: int| 0 <= a < vs@.len() implies (#[trigger] vs@[a])@.len() == nh by {
            assert(vv[a] == vs@[a]@);
        }
        let avg = average(own, &s, nh, &vs);
        if own {
            let off: usize = self.sel_offset[node_idx];
            let gained = gains_of(weight, nh, &vs, &avg);
            let taken = plays_of(weight, k, mine, &s);
            add_floored(&mut self.sel_regret, off, &gained);
            add_into(&mut self.sel_cum, off, &taken);
            proof {
                lemma_only_ledger(&*old(self), &*self, tree);
            }
        }
        avg
    }
}

} // verus!
