//! The walk of [`CpuMccfr`] over a snapshot of its strategy.
//!
//! Such a walk reads nothing that it writes but the choices of continuations, so the
//! branches of a deal are walked on threads of their own. What a walk learns is noted
//! down, and entered into the solver's buffers when it is over.
use vstd::prelude::*;

use crate::game::{plays_on, GameSpec};
use crate::layout::{flat, row_copy};
use crate::mccfr::{CpuMccfr, Ledger};
use crate::mccfr_steps::{
    add_floored, add_rows_of, added, added_discounted, added_floored, added_scaled, after, average,
    averaged, gains, gains_of, plays, plays_of, row_sum, scale_row, scale_rows, stack, stacked,
};
use crate::mccfr_walk::{
    act, ask_chances, branch_count, branch_edge, chances, is_trip, same_hands, stage, trip_of,
    unact, Trip,
};
use crate::parallel::par_map;
use crate::scalar::{filled, Scalar, Widen};
use crate::terminal::views;
use crate::tree::FlatTree;

verus! {

/// What one node has to enter into the buffers.
pub struct Note<T> {
    /// About a choice of continuations, not of actions.
    pub selection: bool,
    /// Where the node's entries start.
    pub from: usize,
    pub gained: Vec<T>,
    pub taken: Vec<T>,
    /// Action values; nothing unless a quantal response answers to them.
    pub seen: Vec<T>,
}

/// A [`Note`] as mathematical values.
pub struct Entry<T> {
    pub selection: bool,
    pub from: int,
    pub gained: Seq<T>,
    pub taken: Seq<T>,
    pub seen: Seq<T>,
}

impl<T> Note<T> {
    pub open spec fn entry(&self) -> Entry<T> {
        Entry {
            selection: self.selection,
            from: self.from as int,
            gained: self.gained@,
            taken: self.taken@,
            seen: self.seen@,
        }
    }
}

pub open spec fn noted<T>(notes: Seq<Note<T>>) -> Seq<Entry<T>> {
    Seq::new(notes.len(), |k: int| notes[k].entry())
}

/// Selection regrets with the first `n` entries entered.
pub open spec fn sel_after<T: Scalar>(sel: Seq<T>, es: Seq<Entry<T>>, n: nat) -> Seq<T>
    decreases n,
{
    if n == 0 {
        sel
    } else {
        let prev = sel_after(sel, es, (n - 1) as nat);
        let e = es[n - 1];
        if e.selection {
            added_floored(prev, e.from, e.gained)
        } else {
            prev
        }
    }
}

/// Entering two lists one after the other.
pub proof fn lemma_sel_join<T: Scalar>(sel: Seq<T>, a: Seq<Entry<T>>, b: Seq<Entry<T>>, n: nat)
    requires
        n <= b.len(),
    ensures
        sel_after(sel, a + b, (a.len() + n) as nat) == sel_after(
            sel_after(sel, a, a.len()),
            b,
            n,
        ),
    decreases n,
{
    if n == 0 {
        lemma_sel_prefix(sel, a, a + b, a.len());
    } else {
        lemma_sel_join(sel, a, b, (n - 1) as nat);
        assert((a + b)[a.len() + n - 1] == b[n - 1]);
        assert((a.len() + n - 1) as nat == a.len() + (n - 1) as nat);
    }
}

pub proof fn lemma_sel_prefix<T: Scalar>(sel: Seq<T>, a: Seq<Entry<T>>, b: Seq<Entry<T>>, n: nat)
    requires
        n <= a.len(),
        n <= b.len(),
        forall|k: int| 0 <= k < n ==> a[k] == #[trigger] b[k],
    ensures
        sel_after(sel, a, n) == sel_after(sel, b, n),
    decreases n,
{
    if n > 0 {
        lemma_sel_prefix(sel, a, b, (n - 1) as nat);
        assert(a[n - 1] == b[n - 1]);
    }
}

pub proof fn lemma_sel_len<T: Scalar>(sel: Seq<T>, es: Seq<Entry<T>>, n: nat)
    ensures
        sel_after(sel, es, n).len() == sel.len(),
    decreases n,
{
    if n > 0 {
        lemma_sel_len(sel, es, (n - 1) as nat);
    }
}

/// The ledger after one entry, discounted by factors for positive regret, negative
/// regret and strategy.
pub open spec fn entered_one<T: Scalar>(l: Ledger<T>, e: Entry<T>, disc: (T, T, T)) -> Ledger<T> {
    if e.selection {
        Ledger {
            sel_regret: added_floored(l.sel_regret, e.from, e.gained),
            sel_cum: added(l.sel_cum, e.from, e.taken),
            ..l
        }
    } else {
        Ledger {
            regrets: added_discounted(l.regrets, e.from, e.gained, disc.0, disc.1),
            cum: added_scaled(l.cum, e.from, e.taken, disc.2),
            seen: added(l.seen, e.from, e.seen),
            ..l
        }
    }
}

/// The ledger after the first `n` entries.
pub open spec fn entered<T: Scalar>(l: Ledger<T>, es: Seq<Entry<T>>, disc: (T, T, T), n: nat) -> Ledger<
    T,
>
    decreases n,
{
    if n == 0 {
        l
    } else {
        entered_one(entered(l, es, disc, (n - 1) as nat), es[n - 1], disc)
    }
}

/// An entry lies inside the solver's buffers.
pub open spec fn entry_fits<T: Scalar>(m: &CpuMccfr<T>, e: Entry<T>) -> bool {
    let room = if e.selection {
        m.sel_regret@.len()
    } else {
        m.regrets@.len()
    };
    &&& 0 <= e.from
    &&& e.from + e.gained.len() <= room
    &&& e.taken.len() == e.gained.len()
    &&& e.seen.len() <= e.gained.len()
}

pub open spec fn entries_fit<T: Scalar>(m: &CpuMccfr<T>, es: Seq<Entry<T>>) -> bool {
    forall|k: int| 0 <= k < es.len() ==> entry_fits(m, #[trigger] es[k])
}

/// Every chance on the way from node `i` down to the limits can be asked for.
pub open spec fn asks_fit<T: Widen, G: GameSpec<T>>(
    limits: Seq<bool>,
    tree: &FlatTree,
    g: G,
    i: int,
) -> bool
    decreases tree.max_depth + 1 - tree.level(i),
    when tree.wf() && tree.is_node(i)
{
    let n = tree.nodes@[i];
    if limits[i] || n.is_terminal() || tree.arity(i) == 0 {
        true
    } else {
        &&& n.is_chance() ==> forall|o: int|
            0 <= o < branch_count(tree, &g, i) ==> #[trigger] g.s_can_ask(o)
        &&& forall|a: int| #[trigger] tree.is_edge(i, a) ==> asks_fit(
            limits,
            tree,
            g,
            tree.child(i, a),
        )
    }
}

impl<T: Scalar> CpuMccfr<T> {
    /// What the owner of node `i` notes down about its actions.
    pub open spec fn action_entry(
        &self,
        i: int,
        weight: T,
        mine: Seq<T>,
        s: Seq<T>,
        vs: Seq<Seq<T>>,
        avg: Seq<T>,
    ) -> Entry<T> {
        let nh = mine.len() as int;
        Entry {
            selection: false,
            from: self.offset(i),
            gained: gains(weight, nh, vs, avg),
            taken: plays(weight, vs.len() as int, mine, s),
            seen: if self.lambda is Some {
                stacked(nh, vs)
            } else {
                Seq::empty()
            },
        }
    }

    /// What the owner of node `i` notes down about its continuations.
    pub open spec fn choice_entry(
        &self,
        i: int,
        weight: T,
        mine: Seq<T>,
        s: Seq<T>,
        vs: Seq<Seq<T>>,
        avg: Seq<T>,
    ) -> Entry<T> {
        let nh = mine.len() as int;
        Entry {
            selection: true,
            from: self.sel_offset@[i] as int,
            gained: gains(weight, nh, vs, avg),
            taken: plays(weight, vs.len() as int, mine, s),
            seen: Seq::empty(),
        }
    }
}

/// The traverser's values at node `i`, and what is noted down on the way.
pub open spec fn par_walk<T: Widen, G: GameSpec<T>>(
    m: &CpuMccfr<T>,
    tree: &FlatTree,
    g: G,
    sel: Seq<T>,
    i: int,
    t: Trip<T>,
) -> (Seq<T>, Seq<Entry<T>>)
    decreases tree.max_depth + 1 - tree.level(i), stage(tree, i, t), 0int,
    when tree.wf() && tree.is_node(i)
{
    let n = tree.nodes@[i];
    let own = n.player_id == t.traverser;
    let nh = m.num_hands@[t.traverser as int] as int;
    if m.depth_limit@[i] {
        (g.s_continuation(t.traverser, i, tree, t.reach), Seq::empty())
    } else if n.is_terminal() || (n.is_chance() && tree.arity(i) == 0) {
        (g.s_terminal(t.traverser, i, tree, t.reach), Seq::empty())
    } else if n.is_chance() {
        par_deals(m, tree, g, sel, i, t, branch_count(tree, &g, i) as nat)
    } else if m.chooses(tree, i, t.var) {
        let s = m.choice(tree, sel, i);
        let (vs, es) = par_choices(m, tree, g, sel, i, t, s, m.num_variants as nat);
        let avg = averaged(own, s, nh, vs);
        (
            avg,
            if own {
                es.push(m.choice_entry(i, t.weight, t.mine, s, vs, avg))
            } else {
                es
            },
        )
    } else {
        let s = m.play(tree, m.ledger(), i, t.var);
        let (vs, es) = par_actions(m, tree, g, sel, i, t, s, tree.arity(i) as nat);
        let avg = averaged(own, s, nh, vs);
        (
            avg,
            if own && !m.frozen@[i] {
                es.push(m.action_entry(i, t.weight, t.mine, s, vs, avg))
            } else {
                es
            },
        )
    }
}

/// Branch `o` of chance node `i`.
pub open spec fn par_branch<T: Widen, G: GameSpec<T>>(
    m: &CpuMccfr<T>,
    tree: &FlatTree,
    g: G,
    sel: Seq<T>,
    i: int,
    t: Trip<T>,
    o: int,
) -> (Seq<T>, Seq<Entry<T>>)
    decreases tree.max_depth + 1 - tree.level(i), 0int, 0int,
    when tree.wf() && tree.is_node(i)
{
    let nh = m.num_hands@[t.traverser as int] as int;
    let e = branch_edge(tree, &g, i, o);
    if tree.is_edge(i, e) {
        par_walk(m, tree, g, sel, tree.child(i, e), t.dealt(chances(&g, o, nh)))
    } else {
        (flat(T::s_zero(), nh), Seq::empty())
    }
}

/// The first `n` branches of chance node `i`, added up; each starts from the same
/// choices.
pub open spec fn par_deals<T: Widen, G: GameSpec<T>>(
    m: &CpuMccfr<T>,
    tree: &FlatTree,
    g: G,
    sel: Seq<T>,
    i: int,
    t: Trip<T>,
    n: nat,
) -> (Seq<T>, Seq<Entry<T>>)
    decreases tree.max_depth + 1 - tree.level(i), 1int, n,
    when tree.wf() && tree.is_node(i)
{
    if n == 0 {
        (flat(T::s_zero(), m.num_hands@[t.traverser as int] as int), Seq::empty())
    } else {
        let (v, es) = par_deals(m, tree, g, sel, i, t, (n - 1) as nat);
        let (w, fs) = par_branch(m, tree, g, sel, i, t, n - 1);
        (row_sum(v, w), es + fs)
    }
}

/// The values of the first `n` actions of player node `i`.
pub open spec fn par_actions<T: Widen, G: GameSpec<T>>(
    m: &CpuMccfr<T>,
    tree: &FlatTree,
    g: G,
    sel: Seq<T>,
    i: int,
    t: Trip<T>,
    s: Seq<T>,
    n: nat,
) -> (Seq<Seq<T>>, Seq<Entry<T>>)
    decreases tree.max_depth + 1 - tree.level(i), 1int, n,
    when tree.wf() && tree.is_node(i)
{
    if n == 0 || !tree.is_edge(i, n - 1) {
        (Seq::empty(), Seq::empty())
    } else {
        let (vs, es) = par_actions(m, tree, g, sel, i, t, s, (n - 1) as nat);
        let (w, fs) = par_walk(
            m,
            tree,
            g,
            sel_after(sel, es, es.len()),
            tree.child(i, n - 1),
            t.acted(tree.nodes@[i].player_id as int, s, n - 1),
        );
        (vs.push(w), es + fs)
    }
}

/// The values of the first `n` continuations at node `i`.
pub open spec fn par_choices<T: Widen, G: GameSpec<T>>(
    m: &CpuMccfr<T>,
    tree: &FlatTree,
    g: G,
    sel: Seq<T>,
    i: int,
    t: Trip<T>,
    s: Seq<T>,
    n: nat,
) -> (Seq<Seq<T>>, Seq<Entry<T>>)
    decreases tree.max_depth + 1 - tree.level(i), 4int, n,
    when tree.wf() && tree.is_node(i)
{
    let p = tree.nodes@[i].player_id as int;
    if n == 0 || !(0 <= p < t.var.len()) {
        (Seq::empty(), Seq::empty())
    } else {
        let (vs, es) = par_choices(m, tree, g, sel, i, t, s, (n - 1) as nat);
        let (w, fs) = par_walk(
            m,
            tree,
            g,
            sel_after(sel, es, es.len()),
            i,
            t.acted(p, s, n - 1).with(p, (n - 1) as usize),
        );
        (vs.push(w), es + fs)
    }
}

/// Enters one note about a choice of continuations.
fn enter_selection<T: Scalar>(sel: &mut Vec<T>, note: &Note<T>)
    requires
        note.selection ==> note.from + note.gained@.len() <= old(sel)@.len(),
    ensures
        final(sel)@ == if note.selection {
            added_floored(old(sel)@, note.from as int, note.gained@)
        } else {
            old(sel)@
        },
{
    if note.selection {
        add_floored(sel, note.from, &note.gained);
    }
}

/// Moves the notes of a branch behind those before it, and enters its choices.
fn join_notes<T: Scalar>(
    notes: &mut Vec<Note<T>>,
    new: Vec<Note<T>>,
    sel: &mut Vec<T>,
    enter: bool,
    Ghost(m): Ghost<&CpuMccfr<T>>,
    Ghost(start): Ghost<Seq<T>>,
)
    requires
        entries_fit(m, noted(old(notes)@)),
        entries_fit(m, noted(new@)),
        old(sel)@.len() == m.sel_regret@.len(),
        enter ==> old(sel)@ == sel_after(start, noted(old(notes)@), noted(old(notes)@).len()),
        !enter ==> old(sel)@ == sel_after(
            sel_after(start, noted(old(notes)@), noted(old(notes)@).len()),
            noted(new@),
            noted(new@).len(),
        ),
    ensures
        noted(final(notes)@) == noted(old(notes)@) + noted(new@),
        entries_fit(m, noted(final(notes)@)),
        final(sel)@ == sel_after(start, noted(final(notes)@), noted(final(notes)@).len()),
{
    let ghost es = noted(notes@);
    let ghost fs = noted(new@);
    let ghost mid = sel_after(start, es, es.len());
    if enter {
        let mut k: usize = 0;
        while k < new.len()
            invariant
                k <= new@.len(),
                fs == noted(new@),
                entries_fit(m, fs),
                sel@.len() == m.sel_regret@.len(),
                sel@ == sel_after(mid, fs, k as nat),
            decreases new@.len() - k,
        {
            assert(fs[k as int] == new@[k as int].entry());
            assert(entry_fits(m, fs[k as int]));
            enter_selection(sel, &new[k]);
            k += 1;
            assert((k - 1) as nat == k - 1);
            proof {
                lemma_sel_len(mid, fs, k as nat);
                lemma_sel_len(mid, fs, (k - 1) as nat);
            }
        }
    }
    let mut new = new;
    let ghost a = notes@;
    let ghost b = new@;
    notes.append(&mut new);
    proof {
        assert(notes@ =~= a + b);
        assert(noted(notes@) =~= es + fs);
        lemma_sel_join(start, es, fs, fs.len());
        assert forall|k: int| 0 <= k < (es + fs).len() implies entry_fits(
            m,
            #[trigger] (es + fs)[k],
        ) by {
            if k < es.len() {
                assert(entry_fits(m, es[k]));
            } else {
                assert(entry_fits(m, fs[k - es.len()]));
            }
        }
    }
}

/// `r` is what branch `o` of a deal gives.
pub open spec fn is_branch<T: Widen, G: GameSpec<T>>(
    m: &CpuMccfr<T>,
    tree: &FlatTree,
    game: &G,
    sel: &Vec<T>,
    node_idx: usize,
    traverser: u8,
    weight: T,
    cfreach: &Vec<Vec<T>>,
    mine: &Vec<T>,
    var: &Vec<Option<usize>>,
    o: usize,
    r: &(Vec<T>, Vec<Note<T>>),
) -> bool {
    &&& (r.0@, noted(r.1@)) == par_branch(
        m,
        tree,
        *game,
        sel@,
        node_idx as int,
        trip_of(traverser, weight, cfreach, mine, var),
        o as int,
    )
    &&& r.0@.len() == m.num_hands@[traverser as int]
    &&& entries_fit(m, noted(r.1@))
}

impl<T: Widen + Send + Sync> CpuMccfr<T> {
    /// Walks the snapshot under node `node_idx` for one traverser: returns its values
    /// there, and notes.
    #[verifier::rlimit(60)]
    pub fn walk_cfr_par<G: GameSpec<T> + Sync>(
        &self,
        tree: &FlatTree,
        game: &G,
        traverser: u8,
        node_idx: usize,
        cfreach: &mut Vec<Vec<T>>,
        mine: &mut Vec<T>,
        weight: T,
        sel: &mut Vec<T>,
        var: &mut Vec<Option<usize>>,
    ) -> (r: (Vec<T>, Vec<Note<T>>))
        requires
            self.is_for(tree),
            self.use_snapshot,
            plays_on(game, tree),
            same_hands(self, game),
            tree.is_node(node_idx as int),
            is_trip(self, trip_of(traverser, weight, &*old(cfreach), &*old(mine), &*old(var))),
            old(sel)@.len() == self.sel_regret@.len(),
            asks_fit(self.depth_limit@, tree, *game, node_idx as int),
        ensures
            (r.0@, noted(r.1@)) == par_walk(
                self,
                tree,
                *game,
                old(sel)@,
                node_idx as int,
                trip_of(traverser, weight, &*old(cfreach), &*old(mine), &*old(var)),
            ),
            r.0@.len() == self.num_hands@[traverser as int],
            entries_fit(self, noted(r.1@)),
            final(sel)@ == sel_after(old(sel)@, noted(r.1@), noted(r.1@).len()),
            views(final(cfreach)@) == views(old(cfreach)@),
            final(mine)@ == old(mine)@,
            final(var)@ == old(var)@,
        decreases
            tree.max_depth + 1 - tree.level(node_idx as int),
            stage(
                tree,
                node_idx as int,
                trip_of(traverser, weight, &*old(cfreach), &*old(mine), &*old(var)),
            ),
    {
        let ghost i = node_idx as int;
        let ghost t = trip_of(traverser, weight, cfreach, mine, var);
        let node = tree.nodes[node_idx];
        proof {
            assert(tree.node_ok(i));
            assert(game.s_hands(traverser as int) == self.num_hands@[traverser as int]);
            assert forall|p: int| 0 <= p < cfreach@.len() implies (#[trigger] cfreach@[p])@.len()
                == game.s_hands(p) by {
                assert(t.reach[p].len() == self.num_hands@[p]);
                assert(game.s_hands(p) == self.num_hands@[p]);
            }
        }
        let no_notes: Vec<Note<T>> = Vec::new();
        assert(noted(no_notes@) =~= Seq::empty());
        if self.depth_limit[node_idx] {
            return (game.evaluate_continuation(traverser, node_idx, tree, cfreach), no_notes);
        }
        if node.is_terminal() || (node.is_chance() && node.num_children == 0) {
            return (game.evaluate_terminal(traverser, node_idx, tree, cfreach), no_notes);
        }
        if node.is_chance() {
            return self.par_walk_deals(
                tree,
                game,
                traverser,
                node_idx,
                cfreach,
                mine,
                weight,
                sel,
                var,
            );
        }
        let player: u8 = node.player_id;
        if self.frozen[node_idx] && self.boundary[node_idx] && var[player as usize].is_none() {
            return self.boundary_select_par(
                tree,
                game,
                traverser,
                node_idx,
                cfreach,
                mine,
                weight,
                sel,
                var,
            );
        }
        let s = self.played(tree, node_idx, var);
        let (vs, notes) = self.par_walk_actions(
            tree,
            game,
            traverser,
            node_idx,
            cfreach,
            mine,
            weight,
            sel,
            var,
            &s,
        );
        let mut notes = notes;
        let ghost vv = views(vs@);
        let nh: usize = self.num_hands[traverser as usize];
        let own = player == traverser;
        assert forall|a: int| 0 <= a < vs@.len() implies (#[trigger] vs@[a])@.len() == nh by {
            assert(vv[a] == vs@[a]@);
        }
        let avg = average(own, &s, nh, &vs);
        if own && !self.frozen[node_idx] {
            proof {
                self.lemma_room(tree, i);
            }
            let seen = if self.lambda.is_some() {
                stack(nh, &vs)
            } else {
                Vec::new()
            };
            let note = Note {
                selection: false,
                from: self.node_data_offset[node_idx],
                gained: gains_of(weight, nh, &vs, &avg),
                taken: plays_of(weight, vs.len(), mine, &s),
                seen,
            };
            let ghost es = noted(notes@);
            let ghost e = note.entry();
            notes.push(note);
            proof {
                let want = self.action_entry(i, weight, mine@, s@, vv, avg@);
                assert(e.seen =~= want.seen);
                assert(e == want);
                assert(noted(notes@) =~= es.push(e));
                assert forall|k: int| 0 <= k < es.push(e).len() implies entry_fits(
                    self,
                    #[trigger] es.push(e)[k],
                ) by {
                    if k < es.len() {
                        assert(entry_fits(self, es[k]));
                    }
                }
                lemma_sel_prefix(old(sel)@, es, es.push(e), es.len());
            }
        }
        (avg, notes)
    }

    /// Walks one branch of a deal, on its own copy of everything that changes.
    #[verifier::rlimit(30)]
    fn par_walk_branch<G: GameSpec<T> + Sync>(
        &self,
        tree: &FlatTree,
        game: &G,
        traverser: u8,
        node_idx: usize,
        child: usize,
        by: &Vec<T>,
        cfreach: &Vec<Vec<T>>,
        mine: &Vec<T>,
        weight: T,
        sel: &Vec<T>,
        var: &Vec<Option<usize>>,
    ) -> (r: (Vec<T>, Vec<Note<T>>))
        requires
            self.is_for(tree),
            self.use_snapshot,
            plays_on(game, tree),
            same_hands(self, game),
            tree.is_node(node_idx as int),
            tree.is_node(child as int),
            tree.level(child as int) == tree.level(node_idx as int) + 1,
            tree.level(child as int) <= tree.max_depth,
            is_trip(self, trip_of(traverser, weight, cfreach, mine, var)),
            sel@.len() == self.sel_regret@.len(),
            asks_fit(self.depth_limit@, tree, *game, child as int),
        ensures
            (r.0@, noted(r.1@)) == par_walk(
                self,
                tree,
                *game,
                sel@,
                child as int,
                trip_of(traverser, weight, cfreach, mine, var).dealt(by@),
            ),
            r.0@.len() == self.num_hands@[traverser as int],
            entries_fit(self, noted(r.1@)),
        decreases tree.max_depth + 1 - tree.level(node_idx as int), 0int,
    {
        let ghost t = trip_of(traverser, weight, cfreach, mine, var);
        let mut reach2 = scale_rows(cfreach, by);
        let mut mine2 = scale_row(mine, by);
        let mut sel2 = row_copy(sel);
        let mut var2 = row_copy(var);
        let ghost t2 = t.dealt(by@);
        proof {
            assert(trip_of(traverser, weight, &reach2, &mine2, &var2) == t2);
            assert forall|p: int| 0 <= p < t2.reach.len() implies (#[trigger] t2.reach[p]).len()
                == self.num_hands@[p] by {
                assert(t.reach[p].len() == self.num_hands@[p]);
            }
            assert(is_trip(self, t2));
        }
        self.walk_cfr_par(
            tree,
            game,
            traverser,
            child,
            &mut reach2,
            &mut mine2,
            weight,
            &mut sel2,
            &mut var2,
        )
    }

    /// Walks all branches of a deal, each on a thread of its own.
    #[verifier::rlimit(60)]
    fn par_walk_deals<G: GameSpec<T> + Sync>(
        &self,
        tree: &FlatTree,
        game: &G,
        traverser: u8,
        node_idx: usize,
        cfreach: &mut Vec<Vec<T>>,
        mine: &mut Vec<T>,
        weight: T,
        sel: &mut Vec<T>,
        var: &mut Vec<Option<usize>>,
    ) -> (r: (Vec<T>, Vec<Note<T>>))
        requires
            self.is_for(tree),
            self.use_snapshot,
            plays_on(game, tree),
            same_hands(self, game),
            tree.is_node(node_idx as int),
            is_trip(self, trip_of(traverser, weight, &*old(cfreach), &*old(mine), &*old(var))),
            old(sel)@.len() == self.sel_regret@.len(),
            asks_fit(self.depth_limit@, tree, *game, node_idx as int),
            !self.depth_limit@[node_idx as int],
            tree.nodes@[node_idx as int].is_chance(),
            tree.arity(node_idx as int) > 0,
        ensures
            (r.0@, noted(r.1@)) == par_deals(
                self,
                tree,
                *game,
                old(sel)@,
                node_idx as int,
                trip_of(traverser, weight, &*old(cfreach), &*old(mine), &*old(var)),
                branch_count(tree, game, node_idx as int) as nat,
            ),
            r.0@.len() == self.num_hands@[traverser as int],
            entries_fit(self, noted(r.1@)),
            final(sel)@ == sel_after(old(sel)@, noted(r.1@), noted(r.1@).len()),
            views(final(cfreach)@) == views(old(cfreach)@),
            final(mine)@ == old(mine)@,
            final(var)@ == old(var)@,
        decreases tree.max_depth + 1 - tree.level(node_idx as int), 1int,
    {
        let ghost i = node_idx as int;
        let ghost t = trip_of(traverser, weight, cfreach, mine, var);
        let nh: usize = self.num_hands[traverser as usize];
        assert(game.s_hands(traverser as int) == nh);
        let children = tree.node_children(node_idx);
        let outcomes: usize = game.num_chance_outcomes();
        let single = outcomes > 0 && children.len() == 1;
        let count: usize = if single {
            outcomes
        } else {
            children.len()
        };
        let mut all_by: Vec<Vec<T>> = Vec::new();
        let mut o: usize = 0;
        while o < count
            invariant
                o <= count,
                count == branch_count(tree, game, i),
                game.s_valid(),
                traverser < game.s_players(),
                game.s_hands(traverser as int) == nh,
                forall|q: int| 0 <= q < count ==> #[trigger] game.s_can_ask(q),
                all_by@.len() == o,
                forall|q: int|
                    0 <= q < o ==> (#[trigger] all_by@[q])@ == chances(game, q, nh as int),
            decreases count - o,
        {
            assert(game.s_can_ask(o as int));
            all_by.push(ask_chances(game, o, traverser, nh));
            o += 1;
        }
        let reach_base: &Vec<Vec<T>> = &*cfreach;
        let mine_base: &Vec<T> = &*mine;
        let sel_base: &Vec<T> = &*sel;
        let var_base: &Vec<Option<usize>> = &*var;
        let rows: &Vec<Vec<T>> = &all_by;
        let ghost start = sel@;
        let branch = |o: usize| -> (r: (Vec<T>, Vec<Note<T>>))
            requires
                o < count,
            ensures
                is_branch(
                    self,
                    tree,
                    game,
                    sel_base,
                    node_idx,
                    traverser,
                    weight,
                    reach_base,
                    mine_base,
                    var_base,
                    o,
                    &r,
                ),
            {
                let child: usize = if single {
                    children[0] as usize
                } else {
                    children[o] as usize
                };
                proof {
                    let e = branch_edge(tree, game, node_idx as int, o as int);
                    assert(tree.is_edge(node_idx as int, e));
                    assert(tree.edge_ok(node_idx as int, e));
                }
                self.par_walk_branch(
                    tree,
                    game,
                    traverser,
                    node_idx,
                    child,
                    &rows[o],
                    reach_base,
                    mine_base,
                    weight,
                    sel_base,
                    var_base,
                )
            };
        let results = par_map(count, branch);
        proof {
            assert forall|o: int| 0 <= o < count implies {
                let r = #[trigger] results@[o];
                &&& (r.0@, noted(r.1@)) == par_branch(self, tree, *game, start, i, t, o)
                &&& r.0@.len() == nh
                &&& entries_fit(self, noted(r.1@))
            } by {
                assert(call_ensures(branch, (o as usize,), results@[o]));
            }
        }
        let mut total: Vec<T> = filled(T::zero(), nh);
        assert(total@ =~= flat(T::s_zero(), nh as int));
        let mut notes: Vec<Note<T>> = Vec::new();
        assert(noted(notes@) =~= Seq::empty());
        let mut results = results;
        let mut o: usize = 0;
        while o < count
            invariant
                o <= count,
                results@.len() == count - o,
                start == old(sel)@,
                start.len() == self.sel_regret@.len(),
                nh == self.num_hands@[traverser as int],
                forall|k: int|
                    0 <= k < results@.len() ==> {
                        let r = #[trigger] results@[k];
                        &&& (r.0@, noted(r.1@)) == par_branch(
                            self,
                            tree,
                            *game,
                            start,
                            i,
                            t,
                            o + k,
                        )
                        &&& r.0@.len() == nh
                        &&& entries_fit(self, noted(r.1@))
                    },
                tree.wf(),
                tree.is_node(i),
                t.traverser == traverser,
                total@.len() == nh,
                sel@.len() == start.len(),
                entries_fit(self, noted(notes@)),
                sel@ == sel_after(start, noted(notes@), noted(notes@).len()),
                (total@, noted(notes@)) == par_deals(self, tree, *game, start, i, t, o as nat),
            decreases count - o,
        {
            let ghost before = results@;
            let (w, new) = results.remove(0);
            assert(before[0].0 == w && before[0].1 == new);
            assert forall|k: int| 0 <= k < results@.len() implies #[trigger] results@[k]
                == before[k + 1] by {}
            add_rows_of(&mut total, &w);
            join_notes(&mut notes, new, sel, true, Ghost(self), Ghost(start));
            o += 1;
            assert((o - 1) as nat == o - 1);
            proof {
                lemma_sel_len(start, noted(notes@), noted(notes@).len());
            }
        }
        (total, notes)
    }

    /// Walks all actions of a player node.
    #[verifier::rlimit(60)]
    fn par_walk_actions<G: GameSpec<T> + Sync>(
        &self,
        tree: &FlatTree,
        game: &G,
        traverser: u8,
        node_idx: usize,
        cfreach: &mut Vec<Vec<T>>,
        mine: &mut Vec<T>,
        weight: T,
        sel: &mut Vec<T>,
        var: &mut Vec<Option<usize>>,
        s: &Vec<T>,
    ) -> (r: (Vec<Vec<T>>, Vec<Note<T>>))
        requires
            self.is_for(tree),
            self.use_snapshot,
            plays_on(game, tree),
            same_hands(self, game),
            tree.is_node(node_idx as int),
            is_trip(self, trip_of(traverser, weight, &*old(cfreach), &*old(mine), &*old(var))),
            old(sel)@.len() == self.sel_regret@.len(),
            asks_fit(self.depth_limit@, tree, *game, node_idx as int),
            !self.depth_limit@[node_idx as int],
            tree.nodes@[node_idx as int].is_player(),
            s@.len() == tree.arity(node_idx as int) * self.hands_at(tree, node_idx as int),
        ensures
            (views(r.0@), noted(r.1@)) == par_actions(
                self,
                tree,
                *game,
                old(sel)@,
                node_idx as int,
                trip_of(traverser, weight, &*old(cfreach), &*old(mine), &*old(var)),
                s@,
                tree.arity(node_idx as int) as nat,
            ),
            r.0@.len() == tree.arity(node_idx as int),
            forall|a: int|
                0 <= a < r.0@.len() ==> (#[trigger] views(r.0@)[a]).len()
                    == self.num_hands@[traverser as int],
            entries_fit(self, noted(r.1@)),
            final(sel)@ == sel_after(old(sel)@, noted(r.1@), noted(r.1@).len()),
            views(final(cfreach)@) == views(old(cfreach)@),
            final(mine)@ == old(mine)@,
            final(var)@ == old(var)@,
        decreases tree.max_depth + 1 - tree.level(node_idx as int), 1int,
    {
        let ghost i = node_idx as int;
        let ghost t = trip_of(traverser, weight, cfreach, mine, var);
        let ghost start = sel@;
        assert(tree.node_ok(i));
        let player: u8 = tree.nodes[node_idx].player_id;
        let ghost p = player as int;
        let children = tree.node_children(node_idx);
        let na: usize = children.len();
        let mut vs: Vec<Vec<T>> = Vec::new();
        assert(views(vs@) =~= Seq::empty());
        let mut notes: Vec<Note<T>> = Vec::new();
        assert(noted(notes@) =~= Seq::empty());
        let mut a: usize = 0;
        while a < na
            invariant
                a <= na,
                na == tree.arity(i),
                i == node_idx,
                tree.is_node(i),
                p == player,
                player == tree.nodes@[i].player_id,
                p < tree.np(),
                t == trip_of(traverser, weight, &*old(cfreach), &*old(mine), &*old(var)),
                start == old(sel)@,
                start.len() == self.sel_regret@.len(),
                self.is_for(tree),
                self.use_snapshot,
                plays_on(game, tree),
                same_hands(self, game),
                is_trip(self, t),
                asks_fit(self.depth_limit@, tree, *game, i),
                !self.depth_limit@[i],
                tree.nodes@[i].is_player(),
                s@.len() == na * self.hands_at(tree, i),
                children@.len() == na,
                forall|b: int|
                    0 <= b < children@.len() ==> (#[trigger] children@[b]) as int == tree.child(
                        i,
                        b,
                    ),
                views(cfreach@) == t.reach,
                mine@ == t.mine,
                var@ == t.var,
                vs@.len() == a,
                forall|b: int|
                    0 <= b < a ==> (#[trigger] views(vs@)[b]).len()
                        == self.num_hands@[traverser as int],
                sel@.len() == start.len(),
                entries_fit(self, noted(notes@)),
                sel@ == sel_after(start, noted(notes@), noted(notes@).len()),
                (views(vs@), noted(notes@)) == par_actions(
                    self,
                    tree,
                    *game,
                    start,
                    i,
                    t,
                    s@,
                    a as nat,
                ),
            decreases na - a,
        {
            proof {
                assert(tree.is_edge(i, a as int));
                assert(tree.edge_ok(i, a as int));
                assert(t.reach[p].len() == self.num_hands@[p]);
                assert(views(cfreach@)[p] == cfreach@[p]@);
            }
            let saved = act(traverser, player, s, a, na, cfreach, mine);
            let ghost t2 = t.acted(p, s@, a as int);
            let child: usize = children[a] as usize;
            proof {
                assert(trip_of(traverser, weight, cfreach, mine, var) == t2);
                assert forall|q: int| 0 <= q < t2.reach.len() implies (
                #[trigger] t2.reach[q]).len() == self.num_hands@[q] by {
                    assert(t.reach[q].len() == self.num_hands@[q]);
                }
                assert(is_trip(self, t2));
            }
            let (w, new) = self.walk_cfr_par(
                tree,
                game,
                traverser,
                child,
                cfreach,
                mine,
                weight,
                sel,
                var,
            );
            proof {
                if player != traverser {
                    assert(views(cfreach@) == t.reach.update(
                        p,
                        after(t.reach[p], s@, a as int),
                    ));
                }
            }
            unact(traverser, player, saved, cfreach, mine, Ghost(t.reach), Ghost(t.mine));
            proof {
                let es = noted(notes@);
                lemma_sel_len(start, es, es.len());
                lemma_sel_len(sel_after(start, es, es.len()), noted(new@), noted(new@).len());
            }
            join_notes(&mut notes, new, sel, false, Ghost(self), Ghost(start));
            let ghost vv = views(vs@);
            vs.push(w);
            assert(views(vs@) =~= vv.push(w@));
            a += 1;
            assert((a - 1) as nat == a - 1);
            proof {
                lemma_sel_len(start, noted(notes@), noted(notes@).len());
            }
        }
        (vs, notes)
    }

    /// The owner of a boundary node chooses its continuation: walks all of them, and
    /// notes down which is best.
    #[verifier::rlimit(60)]
    fn boundary_select_par<G: GameSpec<T> + Sync>(
        &self,
        tree: &FlatTree,
        game: &G,
        traverser: u8,
        node_idx: usize,
        cfreach: &mut Vec<Vec<T>>,
        mine: &mut Vec<T>,
        weight: T,
        sel: &mut Vec<T>,
        var: &mut Vec<Option<usize>>,
    ) -> (r: (Vec<T>, Vec<Note<T>>))
        requires
            self.is_for(tree),
            self.use_snapshot,
            plays_on(game, tree),
            same_hands(self, game),
            tree.is_node(node_idx as int),
            is_trip(self, trip_of(traverser, weight, &*old(cfreach), &*old(mine), &*old(var))),
            old(sel)@.len() == self.sel_regret@.len(),
            asks_fit(self.depth_limit@, tree, *game, node_idx as int),
            !self.depth_limit@[node_idx as int],
            tree.nodes@[node_idx as int].is_player(),
            self.chooses(tree, node_idx as int, old(var)@),
        ensures
            (r.0@, noted(r.1@)) == par_walk(
                self,
                tree,
                *game,
                old(sel)@,
                node_idx as int,
                trip_of(traverser, weight, &*old(cfreach), &*old(mine), &*old(var)),
            ),
            r.0@.len() == self.num_hands@[traverser as int],
            entries_fit(self, noted(r.1@)),
            final(sel)@ == sel_after(old(sel)@, noted(r.1@), noted(r.1@).len()),
            views(final(cfreach)@) == views(old(cfreach)@),
            final(mine)@ == old(mine)@,
            final(var)@ == old(var)@,
        decreases tree.max_depth + 1 - tree.level(node_idx as int), 4int,
    {
        let ghost i = node_idx as int;
        let ghost t = trip_of(traverser, weight, cfreach, mine, var);
        let ghost start = sel@;
        proof {
            assert(tree.node_ok(i));
            assert(self.has_choice(tree, i));
        }
        let player: u8 = tree.nodes[node_idx].player_id;
        let ghost p = player as int;
        let k: usize = self.num_variants;
        let s = self.compute_sel_strategy(tree, node_idx, sel);
        let mut vs: Vec<Vec<T>> = Vec::new();
        assert(views(vs@) =~= Seq::empty());
        let mut notes: Vec<Note<T>> = Vec::new();
        assert(noted(notes@) =~= Seq::empty());
        let mut c: usize = 0;
        while c < k
            invariant
                c <= k,
                k == self.num_variants,
                i == node_idx,
                tree.is_node(i),
                p == player,
                player == tree.nodes@[i].player_id,
                p < tree.np(),
                t == trip_of(traverser, weight, &*old(cfreach), &*old(mine), &*old(var)),
                start == old(sel)@,
                start.len() == self.sel_regret@.len(),
                self.is_for(tree),
                self.use_snapshot,
                plays_on(game, tree),
                same_hands(self, game),
                is_trip(self, t),
                asks_fit(self.depth_limit@, tree, *game, i),
                tree.nodes@[i].is_player(),
                t.var[p] is None,
                s@.len() == k * self.hands_at(tree, i),
                views(cfreach@) == t.reach,
                mine@ == t.mine,
                var@ == t.var,
                vs@.len() == c,
                forall|b: int|
                    0 <= b < c ==> (#[trigger] views(vs@)[b]).len()
                        == self.num_hands@[traverser as int],
                sel@.len() == start.len(),
                entries_fit(self, noted(notes@)),
                sel@ == sel_after(start, noted(notes@), noted(notes@).len()),
                (views(vs@), noted(notes@)) == par_choices(
                    self,
                    tree,
                    *game,
                    start,
                    i,
                    t,
                    s@,
                    c as nat,
                ),
            decreases k - c,
        {
            proof {
                assert(t.reach[p].len() == self.num_hands@[p]);
                assert(views(cfreach@)[p] == cfreach@[p]@);
            }
            let saved = act(traverser, player, &s, c, k, cfreach, mine);
            var[player as usize] = Some(c);
            let ghost t2 = t.acted(p, s@, c as int).with(p, c);
            proof {
                assert(trip_of(traverser, weight, cfreach, mine, var) == t2);
                assert forall|q: int| 0 <= q < t2.reach.len() implies (
                #[trigger] t2.reach[q]).len() == self.num_hands@[q] by {
                    assert(t.reach[q].len() == self.num_hands@[q]);
                }
                assert forall|q: int| 0 <= q < t2.var.len() implies (
                #[trigger] t2.var[q] matches Some(d) ==> d < self.num_variants) by {
                    if q != p {
                        assert(t2.var[q] == t.var[q]);
                    }
                }
                assert(is_trip(self, t2));
            }
            let (w, new) = self.walk_cfr_par(
                tree,
                game,
                traverser,
                node_idx,
                cfreach,
                mine,
                weight,
                sel,
                var,
            );
            var[player as usize] = None;
            proof {
                assert(var@ =~= t.var);
                if player != traverser {
                    assert(views(cfreach@) == t.reach.update(
                        p,
                        after(t.reach[p], s@, c as int),
                    ));
                }
            }
            unact(traverser, player, saved, cfreach, mine, Ghost(t.reach), Ghost(t.mine));
            proof {
                let es = noted(notes@);
                lemma_sel_len(start, es, es.len());
                lemma_sel_len(sel_after(start, es, es.len()), noted(new@), noted(new@).len());
            }
            join_notes(&mut notes, new, sel, false, Ghost(self), Ghost(start));
            let ghost vv = views(vs@);
            vs.push(w);
            assert(views(vs@) =~= vv.push(w@));
            c += 1;
            assert((c - 1) as nat == c - 1);
            proof {
                lemma_sel_len(start, noted(notes@), noted(notes@).len());
            }
        }
        let ghost vv = views(vs@);
        let nh: usize = self.num_hands[traverser as usize];
        let own = player == traverser;
        assert forall|a: int| 0 <= a < vs@.len() implies (#[trigger] vs@[a])@.len() == nh by {
            assert(vv[a] == vs@[a]@);
        }
        let avg = average(own, &s, nh, &vs);
        if own {
            let note = Note {
                selection: true,
                from: self.sel_offset[node_idx],
                gained: gains_of(weight, nh, &vs, &avg),
                taken: plays_of(weight, k, mine, &s),
                seen: Vec::new(),
            };
            let ghost es = noted(notes@);
            let ghost e = note.entry();
            assert(e.seen =~= Seq::empty());
            assert(e == self.choice_entry(i, weight, mine@, s@, vv, avg@));
            enter_selection(sel, &note);
            notes.push(note);
            proof {
                assert(noted(notes@) =~= es.push(e));
                assert forall|k: int| 0 <= k < es.push(e).len() implies entry_fits(
                    self,
                    #[trigger] es.push(e)[k],
                ) by {
                    if k < es.len() {
                        assert(entry_fits(self, es[k]));
                    }
                }
                lemma_sel_prefix(start, es, es.push(e), es.len());
                assert((es.push(e).len() - 1) as nat == es.len());
            }
        }
        (avg, notes)
    }
}

} // verus!
