//! Chance nodes that share their values by key.
use vstd::prelude::*;

use crate::answers::answer_one;
use crate::layout::{at, lemma_at_bound, lemma_rows_ext, row};
use crate::learn::{discounts, DcfrParams};
use crate::postflop_oracle::{is_live, FlopAsk, PostflopValueOracle, SeamCell};
use crate::preflop_cfr::PreflopVectorCfr;
use crate::preflop_class::NUM_PREFLOP_CLASSES;
use crate::preflop_iterations::{
    are_rounds, given_values, is_iteration, is_round, is_scene_of, keys_of, scene,
};
use crate::preflop_reach::{are_seams, first_reach, is_reach_table, is_seam, reached};
use crate::preflop_run::{
    aggregated, chance_valued, chosen_flops, expanded, flop_valued, flops_valued, turns, turns_row,
    weighs, PreflopChanceTable, Scene, SeamPlan,
};
use crate::preflop_walk::{is_leaf, rows_at, valued, Pass};
use crate::pseudo_harmonic::{lemma_parent_edge, parent_edge};
use crate::scalar::{Scalar, Widen};
use crate::terminal::views;
use crate::tree::FlatTree;

verus! {

/// The two solvers hold the same numbers.
pub open spec fn alike<T>(a: &PreflopVectorCfr<T>, b: &PreflopVectorCfr<T>) -> bool {
    &&& a.num_players == b.num_players
    &&& a.infoset_count == b.infoset_count
    &&& a.iteration == b.iteration
    &&& a.local_offset@ == b.local_offset@
    &&& a.strategy@ == b.strategy@
    &&& a.regrets@ == b.regrets@
    &&& a.cum_strategy@ == b.cum_strategy@
}

/// The question is about chance node `i`.
pub open spec fn is_about<T>(tree: &FlatTree, ask: FlopAsk<T>, i: int) -> bool {
    &&& is_seam(tree, i)
    &&& ask.cell matches Some((cell, mask)) && cell.is_at(tree, i, tree.np() as nat) && mask
        == tree.folded_masks@[i]
}

/// An oracle in any of the states `knows` answers by flop, traverser and key of the chance
/// node alone, and stays in one of them.
pub open spec fn answers_by_key<T: Scalar, O: PostflopValueOracle<T>>(
    tree: &FlatTree,
    knows: spec_fn(O) -> bool,
    g: spec_fn(Seq<u8>, u8, u64) -> Seq<T>,
    key: spec_fn(int) -> u64,
) -> bool {
    forall|o: O, o2: O, ask: FlopAsk<T>, v: Seq<T>, i: int|
        knows(o) && #[trigger] o.s_answers(&o2, ask, v) && #[trigger] is_about(tree, ask, i)
            ==> knows(o2) && v == g(ask.flop, ask.traverser, key(i))
}

/// Equal rows are reduced and weighed to equal ones.
pub open spec fn is_pure<
    T,
    E,
    R: Fn([u8; 3], &Vec<T>) -> Vec<T>,
    G: Fn(&Vec<Vec<T>>) -> Vec<T>,
    H,
>(t: &PreflopChanceTable<E, R, G, H>) -> bool {
    &&& forall|flop: [u8; 3], a: Vec<T>, b: Vec<T>, c: Vec<T>, d: Vec<T>| #[trigger]
        turns_row(&t.reduce, flop, a, b) && #[trigger] turns_row(&t.reduce, flop, c, d) && a@
            == c@ ==> b@ == d@
    &&& forall|vs: Vec<Vec<T>>, v: Vec<T>, ws: Vec<Vec<T>>, w: Vec<T>| #[trigger]
        weighs(&t.aggregate, vs, v) && #[trigger] weighs(&t.aggregate, ws, w) && views(vs@)
            == views(ws@) ==> v@ == w@
}

/// Every row of `vs` is a flop's answer for the key, reduced.
pub open spec fn are_reduced<T, R: Fn([u8; 3], &Vec<T>) -> Vec<T>>(
    f: &R,
    flops: Seq<[u8; 3]>,
    g: spec_fn(Seq<u8>, u8, u64) -> Seq<T>,
    t: u8,
    k64: u64,
    vs: Seq<Seq<T>>,
) -> bool {
    &&& vs.len() == flops.len()
    &&& forall|j: int|
        0 <= j < flops.len() ==> turns(f, flops[j], g(flops[j]@, t, k64), #[trigger] vs[j])
}

/// The answers about a chance node depend on its key.
proof fn lemma_answers<
    T: Scalar,
    O: PostflopValueOracle<T>,
    E: Fn([u8; 3], &Vec<T>) -> Vec<T>,
    R: Fn([u8; 3], &Vec<T>) -> Vec<T>,
    G,
    H,
>(
    tree: &FlatTree,
    table: &PreflopChanceTable<E, R, G, H>,
    o: &O,
    o2: &O,
    flops: Seq<[u8; 3]>,
    rows: Seq<Seq<T>>,
    t: u8,
    cell: SeamCell,
    i: int,
    vs: Seq<Seq<T>>,
    n: nat,
    knows: spec_fn(O) -> bool,
    g: spec_fn(Seq<u8>, u8, u64) -> Seq<T>,
    key: spec_fn(int) -> u64,
)
    requires
        answers_by_key(tree, knows, g, key),
        is_seam(tree, i),
        cell.is_at(tree, i, tree.np() as nat),
        knows(*o),
        flops_valued(
            table,
            o,
            o2,
            flops,
            rows,
            t,
            Some((cell, tree.folded_masks@[i])),
            vs,
            n,
        ),
    ensures
        knows(*o2),
        vs.len() == n,
        forall|j: int|
            0 <= j < n ==> turns(&table.reduce, flops[j], g(flops[j]@, t, key(i)), #[trigger] vs[j]),
    decreases n,
{
    if n > 0 {
        let at_cell = Some((cell, tree.folded_masks@[i]));
        let prev = vs.drop_last();
        let mid = choose|mid: O|
            flops_valued(table, o, &mid, flops, rows, t, at_cell, prev, (n - 1) as nat)
                && #[trigger] flop_valued(table, &mid, o2, flops[n - 1], rows, t, at_cell, vs.last());
        lemma_answers(
            tree,
            table,
            o,
            &mid,
            flops,
            rows,
            t,
            cell,
            i,
            prev,
            (n - 1) as nat,
            knows,
            g,
            key,
        );
        let flop = flops[n - 1];
        let (ranges, vc) = choose|ranges: Seq<Seq<T>>, vc: Seq<T>|
            #![trigger expanded(&table.expand, flop, rows, ranges), turns(&table.reduce, flop, vc, vs.last())]
            expanded(&table.expand, flop, rows, ranges) && mid.s_answers(
                o2,
                FlopAsk { flop: flop@, ranges, traverser: t, cell: at_cell },
                vc,
            ) && turns(&table.reduce, flop, vc, vs.last());
        let ask = FlopAsk { flop: flop@, ranges, traverser: t, cell: at_cell };
        assert(is_about(tree, ask, i));
        assert(mid.s_answers(o2, ask, vc));
        assert forall|j: int| 0 <= j < n implies turns(
            &table.reduce,
            flops[j],
            g(flops[j]@, t, key(i)),
            #[trigger] vs[j],
        ) by {
            if j < n - 1 {
                assert(prev[j] == vs[j]);
            }
        }
    }
}

impl<
    T: Scalar,
    E: Fn([u8; 3], &Vec<T>) -> Vec<T>,
    R: Fn([u8; 3], &Vec<T>) -> Vec<T>,
    G: Fn(&Vec<Vec<T>>) -> Vec<T>,
    H: Fn(&Vec<usize>, &Vec<Vec<T>>) -> Vec<T>,
    V: Fn(usize, u8, &Vec<Vec<T>>) -> Vec<T>,
> Scene<T, E, R, G, H, V> {
    /// The value of chance node `i` by key: that of its fold for a folded traverser, the
    /// answers for the key, reduced and weighed, for any other.
    pub open spec fn is_keyed_value(
        &self,
        t: u8,
        i: int,
        g: spec_fn(Seq<u8>, u8, u64) -> Seq<T>,
        k64: u64,
        v: Seq<T>,
    ) -> bool {
        if !is_live(&self.tree, i, t as int) {
            v == valued(&self.f, i as usize, t, rows_at(self.reach, i))
        } else {
            exists|vs: Seq<Seq<T>>| #[trigger]
                are_reduced(
                    &self.table.reduce,
                    chosen_flops(self.table.canonical_flops@, None),
                    g,
                    t,
                    k64,
                    vs,
                ) && aggregated(&self.table, None, vs, v)
        }
    }

    /// Live chance nodes of one key have one value.
    proof fn lemma_one_value(
        &self,
        t: u8,
        i: int,
        l: int,
        g: spec_fn(Seq<u8>, u8, u64) -> Seq<T>,
        k64: u64,
        v: Seq<T>,
        w: Seq<T>,
    )
        requires
            is_pure::<T, E, R, G, H>(&self.table),
            is_live(&self.tree, i, t as int),
            is_live(&self.tree, l, t as int),
            self.is_keyed_value(t, i, g, k64, v),
            self.is_keyed_value(t, l, g, k64, w),
        ensures
            v == w,
    {
        let flops = chosen_flops(self.table.canonical_flops@, None);
        let f = &self.table.reduce;
        let vs = choose|vs: Seq<Seq<T>>| #[trigger]
            are_reduced(f, flops, g, t, k64, vs) && aggregated(&self.table, None, vs, v);
        let ws = choose|ws: Seq<Seq<T>>| #[trigger]
            are_reduced(f, flops, g, t, k64, ws) && aggregated(&self.table, None, ws, w);
        assert forall|j: int| 0 <= j < flops.len() implies vs[j] == ws[j] by {
            let x = g(flops[j]@, t, k64);
            assert(turns(f, flops[j], x, vs[j]) && turns(f, flops[j], x, ws[j]));
            let (a, b) = choose|a: Vec<T>, b: Vec<T>|
                a@ == x && #[trigger] turns_row(f, flops[j], a, b) && b@ == vs[j];
            let (c, d) = choose|c: Vec<T>, d: Vec<T>|
                c@ == x && #[trigger] turns_row(f, flops[j], c, d) && d@ == ws[j];
            assert(turns_row(f, flops[j], a, b) && turns_row(f, flops[j], c, d));
        }
        assert(vs =~= ws);
        let (rows, out) = choose|rows: Vec<Vec<T>>, out: Vec<T>|
            views(rows@) == vs && #[trigger] weighs(&self.table.aggregate, rows, out) && out@ == v;
        let (rows2, out2) = choose|rows2: Vec<Vec<T>>, out2: Vec<T>|
            views(rows2@) == ws && #[trigger] weighs(&self.table.aggregate, rows2, out2) && out2@
                == w;
        assert(weighs(&self.table.aggregate, rows, out) && weighs(
            &self.table.aggregate,
            rows2,
            out2,
        ));
    }

    /// A chance node that is asked about has its value by key.
    proof fn lemma_seam_by_key<O: PostflopValueOracle<T>>(
        &self,
        t: u8,
        o: &O,
        o2: &O,
        i: int,
        v: Seq<T>,
        knows: spec_fn(O) -> bool,
        g: spec_fn(Seq<u8>, u8, u64) -> Seq<T>,
        key: spec_fn(int) -> u64,
    )
        requires
            answers_by_key(&self.tree, knows, g, key),
            knows(*o),
            is_seam(&self.tree, i),
            self.seam_valued(t, o, o2, i, v),
        ensures
            knows(*o2),
            self.is_keyed_value(t, i, g, key(i), v),
    {
        if is_live(&self.tree, i, t as int) {
            let rows = rows_at(self.reach, i);
            let mask = self.tree.folded_masks@[i];
            let flops = chosen_flops(self.table.canonical_flops@, None);
            let cell = choose|cell: SeamCell| #[trigger]
                self.is_cell(i, cell) && chance_valued(
                    &self.table,
                    o,
                    o2,
                    None,
                    rows,
                    t,
                    Some((cell, mask)),
                    v,
                );
            let vs = choose|vs: Seq<Seq<T>>| #[trigger]
                flops_valued(
                    &self.table,
                    o,
                    o2,
                    flops,
                    rows,
                    t,
                    Some((cell, mask)),
                    vs,
                    flops.len(),
                ) && aggregated(&self.table, None, vs, v);
            lemma_answers(
                &self.tree,
                &self.table,
                o,
                o2,
                flops,
                rows,
                t,
                cell,
                i,
                vs,
                flops.len(),
                knows,
                g,
                key,
            );
            assert(are_reduced(&self.table.reduce, flops, g, t, key(i), vs));
        }
    }

    /// The plan values every chance node on its own, or one for all of a key.
    pub open spec fn goes_by(&self, key: spec_fn(int) -> u64) -> bool {
        match self.plan {
            SeamPlan::Every => true,
            SeamPlan::Keyed(keys) => keys.len() == self.list.len() && forall|k: int|
                0 <= k < self.list.len() ==> #[trigger] keys[k] == key(self.list[k] as int),
            SeamPlan::Subset(ix) => false,
        }
    }

    /// Whether shared or not, every chance node has its value by key.
    proof fn lemma_valued_by_key<O: PostflopValueOracle<T>>(
        &self,
        t: u8,
        o: &O,
        o2: &O,
        vs: Seq<Seq<T>>,
        n: nat,
        knows: spec_fn(O) -> bool,
        g: spec_fn(Seq<u8>, u8, u64) -> Seq<T>,
        key: spec_fn(int) -> u64,
    )
        requires
            answers_by_key(&self.tree, knows, g, key),
            knows(*o),
            n <= self.list.len(),
            are_seams(&self.tree, self.list),
            self.goes_by(key),
            self.are_valued(t, o, o2, vs, n),
        ensures
            knows(*o2),
            vs.len() == n,
            forall|k: int|
                0 <= k < n ==> self.is_keyed_value(
                    t,
                    self.list[k] as int,
                    g,
                    key(self.list[k] as int),
                    #[trigger] vs[k],
                ),
        decreases n,
    {
        if n > 0 {
            let prev = vs.drop_last();
            let v = vs.last();
            let mid = choose|mid: O|
                self.are_valued(t, o, &mid, prev, (n - 1) as nat) && #[trigger] self.next_valued(
                    t,
                    &mid,
                    o2,
                    n - 1,
                    prev,
                    v,
                );
            self.lemma_valued_by_key(t, o, &mid, prev, (n - 1) as nat, knows, g, key);
            let k: int = n - 1;
            let i = self.list[k] as int;
            assert(is_seam(&self.tree, i));
            let shares = match self.plan {
                SeamPlan::Keyed(keys) => is_live(&self.tree, i, t as int) && exists|l: int|
                    self.is_mate(t, keys, k, l),
                _ => false,
            };
            if shares {
                let keys = self.plan->Keyed_0;
                let l = choose|l: int| #[trigger]
                    self.is_first_mate(t, keys, k, l) && v == prev[l];
                assert(self.is_mate(t, keys, k, l));
                assert(keys[l] == key(self.list[l] as int) && keys[k] == key(i));
                assert(self.is_keyed_value(
                    t,
                    self.list[l] as int,
                    g,
                    key(self.list[l] as int),
                    prev[l],
                ));
            } else {
                self.lemma_seam_by_key(t, &mid, o2, i, v, knows, g, key);
            }
            assert(self.is_keyed_value(t, i, g, key(i), v));
            assert forall|k: int| 0 <= k < n implies self.is_keyed_value(
                t,
                self.list[k] as int,
                g,
                key(self.list[k] as int),
                #[trigger] vs[k],
            ) by {
                if k < n - 1 {
                    assert(prev[k] == vs[k]);
                }
            }
        }
    }

    /// With either plan the chance nodes get the same values.
    proof fn lemma_same_values<O: PostflopValueOracle<T>>(
        &self,
        plain: &Self,
        t: u8,
        o: &O,
        o2: &O,
        vs: Seq<Seq<T>>,
        q: &O,
        q2: &O,
        ws: Seq<Seq<T>>,
        knows: spec_fn(O) -> bool,
        g: spec_fn(Seq<u8>, u8, u64) -> Seq<T>,
        key: spec_fn(int) -> u64,
    )
        requires
            answers_by_key(&self.tree, knows, g, key),
            is_pure::<T, E, R, G, H>(&self.table),
            knows(*o),
            knows(*q),
            are_seams(&self.tree, self.list),
            self.goes_by(key),
            plain.goes_by(key),
            *plain == (Scene { plan: plain.plan, ..*self }),
            self.are_valued(t, o, o2, vs, self.list.len()),
            plain.are_valued(t, q, q2, ws, self.list.len()),
        ensures
            vs == ws,
            knows(*o2),
            knows(*q2),
    {
        let n = self.list.len();
        self.lemma_valued_by_key(t, o, o2, vs, n, knows, g, key);
        plain.lemma_valued_by_key(t, q, q2, ws, n, knows, g, key);
        assert forall|k: int| 0 <= k < n implies vs[k] == ws[k] by {
            let i = self.list[k] as int;
            assert(self.is_keyed_value(t, i, g, key(i), vs[k]));
            assert(plain.is_keyed_value(t, i, g, key(i), ws[k]));
            assert(self.is_keyed_value(t, i, g, key(i), ws[k]));
            if is_live(&self.tree, i, t as int) {
                self.lemma_one_value(t, i, i, g, key(i), vs[k], ws[k]);
            }
        }
        assert(vs =~= ws);
    }
}

/// Two walks that differ in what their solvers have learned alone.
pub open spec fn walk_alike<T, V>(a: &Pass<T, V>, b: &Pass<T, V>) -> bool {
    &&& a.m.strategy@ == b.m.strategy@
    &&& a.m.local_offset@ == b.m.local_offset@
    &&& a.t == b.t
    &&& a.leaves == b.leaves
    &&& a.given == b.given
    &&& a.reach == b.reach
    &&& a.f == b.f
}

impl<T: Scalar, V: Fn(usize, u8, &Vec<Vec<T>>) -> Vec<T>> Pass<T, V> {
    proof fn lemma_value_alike(&self, b: &Self, tree: &FlatTree, i: int)
        requires
            walk_alike(self, b),
            tree.wf(),
            tree.is_node(i),
        ensures
            self.value(tree, i) == b.value(tree, i),
        decreases tree.max_depth + 1 - tree.level(i), 1int, 0nat,
    {
        if !is_leaf(self.leaves, i) && !tree.nodes@[i].is_terminal() {
            self.lemma_values_alike(b, tree, i, tree.arity(i) as nat);
        }
    }

    proof fn lemma_values_alike(&self, b: &Self, tree: &FlatTree, i: int, n: nat)
        requires
            walk_alike(self, b),
            tree.wf(),
            tree.is_node(i),
            n <= tree.arity(i),
        ensures
            self.values(tree, i, n) == b.values(tree, i, n),
        decreases tree.max_depth + 1 - tree.level(i), 0int, n,
    {
        if n > 0 {
            assert(tree.is_edge(i, n - 1));
            assert(tree.edge_ok(i, n - 1));
            self.lemma_values_alike(b, tree, i, (n - 1) as nat);
            self.lemma_value_alike(b, tree, tree.child(i, n - 1));
        }
    }

    proof fn lemma_learned_alike(
        &self,
        b: &Self,
        tree: &FlatTree,
        p: &DcfrParams<T>,
        i: int,
        books: (Seq<T>, Seq<T>),
    )
        requires
            walk_alike(self, b),
            tree.wf(),
            tree.is_node(i),
        ensures
            self.learned(tree, p, i, books) == b.learned(tree, p, i, books),
        decreases tree.max_depth + 1 - tree.level(i), 1int, 0nat,
    {
        if !is_leaf(self.leaves, i) && !tree.nodes@[i].is_terminal() {
            self.lemma_learned_upto_alike(b, tree, p, i, tree.arity(i) as nat, books);
            self.lemma_values_alike(b, tree, i, tree.arity(i) as nat);
            self.lemma_value_alike(b, tree, i);
        }
    }

    proof fn lemma_learned_upto_alike(
        &self,
        b: &Self,
        tree: &FlatTree,
        p: &DcfrParams<T>,
        i: int,
        n: nat,
        books: (Seq<T>, Seq<T>),
    )
        requires
            walk_alike(self, b),
            tree.wf(),
            tree.is_node(i),
            n <= tree.arity(i),
        ensures
            self.learned_upto(tree, p, i, n, books) == b.learned_upto(tree, p, i, n, books),
        decreases tree.max_depth + 1 - tree.level(i), 0int, n,
    {
        if n > 0 {
            assert(tree.is_edge(i, n - 1));
            assert(tree.edge_ok(i, n - 1));
            self.lemma_learned_upto_alike(b, tree, p, i, (n - 1) as nat, books);
            self.lemma_learned_alike(
                b,
                tree,
                p,
                tree.child(i, n - 1),
                self.learned_upto(tree, p, i, (n - 1) as nat, books),
            );
        }
    }
}

impl<T: Scalar> PreflopVectorCfr<T> {
    proof fn lemma_matched_alike(&self, b: &Self, tree: &FlatTree, n: nat)
        requires
            alike(self, b),
        ensures
            self.matched_upto(tree, n) == b.matched_upto(tree, n),
        decreases n,
    {
        if n > 0 {
            self.lemma_matched_alike(b, tree, (n - 1) as nat);
        }
    }

    proof fn lemma_reach_alike(&self, b: &Self, tree: &FlatTree, first: Seq<T>, p: int, i: int)
        requires
            self.strategy@ == b.strategy@,
            self.local_offset@ == b.local_offset@,
            tree.wf(),
            tree.is_node(i),
        ensures
            self.reach_at(tree, first, p, i) == b.reach_at(tree, first, p, i),
        decreases tree.level(i),
    {
        if i != 0 && reached(tree, i) {
            lemma_parent_edge(tree, i);
            let (j, a) = parent_edge(tree, i);
            self.lemma_reach_alike(b, tree, first, p, j);
        }
    }
}

/// A rising list.
pub open spec fn is_rising(a: Seq<usize>) -> bool {
    forall|k: int, l: int| 0 <= k < l < a.len() ==> (#[trigger] a[k]) < (#[trigger] a[l])
}

/// There is one rising list of the same entries.
proof fn lemma_one_list(a: Seq<usize>, b: Seq<usize>, n: nat)
    requires
        is_rising(a),
        is_rising(b),
        forall|k: int| 0 <= k < a.len() ==> b.contains(#[trigger] a[k]),
        forall|k: int| 0 <= k < b.len() ==> a.contains(#[trigger] b[k]),
        n <= a.len(),
        n <= b.len(),
    ensures
        forall|k: int| 0 <= k < n ==> a[k] == b[k],
    decreases n,
{
    if n > 0 {
        lemma_one_list(a, b, (n - 1) as nat);
        let m: int = n - 1;
        assert(b.contains(a[m]));
        let j = choose|j: int| 0 <= j < b.len() && b[j] == a[m];
        assert(a.contains(b[m]));
        let l = choose|l: int| 0 <= l < a.len() && a[l] == b[m];
        if j < m {
            assert(a[j] < a[m]);
        }
        if l < m {
            assert(b[l] < b[m]);
        }
        if j > m && l > m {
            assert(b[m] < b[j]);
            assert(a[m] < a[l]);
        }
    }
}

/// A tree has one list of chance nodes.
proof fn lemma_one_seam_list(tree: &FlatTree, a: Seq<usize>, b: Seq<usize>)
    requires
        are_seams(tree, a),
        are_seams(tree, b),
    ensures
        a == b,
{
    assert forall|k: int| 0 <= k < a.len() implies b.contains(#[trigger] a[k]) by {
        assert(is_seam(tree, a[k] as int));
    }
    assert forall|k: int| 0 <= k < b.len() implies a.contains(#[trigger] b[k]) by {
        assert(is_seam(tree, b[k] as int));
    }
    if a.len() < b.len() {
        let n = a.len() as int;
        lemma_one_list(a, b, a.len());
        assert(a.contains(b[n]));
        let j = choose|j: int| 0 <= j < a.len() && a[j] == b[n];
        assert(b[j] < b[n]);
    } else if b.len() < a.len() {
        let n = b.len() as int;
        lemma_one_list(a, b, b.len());
        assert(b.contains(a[n]));
        let j = choose|j: int| 0 <= j < b.len() && b[j] == a[n];
        assert(a[j] < a[n]);
    } else {
        lemma_one_list(a, b, a.len());
        assert(a =~= b);
    }
}

/// Solvers alike work on the same scene.
proof fn lemma_one_scene<T: Scalar, E, R, G, H, V>(
    a: &Scene<T, E, R, G, H, V>,
    m: &PreflopVectorCfr<T>,
    ma: &PreflopVectorCfr<T>,
    b: &Scene<T, E, R, G, H, V>,
    p: &PreflopVectorCfr<T>,
    pb: &PreflopVectorCfr<T>,
)
    requires
        a.tree.wf(),
        a.tree == b.tree,
        alike(m, p),
        is_scene_of(a, m, ma),
        is_scene_of(b, p, pb),
    ensures
        alike(ma, pb),
        a.list == b.list,
        a.reach == b.reach,
{
    let tree = &a.tree;
    let w = NUM_PREFLOP_CLASSES as int;
    m.lemma_matched_alike(p, tree, tree.decision_node_ids@.len());
    lemma_one_seam_list(tree, a.list, b.list);
    let first = first_reach::<T>(None, tree.np());
    let x = choose|x: Seq<Vec<T>>| #[trigger]
        is_reach_table(tree, x) && a.reach == views(x) && forall|i: int|
            tree.is_node(i) ==> #[trigger] ma.row_done(tree, first, x, i);
    let y = choose|y: Seq<Vec<T>>| #[trigger]
        is_reach_table(tree, y) && b.reach == views(y) && forall|i: int|
            tree.is_node(i) ==> #[trigger] pb.row_done(tree, first, y, i);
    assert forall|q: int| 0 <= q < tree.np() implies a.reach[q] == b.reach[q] by {
        let (xq, yq) = (x[q]@, y[q]@);
        assert forall|i: int| 0 <= i < tree.size() implies #[trigger] row(xq, w, i) == row(
            yq,
            w,
            i,
        ) by {
            assert(ma.row_done(tree, first, x, i));
            assert(pb.row_done(tree, first, y, i));
            ma.lemma_reach_alike(pb, tree, first[q], q, i);
        }
        lemma_rows_ext(xq, yq, w, tree.size());
    }
    assert(a.reach =~= b.reach);
}

proof fn lemma_rounds_alike<
    T: Widen,
    O: PostflopValueOracle<T>,
    E: Fn([u8; 3], &Vec<T>) -> Vec<T>,
    R: Fn([u8; 3], &Vec<T>) -> Vec<T>,
    G: Fn(&Vec<Vec<T>>) -> Vec<T>,
    H: Fn(&Vec<usize>, &Vec<Vec<T>>) -> Vec<T>,
    V: Fn(usize, u8, &Vec<Vec<T>>) -> Vec<T>,
>(
    sc: &Scene<T, E, R, G, H, V>,
    plain: &Scene<T, E, R, G, H, V>,
    params: &DcfrParams<T>,
    m: &PreflopVectorCfr<T>,
    o: &O,
    m2: &PreflopVectorCfr<T>,
    o2: &O,
    p: &PreflopVectorCfr<T>,
    q: &O,
    p2: &PreflopVectorCfr<T>,
    q2: &O,
    n: nat,
    knows: spec_fn(O) -> bool,
    g: spec_fn(Seq<u8>, u8, u64) -> Seq<T>,
    key: spec_fn(int) -> u64,
)
    requires
        sc.tree.wf(),
        answers_by_key(&sc.tree, knows, g, key),
        is_pure::<T, E, R, G, H>(&sc.table),
        are_seams(&sc.tree, sc.list),
        sc.goes_by(key),
        plain.goes_by(key),
        *plain == (Scene { plan: plain.plan, ..*sc }),
        alike(m, p),
        knows(*o),
        knows(*q),
        are_rounds(sc, params, m, o, m2, o2, n),
        are_rounds(plain, params, p, q, p2, q2, n),
    ensures
        alike(m2, p2),
        knows(*o2),
        knows(*q2),
    decreases n,
{
    if n > 0 {
        let t = (n - 1) as u8;
        let (mm, mo) = choose|mm: PreflopVectorCfr<T>, mo: O|
            are_rounds(sc, params, m, o, &mm, &mo, (n - 1) as nat) && #[trigger] is_round(
                sc,
                params,
                t,
                &mm,
                &mo,
                m2,
                o2,
            );
        let (pm, qo) = choose|pm: PreflopVectorCfr<T>, qo: O|
            are_rounds(plain, params, p, q, &pm, &qo, (n - 1) as nat) && #[trigger] is_round(
                plain,
                params,
                t,
                &pm,
                &qo,
                p2,
                q2,
            );
        lemma_rounds_alike(
            sc,
            plain,
            params,
            m,
            o,
            &mm,
            &mo,
            p,
            q,
            &pm,
            &qo,
            (n - 1) as nat,
            knows,
            g,
            key,
        );
        let tree = &sc.tree;
        let vs = choose|vs: Seq<Seq<T>>| #[trigger]
            sc.are_valued(t, &mo, o2, vs, sc.list.len()) && {
                let pass = Pass {
                    m: mm,
                    t,
                    leaves: sc.list,
                    given: given_values(tree.size(), sc.list, vs),
                    reach: sc.reach,
                    f: sc.f,
                };
                &&& pass.plays_as(m2)
                &&& (m2.regrets@, m2.cum_strategy@) == pass.learned(
                    tree,
                    params,
                    0,
                    (mm.regrets@, mm.cum_strategy@),
                )
            };
        let ws = choose|ws: Seq<Seq<T>>| #[trigger]
            plain.are_valued(t, &qo, q2, ws, plain.list.len()) && {
                let pass = Pass {
                    m: pm,
                    t,
                    leaves: plain.list,
                    given: given_values(plain.tree.size(), plain.list, ws),
                    reach: plain.reach,
                    f: plain.f,
                };
                &&& pass.plays_as(p2)
                &&& (p2.regrets@, p2.cum_strategy@) == pass.learned(
                    &plain.tree,
                    params,
                    0,
                    (pm.regrets@, pm.cum_strategy@),
                )
            };
        sc.lemma_same_values(plain, t, &mo, o2, vs, &qo, q2, ws, knows, g, key);
        let given = given_values(tree.size(), sc.list, vs);
        let a = Pass { m: mm, t, leaves: sc.list, given, reach: sc.reach, f: sc.f };
        let b = Pass { m: pm, t, leaves: sc.list, given, reach: sc.reach, f: sc.f };
        assert(tree.is_node(0));
        a.lemma_learned_alike(&b, tree, params, 0, (mm.regrets@, mm.cum_strategy@));
    }
}

/// The key of a chance node.
pub open spec fn node_key<K: Fn(usize) -> u64>(chance_key: &K) -> spec_fn(int) -> u64 {
    |i: int| answer_one(chance_key, i as usize)
}

/// From the same numbers, an iteration in which chance nodes share their values by key
/// ends where one ends in which every chance node asks for itself: with the same
/// strategies, regrets and cumulative strategies, one iteration on. The oracles answer by
/// flop, traverser and key alone; how they keep their answers is up to them.
pub proof fn law_shared_iteration_ends_as_plain<
    T: Widen,
    O: PostflopValueOracle<T>,
    E: Fn([u8; 3], &Vec<T>) -> Vec<T>,
    R: Fn([u8; 3], &Vec<T>) -> Vec<T>,
    G: Fn(&Vec<Vec<T>>) -> Vec<T>,
    H: Fn(&Vec<usize>, &Vec<Vec<T>>) -> Vec<T>,
    V: Fn(usize, u8, &Vec<Vec<T>>) -> Vec<T>,
    K: Fn(usize) -> u64,
>(
    tree: &FlatTree,
    table: &PreflopChanceTable<E, R, G, H>,
    f: &V,
    chance_key: &K,
    m: &PreflopVectorCfr<T>,
    o: &O,
    m2: &PreflopVectorCfr<T>,
    o2: &O,
    p: &PreflopVectorCfr<T>,
    q: &O,
    p2: &PreflopVectorCfr<T>,
    q2: &O,
    knows: spec_fn(O) -> bool,
    g: spec_fn(Seq<u8>, u8, u64) -> Seq<T>,
)
    requires
        tree.wf(),
        is_pure::<T, E, R, G, H>(table),
        answers_by_key(tree, knows, g, node_key(chance_key)),
        forall|o1: O| #[trigger] o.s_begins(&o1, m.iteration) ==> knows(o1),
        forall|q1: O| #[trigger] q.s_begins(&q1, p.iteration) ==> knows(q1),
        alike(m, p),
        exists|list: Seq<usize>, reach: Seq<Seq<T>>|
            is_iteration(
                &#[trigger] scene(
                    tree,
                    table,
                    f,
                    list,
                    reach,
                    SeamPlan::Keyed(keys_of(chance_key, list)),
                ),
                m,
                o,
                m2,
                o2,
            ),
        exists|list: Seq<usize>, reach: Seq<Seq<T>>|
            is_iteration(
                &#[trigger] scene(tree, table, f, list, reach, SeamPlan::Every),
                p,
                q,
                p2,
                q2,
            ),
    ensures
        alike(m2, p2),
        m.iteration < u32::MAX ==> m2.iteration == m.iteration + 1,
{
    let key = node_key(chance_key);
    let (la, ra) = choose|la: Seq<usize>, ra: Seq<Seq<T>>|
        is_iteration(
            &#[trigger] scene(tree, table, f, la, ra, SeamPlan::Keyed(keys_of(chance_key, la))),
            m,
            o,
            m2,
            o2,
        );
    let (lb, rb) = choose|lb: Seq<usize>, rb: Seq<Seq<T>>|
        is_iteration(&#[trigger] scene(tree, table, f, lb, rb, SeamPlan::Every), p, q, p2, q2);
    let sc = scene(tree, table, f, la, ra, SeamPlan::Keyed(keys_of(chance_key, la)));
    let plain = scene(tree, table, f, lb, rb, SeamPlan::Every);
    let np = tree.np() as nat;
    let (ka, ma, oa, na, oz) = choose|
        ka: DcfrParams<T>,
        ma: PreflopVectorCfr<T>,
        oa: O,
        na: PreflopVectorCfr<T>,
        oz: O,
    |
        #![trigger is_scene_of(&sc, m, &ma), are_rounds(&sc, &ka, &ma, &oa, &na, &oz, np)]
        is_scene_of(&sc, m, &ma) && (ka.alpha(), ka.beta(), ka.gamma()) == discounts::<T>(
            m.iteration as int,
        ) && o.s_begins(&oa, m.iteration) && are_rounds(&sc, &ka, &ma, &oa, &na, &oz, np)
            && oz.s_ends(o2, m.iteration) && *m2 == (PreflopVectorCfr {
            iteration: (m.iteration + 1) as u32,
            ..na
        });
    let (kb, pb, qb, nb, qz) = choose|
        kb: DcfrParams<T>,
        pb: PreflopVectorCfr<T>,
        qb: O,
        nb: PreflopVectorCfr<T>,
        qz: O,
    |
        #![trigger is_scene_of(&plain, p, &pb), are_rounds(&plain, &kb, &pb, &qb, &nb, &qz, np)]
        is_scene_of(&plain, p, &pb) && (kb.alpha(), kb.beta(), kb.gamma()) == discounts::<T>(
            p.iteration as int,
        ) && q.s_begins(&qb, p.iteration) && are_rounds(&plain, &kb, &pb, &qb, &nb, &qz, np)
            && qz.s_ends(q2, p.iteration) && *p2 == (PreflopVectorCfr {
            iteration: (p.iteration + 1) as u32,
            ..nb
        });
    ka.lemma_same_factors(&kb);
    lemma_one_scene(&sc, m, &ma, &plain, p, &pb);
    lemma_rounds_alike(
        &sc,
        &plain,
        &ka,
        &ma,
        &oa,
        &na,
        &oz,
        &pb,
        &qb,
        &nb,
        &qz,
        np,
        knows,
        g,
        key,
    );
}

/// Oracle `o` becomes `o2` by answering these questions, in order, and no other.
pub open spec fn has_answered<T: Scalar, O: PostflopValueOracle<T>>(
    o: &O,
    o2: &O,
    asks: Seq<FlopAsk<T>>,
) -> bool
    decreases asks.len(),
{
    if asks.len() == 0 {
        *o2 == *o
    } else {
        exists|mid: O, v: Seq<T>|
            has_answered(o, &mid, asks.drop_last()) && #[trigger] mid.s_answers(
                o2,
                asks.last(),
                v,
            )
    }
}

/// Some questions, then some more.
proof fn lemma_answered_on<T: Scalar, O: PostflopValueOracle<T>>(
    o: &O,
    mid: &O,
    o2: &O,
    a: Seq<FlopAsk<T>>,
    b: Seq<FlopAsk<T>>,
)
    requires
        has_answered(o, mid, a),
        has_answered(mid, o2, b),
    ensures
        has_answered(o, o2, a + b),
    decreases b.len(),
{
    if b.len() == 0 {
        assert(a + b =~= a);
    } else {
        let (x, v) = choose|x: O, v: Seq<T>|
            has_answered(mid, &x, b.drop_last()) && #[trigger] x.s_answers(o2, b.last(), v);
        lemma_answered_on(o, mid, &x, a, b.drop_last());
        assert((a + b).drop_last() =~= a + b.drop_last());
        assert((a + b).last() == b.last());
        assert(x.s_answers(o2, (a + b).last(), v));
    }
}

/// A chance node asks once for every flop.
proof fn lemma_flops_answered<
    T: Scalar,
    O: PostflopValueOracle<T>,
    E: Fn([u8; 3], &Vec<T>) -> Vec<T>,
    R: Fn([u8; 3], &Vec<T>) -> Vec<T>,
    G,
    H,
>(
    table: &PreflopChanceTable<E, R, G, H>,
    o: &O,
    o2: &O,
    flops: Seq<[u8; 3]>,
    rows: Seq<Seq<T>>,
    t: u8,
    cell: Option<(SeamCell, u16)>,
    vs: Seq<Seq<T>>,
    n: nat,
) -> (asks: Seq<FlopAsk<T>>)
    requires
        flops_valued(table, o, o2, flops, rows, t, cell, vs, n),
    ensures
        has_answered(o, o2, asks),
        asks.len() == n,
        forall|j: int|
            0 <= j < n ==> (#[trigger] asks[j]).flop == flops[j]@ && asks[j].traverser == t
                && asks[j].cell == cell,
    decreases n,
{
    if n == 0 {
        Seq::empty()
    } else {
        let mid = choose|mid: O|
            flops_valued(table, o, &mid, flops, rows, t, cell, vs.drop_last(), (n - 1) as nat)
                && #[trigger] flop_valued(
                table,
                &mid,
                o2,
                flops[n - 1],
                rows,
                t,
                cell,
                vs.last(),
            );
        let prev = lemma_flops_answered(
            table,
            o,
            &mid,
            flops,
            rows,
            t,
            cell,
            vs.drop_last(),
            (n - 1) as nat,
        );
        let flop = flops[n - 1];
        let (ranges, vc) = choose|ranges: Seq<Seq<T>>, vc: Seq<T>|
            #![trigger expanded(&table.expand, flop, rows, ranges), turns(&table.reduce, flop, vc, vs.last())]
            expanded(&table.expand, flop, rows, ranges) && mid.s_answers(
                o2,
                FlopAsk { flop: flop@, ranges, traverser: t, cell },
                vc,
            ) && turns(&table.reduce, flop, vc, vs.last());
        let asks = prev.push(FlopAsk { flop: flop@, ranges, traverser: t, cell });
        assert(asks.drop_last() =~= prev);
        assert(mid.s_answers(o2, asks.last(), vc));
        asks
    }
}

impl<
    T: Scalar,
    E: Fn([u8; 3], &Vec<T>) -> Vec<T>,
    R: Fn([u8; 3], &Vec<T>) -> Vec<T>,
    G: Fn(&Vec<Vec<T>>) -> Vec<T>,
    H: Fn(&Vec<usize>, &Vec<Vec<T>>) -> Vec<T>,
    V: Fn(usize, u8, &Vec<Vec<T>>) -> Vec<T>,
> Scene<T, E, R, G, H, V> {
    /// The traverser has not folded at chance node `k`, and no earlier such node has its key.
    pub open spec fn asks_at(&self, t: u8, keys: Seq<u64>, k: int) -> bool {
        is_live(&self.tree, self.list[k] as int, t as int) && forall|l: int| !#[trigger]
            self.is_mate(t, keys, k, l)
    }

    /// The places of the first `n` chance nodes that ask.
    pub open spec fn asking(&self, t: u8, keys: Seq<u64>, n: nat) -> Seq<int>
        decreases n,
    {
        if n == 0 {
            Seq::empty()
        } else {
            let prev = self.asking(t, keys, (n - 1) as nat);
            if self.asks_at(t, keys, n - 1) {
                prev.push(n - 1)
            } else {
                prev
            }
        }
    }

    proof fn lemma_asking(&self, t: u8, keys: Seq<u64>, n: nat)
        ensures
            forall|a: int|
                0 <= a < self.asking(t, keys, n).len() ==> 0 <= #[trigger] self.asking(
                    t,
                    keys,
                    n,
                )[a] < n && self.asks_at(t, keys, self.asking(t, keys, n)[a]),
            forall|a: int, b: int|
                0 <= a < b < self.asking(t, keys, n).len() ==> #[trigger] self.asking(
                    t,
                    keys,
                    n,
                )[a] < #[trigger] self.asking(t, keys, n)[b],
            forall|k: int|
                0 <= k < n && #[trigger] self.asks_at(t, keys, k) ==> self.asking(
                    t,
                    keys,
                    n,
                ).contains(k),
        decreases n,
    {
        if n > 0 {
            let prev = self.asking(t, keys, (n - 1) as nat);
            let all = self.asking(t, keys, n);
            self.lemma_asking(t, keys, (n - 1) as nat);
            assert forall|a: int| 0 <= a < all.len() implies 0 <= #[trigger] all[a] < n
                && self.asks_at(t, keys, all[a]) by {
                if a < prev.len() {
                    assert(prev[a] == all[a]);
                }
            }
            assert forall|a: int, b: int| 0 <= a < b < all.len() implies #[trigger] all[a]
                < #[trigger] all[b] by {
                assert(prev[a] == all[a]);
                if b < prev.len() {
                    assert(prev[b] == all[b]);
                }
            }
            assert forall|k: int| 0 <= k < n && #[trigger] self.asks_at(t, keys, k) implies all.contains(
                k,
            ) by {
                if k < n - 1 {
                    assert(prev.contains(k));
                    let x = choose|x: int| 0 <= x < prev.len() && prev[x] == k;
                    assert(all[x] == k);
                } else {
                    assert(all[all.len() - 1] == k);
                }
            }
        }
    }

    /// A key that a node has where the traverser is in has a node that asks.
    proof fn lemma_key_asks(&self, t: u8, keys: Seq<u64>, k: int) -> (l: int)
        requires
            0 <= k,
            is_live(&self.tree, self.list[k] as int, t as int),
        ensures
            0 <= l <= k,
            self.asks_at(t, keys, l),
            keys[l] == keys[k],
        decreases k,
    {
        if self.asks_at(t, keys, k) {
            k
        } else {
            let m = choose|m: int| self.is_mate(t, keys, k, m);
            self.lemma_key_asks(t, keys, m)
        }
    }

    /// Every key of a node where the traverser is in is asked for at one place, and no
    /// node where the traverser has folded asks.
    pub proof fn law_a_key_asks_once(&self, t: u8, keys: Seq<u64>, n: nat)
        ensures
            forall|a: int|
                0 <= a < self.asking(t, keys, n).len() ==> is_live(
                    &self.tree,
                    self.list[#[trigger] self.asking(t, keys, n)[a]] as int,
                    t as int,
                ),
            forall|a: int, b: int|
                0 <= a < b < self.asking(t, keys, n).len() ==> keys[#[trigger] self.asking(
                    t,
                    keys,
                    n,
                )[a]] != keys[#[trigger] self.asking(t, keys, n)[b]],
            forall|k: int|
                0 <= k < n && #[trigger] is_live(&self.tree, self.list[k] as int, t as int)
                    ==> exists|a: int|
                    0 <= a < self.asking(t, keys, n).len() && keys[#[trigger] self.asking(
                        t,
                        keys,
                        n,
                    )[a]] == keys[k],
    {
        let all = self.asking(t, keys, n);
        self.lemma_asking(t, keys, n);
        assert forall|a: int, b: int| 0 <= a < b < all.len() implies keys[#[trigger] all[a]]
            != keys[#[trigger] all[b]] by {
            assert(self.asks_at(t, keys, all[a]));
            assert(self.asks_at(t, keys, all[b]));
            assert(!self.is_mate(t, keys, all[b], all[a]));
        }
        assert forall|k: int|
            0 <= k < n && #[trigger] is_live(
                &self.tree,
                self.list[k] as int,
                t as int,
            ) implies exists|a: int| 0 <= a < all.len() && keys[#[trigger] all[a]] == keys[k] by {
            let l = self.lemma_key_asks(t, keys, k);
            assert(all.contains(l));
            let a = choose|a: int| 0 <= a < all.len() && all[a] == l;
            assert(keys[all[a]] == keys[k]);
        }
    }

    /// A traverser's chance nodes that share values by key ask the oracle once for every
    /// flop and every key of a node where the traverser is in, and ask nothing else: the
    /// questions of the `a`-th place that asks are about its cell, one for every flop.
    pub proof fn law_one_question_per_key<O: PostflopValueOracle<T>>(
        &self,
        t: u8,
        o: &O,
        o2: &O,
        keys: Seq<u64>,
        vs: Seq<Seq<T>>,
        n: nat,
    ) -> (asks: Seq<FlopAsk<T>>)
        requires
            self.plan == SeamPlan::Keyed(keys),
            self.are_valued(t, o, o2, vs, n),
        ensures
            has_answered(o, o2, asks),
            self.are_questions(t, keys, n, asks),
        decreases n,
    {
        let w = self.table.canonical_flops@.len() as int;
        if n == 0 {
            Seq::empty()
        } else {
            let prev = vs.drop_last();
            let v = vs.last();
            let k: int = n - 1;
            let i = self.list[k] as int;
            let mid = choose|mid: O|
                self.are_valued(t, o, &mid, prev, (n - 1) as nat) && #[trigger] self.next_valued(
                    t,
                    &mid,
                    o2,
                    n - 1,
                    prev,
                    v,
                );
            let before = self.law_one_question_per_key(t, o, &mid, keys, prev, (n - 1) as nat);
            let places = self.asking(t, keys, (n - 1) as nat);
            if self.asks_at(t, keys, k) {
                assert(!(exists|l: int| self.is_mate(t, keys, k, l)));
                let rows = rows_at(self.reach, i);
                let mask = self.tree.folded_masks@[i];
                let flops = chosen_flops(self.table.canonical_flops@, None);
                let cell = choose|cell: SeamCell| #[trigger]
                    self.is_cell(i, cell) && chance_valued(
                        &self.table,
                        &mid,
                        o2,
                        None,
                        rows,
                        t,
                        Some((cell, mask)),
                        v,
                    );
                let fs = choose|fs: Seq<Seq<T>>| #[trigger]
                    flops_valued(
                        &self.table,
                        &mid,
                        o2,
                        flops,
                        rows,
                        t,
                        Some((cell, mask)),
                        fs,
                        flops.len(),
                    ) && aggregated(&self.table, None, fs, v);
                let more = lemma_flops_answered(
                    &self.table,
                    &mid,
                    o2,
                    flops,
                    rows,
                    t,
                    Some((cell, mask)),
                    fs,
                    flops.len(),
                );
                lemma_answered_on(o, &mid, o2, before, more);
                let asks = before + more;
                let all = self.asking(t, keys, n);
                assert(all =~= places.push(k));
                assert((places.len() + 1) * w == places.len() * w + w) by (nonlinear_arith);
                assert forall|a: int, j: int| 0 <= a < all.len() && 0 <= j < w implies self.is_question(
                    t,
                    all[a],
                    j,
                    #[trigger] asks[at(w, a, j)],
                ) by {
                    if a < places.len() {
                        lemma_at_bound(w, places.len() as int, a, j);
                        assert(asks[at(w, a, j)] == before[at(w, a, j)]);
                        assert(all[a] == places[a]);
                    } else {
                        assert(asks[at(w, a, j)] == more[j]);
                        assert(more[j].cell == Some((cell, mask)));
                        assert(self.is_cell(i, cell));
                    }
                }
                asks
            } else {
                assert(self.next_valued(t, &mid, o2, k, prev, v));
                if is_live(&self.tree, i, t as int) {
                    let l = choose|l: int| self.is_mate(t, keys, k, l);
                    assert(self.is_mate(t, keys, k, l));
                    assert(self.is_mate(t, self.plan->Keyed_0, n - 1, l));
                    assert(match self.plan {
                        SeamPlan::Keyed(ks) => is_live(
                            &self.tree,
                            self.list[k] as int,
                            t as int,
                        ) && exists|l: int| self.is_mate(t, ks, k, l),
                        _ => false,
                    });
                } else {
                    assert(self.seam_valued(t, &mid, o2, i, v));
                    assert(*o2 == mid);
                }
                assert(*o2 == mid);
                before
            }
        }
    }

    /// The questions of the places that ask among the first `n` chance nodes, one for every
    /// flop.
    pub open spec fn are_questions(
        &self,
        t: u8,
        keys: Seq<u64>,
        n: nat,
        asks: Seq<FlopAsk<T>>,
    ) -> bool {
        &&& asks.len() == self.asking(t, keys, n).len() * self.table.canonical_flops@.len()
        &&& forall|a: int, j: int|
            0 <= a < self.asking(t, keys, n).len() && 0 <= j < self.table.canonical_flops@.len()
                ==> self.is_question(
                t,
                self.asking(t, keys, n)[a],
                j,
                #[trigger] asks[at(self.table.canonical_flops@.len() as int, a, j)],
            )
    }

    /// The question is about flop `j` and the cell of chance node `k`.
    pub open spec fn is_question(&self, t: u8, k: int, j: int, ask: FlopAsk<T>) -> bool {
        &&& ask.flop == self.table.canonical_flops@[j]@
        &&& ask.traverser == t
        &&& ask.cell matches Some((cell, mask)) && self.is_cell(self.list[k] as int, cell) && mask
            == self.tree.folded_masks@[self.list[k] as int]
    }
}

/// The questions of all rounds, in order.
pub open spec fn joined<T>(rounds: Seq<Seq<T>>) -> Seq<T>
    decreases rounds.len(),
{
    if rounds.len() == 0 {
        Seq::empty()
    } else {
        joined(rounds.drop_last()) + rounds.last()
    }
}

proof fn lemma_rounds_ask<
    T: Widen,
    O: PostflopValueOracle<T>,
    E: Fn([u8; 3], &Vec<T>) -> Vec<T>,
    R: Fn([u8; 3], &Vec<T>) -> Vec<T>,
    G: Fn(&Vec<Vec<T>>) -> Vec<T>,
    H: Fn(&Vec<usize>, &Vec<Vec<T>>) -> Vec<T>,
    V: Fn(usize, u8, &Vec<Vec<T>>) -> Vec<T>,
>(
    sc: &Scene<T, E, R, G, H, V>,
    params: &DcfrParams<T>,
    m: &PreflopVectorCfr<T>,
    o: &O,
    m2: &PreflopVectorCfr<T>,
    o2: &O,
    keys: Seq<u64>,
    n: nat,
) -> (rounds: Seq<Seq<FlopAsk<T>>>)
    requires
        sc.plan == SeamPlan::Keyed(keys),
        n <= 256,
        are_rounds(sc, params, m, o, m2, o2, n),
    ensures
        rounds.len() == n,
        has_answered(o, o2, joined(rounds)),
        forall|t: int|
            0 <= t < n ==> sc.are_questions(t as u8, keys, sc.list.len(), #[trigger] rounds[t]),
    decreases n,
{
    if n == 0 {
        Seq::empty()
    } else {
        let t = (n - 1) as u8;
        let (mm, mo) = choose|mm: PreflopVectorCfr<T>, mo: O|
            are_rounds(sc, params, m, o, &mm, &mo, (n - 1) as nat) && #[trigger] is_round(
                sc,
                params,
                t,
                &mm,
                &mo,
                m2,
                o2,
            );
        let prev = lemma_rounds_ask(sc, params, m, o, &mm, &mo, keys, (n - 1) as nat);
        let vs = choose|vs: Seq<Seq<T>>| #[trigger]
            sc.are_valued(t, &mo, o2, vs, sc.list.len());
        let asks = sc.law_one_question_per_key(t, &mo, o2, keys, vs, sc.list.len());
        lemma_answered_on(o, &mo, o2, joined(prev), asks);
        let rounds = prev.push(asks);
        assert(rounds.drop_last() =~= prev);
        assert forall|t: int| 0 <= t < n implies sc.are_questions(
            t as u8,
            keys,
            sc.list.len(),
            #[trigger] rounds[t],
        ) by {
            if t < n - 1 {
                assert(prev[t] == rounds[t]);
            }
        }
        rounds
    }
}

/// Between its start and its end, an iteration that shares values by key asks the oracle,
/// traverser by traverser, once for every flop and every key of a chance node where the
/// traverser is in, and nothing else.
pub proof fn law_shared_iteration_asks_once<
    T: Widen,
    O: PostflopValueOracle<T>,
    E: Fn([u8; 3], &Vec<T>) -> Vec<T>,
    R: Fn([u8; 3], &Vec<T>) -> Vec<T>,
    G: Fn(&Vec<Vec<T>>) -> Vec<T>,
    H: Fn(&Vec<usize>, &Vec<Vec<T>>) -> Vec<T>,
    V: Fn(usize, u8, &Vec<Vec<T>>) -> Vec<T>,
>(
    sc: &Scene<T, E, R, G, H, V>,
    keys: Seq<u64>,
    m: &PreflopVectorCfr<T>,
    o: &O,
    m2: &PreflopVectorCfr<T>,
    o2: &O,
) -> (out: (O, Seq<Seq<FlopAsk<T>>>, O))
    requires
        sc.plan == SeamPlan::Keyed(keys),
        is_iteration(sc, m, o, m2, o2),
    ensures
        o.s_begins(&out.0, m.iteration),
        has_answered(&out.0, &out.2, joined(out.1)),
        out.2.s_ends(o2, m.iteration),
        out.1.len() == sc.tree.np(),
        forall|t: int|
            0 <= t < sc.tree.np() ==> sc.are_questions(
                t as u8,
                keys,
                sc.list.len(),
                #[trigger] out.1[t],
            ),
{
    let np = sc.tree.np() as nat;
    let (params, matched, o1, last, o3) = choose|
        params: DcfrParams<T>,
        matched: PreflopVectorCfr<T>,
        o1: O,
        last: PreflopVectorCfr<T>,
        o3: O,
    |
        #![trigger is_scene_of(sc, m, &matched), are_rounds(sc, &params, &matched, &o1, &last, &o3, np)]
        is_scene_of(sc, m, &matched) && (params.alpha(), params.beta(), params.gamma())
            == discounts::<T>(m.iteration as int) && o.s_begins(&o1, m.iteration) && are_rounds(
            sc,
            &params,
            &matched,
            &o1,
            &last,
            &o3,
            np,
        ) && o3.s_ends(o2, m.iteration) && *m2 == (PreflopVectorCfr {
            iteration: (m.iteration + 1) as u32,
            ..last
        });
    let rounds = lemma_rounds_ask(sc, &params, &matched, &o1, &last, &o3, keys, np);
    (o1, rounds, o3)
}

} // verus!
