//! Whole iterations of the solver before the flop.
use vstd::prelude::*;

use crate::answers::{answer_one, answers_one, ask_one};
use crate::layout::{flat, row_copy};
use crate::learn::{discounts, DcfrParams};
use crate::postflop_oracle::{
    commit_upto, is_live, is_seam_key, seam_bucket_chance_key, FlopAsk, PostflopValueOracle,
    SeamCell,
};
use crate::preflop_cfr::PreflopVectorCfr;
use crate::preflop_class::NUM_PREFLOP_CLASSES;
use crate::preflop_reach::{are_seams, first_reach, is_reach_table, is_seam, reached};
use crate::preflop_run::{
    can_ask, is_subset, is_table, takes_on, PreflopChanceTable, Scene, SeamOrder, SeamPlan,
};
use crate::preflop_walk::{ends_at_flop, is_valuer, lemma_can_sweep, Pass};
use crate::pseudo_harmonic::pot_upto;
use crate::scalar::{filled, Scalar, Widen};
use crate::terminal::views;
use crate::tree::FlatTree;

verus! {

/// The `k`-th chance node is node `j`.
pub open spec fn stands_at(list: Seq<usize>, j: int, k: int) -> bool {
    0 <= k < list.len() && list[k] == j
}

/// The values that a walk starts with: those of the chance nodes, and zeros.
pub open spec fn given_values<T: Scalar>(size: int, list: Seq<usize>, vs: Seq<Seq<T>>) -> Seq<Seq<T>> {
    Seq::new(
        size as nat,
        |j: int|
            if exists|k: int| #[trigger] stands_at(list, j, k) {
                vs[choose|k: int| #[trigger] stands_at(list, j, k)]
            } else {
                flat(T::s_zero(), NUM_PREFLOP_CLASSES as int)
            },
    )
}

/// Lays out [`given_values`].
fn lay_out_values<T: Scalar>(tree: &FlatTree, seams: &Vec<usize>, vs: &Vec<Vec<T>>) -> (cfv: Vec<Vec<T>>)
    requires
        are_seams(tree, seams@),
        vs@.len() == seams@.len(),
        forall|l: int| 0 <= l < vs@.len() ==> (#[trigger] vs@[l])@.len() == NUM_PREFLOP_CLASSES,
    ensures
        views(cfv@) == given_values(tree.size(), seams@, views(vs@)),
        cfv@.len() == tree.size(),
        forall|j: int| 0 <= j < cfv@.len() ==> (#[trigger] cfv@[j])@.len() == NUM_PREFLOP_CLASSES,
{
    let nn: usize = tree.nodes.len();
    let n: usize = seams.len();
    let ghost goal = given_values(tree.size(), seams@, views(vs@));
    let mut cfv: Vec<Vec<T>> = Vec::new();
    let mut j: usize = 0;
    let mut k: usize = 0;
    while j < nn
        invariant
            j <= nn,
            k <= n,
            nn == tree.size(),
            n == seams@.len(),
            are_seams(tree, seams@),
            vs@.len() == seams@.len(),
            forall|l: int| 0 <= l < vs@.len() ==> (#[trigger] vs@[l])@.len() == NUM_PREFLOP_CLASSES,
            goal == given_values(tree.size(), seams@, views(vs@)),
            forall|l: int| 0 <= l < k ==> (#[trigger] seams@[l]) < j,
            forall|l: int| k <= l < n ==> (#[trigger] seams@[l]) >= j,
            cfv@.len() == j,
            forall|i: int|
                0 <= i < j ==> (#[trigger] cfv@[i])@ == goal[i] && cfv@[i]@.len()
                    == NUM_PREFLOP_CLASSES,
        decreases nn - j,
    {
        if k < n && seams[k] == j {
            assert(stands_at(seams@, j as int, k as int));
            let v = row_copy(&vs[k]);
            proof {
                let l = choose|l: int| #[trigger] stands_at(seams@, j as int, l);
                assert(stands_at(seams@, j as int, l));
                if l < k {
                    assert(seams@[l] < seams@[k as int]);
                }
                if k < l {
                    assert(seams@[k as int] < seams@[l]);
                }
                assert(v@ == goal[j as int]);
            }
            cfv.push(v);
            k += 1;
            assert forall|l: int| k <= l < n implies (#[trigger] seams@[l]) >= j + 1 by {
                assert(seams@[k - 1] < seams@[l]);
            }
        } else {
            let v: Vec<T> = filled(T::zero(), NUM_PREFLOP_CLASSES);
            assert forall|l: int| !stands_at(seams@, j as int, l) by {
                if stands_at(seams@, j as int, l) {
                    if l < k {
                        assert(seams@[l] < j);
                    } else if l > k {
                        assert(seams@[k as int] < seams@[l]);
                    }
                }
            }
            assert(v@ =~= goal[j as int]);
            cfv.push(v);
            assert forall|l: int| k <= l < n implies (#[trigger] seams@[l]) >= j + 1 by {
                assert(!stands_at(seams@, j as int, l));
            }
        }
        j += 1;
    }
    assert(views(cfv@) =~= goal);
    cfv
}

/// One traverser's share of an iteration: the chance nodes are valued, then the walk
/// goes up.
pub open spec fn is_round<
    T: Scalar,
    O: PostflopValueOracle<T>,
    E: Fn([u8; 3], &Vec<T>) -> Vec<T>,
    R: Fn([u8; 3], &Vec<T>) -> Vec<T>,
    G: Fn(&Vec<Vec<T>>) -> Vec<T>,
    H: Fn(&Vec<usize>, &Vec<Vec<T>>) -> Vec<T>,
    V: Fn(usize, u8, &Vec<Vec<T>>) -> Vec<T>,
>(
    sc: &Scene<T, E, R, G, H, V>,
    params: &DcfrParams<T>,
    t: u8,
    m: &PreflopVectorCfr<T>,
    o: &O,
    m2: &PreflopVectorCfr<T>,
    o2: &O,
) -> bool {
    exists|vs: Seq<Seq<T>>| #[trigger]
        sc.are_valued(t, o, o2, vs, sc.list.len()) && {
            let pass = Pass {
                m: *m,
                t,
                leaves: sc.list,
                given: given_values(sc.tree.size(), sc.list, vs),
                reach: sc.reach,
                f: sc.f,
            };
            &&& pass.plays_as(m2)
            &&& (m2.regrets@, m2.cum_strategy@) == pass.learned(
                &sc.tree,
                params,
                0,
                (m.regrets@, m.cum_strategy@),
            )
        }
}

/// The rounds of the first `n` traversers, in order.
pub open spec fn are_rounds<
    T: Scalar,
    O: PostflopValueOracle<T>,
    E: Fn([u8; 3], &Vec<T>) -> Vec<T>,
    R: Fn([u8; 3], &Vec<T>) -> Vec<T>,
    G: Fn(&Vec<Vec<T>>) -> Vec<T>,
    H: Fn(&Vec<usize>, &Vec<Vec<T>>) -> Vec<T>,
    V: Fn(usize, u8, &Vec<Vec<T>>) -> Vec<T>,
>(
    sc: &Scene<T, E, R, G, H, V>,
    params: &DcfrParams<T>,
    m: &PreflopVectorCfr<T>,
    o: &O,
    m2: &PreflopVectorCfr<T>,
    o2: &O,
    n: nat,
) -> bool
    decreases n,
{
    if n == 0 {
        *m2 == *m && *o2 == *o
    } else {
        exists|mm: PreflopVectorCfr<T>, mo: O|
            are_rounds(sc, params, m, o, &mm, &mo, (n - 1) as nat) && #[trigger] is_round(
                sc,
                params,
                (n - 1) as u8,
                &mm,
                &mo,
                m2,
                o2,
            )
    }
}

/// What an iteration works on: the solver with its strategies matched to the regrets,
/// its reach from full ranges, and the chance nodes of the tree.
pub open spec fn is_scene_of<T: Scalar, E, R, G, H, V>(
    sc: &Scene<T, E, R, G, H, V>,
    m: &PreflopVectorCfr<T>,
    matched: &PreflopVectorCfr<T>,
) -> bool {
    &&& matched.strategy@ == m.matched_upto(&sc.tree, sc.tree.decision_node_ids@.len())
    &&& *matched == (PreflopVectorCfr { strategy: matched.strategy, ..*m })
    &&& are_seams(&sc.tree, sc.list)
    &&& exists|reach: Seq<Vec<T>>| #[trigger]
        is_reach_table(&sc.tree, reach) && sc.reach == views(reach) && forall|i: int|
            sc.tree.is_node(i) ==> #[trigger] matched.row_done(
                &sc.tree,
                first_reach(None, sc.tree.np()),
                reach,
                i,
            )
}

/// One iteration: strategies are matched, the oracle is told, every traverser has its
/// round, the oracle is told again, and the count goes up.
pub open spec fn is_iteration<
    T: Widen,
    O: PostflopValueOracle<T>,
    E: Fn([u8; 3], &Vec<T>) -> Vec<T>,
    R: Fn([u8; 3], &Vec<T>) -> Vec<T>,
    G: Fn(&Vec<Vec<T>>) -> Vec<T>,
    H: Fn(&Vec<usize>, &Vec<Vec<T>>) -> Vec<T>,
    V: Fn(usize, u8, &Vec<Vec<T>>) -> Vec<T>,
>(
    sc: &Scene<T, E, R, G, H, V>,
    m: &PreflopVectorCfr<T>,
    o: &O,
    m2: &PreflopVectorCfr<T>,
    o2: &O,
) -> bool {
    exists|params: DcfrParams<T>, matched: PreflopVectorCfr<T>, o1: O, last: PreflopVectorCfr<T>, o3: O|
        #![trigger is_scene_of(sc, m, &matched), are_rounds(sc, &params, &matched, &o1, &last, &o3, sc.tree.np() as nat)]
        is_scene_of(sc, m, &matched) && (params.alpha(), params.beta(), params.gamma())
            == discounts::<T>(m.iteration as int) && o.s_begins(&o1, m.iteration) && are_rounds(
            sc,
            &params,
            &matched,
            &o1,
            &last,
            &o3,
            sc.tree.np() as nat,
        ) && o3.s_ends(o2, m.iteration) && *m2 == (PreflopVectorCfr {
            iteration: (m.iteration + 1) as u32,
            ..last
        })
}

/// The oracle takes every question about the table's flops.
pub open spec fn is_ready<
    T: Scalar,
    O: PostflopValueOracle<T>,
    E: Fn([u8; 3], &Vec<T>) -> Vec<T>,
    R: Fn([u8; 3], &Vec<T>) -> Vec<T>,
    G: Fn(&Vec<Vec<T>>) -> Vec<T>,
    H: Fn(&Vec<usize>, &Vec<Vec<T>>) -> Vec<T>,
>(tree: &FlatTree, table: &PreflopChanceTable<E, R, G, H>, o: &O) -> bool {
    forall|t: u8| t < tree.np() ==> #[trigger] can_ask(table, o, tree.np(), t, None)
}

/// The oracle takes every question about the cells of the tree, from traversers that are
/// still in.
pub open spec fn is_ready_for_cells<
    T: Scalar,
    O: PostflopValueOracle<T>,
    E: Fn([u8; 3], &Vec<T>) -> Vec<T>,
    R: Fn([u8; 3], &Vec<T>) -> Vec<T>,
    G: Fn(&Vec<Vec<T>>) -> Vec<T>,
    H: Fn(&Vec<usize>, &Vec<Vec<T>>) -> Vec<T>,
>(tree: &FlatTree, table: &PreflopChanceTable<E, R, G, H>, o: &O) -> bool {
    forall|t: u8, i: int, cell: SeamCell|
        #![trigger is_live(tree, i, t as int), cell.is_at(tree, i, tree.np() as nat)]
        t < tree.np() && is_seam(tree, i) && is_live(tree, i, t as int) && cell.is_at(
            tree,
            i,
            tree.np() as nat,
        ) ==> can_ask(table, o, tree.np(), t, Some((cell, tree.folded_masks@[i])))
}

/// Pots at the chance nodes can be counted.
pub open spec fn pots_fit(tree: &FlatTree) -> bool {
    forall|i: int, n: int|
        #![trigger is_seam(tree, i), pot_upto(tree, i, n as nat)]
        is_seam(tree, i) && 0 <= n <= tree.np() ==> i32::MIN <= pot_upto(tree, i, n as nat)
            <= i32::MAX
}

/// The parts of a scene, put together.
pub open spec fn scene<T, E, R, G, H, V>(
    tree: &FlatTree,
    table: &PreflopChanceTable<E, R, G, H>,
    f: &V,
    list: Seq<usize>,
    reach: Seq<Seq<T>>,
    plan: SeamPlan,
) -> Scene<T, E, R, G, H, V> {
    Scene { tree: *tree, table: *table, f: *f, list, reach, plan }
}

impl<T: Widen> PreflopVectorCfr<T> {
    /// One traverser's round.
    fn play_round<
        O: PostflopValueOracle<T>,
        E: Fn([u8; 3], &Vec<T>) -> Vec<T>,
        R: Fn([u8; 3], &Vec<T>) -> Vec<T>,
        G: Fn(&Vec<Vec<T>>) -> Vec<T>,
        H: Fn(&Vec<usize>, &Vec<Vec<T>>) -> Vec<T>,
        V: Fn(usize, u8, &Vec<Vec<T>>) -> Vec<T>,
    >(
        &mut self,
        tree: &FlatTree,
        table: &PreflopChanceTable<E, R, G, H>,
        f: &V,
        seams: &Vec<usize>,
        reach: &Vec<Vec<T>>,
        order: &SeamOrder,
        t: u8,
        oracle: &mut O,
        params: &DcfrParams<T>,
        Ghost(sc): Ghost<Scene<T, E, R, G, H, V>>,
    )
        requires
            sc.wf(),
            sc == scene(tree, table, f, seams@, views(reach@), order.plan()),
            are_seams(tree, seams@),
            ends_at_flop(tree),
            is_reach_table(tree, reach@),
            old(self).is_for(tree),
            t < tree.np(),
            sc.can_value(&*old(oracle), t),
        ensures
            final(self).is_for(tree),
            is_round(&sc, params, t, &*old(self), &*old(oracle), final(self), final(oracle)),
            takes_on(&*old(oracle), final(oracle)),
    {
        let vs = self.value_seams(
            tree,
            table,
            f,
            seams,
            reach,
            order,
            t,
            oracle,
            Ghost(sc),
        );
        let mut cfv = lay_out_values(tree, seams, &vs);
        proof {
            assert(reached(tree, 0));
            lemma_can_sweep(tree, seams@, 0);
        }
        let ghost given = views(cfv@);
        self.bottom_up_preflop_for_traverser(tree, t, seams, reach, f, &mut cfv, params);
        proof {
            let pass = Pass {
                m: *old(self),
                t,
                leaves: sc.list,
                given: given_values(sc.tree.size(), sc.list, views(vs@)),
                reach: sc.reach,
                f: sc.f,
            };
            assert(pass.given == given);
            assert(pass.plays_as(&*self));
            assert(sc.are_valued(t, &*old(oracle), &*oracle, views(vs@), sc.list.len()));
        }
    }

    /// One iteration by a plan. The chance nodes and the keys that they share come from
    /// `seams` and `order`.
    #[verifier::rlimit(40)]
    fn iterate<
        O: PostflopValueOracle<T>,
        E: Fn([u8; 3], &Vec<T>) -> Vec<T>,
        R: Fn([u8; 3], &Vec<T>) -> Vec<T>,
        G: Fn(&Vec<Vec<T>>) -> Vec<T>,
        H: Fn(&Vec<usize>, &Vec<Vec<T>>) -> Vec<T>,
        V: Fn(usize, u8, &Vec<Vec<T>>) -> Vec<T>,
    >(
        &mut self,
        tree: &FlatTree,
        table: &PreflopChanceTable<E, R, G, H>,
        oracle: &mut O,
        terminal_value_fn: &V,
        seams: &Vec<usize>,
        order: &SeamOrder,
    )
        requires
            old(self).is_for(tree),
            tree.np() <= 16,
            tree.size() * NUM_PREFLOP_CLASSES <= usize::MAX,
            ends_at_flop(tree),
            is_table(table),
            is_valuer(terminal_value_fn, tree.np()),
            old(self).iteration < u32::MAX,
            old(self).iteration != 0x8000_0000,
            are_seams(tree, seams@),
            forall|reach: Seq<Seq<T>>|
                reach.len() == tree.np() ==> (#[trigger] scene(
                    tree,
                    table,
                    terminal_value_fn,
                    seams@,
                    reach,
                    order.plan(),
                )).wf(),
            forall|reach: Seq<Seq<T>>, t: u8|
                t < tree.np() ==> #[trigger] scene(
                    tree,
                    table,
                    terminal_value_fn,
                    seams@,
                    reach,
                    order.plan(),
                ).can_value(&*old(oracle), t),
        ensures
            final(self).is_for(tree),
            exists|reach: Seq<Seq<T>>|
                is_iteration(
                    &#[trigger] scene(
                        tree,
                        table,
                        terminal_value_fn,
                        seams@,
                        reach,
                        order.plan(),
                    ),
                    &*old(self),
                    &*old(oracle),
                    final(self),
                    final(oracle),
                ),
    {
        let np: u8 = self.num_players;
        let it: u32 = self.iteration;
        self.compute_preflop_strategy(tree);
        let reach = self.compute_preflop_reach(tree, None);
        let params: DcfrParams<T> = DcfrParams::new(it);
        let ghost sc = scene(
            tree,
            table,
            terminal_value_fn,
            seams@,
            views(reach@),
            order.plan(),
        );
        let ghost matched = *self;
        proof {
            assert(sc.wf());
            assert(is_scene_of(&sc, &*old(self), &matched)) by {
                assert(is_reach_table(&sc.tree, reach@));
                assert(first_reach::<T>(None, tree.np()) == first_reach::<T>(None, sc.tree.np()));
                assert forall|i: int| sc.tree.is_node(i) implies #[trigger] matched.row_done(
                    &sc.tree,
                    first_reach(None, sc.tree.np()),
                    reach@,
                    i,
                ) by {
                    assert(tree.is_node(i));
                    assert(matched.row_done(tree, first_reach(None, tree.np()), reach@, i));
                }
            }
        }
        oracle.begin_preflop_iter(it);
        let ghost o1 = *oracle;
        proof {
            assert(takes_on(&*old(oracle), &o1)) by {
                assert forall|ask: FlopAsk<T>| old(oracle).s_takes(ask) implies #[trigger] o1.s_takes(
                    ask,
                ) by {
                    old(oracle).lemma_takes_on(&o1, it, ask);
                }
            }
        }
        let mut t: u8 = 0;
        while t < np
            invariant
                t <= np,
                np == tree.np(),
                self.is_for(tree),
                sc.wf(),
                sc == scene(
                    tree,
                    table,
                    terminal_value_fn,
                    seams@,
                    views(reach@),
                    order.plan(),
                ),
                are_seams(tree, seams@),
                ends_at_flop(tree),
                is_reach_table(tree, reach@),
                forall|t: u8| t < tree.np() ==> #[trigger] sc.can_value(&*old(oracle), t),
                takes_on(&*old(oracle), &*oracle),
                are_rounds(&sc, &params, &matched, &o1, &*self, &*oracle, t as nat),
            decreases np - t,
        {
            let ghost mm = *self;
            let ghost mo = *oracle;
            proof {
                assert(sc.can_value(&*old(oracle), t));
                sc.lemma_can_value_on(&*old(oracle), &mo, t);
            }
            self.play_round(
                tree,
                table,
                terminal_value_fn,
                seams,
                &reach,
                order,
                t,
                oracle,
                &params,
                Ghost(sc),
            );
            t += 1;
            proof {
                assert((t - 1) as nat == t - 1);
                assert(is_round(&sc, &params, (t - 1) as u8, &mm, &mo, &*self, &*oracle));
            }
        }
        let ghost last = *self;
        let ghost o3 = *oracle;
        oracle.end_preflop_iter(it);
        self.iteration = it + 1;
        proof {
            assert(is_scene_of(&sc, &*old(self), &matched));
            assert(are_rounds(&sc, &params, &matched, &o1, &last, &o3, sc.tree.np() as nat));
            assert(is_iteration(&sc, &*old(self), &*old(oracle), &*self, &*oracle));
        }
    }

    /// One iteration. Every chance node asks for its cell.
    pub fn run_one_iteration<
        O: PostflopValueOracle<T>,
        E: Fn([u8; 3], &Vec<T>) -> Vec<T>,
        R: Fn([u8; 3], &Vec<T>) -> Vec<T>,
        G: Fn(&Vec<Vec<T>>) -> Vec<T>,
        H: Fn(&Vec<usize>, &Vec<Vec<T>>) -> Vec<T>,
        V: Fn(usize, u8, &Vec<Vec<T>>) -> Vec<T>,
    >(
        &mut self,
        tree: &FlatTree,
        table: &PreflopChanceTable<E, R, G, H>,
        oracle: &mut O,
        terminal_value_fn: &V,
    )
        requires
            old(self).is_for(tree),
            tree.np() <= 16,
            tree.size() * NUM_PREFLOP_CLASSES <= usize::MAX,
            ends_at_flop(tree),
            is_table(table),
            is_valuer(terminal_value_fn, tree.np()),
            old(self).iteration < u32::MAX,
            old(self).iteration != 0x8000_0000,
            pots_fit(tree),
            is_ready_for_cells(tree, table, &*old(oracle)),
        ensures
            final(self).is_for(tree),
            exists|list: Seq<usize>, reach: Seq<Seq<T>>|
                is_iteration(
                    &#[trigger] scene(tree, table, terminal_value_fn, list, reach, SeamPlan::Every),
                    &*old(self),
                    &*old(oracle),
                    final(self),
                    final(oracle),
                ),
    {
        let seams = self.preflop_chance_node_indices(tree);
        let order = SeamOrder::Every;
        proof {
            lemma_cells_fit(tree, table, terminal_value_fn, &*oracle, seams@, order.plan());
        }
        self.iterate(tree, table, oracle, terminal_value_fn, &seams, &order);
    }

    /// One iteration over some flops. Every chance node asks, whatever its cell.
    pub fn run_one_iteration_subset<
        O: PostflopValueOracle<T>,
        E: Fn([u8; 3], &Vec<T>) -> Vec<T>,
        R: Fn([u8; 3], &Vec<T>) -> Vec<T>,
        G: Fn(&Vec<Vec<T>>) -> Vec<T>,
        H: Fn(&Vec<usize>, &Vec<Vec<T>>) -> Vec<T>,
        V: Fn(usize, u8, &Vec<Vec<T>>) -> Vec<T>,
    >(
        &mut self,
        tree: &FlatTree,
        table: &PreflopChanceTable<E, R, G, H>,
        subset_indices: &Vec<usize>,
        oracle: &mut O,
        terminal_value_fn: &V,
    )
        requires
            old(self).is_for(tree),
            tree.np() <= 16,
            tree.size() * NUM_PREFLOP_CLASSES <= usize::MAX,
            ends_at_flop(tree),
            is_table(table),
            is_valuer(terminal_value_fn, tree.np()),
            old(self).iteration < u32::MAX,
            old(self).iteration != 0x8000_0000,
            is_subset(Some(subset_indices@), table.canonical_flops@.len() as int),
            is_ready(tree, table, &*old(oracle)),
        ensures
            final(self).is_for(tree),
            exists|list: Seq<usize>, reach: Seq<Seq<T>>|
                is_iteration(
                    &#[trigger] scene(tree, table, terminal_value_fn, list, reach, SeamPlan::Subset(subset_indices@)),
                    &*old(self),
                    &*old(oracle),
                    final(self),
                    final(oracle),
                ),
    {
        let seams = self.preflop_chance_node_indices(tree);
        let order = SeamOrder::Subset(subset_indices);
        proof {
            assert forall|reach: Seq<Seq<T>>| reach.len() == tree.np() implies (#[trigger] scene(
                tree,
                table,
                terminal_value_fn,
                seams@,
                reach,
                order.plan(),
            )).wf() by {
                lemma_scene_wf(tree, table, terminal_value_fn, seams@, reach, order.plan());
            }
            assert forall|reach: Seq<Seq<T>>, t: u8|
                t < tree.np() implies #[trigger] scene(
                tree,
                table,
                terminal_value_fn,
                seams@,
                reach,
                order.plan(),
            ).can_value(&*oracle, t) by {
                assert(can_ask(table, &*oracle, tree.np(), t, None));
            }
        }
        self.iterate(tree, table, oracle, terminal_value_fn, &seams, &order);
    }

    /// One iteration in which chance nodes of one key share one value per traverser.
    pub fn run_one_iteration_shared_chance<
        O: PostflopValueOracle<T>,
        E: Fn([u8; 3], &Vec<T>) -> Vec<T>,
        R: Fn([u8; 3], &Vec<T>) -> Vec<T>,
        G: Fn(&Vec<Vec<T>>) -> Vec<T>,
        H: Fn(&Vec<usize>, &Vec<Vec<T>>) -> Vec<T>,
        V: Fn(usize, u8, &Vec<Vec<T>>) -> Vec<T>,
        K: Fn(usize) -> u64,
    >(
        &mut self,
        tree: &FlatTree,
        table: &PreflopChanceTable<E, R, G, H>,
        oracle: &mut O,
        terminal_value_fn: &V,
        chance_key: &K,
    )
        requires
            old(self).is_for(tree),
            tree.np() <= 16,
            tree.size() * NUM_PREFLOP_CLASSES <= usize::MAX,
            ends_at_flop(tree),
            is_table(table),
            is_valuer(terminal_value_fn, tree.np()),
            old(self).iteration < u32::MAX,
            old(self).iteration != 0x8000_0000,
            pots_fit(tree),
            is_ready_for_cells(tree, table, &*old(oracle)),
            answers_one(chance_key),
        ensures
            final(self).is_for(tree),
            exists|list: Seq<usize>, reach: Seq<Seq<T>>|
                is_iteration(
                    &#[trigger] scene(
                        tree,
                        table,
                        terminal_value_fn,
                        list,
                        reach,
                        SeamPlan::Keyed(keys_of(chance_key, list)),
                    ),
                    &*old(self),
                    &*old(oracle),
                    final(self),
                    final(oracle),
                ),
    {
        let seams = self.preflop_chance_node_indices(tree);
        let n: usize = seams.len();
        let mut keys: Vec<u64> = Vec::new();
        let mut k: usize = 0;
        while k < n
            invariant
                k <= n,
                n == seams@.len(),
                answers_one(chance_key),
                keys@.len() == k,
                forall|l: int|
                    0 <= l < k ==> #[trigger] keys@[l] == answer_one(chance_key, seams@[l]),
            decreases n - k,
        {
            keys.push(ask_one(chance_key, seams[k]));
            k += 1;
        }
        assert(keys@ =~= keys_of(chance_key, seams@));
        let order = SeamOrder::Keyed(&keys);
        proof {
            lemma_cells_fit(tree, table, terminal_value_fn, &*oracle, seams@, order.plan());
        }
        self.iterate(tree, table, oracle, terminal_value_fn, &seams, &order);
    }
}

impl<T: Scalar> PreflopVectorCfr<T> {
    /// The key by which chance nodes share a value: the bucket of the cell at the node.
    pub fn seam_bucket_chance_key(tree: &FlatTree, np: usize, stack: i32, chance_idx: usize) -> (k:
        u64)
        requires
            tree.wf(),
            tree.is_node(chance_idx as int),
            np <= tree.np(),
            np <= 16,
            forall|n: int|
                0 <= n <= np ==> i32::MIN <= #[trigger] pot_upto(
                    tree,
                    chance_idx as int,
                    n as nat,
                ) <= i32::MAX,
            i32::MIN <= stack - commit_upto(tree, chance_idx as int, np as nat) <= i32::MAX,
        ensures
            is_seam_key(tree, np as nat, stack as int, chance_idx as int, k),
    {
        seam_bucket_chance_key(tree, np, stack, chance_idx)
    }
}

/// The chance nodes' keys.
pub open spec fn keys_of<K: Fn(usize) -> u64>(chance_key: &K, list: Seq<usize>) -> Seq<u64> {
    Seq::new(list.len(), |k: int| answer_one(chance_key, list[k]))
}

proof fn lemma_scene_wf<
    T: Scalar,
    E: Fn([u8; 3], &Vec<T>) -> Vec<T>,
    R: Fn([u8; 3], &Vec<T>) -> Vec<T>,
    G: Fn(&Vec<Vec<T>>) -> Vec<T>,
    H: Fn(&Vec<usize>, &Vec<Vec<T>>) -> Vec<T>,
    V: Fn(usize, u8, &Vec<Vec<T>>) -> Vec<T>,
>(
    tree: &FlatTree,
    table: &PreflopChanceTable<E, R, G, H>,
    f: &V,
    list: Seq<usize>,
    reach: Seq<Seq<T>>,
    plan: SeamPlan,
)
    requires
        tree.wf(),
        tree.np() <= 16,
        is_table(table),
        is_valuer(f, tree.np()),
        are_seams(tree, list),
        reach.len() == tree.np(),
        plan is Subset || pots_fit(tree),
        plan matches SeamPlan::Subset(ix) ==> is_subset(
            Some(ix),
            table.canonical_flops@.len() as int,
        ),
        plan matches SeamPlan::Keyed(keys) ==> keys.len() == list.len(),
    ensures
        scene(tree, table, f, list, reach, plan).wf(),
{
    let sc = scene(tree, table, f, list, reach, plan);
    assert forall|k: int| 0 <= k < sc.list.len() implies sc.tree.is_node(
        (#[trigger] sc.list[k]) as int,
    ) by {
        assert(is_seam(tree, list[k] as int));
    }
    assert forall|k: int, n: int|
        #![trigger sc.list[k], pot_upto(&sc.tree, sc.list[k] as int, n as nat)]
        !(plan is Subset) && 0 <= k < sc.list.len() && 0 <= n <= sc.tree.np() implies i32::MIN <= pot_upto(
        &sc.tree,
        sc.list[k] as int,
        n as nat,
    ) <= i32::MAX by {
        assert(is_seam(tree, list[k] as int));
    }
}

proof fn lemma_cells_fit<
    T: Scalar,
    O: PostflopValueOracle<T>,
    E: Fn([u8; 3], &Vec<T>) -> Vec<T>,
    R: Fn([u8; 3], &Vec<T>) -> Vec<T>,
    G: Fn(&Vec<Vec<T>>) -> Vec<T>,
    H: Fn(&Vec<usize>, &Vec<Vec<T>>) -> Vec<T>,
    V: Fn(usize, u8, &Vec<Vec<T>>) -> Vec<T>,
>(
    tree: &FlatTree,
    table: &PreflopChanceTable<E, R, G, H>,
    f: &V,
    o: &O,
    list: Seq<usize>,
    plan: SeamPlan,
)
    requires
        tree.wf(),
        tree.np() <= 16,
        is_table(table),
        is_valuer(f, tree.np()),
        are_seams(tree, list),
        pots_fit(tree),
        is_ready_for_cells(tree, table, o),
        !(plan is Subset),
        plan matches SeamPlan::Keyed(keys) ==> keys.len() == list.len(),
    ensures
        forall|reach: Seq<Seq<T>>|
            reach.len() == tree.np() ==> (#[trigger] scene(tree, table, f, list, reach, plan)).wf(),
        forall|reach: Seq<Seq<T>>, t: u8|
            t < tree.np() ==> #[trigger] scene(tree, table, f, list, reach, plan).can_value(o, t),
{
    assert forall|reach: Seq<Seq<T>>| reach.len() == tree.np() implies (#[trigger] scene(
        tree,
        table,
        f,
        list,
        reach,
        plan,
    )).wf() by {
        lemma_scene_wf(tree, table, f, list, reach, plan);
    }
    assert forall|reach: Seq<Seq<T>>, t: u8| t < tree.np() implies #[trigger] scene(
        tree,
        table,
        f,
        list,
        reach,
        plan,
    ).can_value(o, t) by {
        let sc = scene(tree, table, f, list, reach, plan);
        assert forall|k: int, cell: SeamCell|
            #![trigger sc.is_cell(sc.list[k] as int, cell)]
            0 <= k < sc.list.len() && is_live(&sc.tree, sc.list[k] as int, t as int) && sc.is_cell(
                sc.list[k] as int,
                cell,
            ) implies can_ask(
            &sc.table,
            o,
            sc.tree.np(),
            t,
            Some((cell, sc.tree.folded_masks@[sc.list[k] as int])),
        ) by {
            let i = list[k] as int;
            assert(is_seam(tree, i));
            assert(is_live(tree, i, t as int));
            assert(cell.is_at(tree, i, tree.np() as nat));
        }
    }
}

} // verus!
