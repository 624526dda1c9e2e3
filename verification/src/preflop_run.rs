//! Iterations of the solver before the flop.
use vstd::prelude::*;

use crate::layout::row_copy;
use crate::postflop_oracle::{is_live, FlopAsk, PostflopValueOracle, SeamCell};
use crate::preflop_cfr::PreflopVectorCfr;
use crate::preflop_class::NUM_PREFLOP_CLASSES;
use crate::preflop_reach::is_reach_table;
use crate::preflop_walk::{has_row, is_valuer, lemma_has_row, rows_at, rows_of, value_node, valued};
use crate::pseudo_harmonic::pot_upto;
use crate::scalar::Scalar;
use crate::terminal::views;
use crate::tree::FlatTree;

verus! {

/// The flops that stand for all flops, and the way from class rows to their pairs of
/// cards and back: `expand` spreads a row of classes over the pairs of a flop, `reduce`
/// gathers the pairs' values into classes, and `aggregate` and `aggregate_subset` weigh
/// the flops' values together, all of them or some.
pub struct PreflopChanceTable<E, R, G, H> {
    pub canonical_flops: Vec<[u8; 3]>,
    pub expand: E,
    pub reduce: R,
    pub aggregate: G,
    pub aggregate_subset: H,
}

/// Closure `f` turns row `a` into row `b` on a flop.
pub open spec fn turns_row<T, F: Fn([u8; 3], &Vec<T>) -> Vec<T>>(
    f: &F,
    flop: [u8; 3],
    a: Vec<T>,
    b: Vec<T>,
) -> bool {
    call_ensures(*f, (flop, &a), b)
}

/// The same on the rows' contents.
pub open spec fn turns<T, F: Fn([u8; 3], &Vec<T>) -> Vec<T>>(
    f: &F,
    flop: [u8; 3],
    x: Seq<T>,
    y: Seq<T>,
) -> bool {
    exists|a: Vec<T>, b: Vec<T>| a@ == x && #[trigger] turns_row(f, flop, a, b) && b@ == y
}

/// Closure `f` weighs these rows so.
pub open spec fn weighs<T, F: Fn(&Vec<Vec<T>>) -> Vec<T>>(f: &F, vs: Vec<Vec<T>>, v: Vec<T>) -> bool {
    call_ensures(*f, (&vs,), v)
}

/// Closure `f` weighs these rows of some flops so.
pub open spec fn weighs_some<T, F: Fn(&Vec<usize>, &Vec<Vec<T>>) -> Vec<T>>(
    f: &F,
    subset: Vec<usize>,
    vs: Vec<Vec<T>>,
    v: Vec<T>,
) -> bool {
    call_ensures(*f, (&subset, &vs), v)
}

/// Every row of `ranges` is the expansion of a row of `rows`.
pub open spec fn expanded<T, E: Fn([u8; 3], &Vec<T>) -> Vec<T>>(
    f: &E,
    flop: [u8; 3],
    rows: Seq<Seq<T>>,
    ranges: Seq<Seq<T>>,
) -> bool {
    &&& ranges.len() == rows.len()
    &&& forall|p: int| 0 <= p < rows.len() ==> #[trigger] turns(f, flop, rows[p], ranges[p])
}

/// One row of classes each.
pub open spec fn are_classes<T>(rows: Seq<Seq<T>>, n: int) -> bool {
    &&& rows.len() == n
    &&& forall|p: int| 0 <= p < n ==> (#[trigger] rows[p]).len() == NUM_PREFLOP_CLASSES
}

/// The closures take what they are given, and give rows of the right widths.
pub open spec fn is_table<
    T,
    E: Fn([u8; 3], &Vec<T>) -> Vec<T>,
    R: Fn([u8; 3], &Vec<T>) -> Vec<T>,
    G: Fn(&Vec<Vec<T>>) -> Vec<T>,
    H: Fn(&Vec<usize>, &Vec<Vec<T>>) -> Vec<T>,
>(t: &PreflopChanceTable<E, R, G, H>) -> bool {
    &&& forall|flop: [u8; 3], a: &Vec<T>|
        a@.len() == NUM_PREFLOP_CLASSES ==> #[trigger] call_requires(t.expand, (flop, a))
    &&& forall|flop: [u8; 3], a: Vec<T>, b: Vec<T>, c: Vec<T>, d: Vec<T>| #[trigger]
        turns_row(&t.expand, flop, a, b) && #[trigger] turns_row(&t.expand, flop, c, d)
            ==> b@.len() == d@.len()
    &&& forall|flop: [u8; 3], a: Vec<T>, b: Vec<T>, v: &Vec<T>|
        #![trigger turns_row(&t.expand, flop, a, b), call_requires(t.reduce, (flop, v))]
        turns_row(&t.expand, flop, a, b) && v@.len() == b@.len() ==> call_requires(
            t.reduce,
            (flop, v),
        )
    &&& forall|flop: [u8; 3], a: Vec<T>, b: Vec<T>| #[trigger]
        turns_row(&t.reduce, flop, a, b) ==> b@.len() == NUM_PREFLOP_CLASSES
    &&& forall|vs: &Vec<Vec<T>>|
        are_classes(views(vs@), t.canonical_flops@.len() as int) ==> #[trigger] call_requires(
            t.aggregate,
            (vs,),
        )
    &&& forall|vs: Vec<Vec<T>>, v: Vec<T>| #[trigger]
        weighs(&t.aggregate, vs, v) ==> v@.len() == NUM_PREFLOP_CLASSES
    &&& forall|ix: &Vec<usize>, vs: &Vec<Vec<T>>|
        are_classes(views(vs@), ix@.len() as int) ==> #[trigger] call_requires(
            t.aggregate_subset,
            (ix, vs),
        )
    &&& forall|ix: Vec<usize>, vs: Vec<Vec<T>>, v: Vec<T>| #[trigger]
        weighs_some(&t.aggregate_subset, ix, vs, v) ==> v@.len() == NUM_PREFLOP_CLASSES
}

/// One flop: the rows are expanded, the oracle is asked, and its answer is reduced.
pub open spec fn flop_valued<
    T: Scalar,
    O: PostflopValueOracle<T>,
    E: Fn([u8; 3], &Vec<T>) -> Vec<T>,
    R: Fn([u8; 3], &Vec<T>) -> Vec<T>,
    G,
    H,
>(
    t: &PreflopChanceTable<E, R, G, H>,
    o: &O,
    o2: &O,
    flop: [u8; 3],
    rows: Seq<Seq<T>>,
    traverser: u8,
    cell: Option<(SeamCell, u16)>,
    v: Seq<T>,
) -> bool {
    exists|ranges: Seq<Seq<T>>, vc: Seq<T>|
        #![trigger expanded(&t.expand, flop, rows, ranges), turns(&t.reduce, flop, vc, v)]
        expanded(&t.expand, flop, rows, ranges) && o.s_answers(
            o2,
            FlopAsk { flop: flop@, ranges, traverser, cell },
            vc,
        ) && turns(&t.reduce, flop, vc, v)
}

/// The first `n` flops of a list, one after the other.
pub open spec fn flops_valued<
    T: Scalar,
    O: PostflopValueOracle<T>,
    E: Fn([u8; 3], &Vec<T>) -> Vec<T>,
    R: Fn([u8; 3], &Vec<T>) -> Vec<T>,
    G,
    H,
>(
    t: &PreflopChanceTable<E, R, G, H>,
    o: &O,
    o2: &O,
    flops: Seq<[u8; 3]>,
    rows: Seq<Seq<T>>,
    traverser: u8,
    cell: Option<(SeamCell, u16)>,
    vs: Seq<Seq<T>>,
    n: nat,
) -> bool
    decreases n,
{
    if n == 0 {
        *o2 == *o && vs.len() == 0
    } else {
        vs.len() == n && exists|mid: O|
            flops_valued(
                t,
                o,
                &mid,
                flops,
                rows,
                traverser,
                cell,
                vs.drop_last(),
                (n - 1) as nat,
            ) && #[trigger] flop_valued(
                t,
                &mid,
                o2,
                flops[n - 1],
                rows,
                traverser,
                cell,
                vs.last(),
            )
    }
}

/// The flops that are asked for: all, or those of a subset.
pub open spec fn chosen_flops(all: Seq<[u8; 3]>, subset: Option<Seq<usize>>) -> Seq<[u8; 3]> {
    match subset {
        None => all,
        Some(ix) => Seq::new(ix.len(), |k: int| all[ix[k] as int]),
    }
}

/// The flops' values, weighed together.
pub open spec fn aggregated<
    T,
    E,
    R,
    G: Fn(&Vec<Vec<T>>) -> Vec<T>,
    H: Fn(&Vec<usize>, &Vec<Vec<T>>) -> Vec<T>,
>(
    t: &PreflopChanceTable<E, R, G, H>,
    subset: Option<Seq<usize>>,
    vs: Seq<Seq<T>>,
    v: Seq<T>,
) -> bool {
    match subset {
        None => exists|rows: Vec<Vec<T>>, out: Vec<T>|
            views(rows@) == vs && #[trigger] weighs(&t.aggregate, rows, out) && out@ == v,
        Some(ix) => exists|list: Vec<usize>, rows: Vec<Vec<T>>, out: Vec<T>|
            list@ == ix && views(rows@) == vs && #[trigger] weighs_some(
                &t.aggregate_subset,
                list,
                rows,
                out,
            ) && out@ == v,
    }
}

/// A chance node's value: every flop's, weighed together.
pub open spec fn chance_valued<
    T: Scalar,
    O: PostflopValueOracle<T>,
    E: Fn([u8; 3], &Vec<T>) -> Vec<T>,
    R: Fn([u8; 3], &Vec<T>) -> Vec<T>,
    G: Fn(&Vec<Vec<T>>) -> Vec<T>,
    H: Fn(&Vec<usize>, &Vec<Vec<T>>) -> Vec<T>,
>(
    t: &PreflopChanceTable<E, R, G, H>,
    o: &O,
    o2: &O,
    subset: Option<Seq<usize>>,
    rows: Seq<Seq<T>>,
    traverser: u8,
    cell: Option<(SeamCell, u16)>,
    v: Seq<T>,
) -> bool {
    let flops = chosen_flops(t.canonical_flops@, subset);
    exists|vs: Seq<Seq<T>>| #[trigger]
        flops_valued(t, o, o2, flops, rows, traverser, cell, vs, flops.len()) && aggregated(
            t,
            subset,
            vs,
            v,
        )
}

/// The oracle takes every question about the table's flops.
pub open spec fn can_ask<
    T: Scalar,
    O: PostflopValueOracle<T>,
    E: Fn([u8; 3], &Vec<T>) -> Vec<T>,
    R,
    G,
    H,
>(
    t: &PreflopChanceTable<E, R, G, H>,
    o: &O,
    np: int,
    traverser: u8,
    cell: Option<(SeamCell, u16)>,
) -> bool {
    forall|flop: [u8; 3], rows: Seq<Seq<T>>, ranges: Seq<Seq<T>>|
        are_classes(rows, np) && t.canonical_flops@.contains(flop) && #[trigger] expanded(
            &t.expand,
            flop,
            rows,
            ranges,
        ) ==> o.s_takes(FlopAsk { flop: flop@, ranges, traverser, cell })
}

/// `o2` takes every question that `o` took.
pub open spec fn takes_on<T: Scalar, O: PostflopValueOracle<T>>(o: &O, o2: &O) -> bool {
    forall|ask: FlopAsk<T>| o.s_takes(ask) ==> #[trigger] o2.s_takes(ask)
}

/// Expands every player's row.
fn expand_rows<T: Scalar, E: Fn([u8; 3], &Vec<T>) -> Vec<T>>(f: &E, flop: [u8; 3], rows: &Vec<Vec<T>>) -> (
ranges: Vec<Vec<T>>)
    requires
        forall|p: int| 0 <= p < rows@.len() ==> (#[trigger] rows@[p])@.len() == NUM_PREFLOP_CLASSES,
        forall|a: &Vec<T>|
            a@.len() == NUM_PREFLOP_CLASSES ==> #[trigger] call_requires(*f, (flop, a)),
    ensures
        expanded(f, flop, views(rows@), views(ranges@)),
        forall|p: int|
            0 <= p < rows@.len() ==> turns_row(f, flop, rows@[p], #[trigger] ranges@[p]),
{
    let np: usize = rows.len();
    let mut ranges: Vec<Vec<T>> = Vec::new();
    let mut p: usize = 0;
    while p < np
        invariant
            p <= np,
            np == rows@.len(),
            forall|q: int|
                0 <= q < rows@.len() ==> (#[trigger] rows@[q])@.len() == NUM_PREFLOP_CLASSES,
            forall|a: &Vec<T>|
                a@.len() == NUM_PREFLOP_CLASSES ==> #[trigger] call_requires(*f, (flop, a)),
            ranges@.len() == p,
            forall|q: int| 0 <= q < p ==> turns_row(f, flop, rows@[q], #[trigger] ranges@[q]),
        decreases np - p,
    {
        let a = &rows[p];
        assert(a@.len() == NUM_PREFLOP_CLASSES);
        let b = f(flop, a);
        assert(turns_row(f, flop, rows@[p as int], b));
        ranges.push(b);
        p += 1;
    }
    proof {
        assert forall|q: int| 0 <= q < views(rows@).len() implies #[trigger] turns(
            f,
            flop,
            views(rows@)[q],
            views(ranges@)[q],
        ) by {
            assert(turns_row(f, flop, rows@[q], ranges@[q]));
        }
    }
    ranges
}

/// Values one flop.
fn value_one_flop<
    T: Scalar,
    O: PostflopValueOracle<T>,
    E: Fn([u8; 3], &Vec<T>) -> Vec<T>,
    R: Fn([u8; 3], &Vec<T>) -> Vec<T>,
    G: Fn(&Vec<Vec<T>>) -> Vec<T>,
    H: Fn(&Vec<usize>, &Vec<Vec<T>>) -> Vec<T>,
>(
    table: &PreflopChanceTable<E, R, G, H>,
    oracle: &mut O,
    flop: [u8; 3],
    rows: &Vec<Vec<T>>,
    traverser: u8,
    cell: Option<(SeamCell, u16)>,
) -> (v: Vec<T>)
    requires
        is_table(table),
        0 < rows@.len(),
        are_classes(views(rows@), rows@.len() as int),
        table.canonical_flops@.contains(flop),
        can_ask(table, &*old(oracle), rows@.len() as int, traverser, cell),
    ensures
        flop_valued(
            table,
            &*old(oracle),
            final(oracle),
            flop,
            views(rows@),
            traverser,
            cell,
            v@,
        ),
        takes_on(&*old(oracle), final(oracle)),
        v@.len() == NUM_PREFLOP_CLASSES,
{
    proof {
        assert forall|p: int| 0 <= p < rows@.len() implies (#[trigger] rows@[p])@.len()
            == NUM_PREFLOP_CLASSES by {
            assert(views(rows@)[p].len() == NUM_PREFLOP_CLASSES);
        }
    }
    let ranges = expand_rows(&table.expand, flop, rows);
    let ghost ask = FlopAsk { flop: flop@, ranges: views(ranges@), traverser, cell };
    let vc = match cell {
        Some((c, mask)) => oracle.flop_root_cfv_for_cell(flop, &ranges, traverser, c, mask),
        None => oracle.flop_root_cfv(flop, &ranges, traverser),
    };
    proof {
        let o = &*old(oracle);
        let o2 = &*oracle;
        assert(o.s_answers(o2, ask, vc@));
        let n = ranges@[0]@.len() as int;
        assert(turns_row(&table.expand, flop, rows@[0], ranges@[0]));
        assert(ask.is_even(n)) by {
            assert forall|p: int| 0 <= p < ask.ranges.len() implies (#[trigger] ask.ranges[p]).len()
                == n by {
                assert(turns_row(&table.expand, flop, rows@[p], ranges@[p]));
            }
        }
        o.lemma_even(o2, ask, vc@, n);
        assert forall|other: FlopAsk<T>| o.s_takes(other) implies #[trigger] o2.s_takes(other) by {
            o.lemma_still_takes(o2, ask, vc@, other);
        }
        assert(call_requires(table.reduce, (flop, &vc)));
    }
    let f = &table.reduce;
    let v = f(flop, &vc);
    proof {
        assert(turns_row(&table.reduce, flop, vc, v));
        assert(turns(&table.reduce, flop, vc@, v@));
        assert(expanded(&table.expand, flop, views(rows@), views(ranges@)));
    }
    v
}

/// Weighs the flops' values together.
fn weigh<
    T: Scalar,
    E: Fn([u8; 3], &Vec<T>) -> Vec<T>,
    R: Fn([u8; 3], &Vec<T>) -> Vec<T>,
    G: Fn(&Vec<Vec<T>>) -> Vec<T>,
    H: Fn(&Vec<usize>, &Vec<Vec<T>>) -> Vec<T>,
>(table: &PreflopChanceTable<E, R, G, H>, subset: Option<&Vec<usize>>, vs: &Vec<Vec<T>>) -> (v: Vec<
    T,
>)
    requires
        is_table(table),
        are_classes(
            views(vs@),
            match subset {
                None => table.canonical_flops@.len() as int,
                Some(ix) => ix@.len() as int,
            },
        ),
    ensures
        aggregated(table, subset_of(subset), views(vs@), v@),
        v@.len() == NUM_PREFLOP_CLASSES,
{
    match subset {
        None => {
            let f = &table.aggregate;
            let v = f(vs);
            assert(weighs(&table.aggregate, *vs, v));
            v
        },
        Some(ix) => {
            let f = &table.aggregate_subset;
            let v = f(ix, vs);
            assert(weighs_some(&table.aggregate_subset, *ix, *vs, v));
            v
        },
    }
}

/// The indices of a subset.
pub open spec fn subset_of(subset: Option<&Vec<usize>>) -> Option<Seq<usize>> {
    match subset {
        None => None,
        Some(ix) => Some(ix@),
    }
}

/// The subset holds flops of the table.
pub open spec fn is_subset(subset: Option<Seq<usize>>, n: int) -> bool {
    match subset {
        None => true,
        Some(ix) => forall|k: int| 0 <= k < ix.len() ==> (#[trigger] ix[k]) < n,
    }
}

/// Values a chance node from its class rows.
fn value_chance<
    T: Scalar,
    O: PostflopValueOracle<T>,
    E: Fn([u8; 3], &Vec<T>) -> Vec<T>,
    R: Fn([u8; 3], &Vec<T>) -> Vec<T>,
    G: Fn(&Vec<Vec<T>>) -> Vec<T>,
    H: Fn(&Vec<usize>, &Vec<Vec<T>>) -> Vec<T>,
>(
    table: &PreflopChanceTable<E, R, G, H>,
    oracle: &mut O,
    subset: Option<&Vec<usize>>,
    rows: &Vec<Vec<T>>,
    traverser: u8,
    cell: Option<(SeamCell, u16)>,
) -> (v: Vec<T>)
    requires
        is_table(table),
        is_subset(subset_of(subset), table.canonical_flops@.len() as int),
        0 < rows@.len(),
        are_classes(views(rows@), rows@.len() as int),
        can_ask(table, &*old(oracle), rows@.len() as int, traverser, cell),
    ensures
        chance_valued(
            table,
            &*old(oracle),
            final(oracle),
            subset_of(subset),
            views(rows@),
            traverser,
            cell,
            v@,
        ),
        takes_on(&*old(oracle), final(oracle)),
        v@.len() == NUM_PREFLOP_CLASSES,
{
    let ghost flops = chosen_flops(table.canonical_flops@, subset_of(subset));
    let ghost start = *oracle;
    let n: usize = match subset {
        None => table.canonical_flops.len(),
        Some(ix) => ix.len(),
    };
    let mut vs: Vec<Vec<T>> = Vec::new();
    let mut k: usize = 0;
    assert(views(vs@) =~= Seq::empty());
    while k < n
        invariant
            k <= n,
            n == flops.len(),
            flops == chosen_flops(table.canonical_flops@, subset_of(subset)),
            is_table(table),
            is_subset(subset_of(subset), table.canonical_flops@.len() as int),
            0 < rows@.len(),
            are_classes(views(rows@), rows@.len() as int),
            can_ask(table, &start, rows@.len() as int, traverser, cell),
            takes_on(&start, &*oracle),
            vs@.len() == k,
            forall|l: int| 0 <= l < k ==> (#[trigger] vs@[l])@.len() == NUM_PREFLOP_CLASSES,
            flops_valued(
                table,
                &start,
                &*oracle,
                flops,
                views(rows@),
                traverser,
                cell,
                views(vs@),
                k as nat,
            ),
        decreases n - k,
    {
        let at: usize = match subset {
            None => k,
            Some(ix) => {
                assert(ix@[k as int] < table.canonical_flops@.len());
                ix[k]
            },
        };
        let flop = table.canonical_flops[at];
        assert(flop == flops[k as int]);
        assert(table.canonical_flops@.contains(flop));
        let ghost mid = *oracle;
        let ghost was = views(vs@);
        assert(can_ask(table, &mid, rows@.len() as int, traverser, cell)) by {
            assert forall|flop: [u8; 3], rw: Seq<Seq<T>>, ranges: Seq<Seq<T>>|
                are_classes(rw, rows@.len() as int) && table.canonical_flops@.contains(flop)
                    && #[trigger] expanded(&table.expand, flop, rw, ranges) implies mid.s_takes(
                FlopAsk { flop: flop@, ranges, traverser, cell },
            ) by {
                assert(start.s_takes(FlopAsk { flop: flop@, ranges, traverser, cell }));
            }
        }
        let v = value_one_flop(table, oracle, flop, rows, traverser, cell);
        vs.push(v);
        k += 1;
        proof {
            let now = views(vs@);
            assert(now =~= was.push(v@));
            assert(now.drop_last() =~= was);
            assert((k - 1) as nat == k - 1);
            assert(flop_valued(
                table,
                &mid,
                &*oracle,
                flops[k - 1],
                views(rows@),
                traverser,
                cell,
                now.last(),
            ));
        }
    }
    assert(are_classes(views(vs@), n as int));
    let v = weigh(table, subset, &vs);
    assert(flops_valued(
        table,
        &start,
        &*oracle,
        flops,
        views(rows@),
        traverser,
        cell,
        views(vs@),
        flops.len(),
    ));
    v
}

impl<T: Scalar> PreflopVectorCfr<T> {
    /// The traverser's value of a chance node, over all flops.
    pub fn compute_chance_node_cfv_with_expansion<
        O: PostflopValueOracle<T>,
        E: Fn([u8; 3], &Vec<T>) -> Vec<T>,
        R: Fn([u8; 3], &Vec<T>) -> Vec<T>,
        G: Fn(&Vec<Vec<T>>) -> Vec<T>,
        H: Fn(&Vec<usize>, &Vec<Vec<T>>) -> Vec<T>,
    >(
        &self,
        chance_node_idx: usize,
        traverser: u8,
        reach: &Vec<Vec<T>>,
        table: &PreflopChanceTable<E, R, G, H>,
        oracle: &mut O,
    ) -> (v: Vec<T>)
        requires
            is_table(table),
            0 < reach@.len(),
            has_row(reach@, chance_node_idx as int),
            can_ask(table, &*old(oracle), reach@.len() as int, traverser, None),
        ensures
            chance_valued(
                table,
                &*old(oracle),
                final(oracle),
                None,
                rows_at(views(reach@), chance_node_idx as int),
                traverser,
                None,
                v@,
            ),
            takes_on(&*old(oracle), final(oracle)),
            v@.len() == NUM_PREFLOP_CLASSES,
    {
        self.chance_cfv_expansion_inner(
            chance_node_idx,
            traverser,
            reach,
            table,
            None,
            oracle,
            None,
        )
    }

    /// The same for a chance node that is entered through a cell.
    pub fn compute_chance_node_cfv_with_expansion_for_cell<
        O: PostflopValueOracle<T>,
        E: Fn([u8; 3], &Vec<T>) -> Vec<T>,
        R: Fn([u8; 3], &Vec<T>) -> Vec<T>,
        G: Fn(&Vec<Vec<T>>) -> Vec<T>,
        H: Fn(&Vec<usize>, &Vec<Vec<T>>) -> Vec<T>,
    >(
        &self,
        chance_node_idx: usize,
        traverser: u8,
        reach: &Vec<Vec<T>>,
        table: &PreflopChanceTable<E, R, G, H>,
        oracle: &mut O,
        cell: SeamCell,
        folded_mask: u16,
    ) -> (v: Vec<T>)
        requires
            is_table(table),
            0 < reach@.len(),
            has_row(reach@, chance_node_idx as int),
            can_ask(
                table,
                &*old(oracle),
                reach@.len() as int,
                traverser,
                Some((cell, folded_mask)),
            ),
        ensures
            chance_valued(
                table,
                &*old(oracle),
                final(oracle),
                None,
                rows_at(views(reach@), chance_node_idx as int),
                traverser,
                Some((cell, folded_mask)),
                v@,
            ),
            takes_on(&*old(oracle), final(oracle)),
            v@.len() == NUM_PREFLOP_CLASSES,
    {
        self.chance_cfv_expansion_inner(
            chance_node_idx,
            traverser,
            reach,
            table,
            None,
            oracle,
            Some((cell, folded_mask)),
        )
    }

    /// The traverser's value of a chance node, over some flops.
    pub fn compute_chance_node_cfv_with_expansion_subset<
        O: PostflopValueOracle<T>,
        E: Fn([u8; 3], &Vec<T>) -> Vec<T>,
        R: Fn([u8; 3], &Vec<T>) -> Vec<T>,
        G: Fn(&Vec<Vec<T>>) -> Vec<T>,
        H: Fn(&Vec<usize>, &Vec<Vec<T>>) -> Vec<T>,
    >(
        &self,
        chance_node_idx: usize,
        traverser: u8,
        reach: &Vec<Vec<T>>,
        table: &PreflopChanceTable<E, R, G, H>,
        subset_indices: &Vec<usize>,
        oracle: &mut O,
    ) -> (v: Vec<T>)
        requires
            is_table(table),
            is_subset(Some(subset_indices@), table.canonical_flops@.len() as int),
            0 < reach@.len(),
            has_row(reach@, chance_node_idx as int),
            can_ask(table, &*old(oracle), reach@.len() as int, traverser, None),
        ensures
            chance_valued(
                table,
                &*old(oracle),
                final(oracle),
                Some(subset_indices@),
                rows_at(views(reach@), chance_node_idx as int),
                traverser,
                None,
                v@,
            ),
            takes_on(&*old(oracle), final(oracle)),
            v@.len() == NUM_PREFLOP_CLASSES,
    {
        self.chance_cfv_expansion_inner(
            chance_node_idx,
            traverser,
            reach,
            table,
            Some(subset_indices),
            oracle,
            None,
        )
    }

    /// The same for a chance node that is entered through a cell.
    pub fn compute_chance_node_cfv_with_expansion_subset_for_cell<
        O: PostflopValueOracle<T>,
        E: Fn([u8; 3], &Vec<T>) -> Vec<T>,
        R: Fn([u8; 3], &Vec<T>) -> Vec<T>,
        G: Fn(&Vec<Vec<T>>) -> Vec<T>,
        H: Fn(&Vec<usize>, &Vec<Vec<T>>) -> Vec<T>,
    >(
        &self,
        chance_node_idx: usize,
        traverser: u8,
        reach: &Vec<Vec<T>>,
        table: &PreflopChanceTable<E, R, G, H>,
        subset_indices: &Vec<usize>,
        oracle: &mut O,
        cell: SeamCell,
        folded_mask: u16,
    ) -> (v: Vec<T>)
        requires
            is_table(table),
            is_subset(Some(subset_indices@), table.canonical_flops@.len() as int),
            0 < reach@.len(),
            has_row(reach@, chance_node_idx as int),
            can_ask(
                table,
                &*old(oracle),
                reach@.len() as int,
                traverser,
                Some((cell, folded_mask)),
            ),
        ensures
            chance_valued(
                table,
                &*old(oracle),
                final(oracle),
                Some(subset_indices@),
                rows_at(views(reach@), chance_node_idx as int),
                traverser,
                Some((cell, folded_mask)),
                v@,
            ),
            takes_on(&*old(oracle), final(oracle)),
            v@.len() == NUM_PREFLOP_CLASSES,
    {
        self.chance_cfv_expansion_inner(
            chance_node_idx,
            traverser,
            reach,
            table,
            Some(subset_indices),
            oracle,
            Some((cell, folded_mask)),
        )
    }

    fn chance_cfv_expansion_inner<
        O: PostflopValueOracle<T>,
        E: Fn([u8; 3], &Vec<T>) -> Vec<T>,
        R: Fn([u8; 3], &Vec<T>) -> Vec<T>,
        G: Fn(&Vec<Vec<T>>) -> Vec<T>,
        H: Fn(&Vec<usize>, &Vec<Vec<T>>) -> Vec<T>,
    >(
        &self,
        chance_node_idx: usize,
        traverser: u8,
        reach: &Vec<Vec<T>>,
        table: &PreflopChanceTable<E, R, G, H>,
        subset: Option<&Vec<usize>>,
        oracle: &mut O,
        cell: Option<(SeamCell, u16)>,
    ) -> (v: Vec<T>)
        requires
            is_table(table),
            is_subset(subset_of(subset), table.canonical_flops@.len() as int),
            0 < reach@.len(),
            has_row(reach@, chance_node_idx as int),
            can_ask(table, &*old(oracle), reach@.len() as int, traverser, cell),
        ensures
            chance_valued(
                table,
                &*old(oracle),
                final(oracle),
                subset_of(subset),
                rows_at(views(reach@), chance_node_idx as int),
                traverser,
                cell,
                v@,
            ),
            takes_on(&*old(oracle), final(oracle)),
            v@.len() == NUM_PREFLOP_CLASSES,
    {
        let rows = rows_of(reach, chance_node_idx);
        assert(are_classes(views(rows@), rows@.len() as int));
        value_chance(table, oracle, subset, &rows, traverser, cell)
    }
}

/// How the chance nodes are valued: each over all flops; each over some, whatever the
/// cell; or one for all that share a key.
pub enum SeamPlan {
    Every,
    Subset(Seq<usize>),
    Keyed(Seq<u64>),
}

/// The same, to be carried out.
pub enum SeamOrder<'a> {
    Every,
    Subset(&'a Vec<usize>),
    Keyed(&'a Vec<u64>),
}

impl<'a> SeamOrder<'a> {
    pub open spec fn plan(&self) -> SeamPlan {
        match self {
            SeamOrder::Every => SeamPlan::Every,
            SeamOrder::Subset(ix) => SeamPlan::Subset(ix@),
            SeamOrder::Keyed(keys) => SeamPlan::Keyed(keys@),
        }
    }
}

/// What the chance nodes of one iteration are valued by: tree, table of flops, values of
/// folded hands, chance nodes, reach and plan.
pub struct Scene<T, E, R, G, H, V> {
    pub tree: FlatTree,
    pub table: PreflopChanceTable<E, R, G, H>,
    pub f: V,
    pub list: Seq<usize>,
    pub reach: Seq<Seq<T>>,
    pub plan: SeamPlan,
}

impl<
    T: Scalar,
    E: Fn([u8; 3], &Vec<T>) -> Vec<T>,
    R: Fn([u8; 3], &Vec<T>) -> Vec<T>,
    G: Fn(&Vec<Vec<T>>) -> Vec<T>,
    H: Fn(&Vec<usize>, &Vec<Vec<T>>) -> Vec<T>,
    V: Fn(usize, u8, &Vec<Vec<T>>) -> Vec<T>,
> Scene<T, E, R, G, H, V> {
    /// Chance node `i` is entered through `cell`.
    pub open spec fn is_cell(&self, i: int, cell: SeamCell) -> bool {
        cell.is_at(&self.tree, i, self.tree.np() as nat)
    }

    /// The value of chance node `i`: a folded traverser has that of its fold, any other
    /// asks for the cell.
    pub open spec fn seam_valued<O: PostflopValueOracle<T>>(
        &self,
        t: u8,
        o: &O,
        o2: &O,
        i: int,
        v: Seq<T>,
    ) -> bool {
        if !is_live(&self.tree, i, t as int) {
            *o2 == *o && v == valued(&self.f, i as usize, t, rows_at(self.reach, i))
        } else {
            exists|cell: SeamCell| #[trigger]
                self.is_cell(i, cell) && chance_valued(
                    &self.table,
                    o,
                    o2,
                    None,
                    rows_at(self.reach, i),
                    t,
                    Some((cell, self.tree.folded_masks@[i])),
                    v,
                )
        }
    }

    /// Chance node `l` of the list comes before `k`, has its key, and was not folded.
    pub open spec fn is_mate(&self, t: u8, keys: Seq<u64>, k: int, l: int) -> bool {
        0 <= l < k && is_live(&self.tree, self.list[l] as int, t as int) && keys[l] == keys[k]
    }

    /// The first of them.
    pub open spec fn is_first_mate(&self, t: u8, keys: Seq<u64>, k: int, l: int) -> bool {
        self.is_mate(t, keys, k, l) && forall|m: int| 0 <= m < l ==> !#[trigger] self.is_mate(
            t,
            keys,
            k,
            m,
        )
    }

    /// The value of the `k`-th chance node, by the plan, after those before it.
    pub open spec fn next_valued<O: PostflopValueOracle<T>>(
        &self,
        t: u8,
        o: &O,
        o2: &O,
        k: int,
        prev: Seq<Seq<T>>,
        v: Seq<T>,
    ) -> bool {
        let i = self.list[k] as int;
        match self.plan {
            SeamPlan::Every => self.seam_valued(t, o, o2, i, v),
            SeamPlan::Subset(ix) => chance_valued(
                &self.table,
                o,
                o2,
                Some(ix),
                rows_at(self.reach, i),
                t,
                None,
                v,
            ),
            SeamPlan::Keyed(keys) => if is_live(&self.tree, i, t as int) && exists|l: int|
                self.is_mate(t, keys, k, l) {
                *o2 == *o && exists|l: int| #[trigger]
                    self.is_first_mate(t, keys, k, l) && v == prev[l]
            } else {
                self.seam_valued(t, o, o2, i, v)
            },
        }
    }

    /// The values of the first `n` chance nodes, in order.
    pub open spec fn are_valued<O: PostflopValueOracle<T>>(
        &self,
        t: u8,
        o: &O,
        o2: &O,
        vs: Seq<Seq<T>>,
        n: nat,
    ) -> bool
        decreases n,
    {
        if n == 0 {
            *o2 == *o && vs.len() == 0
        } else {
            vs.len() == n && exists|mid: O|
                self.are_valued(t, o, &mid, vs.drop_last(), (n - 1) as nat)
                    && #[trigger] self.next_valued(t, &mid, o2, n - 1, vs.drop_last(), vs.last())
        }
    }

    /// Tree, table and closures fit, and the cells' pots can be counted.
    pub open spec fn wf(&self) -> bool {
        &&& self.tree.wf()
        &&& self.tree.np() <= 16
        &&& is_table(&self.table)
        &&& is_valuer(&self.f, self.tree.np())
        &&& self.reach.len() == self.tree.np()
        &&& forall|k: int|
            0 <= k < self.list.len() ==> self.tree.is_node((#[trigger] self.list[k]) as int)
        &&& self.plan matches SeamPlan::Subset(ix) ==> is_subset(
            Some(ix),
            self.table.canonical_flops@.len() as int,
        )
        &&& self.plan matches SeamPlan::Keyed(keys) ==> keys.len() == self.list.len()
        &&& !(self.plan is Subset) ==> forall|k: int, n: int|
            #![trigger self.list[k], pot_upto(&self.tree, self.list[k] as int, n as nat)]
            0 <= k < self.list.len() && 0 <= n <= self.tree.np() ==> i32::MIN <= pot_upto(
                &self.tree,
                self.list[k] as int,
                n as nat,
            ) <= i32::MAX
    }

    /// The oracle takes every question of the plan for traverser `t`.
    pub open spec fn can_value<O: PostflopValueOracle<T>>(&self, o: &O, t: u8) -> bool {
        match self.plan {
            SeamPlan::Subset(ix) => can_ask(&self.table, o, self.tree.np(), t, None),
            _ => forall|k: int, cell: SeamCell|
                #![trigger self.is_cell(self.list[k] as int, cell)]
                0 <= k < self.list.len() && is_live(&self.tree, self.list[k] as int, t as int)
                    && self.is_cell(self.list[k] as int, cell) ==> can_ask(
                    &self.table,
                    o,
                    self.tree.np(),
                    t,
                    Some((cell, self.tree.folded_masks@[self.list[k] as int])),
                ),
        }
    }

    pub proof fn lemma_can_value_on<O: PostflopValueOracle<T>>(&self, o: &O, o2: &O, t: u8)
        requires
            self.can_value(o, t),
            takes_on(o, o2),
        ensures
            self.can_value(o2, t),
    {
        let np = self.tree.np();
        match self.plan {
            SeamPlan::Subset(ix) => {
                lemma_can_ask_on(&self.table, o, o2, np, t, None);
            },
            _ => {
                assert forall|k: int, cell: SeamCell|
                    #![trigger self.is_cell(self.list[k] as int, cell)]
                    0 <= k < self.list.len() && is_live(&self.tree, self.list[k] as int, t as int)
                        && self.is_cell(self.list[k] as int, cell) implies can_ask(
                    &self.table,
                    o2,
                    np,
                    t,
                    Some((cell, self.tree.folded_masks@[self.list[k] as int])),
                ) by {
                    lemma_can_ask_on(
                        &self.table,
                        o,
                        o2,
                        np,
                        t,
                        Some((cell, self.tree.folded_masks@[self.list[k] as int])),
                    );
                }
            },
        }
    }
}

proof fn lemma_can_ask_on<
    T: Scalar,
    O: PostflopValueOracle<T>,
    E: Fn([u8; 3], &Vec<T>) -> Vec<T>,
    R,
    G,
    H,
>(
    t: &PreflopChanceTable<E, R, G, H>,
    o: &O,
    o2: &O,
    np: int,
    traverser: u8,
    cell: Option<(SeamCell, u16)>,
)
    requires
        can_ask(t, o, np, traverser, cell),
        takes_on(o, o2),
    ensures
        can_ask(t, o2, np, traverser, cell),
{
    assert forall|flop: [u8; 3], rows: Seq<Seq<T>>, ranges: Seq<Seq<T>>|
        are_classes(rows, np) && t.canonical_flops@.contains(flop) && #[trigger] expanded(
            &t.expand,
            flop,
            rows,
            ranges,
        ) implies o2.s_takes(FlopAsk { flop: flop@, ranges, traverser, cell }) by {
        assert(o.s_takes(FlopAsk { flop: flop@, ranges, traverser, cell }));
    }
}

/// Whether player `p` is still in at a node.
fn still_in(tree: &FlatTree, i: usize, p: u8) -> (r: bool)
    requires
        tree.wf(),
        tree.is_node(i as int),
        p < 16,
    ensures
        r == is_live(tree, i as int, p as int),
{
    let mask: u16 = tree.get_folded_mask(i);
    (mask >> (p as u16)) & 1u16 == 0
}

impl<T: Scalar> PreflopVectorCfr<T> {
    /// The traverser's value of a chance node. A traverser that has folded has the value
    /// of its fold, and the oracle is not asked.
    pub fn chance_cfv_for_traverser<
        O: PostflopValueOracle<T>,
        E: Fn([u8; 3], &Vec<T>) -> Vec<T>,
        R: Fn([u8; 3], &Vec<T>) -> Vec<T>,
        G: Fn(&Vec<Vec<T>>) -> Vec<T>,
        H: Fn(&Vec<usize>, &Vec<Vec<T>>) -> Vec<T>,
        V: Fn(usize, u8, &Vec<Vec<T>>) -> Vec<T>,
    >(
        &self,
        tree: &FlatTree,
        chance_idx: usize,
        traverser: u8,
        reach: &Vec<Vec<T>>,
        table: &PreflopChanceTable<E, R, G, H>,
        oracle: &mut O,
        terminal_value_fn: &V,
    ) -> (v: Vec<T>)
        requires
            tree.wf(),
            tree.is_node(chance_idx as int),
            tree.np() <= 16,
            traverser < tree.np(),
            self.num_players == tree.num_players,
            is_reach_table(tree, reach@),
            is_table(table),
            is_valuer(terminal_value_fn, tree.np()),
            forall|n: int|
                0 <= n <= tree.np() ==> i32::MIN <= #[trigger] pot_upto(
                    tree,
                    chance_idx as int,
                    n as nat,
                ) <= i32::MAX,
            forall|cell: SeamCell|
                is_live(tree, chance_idx as int, traverser as int) && #[trigger] cell.is_at(
                    tree,
                    chance_idx as int,
                    tree.np() as nat,
                ) ==> can_ask(
                    table,
                    &*old(oracle),
                    tree.np(),
                    traverser,
                    Some((cell, tree.folded_masks@[chance_idx as int])),
                ),
        ensures
            (Scene {
                tree: *tree,
                table: *table,
                f: *terminal_value_fn,
                list: Seq::empty(),
                reach: views(reach@),
                plan: SeamPlan::Every,
            }).seam_valued(traverser, &*old(oracle), final(oracle), chance_idx as int, v@),
            takes_on(&*old(oracle), final(oracle)),
            v@.len() == NUM_PREFLOP_CLASSES,
    {
        let np: usize = self.num_players as usize;
        proof {
            lemma_has_row(tree, reach@, chance_idx as int);
        }
        if !still_in(tree, chance_idx, traverser) {
            let rows = rows_of(reach, chance_idx);
            return value_node(terminal_value_fn, chance_idx, traverser, &rows, Ghost(tree.np()));
        }
        let cell = SeamCell::at_chance_node(tree, chance_idx, np);
        assert(cell.is_at(tree, chance_idx as int, tree.np() as nat));
        let mask: u16 = tree.get_folded_mask(chance_idx);
        let v = self.compute_chance_node_cfv_with_expansion_for_cell(
            chance_idx,
            traverser,
            reach,
            table,
            oracle,
            cell,
            mask,
        );
        proof {
            let sc = Scene {
                tree: *tree,
                table: *table,
                f: *terminal_value_fn,
                list: Seq::<usize>::empty(),
                reach: views(reach@),
                plan: SeamPlan::Every,
            };
            assert(sc.is_cell(chance_idx as int, cell));
        }
        v
    }
}

/// The place of the first earlier chance node that shares the key of the `k`-th.
fn find_mate(tree: &FlatTree, seams: &Vec<usize>, keys: &Vec<u64>, t: u8, k: usize) -> (r: Option<
    usize,
>)
    requires
        tree.wf(),
        t < 16,
        k < seams@.len(),
        keys@.len() == seams@.len(),
        forall|l: int| 0 <= l < seams@.len() ==> tree.is_node((#[trigger] seams@[l]) as int),
    ensures
        match r {
            Some(l) => l < k && is_live(tree, seams@[l as int] as int, t as int)
                && keys@[l as int] == keys@[k as int] && forall|m: int|
                0 <= m < l ==> !(is_live(tree, (#[trigger] seams@[m]) as int, t as int) && keys@[m]
                    == keys@[k as int]),
            None => forall|m: int|
                0 <= m < k ==> !(is_live(tree, (#[trigger] seams@[m]) as int, t as int) && keys@[m]
                    == keys@[k as int]),
        },
{
    let mut l: usize = 0;
    while l < k
        invariant
            l <= k,
            tree.wf(),
            t < 16,
            k < seams@.len(),
            keys@.len() == seams@.len(),
            forall|l: int| 0 <= l < seams@.len() ==> tree.is_node((#[trigger] seams@[l]) as int),
            forall|m: int|
                0 <= m < l ==> !(is_live(tree, (#[trigger] seams@[m]) as int, t as int) && keys@[m]
                    == keys@[k as int]),
        decreases k - l,
    {
        assert(tree.is_node(seams@[l as int] as int));
        if still_in(tree, seams[l], t) && keys[l] == keys[k] {
            return Some(l);
        }
        l += 1;
    }
    None
}

impl<T: Scalar> PreflopVectorCfr<T> {
    /// Values the `k`-th chance node by the plan.
    #[verifier::rlimit(30)]
    fn value_next<
        O: PostflopValueOracle<T>,
        E: Fn([u8; 3], &Vec<T>) -> Vec<T>,
        R: Fn([u8; 3], &Vec<T>) -> Vec<T>,
        G: Fn(&Vec<Vec<T>>) -> Vec<T>,
        H: Fn(&Vec<usize>, &Vec<Vec<T>>) -> Vec<T>,
        V: Fn(usize, u8, &Vec<Vec<T>>) -> Vec<T>,
    >(
        &self,
        tree: &FlatTree,
        table: &PreflopChanceTable<E, R, G, H>,
        f: &V,
        seams: &Vec<usize>,
        reach: &Vec<Vec<T>>,
        order: &SeamOrder,
        t: u8,
        oracle: &mut O,
        k: usize,
        prev: &Vec<Vec<T>>,
        Ghost(sc): Ghost<Scene<T, E, R, G, H, V>>,
    ) -> (v: Vec<T>)
        requires
            sc.wf(),
            sc.tree == *tree,
            sc.table == *table,
            sc.f == *f,
            sc.list == seams@,
            sc.reach == views(reach@),
            sc.plan == order.plan(),
            is_reach_table(tree, reach@),
            self.num_players == tree.num_players,
            t < tree.np(),
            k < seams@.len(),
            prev@.len() == k,
            forall|l: int| 0 <= l < k ==> (#[trigger] prev@[l])@.len() == NUM_PREFLOP_CLASSES,
            sc.can_value(&*old(oracle), t),
        ensures
            sc.next_valued(t, &*old(oracle), final(oracle), k as int, views(prev@), v@),
            takes_on(&*old(oracle), final(oracle)),
            v@.len() == NUM_PREFLOP_CLASSES,
    {
        let i: usize = seams[k];
        assert(sc.list[k as int] == i);
        assert(tree.is_node(i as int));
        proof {
            lemma_has_row(tree, reach@, i as int);
        }
        if let SeamOrder::Subset(ix) = order {
            return self.compute_chance_node_cfv_with_expansion_subset(
                i,
                t,
                reach,
                table,
                ix,
                oracle,
            );
        }
        if let SeamOrder::Keyed(keys) = order {
            if still_in(tree, i, t) {
                match find_mate(tree, seams, keys, t, k) {
                    Some(l) => {
                        proof {
                            assert(sc.is_mate(t, keys@, k as int, l as int));
                            assert forall|m: int| 0 <= m < l implies !#[trigger] sc.is_mate(
                                t,
                                keys@,
                                k as int,
                                m,
                            ) by {
                                assert(seams@[m] == sc.list[m]);
                            }
                            assert(sc.is_first_mate(t, keys@, k as int, l as int));
                            assert(views(prev@)[l as int] == prev@[l as int]@);
                        }
                        return row_copy(&prev[l]);
                    },
                    None => {
                        assert forall|m: int| !sc.is_mate(t, keys@, k as int, m) by {
                            if sc.is_mate(t, keys@, k as int, m) {
                                assert(seams@[m] == sc.list[m]);
                            }
                        }
                    },
                }
            }
        }
        proof {
            assert forall|n: int| 0 <= n <= tree.np() implies i32::MIN <= #[trigger] pot_upto(
                tree,
                i as int,
                n as nat,
            ) <= i32::MAX by {
                assert(sc.list[k as int] == i);
            }
            assert forall|cell: SeamCell|
                is_live(tree, i as int, t as int) && #[trigger] cell.is_at(
                    tree,
                    i as int,
                    tree.np() as nat,
                ) implies can_ask(
                table,
                &*oracle,
                tree.np(),
                t,
                Some((cell, tree.folded_masks@[i as int])),
            ) by {
                assert(sc.is_cell(sc.list[k as int] as int, cell));
            }
        }
        let v = self.chance_cfv_for_traverser(tree, i, t, reach, table, oracle, f);
        proof {
            let one = Scene {
                tree: *tree,
                table: *table,
                f: *f,
                list: Seq::<usize>::empty(),
                reach: views(reach@),
                plan: SeamPlan::Every,
            };
            assert(one.seam_valued(t, &*old(oracle), &*oracle, i as int, v@));
            if is_live(tree, i as int, t as int) {
                let cell = choose|cell: SeamCell| #[trigger]
                    one.is_cell(i as int, cell) && chance_valued(
                        table,
                        &*old(oracle),
                        &*oracle,
                        None,
                        rows_at(views(reach@), i as int),
                        t,
                        Some((cell, tree.folded_masks@[i as int])),
                        v@,
                    );
                assert(sc.is_cell(i as int, cell));
            }
            assert(sc.seam_valued(t, &*old(oracle), &*oracle, i as int, v@));
        }
        v
    }

    /// Values all chance nodes by the plan.
    pub(crate) fn value_seams<
        O: PostflopValueOracle<T>,
        E: Fn([u8; 3], &Vec<T>) -> Vec<T>,
        R: Fn([u8; 3], &Vec<T>) -> Vec<T>,
        G: Fn(&Vec<Vec<T>>) -> Vec<T>,
        H: Fn(&Vec<usize>, &Vec<Vec<T>>) -> Vec<T>,
        V: Fn(usize, u8, &Vec<Vec<T>>) -> Vec<T>,
    >(
        &self,
        tree: &FlatTree,
        table: &PreflopChanceTable<E, R, G, H>,
        f: &V,
        seams: &Vec<usize>,
        reach: &Vec<Vec<T>>,
        order: &SeamOrder,
        t: u8,
        oracle: &mut O,
        Ghost(sc): Ghost<Scene<T, E, R, G, H, V>>,
    ) -> (vs: Vec<Vec<T>>)
        requires
            sc.wf(),
            sc.tree == *tree,
            sc.table == *table,
            sc.f == *f,
            sc.list == seams@,
            sc.reach == views(reach@),
            sc.plan == order.plan(),
            is_reach_table(tree, reach@),
            self.num_players == tree.num_players,
            t < tree.np(),
            sc.can_value(&*old(oracle), t),
        ensures
            sc.are_valued(t, &*old(oracle), final(oracle), views(vs@), seams@.len()),
            takes_on(&*old(oracle), final(oracle)),
            vs@.len() == seams@.len(),
            forall|l: int|
                0 <= l < vs@.len() ==> (#[trigger] vs@[l])@.len() == NUM_PREFLOP_CLASSES,
    {
        let n: usize = seams.len();
        let ghost start = *oracle;
        let mut vs: Vec<Vec<T>> = Vec::new();
        let mut k: usize = 0;
        assert(views(vs@) =~= Seq::empty());
        while k < n
            invariant
                k <= n,
                n == seams@.len(),
                sc.wf(),
                sc.tree == *tree,
                sc.table == *table,
                sc.f == *f,
                sc.list == seams@,
                sc.reach == views(reach@),
                sc.plan == order.plan(),
                is_reach_table(tree, reach@),
                self.num_players == tree.num_players,
                t < tree.np(),
                sc.can_value(&start, t),
                takes_on(&start, &*oracle),
                vs@.len() == k,
                forall|l: int|
                    0 <= l < vs@.len() ==> (#[trigger] vs@[l])@.len() == NUM_PREFLOP_CLASSES,
                sc.are_valued(t, &start, &*oracle, views(vs@), k as nat),
            decreases n - k,
        {
            let ghost mid = *oracle;
            let ghost was = views(vs@);
            proof {
                sc.lemma_can_value_on(&start, &mid, t);
            }
            let v = self.value_next(
                tree,
                table,
                f,
                seams,
                reach,
                order,
                t,
                oracle,
                k,
                &vs,
                Ghost(sc),
            );
            vs.push(v);
            k += 1;
            proof {
                let now = views(vs@);
                assert(now =~= was.push(v@));
                assert(now.drop_last() =~= was);
                assert((k - 1) as nat == k - 1);
                assert(sc.next_valued(t, &mid, &*oracle, k - 1, now.drop_last(), now.last()));
            }
        }
        vs
    }
}

} // verus!
