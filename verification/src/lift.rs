//! Carrying the accumulated strategy of a small tree's solver over to the solver
//! of a bigger tree.
use vstd::prelude::*;

use crate::bank::{room, ZoneBank};
use crate::cross_tree::{
    claimed_row, claims, law_identity_pairing, lemma_pair_action, lemma_self_claims, node_of,
    paired_at, CrossTreeMap,
};
use crate::flop_start_vector_cfr::FlopStartVectorCfr;
use crate::layout::{at, flat, get_row, lemma_at_bound, lemma_row_inside, opt_int, row, slot};
use crate::pseudo_harmonic::{
    are_nodes, claim_of, claimed_moves, lemma_claim_bound, PseudoHarmonicCrossTreeMap,
};
use crate::scalar::{filled, fraction_tolerance, s_fraction_tolerance, Scalar, Widen};
use crate::tree::{FlatTree, MAX_NA_POSTFLOP, UNUSED};
use crate::zones::{Zone, ZoneBook};

verus! {

/// The accumulated strategy of action `b` at node `l` in outcome `o`.
pub open spec fn kept_row<T: Scalar>(
    bank: &ZoneBank<T>,
    book: &ZoneBook,
    o: int,
    l: int,
    b: int,
) -> Seq<T> {
    row(bank.cum@, bank.width as int, slot(bank.place(o, book.local(l)), b))
}

/// A row plus a multiple of another.
pub open spec fn plus_scaled<T: Scalar>(acc: Seq<T>, w: T, vals: Seq<T>) -> Seq<T> {
    Seq::new(acc.len(), |h: int| acc[h].s_plus(w.s_times(vals[h])))
}

/// The first `n` sources, weighted and added up.
pub open spec fn blend<T: Scalar>(
    bank: &ZoneBank<T>,
    book: &ZoneBook,
    o: int,
    sources: Seq<(int, int, T)>,
    n: nat,
) -> Seq<T>
    decreases n,
{
    if n == 0 {
        flat(T::s_zero(), bank.width as int)
    } else {
        let (l, b, w) = sources[n - 1];
        plus_scaled(
            blend(bank, book, o, sources, (n - 1) as nat),
            w,
            kept_row(bank, book, o, l, b),
        )
    }
}

/// What the sources give: all of them blended, or a copy of the only one.
pub open spec fn drawn<T: Scalar>(
    bank: &ZoneBank<T>,
    book: &ZoneBook,
    o: int,
    sources: Seq<(int, int, T)>,
    weighted: bool,
) -> Seq<T> {
    if weighted {
        blend(bank, book, o, sources, sources.len())
    } else if sources.len() == 0 {
        flat(T::s_zero(), bank.width as int)
    } else {
        kept_row(bank, book, o, sources[0].0, sources[0].1)
    }
}

/// Sources with their numbers as mathematical integers.
pub open spec fn plain_sources<T>(list: Seq<(usize, usize, T)>) -> Seq<(int, int, T)> {
    Seq::new(list.len(), |k: int| (list[k].0 as int, list[k].1 as int, list[k].2))
}

/// Every source is an action slot of an infoset that the book numbers.
pub open spec fn are_sources<T>(book: &ZoneBook, infosets: int, list: Seq<(usize, usize, T)>) -> bool {
    forall|k: int|
        0 <= k < list.len() ==> (#[trigger] list[k]).0 < book.local_offset@.len() && book.local(
            list[k].0 as int,
        ) < infosets && list[k].1 < MAX_NA_POSTFLOP
}

/// The accumulated strategies of the zone are what `f` says of each outcome,
/// decision and action; slots without an action are zero, and nothing else has
/// changed.
pub open spec fn zone_lifted<T: Scalar>(
    tree: &FlatTree,
    zones: Seq<Zone>,
    zone: Zone,
    book: &ZoneBook,
    was: &ZoneBank<T>,
    new: &ZoneBank<T>,
    f: spec_fn(int, int, int) -> Seq<T>,
) -> bool {
    &&& *new == (ZoneBank { cum: new.cum, ..*was })
    &&& new.cum@.len() == was.cum@.len()
    &&& forall|x: int, o: int, a: int|
        #![trigger slot(was.place(o, book.local(x)), a)]
        ZoneBook::owns(tree, zones, zone, x) && 0 <= o < was.outcomes && 0 <= a < MAX_NA_POSTFLOP
            ==> row(new.cum@, was.width as int, slot(was.place(o, book.local(x)), a)) == if a
            < tree.arity(x) {
            f(o, x, a)
        } else {
            flat(T::s_zero(), was.width as int)
        }
}

/// The first `n` sources, weighted and added up.
fn blend_of<T: Scalar>(
    bank: &ZoneBank<T>,
    book: &ZoneBook,
    rows: usize,
    o: usize,
    list: &Vec<(usize, usize, T)>,
    weighted: bool,
) -> (out: Vec<T>)
    requires
        bank.for_book(book),
        are_sources(book, bank.infosets as int, list@),
        o < bank.outcomes,
        rows == bank.outcomes * bank.infosets * MAX_NA_POSTFLOP,
        bank.cum@.len() == rows * bank.width,
    ensures
        out@ == drawn(bank, book, o as int, plain_sources(list@), weighted),
        out@.len() == bank.width,
{
    let ghost plain = plain_sources(list@);
    let w: usize = bank.width;
    let n: usize = if weighted || list.len() == 0 {
        list.len()
    } else {
        1
    };
    let mut out: Vec<T> = filled(T::zero(), w);
    assert(out@ =~= flat(T::s_zero(), w as int));
    let mut k: usize = 0;
    while k < n
        invariant
            k <= n <= list@.len(),
            n == if weighted || list@.len() == 0 {
                list@.len()
            } else {
                1
            },
            plain == plain_sources(list@),
            w == bank.width,
            bank.for_book(book),
            are_sources(book, bank.infosets as int, list@),
            o < bank.outcomes,
            rows == bank.outcomes * bank.infosets * MAX_NA_POSTFLOP,
            bank.cum@.len() == rows * w,
            out@.len() == w,
            out@ == if weighted || k == 0 {
                blend(bank, book, o as int, plain, k as nat)
            } else {
                kept_row(bank, book, o as int, plain[0].0, plain[0].1)
            },
        decreases n - k,
    {
        let (l, b, weight) = list[k];
        assert(plain[k as int] == (l as int, b as int, weight));
        let local: usize = book.local_offset[l];
        proof {
            lemma_at_bound(bank.infosets as int, bank.outcomes as int, o as int, local as int);
            lemma_at_bound(
                MAX_NA_POSTFLOP as int,
                bank.outcomes * bank.infosets,
                bank.place(o as int, local as int),
                b as int,
            );
        }
        let place: usize = o * bank.infosets + local;
        let s: usize = place * MAX_NA_POSTFLOP + b;
        let vals = get_row(&bank.cum, w, rows, s);
        assert(vals@ == kept_row(bank, book, o as int, l as int, b as int));
        if weighted {
            let ghost before = out@;
            let mut h: usize = 0;
            while h < w
                invariant
                    h <= w,
                    out@.len() == w,
                    before.len() == w,
                    vals@.len() == w,
                    forall|i: int|
                        0 <= i < h ==> #[trigger] out@[i] == before[i].s_plus(
                            weight.s_times(vals@[i]),
                        ),
                    forall|i: int| h <= i < w ==> #[trigger] out@[i] == before[i],
                decreases w - h,
            {
                let v = out[h].plus(weight.times(vals[h]));
                out[h] = v;
                h += 1;
            }
            assert(out@ =~= plus_scaled(before, weight, vals@));
        } else {
            out = vals;
        }
        k += 1;
    }
    out
}

/// The decisions of a zone by infoset number.
fn owners_of(tree: &FlatTree, zones: &Vec<Zone>, zone: Zone, book: &ZoneBook) -> (owners: Vec<
    usize,
>)
    requires
        tree.wf(),
        zones@.len() == tree.size(),
        book.of(tree, zones@, zone),
    ensures
        owners@.len() == book.infoset_count,
        forall|g: int|
            0 <= g < owners@.len() ==> ZoneBook::owns(
                tree,
                zones@,
                zone,
                (#[trigger] owners@[g]) as int,
            ) && book.local(owners@[g] as int) == g,
{
    let mut owners: Vec<usize> = filled(0usize, book.infoset_count);
    let n: usize = tree.decision_node_ids.len();
    let mut k: usize = 0;
    while k < n
        invariant
            k <= n,
            n == tree.decision_node_ids@.len(),
            tree.wf(),
            zones@.len() == tree.size(),
            book.of(tree, zones@, zone),
            owners@.len() == book.infoset_count,
            forall|j: int|
                0 <= j < k && zones@[(#[trigger] tree.decision_node_ids@[j]) as int] == zone
                    ==> owners@[book.local(tree.decision_node_ids@[j] as int)]
                    == tree.decision_node_ids@[j],
        decreases n - k,
    {
        let x: usize = tree.decision_node_ids[k] as usize;
        if zones[x] == zone {
            proof {
                book.lemma_local(tree, zones@, zone, x as int);
            }
            let ghost before = owners@;
            let g: usize = book.local_offset[x];
            owners[g] = x;
            proof {
                assert forall|j: int|
                    0 <= j < k + 1 && zones@[(#[trigger] tree.decision_node_ids@[j]) as int]
                        == zone implies owners@[book.local(tree.decision_node_ids@[j] as int)]
                    == tree.decision_node_ids@[j] by {
                    let y = tree.decision_node_ids@[j] as int;
                    assert(ZoneBook::owns(tree, zones@, zone, y));
                    book.lemma_local(tree, zones@, zone, y);
                }
            }
        }
        k += 1;
    }
    proof {
        assert forall|g: int| 0 <= g < owners@.len() implies ZoneBook::owns(
            tree,
            zones@,
            zone,
            (#[trigger] owners@[g]) as int,
        ) && book.local(owners@[g] as int) == g by {
            let x = book.lemma_local_onto(tree, zones@, zone, g);
            assert(tree.nodes@[x].is_player());
            assert(tree.decision_node_ids@.contains(x as u32));
            let j = choose|j: int|
                0 <= j < tree.decision_node_ids@.len() && tree.decision_node_ids@[j] == x as u32;
            assert(tree.decision_node_ids@[j] as int == x);
        }
    }
    owners
}

/// Rows written one after the other.
proof fn lemma_row_push<T>(buf: Seq<T>, w: int, s: int, vals: Seq<T>)
    requires
        0 <= s,
        0 <= w,
        buf.len() == s * w,
        vals.len() == w,
    ensures
        (buf + vals).len() == (s + 1) * w,
        row(buf + vals, w, s) == vals,
        forall|t: int| 0 <= t < s ==> #[trigger] row(buf + vals, w, t) == row(buf, w, t),
{
    assert((s + 1) * w == s * w + w) by (nonlinear_arith);
    assert(row(buf + vals, w, s) =~= vals);
    assert forall|t: int| 0 <= t < s implies #[trigger] row(buf + vals, w, t) == row(buf, w, t) by {
        lemma_row_inside(w, s, t);
        assert(row(buf + vals, w, t) =~= row(buf, w, t));
    }
}

/// A slot's number tells its outcome, infoset and action.
proof fn lemma_slot_parts(infosets: int, o: int, local: int, a: int)
    requires
        0 <= o,
        0 <= local < infosets,
        0 <= a < MAX_NA_POSTFLOP,
    ensures
        slot(at(infosets, o, local), a) / MAX_NA_POSTFLOP as int == at(infosets, o, local),
        slot(at(infosets, o, local), a) % MAX_NA_POSTFLOP as int == a,
        at(infosets, o, local) / infosets == o,
        at(infosets, o, local) % infosets == local,
{
    let g = at(infosets, o, local);
    assert(0 <= o * infosets) by (nonlinear_arith)
        requires
            0 <= o,
            0 <= infosets,
    ;
    vstd::arithmetic::div_mod::lemma_fundamental_div_mod_converse(g, infosets, o, local);
}

/// The sources of every decision of the zone fit the other zone's buffers.
pub open spec fn plan_fits<T>(
    tree: &FlatTree,
    zones: Seq<Zone>,
    zone: Zone,
    lean_book: &ZoneBook,
    lean_infosets: int,
    plan: Seq<Vec<Vec<(usize, usize, T)>>>,
) -> bool {
    &&& plan.len() == tree.size()
    &&& forall|x: int|
        #![trigger plan[x]]
        ZoneBook::owns(tree, zones, zone, x) ==> {
            &&& plan[x]@.len() == tree.arity(x)
            &&& forall|a: int|
                0 <= a < plan[x]@.len() ==> are_sources(
                    lean_book,
                    lean_infosets,
                    (#[trigger] plan[x]@[a])@,
                )
        }
}

/// What the plan gives for each outcome, decision and action.
pub open spec fn plan_rows<T: Scalar>(
    lean_bank: &ZoneBank<T>,
    lean_book: &ZoneBook,
    plan: Seq<Vec<Vec<(usize, usize, T)>>>,
    weighted: bool,
) -> spec_fn(int, int, int) -> Seq<T> {
    |o: int, x: int, a: int| drawn(lean_bank, lean_book, o, plain_sources(plan[x]@[a]@), weighted)
}

/// Rewrites the accumulated strategies of a zone from the plan.
#[verifier::rlimit(40)]
fn lift_zone<T: Scalar>(
    tree: &FlatTree,
    zones: &Vec<Zone>,
    zone: Zone,
    book: &ZoneBook,
    bank: &mut ZoneBank<T>,
    lean_book: &ZoneBook,
    lean_bank: &ZoneBank<T>,
    plan: &Vec<Vec<Vec<(usize, usize, T)>>>,
    weighted: bool,
)
    requires
        tree.wf(),
        tree.fits_postflop(),
        zones@.len() == tree.size(),
        book.of(tree, zones@, zone),
        old(bank).for_book(book),
        lean_bank.for_book(lean_book),
        lean_bank.width == old(bank).width,
        lean_bank.outcomes == old(bank).outcomes,
        plan_fits(tree, zones@, zone, lean_book, lean_bank.infosets as int, plan@),
    ensures
        final(bank).for_book(book),
        zone_lifted(
            tree,
            zones@,
            zone,
            book,
            old(bank),
            final(bank),
            plan_rows(lean_bank, lean_book, plan@, weighted),
        ),
{
    let ghost was = *bank;
    let ghost f = plan_rows(lean_bank, lean_book, plan@, weighted);
    let w: usize = bank.width;
    let infosets: usize = bank.infosets;
    let places: usize = bank.outcomes * infosets;
    if w == 0 {
        proof {
            assert(places * room(0) == 0) by (nonlinear_arith);
            assert forall|x: int, o: int, a: int|
                #![trigger slot(was.place(o, book.local(x)), a)]
                ZoneBook::owns(tree, zones@, zone, x) && 0 <= o < was.outcomes && 0 <= a
                    < MAX_NA_POSTFLOP implies row(
                bank.cum@,
                0,
                slot(was.place(o, book.local(x)), a),
            ) == if a < tree.arity(x) {
                f(o, x, a)
            } else {
                flat(T::s_zero(), 0)
            } by {
                let s = slot(was.place(o, book.local(x)), a);
                assert(s * 0 == 0);
                lemma_drawn_len(
                    lean_bank,
                    lean_book,
                    o,
                    plain_sources(plan@[x]@[a]@),
                    weighted,
                );
                assert(row(bank.cum@, 0, s) =~= flat(T::s_zero(), 0));
                assert(a < tree.arity(x) ==> f(o, x, a) =~= flat(T::s_zero(), 0)) by {
                    if a < tree.arity(x) && weighted {
                    } else if a < tree.arity(x) {
                        let src = plain_sources(plan@[x]@[a]@);
                        if src.len() > 0 {
                            let t = slot(lean_bank.place(o, lean_book.local(src[0].0)), src[0].1);
                            assert(t * 0 == 0);
                        }
                    }
                }
            }
        }
        return;
    }
    proof {
        lemma_rows_count(places as int, w as int);
        lemma_rows_count(lean_bank.outcomes * lean_bank.infosets, w as int);
    }
    let total: usize = bank.cum.len();
    let lean_total: usize = lean_bank.cum.len();
    assert(places * MAX_NA_POSTFLOP <= total);
    assert(lean_bank.outcomes * lean_bank.infosets * MAX_NA_POSTFLOP <= lean_total);
    let rows: usize = places * MAX_NA_POSTFLOP;
    let lean_rows: usize = lean_bank.outcomes * lean_bank.infosets * MAX_NA_POSTFLOP;
    let owners = owners_of(tree, zones, zone, book);
    let zeros: Vec<T> = filled(T::zero(), w);
    let mut cum: Vec<T> = Vec::new();
    assert(0 * w == 0) by (nonlinear_arith);
    let mut s: usize = 0;
    while s < rows
        invariant
            s <= rows,
            0 < w,
            rows == places * MAX_NA_POSTFLOP,
            places == was.outcomes * infosets,
            lean_rows == lean_bank.outcomes * lean_bank.infosets * MAX_NA_POSTFLOP,
            lean_bank.cum@.len() == lean_rows * w,
            w == was.width,
            infosets == book.infoset_count,
            infosets == was.infosets,
            book.of(tree, zones@, zone),
            tree.wf(),
            tree.fits_postflop(),
            zones@.len() == tree.size(),
            lean_bank.for_book(lean_book),
            lean_bank.width == w,
            lean_bank.outcomes == was.outcomes,
            plan_fits(tree, zones@, zone, lean_book, lean_bank.infosets as int, plan@),
            f == plan_rows(lean_bank, lean_book, plan@, weighted),
            owners@.len() == infosets,
            forall|g: int|
                0 <= g < owners@.len() ==> ZoneBook::owns(
                    tree,
                    zones@,
                    zone,
                    (#[trigger] owners@[g]) as int,
                ) && book.local(owners@[g] as int) == g,
            zeros@ == flat(T::s_zero(), w as int),
            cum@.len() == s * w,
            forall|x: int, o: int, a: int|
                #![trigger slot(was.place(o, book.local(x)), a)]
                ZoneBook::owns(tree, zones@, zone, x) && 0 <= o < was.outcomes && 0 <= a
                    < MAX_NA_POSTFLOP && slot(was.place(o, book.local(x)), a) < s ==> row(
                    cum@,
                    w as int,
                    slot(was.place(o, book.local(x)), a),
                ) == if a < tree.arity(x) {
                    f(o, x, a)
                } else {
                    flat(T::s_zero(), w as int)
                },
        decreases rows - s,
    {
        let g: usize = s / MAX_NA_POSTFLOP;
        let a: usize = s % MAX_NA_POSTFLOP;
        proof {
            assert(0 < infosets && g / infosets < was.outcomes) by (nonlinear_arith)
                requires
                    0 <= g < was.outcomes * infosets,
                    0 <= was.outcomes,
                    0 <= infosets,
            ;
        }
        let o: usize = g / infosets;
        let local: usize = g % infosets;
        let x: usize = owners[local];
        let arity: usize = tree.nodes[x].num_children as usize;
        let mut vals: Vec<T> = if a < arity {
            assert(plan@[x as int]@.len() == tree.arity(x as int));
            assert(are_sources(
                lean_book,
                lean_bank.infosets as int,
                plan@[x as int]@[a as int]@,
            ));
            blend_of(lean_bank, lean_book, lean_rows, o, &plan[x][a], weighted)
        } else {
            filled(T::zero(), w)
        };
        let ghost want = vals@;
        let ghost before = cum@;
        cum.append(&mut vals);
        proof {
            assert(a >= arity ==> want =~= flat(T::s_zero(), w as int));
            assert(cum@ =~= before + want);
            lemma_row_push(before, w as int, s as int, want);
            vstd::arithmetic::div_mod::lemma_fundamental_div_mod(g as int, infosets as int);
            assert(g == at(infosets as int, o as int, local as int)) by (nonlinear_arith)
                requires
                    g == infosets * (g as int / infosets as int) + g as int % infosets as int,
                    o == g as int / infosets as int,
                    local == g as int % infosets as int,
            ;
            assert forall|y: int, p: int, b: int|
                #![trigger slot(was.place(p, book.local(y)), b)]
                ZoneBook::owns(tree, zones@, zone, y) && 0 <= p < was.outcomes && 0 <= b
                    < MAX_NA_POSTFLOP && slot(was.place(p, book.local(y)), b) < s + 1 implies row(
                cum@,
                w as int,
                slot(was.place(p, book.local(y)), b),
            ) == if b < tree.arity(y) {
                f(p, y, b)
            } else {
                flat(T::s_zero(), w as int)
            } by {
                let t = slot(was.place(p, book.local(y)), b);
                book.lemma_local(tree, zones@, zone, y);
                lemma_at_bound(infosets as int, was.outcomes as int, p, book.local(y));
                if t == s {
                    lemma_slot_parts(infosets as int, p, book.local(y), b);
                    assert(book.local(x as int) == local);
                    assert(ZoneBook::owns(tree, zones@, zone, x as int));
                    assert(y == x);
                }
            }
        }
        s += 1;
    }
    bank.cum = cum;
    proof {
        assert forall|x: int, o: int, a: int|
            #![trigger slot(was.place(o, book.local(x)), a)]
            ZoneBook::owns(tree, zones@, zone, x) && 0 <= o < was.outcomes && 0 <= a
                < MAX_NA_POSTFLOP implies row(
            bank.cum@,
            w as int,
            slot(was.place(o, book.local(x)), a),
        ) == if a < tree.arity(x) {
            f(o, x, a)
        } else {
            flat(T::s_zero(), w as int)
        } by {
            book.lemma_local(tree, zones@, zone, x);
            lemma_at_bound(infosets as int, was.outcomes as int, o, book.local(x));
        }
    }
}

pub proof fn lemma_rows_count(places: int, w: int)
    requires
        0 <= places,
        0 < w,
    ensures
        places * room(w) == places * MAX_NA_POSTFLOP * w,
        places * MAX_NA_POSTFLOP <= places * room(w),
{
    assert(places * (MAX_NA_POSTFLOP * w) == places * MAX_NA_POSTFLOP * w) by (nonlinear_arith);
    assert(places * MAX_NA_POSTFLOP <= places * MAX_NA_POSTFLOP * w) by (nonlinear_arith)
        requires
            0 <= places,
            0 < w,
    ;
}

proof fn lemma_drawn_len<T: Scalar>(
    bank: &ZoneBank<T>,
    book: &ZoneBook,
    o: int,
    sources: Seq<(int, int, T)>,
    weighted: bool,
)
    ensures
        weighted ==> drawn(bank, book, o, sources, weighted).len() == bank.width,
{
    if weighted {
        lemma_blend_len(bank, book, o, sources, sources.len());
    }
}

proof fn lemma_blend_len<T: Scalar>(
    bank: &ZoneBank<T>,
    book: &ZoneBook,
    o: int,
    sources: Seq<(int, int, T)>,
    n: nat,
)
    ensures
        blend(bank, book, o, sources, n).len() == bank.width,
    decreases n,
{
    if n > 0 {
        lemma_blend_len(bank, book, o, sources, (n - 1) as nat);
    }
}

/// Node `l` is a decision of `zone` in the solver's tree.
pub open spec fn answers<T: Widen>(lean: &FlopStartVectorCfr<T>, zone: Zone, l: int) -> bool {
    0 <= l < lean.zones@.len() && lean.zones@[l] == zone && lean.book(zone).local_offset@[l]
        != UNUSED
}

/// The infoset number of node `l` in `zone`.
fn local_in<T: Widen>(
    lean: &FlopStartVectorCfr<T>,
    zone: Zone,
    l: usize,
    Ghost(tree): Ghost<&FlatTree>,
) -> (local: usize)
    requires
        lean.wf(tree),
        tree.is_node(l as int),
    ensures
        local == lean.book(zone).local_offset@[l as int],
{
    match zone {
        Zone::Flop => lean.flop_book.local_offset[l],
        Zone::Turn => lean.turn_book.local_offset[l],
        Zone::River => lean.river_book.local_offset[l],
        Zone::Preflop => lean.preflop_book.local_offset[l],
    }
}

proof fn lemma_answers<T: Widen>(
    lean: &FlopStartVectorCfr<T>,
    tree: &FlatTree,
    zone: Zone,
    l: int,
)
    requires
        lean.wf(tree),
        answers(lean, zone, l),
    ensures
        ZoneBook::owns(tree, lean.zones@, zone, l),
        0 <= lean.book(zone).local(l) < lean.book(zone).infoset_count,
{
    let book = lean.book(zone);
    assert(book.of(tree, lean.zones@, zone));
    if !ZoneBook::owns(tree, lean.zones@, zone, l) {
        assert(book.local_offset@[l] == UNUSED);
    }
    book.lemma_local(tree, lean.zones@, zone, l);
}

/// The decision and action that a decision of `zone` copies from, when node `l`
/// stands for it and action `b` for the action.
pub open spec fn source_of<T: Widen>(
    lean: &FlopStartVectorCfr<T>,
    zone: Zone,
    l: Option<int>,
    b: Option<int>,
) -> Option<(int, int)> {
    match (l, b) {
        (Some(l), Some(b)) => if answers(lean, zone, l) {
            Some((l, b))
        } else {
            None
        },
        _ => None,
    }
}

/// A copy of the source's accumulated strategy; zeros where there is none.
pub open spec fn copied<T: Widen>(
    lean: &FlopStartVectorCfr<T>,
    zone: Zone,
    o: int,
    source: Option<(int, int)>,
) -> Seq<T> {
    match source {
        Some((l, b)) => kept_row(&lean.bank(zone), &lean.book(zone), o, l, b),
        None => flat(T::s_zero(), lean.nh as int),
    }
}

/// One zone of a rule for all of them.
pub open spec fn in_zone<T>(f: spec_fn(Zone, int, int, int) -> Seq<T>, zone: Zone) -> spec_fn(
    int,
    int,
    int,
) -> Seq<T> {
    |o: int, x: int, a: int| f(zone, o, x, a)
}

/// The solver's accumulated strategies are what `f` says of each zone, outcome,
/// decision and action, and nothing else has changed.
pub open spec fn solver_lifted<T: Widen>(
    tree: &FlatTree,
    was: &FlopStartVectorCfr<T>,
    new: &FlopStartVectorCfr<T>,
    f: spec_fn(Zone, int, int, int) -> Seq<T>,
) -> bool {
    &&& *new == (FlopStartVectorCfr { flop: new.flop, turn: new.turn, river: new.river, ..*was })
    &&& zone_lifted(
        tree,
        was.zones@,
        Zone::Flop,
        &was.flop_book,
        &was.flop,
        &new.flop,
        in_zone(f, Zone::Flop),
    )
    &&& zone_lifted(
        tree,
        was.zones@,
        Zone::Turn,
        &was.turn_book,
        &was.turn,
        &new.turn,
        in_zone(f, Zone::Turn),
    )
    &&& zone_lifted(
        tree,
        was.zones@,
        Zone::River,
        &was.river_book,
        &was.river,
        &new.river,
        in_zone(f, Zone::River),
    )
}

/// Both solvers count hands and cards alike and hold all rivers.
pub open spec fn same_deals<T: Widen>(
    lean: &FlopStartVectorCfr<T>,
    rich: &FlopStartVectorCfr<T>,
) -> bool {
    &&& lean.nh == rich.nh
    &&& lean.n_turn == rich.n_turn
    &&& lean.max_n_river == rich.max_n_river
    &&& lean.river_mode.in_memory()
    &&& rich.river_mode.in_memory()
}

/// The sources that a plan lists for action `a` of node `x` are what `src` says.
pub open spec fn plan_is<T: Widen>(
    tree: &FlatTree,
    plan: Seq<Vec<Vec<(usize, usize, T)>>>,
    src: spec_fn(int, int) -> Seq<(int, int, T)>,
) -> bool {
    &&& plan.len() == tree.size()
    &&& forall|x: int| tree.is_node(x) ==> (#[trigger] plan[x])@.len() == tree.arity(x)
    &&& forall|x: int, a: int|
        #![trigger plan[x]@[a]]
        tree.is_edge(x, a) ==> plain_sources(plan[x]@[a]@) == src(x, a)
}

/// Every source answers for its node's zone, with an action slot.
pub open spec fn sources_fit<T: Widen>(
    tree: &FlatTree,
    zones: Seq<Zone>,
    lean: &FlopStartVectorCfr<T>,
    src: spec_fn(int, int) -> Seq<(int, int, T)>,
) -> bool {
    forall|x: int, a: int, k: int|
        #![trigger src(x, a)[k]]
        tree.is_edge(x, a) && tree.nodes@[x].is_player() && 0 <= k < src(x, a).len() ==> answers(
            lean,
            zones[x],
            src(x, a)[k].0,
        ) && 0 <= src(x, a)[k].1 < MAX_NA_POSTFLOP
}

/// What the sources give in each zone.
pub open spec fn drawn_by<T: Widen>(
    lean: &FlopStartVectorCfr<T>,
    src: spec_fn(int, int) -> Seq<(int, int, T)>,
    weighted: bool,
) -> spec_fn(Zone, int, int, int) -> Seq<T> {
    |z: Zone, o: int, x: int, a: int|
        drawn(&lean.bank(z), &lean.book(z), o, src(x, a), weighted)
}

proof fn lemma_plan_fits<T: Widen>(
    tree: &FlatTree,
    rich: &FlopStartVectorCfr<T>,
    lean_tree: &FlatTree,
    lean: &FlopStartVectorCfr<T>,
    zone: Zone,
    plan: Seq<Vec<Vec<(usize, usize, T)>>>,
    src: spec_fn(int, int) -> Seq<(int, int, T)>,
)
    requires
        rich.wf(tree),
        lean.wf(lean_tree),
        zone != Zone::Preflop,
        plan_is(tree, plan, src),
        sources_fit(tree, rich.zones@, lean, src),
    ensures
        plan_fits(
            tree,
            rich.zones@,
            zone,
            &lean.book(zone),
            lean.bank(zone).infosets as int,
            plan,
        ),
{
    assert forall|x: int|
        #![trigger plan[x]]
        ZoneBook::owns(tree, rich.zones@, zone, x) implies plan[x]@.len() == tree.arity(x)
        && forall|a: int|
        0 <= a < plan[x]@.len() ==> are_sources(
            &lean.book(zone),
            lean.bank(zone).infosets as int,
            (#[trigger] plan[x]@[a])@,
        ) by {
        assert forall|a: int| 0 <= a < plan[x]@.len() implies are_sources(
            &lean.book(zone),
            lean.bank(zone).infosets as int,
            (#[trigger] plan[x]@[a])@,
        ) by {
            assert(tree.is_edge(x, a));
            let list = plan[x]@[a]@;
            assert forall|k: int| 0 <= k < list.len() implies (#[trigger] list[k]).0 < lean.book(
                zone,
            ).local_offset@.len() && lean.book(zone).local(list[k].0 as int) < lean.bank(
                zone,
            ).infosets && list[k].1 < MAX_NA_POSTFLOP by {
                assert(plain_sources(list)[k] == src(x, a)[k]);
                assert(answers(lean, zone, src(x, a)[k].0));
                lemma_answers(lean, lean_tree, zone, list[k].0 as int);
            }
        }
    }
}

/// A zone follows any rule that agrees with the plan on its actions.
proof fn lemma_zone_follows<T: Widen>(
    tree: &FlatTree,
    was: &FlopStartVectorCfr<T>,
    lean: &FlopStartVectorCfr<T>,
    zone: Zone,
    bank: &ZoneBank<T>,
    plan: Seq<Vec<Vec<(usize, usize, T)>>>,
    src: spec_fn(int, int) -> Seq<(int, int, T)>,
    weighted: bool,
    f: spec_fn(Zone, int, int, int) -> Seq<T>,
)
    requires
        plan_is(tree, plan, src),
        zone_lifted(
            tree,
            was.zones@,
            zone,
            &was.book(zone),
            &was.bank(zone),
            bank,
            plan_rows(&lean.bank(zone), &lean.book(zone), plan, weighted),
        ),
        agrees(tree, was.zones@, drawn_by(lean, src, weighted), f),
    ensures
        zone_lifted(
            tree,
            was.zones@,
            zone,
            &was.book(zone),
            &was.bank(zone),
            bank,
            in_zone(f, zone),
        ),
{
    let g = plan_rows(&lean.bank(zone), &lean.book(zone), plan, weighted);
    let b = was.bank(zone);
    let book = was.book(zone);
    assert forall|x: int, o: int, a: int|
        #![trigger slot(b.place(o, book.local(x)), a)]
        ZoneBook::owns(tree, was.zones@, zone, x) && 0 <= o < b.outcomes && 0 <= a
            < MAX_NA_POSTFLOP implies row(
        bank.cum@,
        b.width as int,
        slot(b.place(o, book.local(x)), a),
    ) == if a < tree.arity(x) {
        in_zone(f, zone)(o, x, a)
    } else {
        flat(T::s_zero(), b.width as int)
    } by {
        if a < tree.arity(x) {
            assert(tree.is_edge(x, a));
            assert(plain_sources(plan[x]@[a]@) == src(x, a));
            assert(drawn_by(lean, src, weighted)(zone, o, x, a) == f(zone, o, x, a));
        }
    }
}

/// Two rules say the same of every action of every decision.
pub open spec fn agrees<T>(
    tree: &FlatTree,
    zones: Seq<Zone>,
    f: spec_fn(Zone, int, int, int) -> Seq<T>,
    g: spec_fn(Zone, int, int, int) -> Seq<T>,
) -> bool {
    forall|o: int, x: int, a: int|
        #![trigger f(zones[x], o, x, a)]
        tree.is_edge(x, a) && tree.nodes@[x].is_player() ==> f(zones[x], o, x, a) == g(
            zones[x],
            o,
            x,
            a,
        )
}

/// Rewrites all accumulated strategies from the plan.
fn lift_plan<T: Widen>(
    tree: &FlatTree,
    lean: &FlopStartVectorCfr<T>,
    rich: &mut FlopStartVectorCfr<T>,
    plan: &Vec<Vec<Vec<(usize, usize, T)>>>,
    weighted: bool,
    Ghost(lean_tree): Ghost<&FlatTree>,
    Ghost(src): Ghost<spec_fn(int, int) -> Seq<(int, int, T)>>,
    Ghost(f): Ghost<spec_fn(Zone, int, int, int) -> Seq<T>>,
)
    requires
        old(rich).wf(tree),
        lean.wf(lean_tree),
        same_deals(lean, old(rich)),
        plan_is(tree, plan@, src),
        sources_fit(tree, old(rich).zones@, lean, src),
        agrees(tree, old(rich).zones@, drawn_by(lean, src, weighted), f),
    ensures
        final(rich).wf(tree),
        solver_lifted(tree, old(rich), final(rich), f),
{
    let ghost was = *rich;
    proof {
        lemma_plan_fits(tree, rich, lean_tree, lean, Zone::Flop, plan@, src);
        lemma_plan_fits(tree, rich, lean_tree, lean, Zone::Turn, plan@, src);
        lemma_plan_fits(tree, rich, lean_tree, lean, Zone::River, plan@, src);
    }
    lift_zone(
        tree,
        &rich.zones,
        Zone::Flop,
        &rich.flop_book,
        &mut rich.flop,
        &lean.flop_book,
        &lean.flop,
        plan,
        weighted,
    );
    lift_zone(
        tree,
        &rich.zones,
        Zone::Turn,
        &rich.turn_book,
        &mut rich.turn,
        &lean.turn_book,
        &lean.turn,
        plan,
        weighted,
    );
    lift_zone(
        tree,
        &rich.zones,
        Zone::River,
        &rich.river_book,
        &mut rich.river,
        &lean.river_book,
        &lean.river,
        plan,
        weighted,
    );
    proof {
        lemma_zone_follows(tree, &was, lean, Zone::Flop, &rich.flop, plan@, src, weighted, f);
        lemma_zone_follows(tree, &was, lean, Zone::Turn, &rich.turn, plan@, src, weighted, f);
        lemma_zone_follows(tree, &was, lean, Zone::River, &rich.river, plan@, src, weighted, f);
    }
}

/// The only source of each action, as a list of none or one.
pub open spec fn single_sources<T: Widen>(
    lean: &FlopStartVectorCfr<T>,
    zones: Seq<Zone>,
    nodes: Seq<Option<usize>>,
    actions: Seq<Vec<Option<usize>>>,
) -> spec_fn(int, int) -> Seq<(int, int, T)> {
    |x: int, a: int|
        match source_of(lean, zones[x], opt_int(nodes[x]), opt_int(actions[x]@[a])) {
            Some((l, b)) => seq![(l, b, T::s_one())],
            None => Seq::empty(),
        }
}

/// Copies by node and by action.
pub open spec fn copy_rule<T: Widen>(
    lean: &FlopStartVectorCfr<T>,
    nodes: Seq<Option<usize>>,
    actions: Seq<Vec<Option<usize>>>,
) -> spec_fn(Zone, int, int, int) -> Seq<T> {
    |z: Zone, o: int, x: int, a: int|
        copied(lean, z, o, source_of(lean, z, opt_int(nodes[x]), opt_int(actions[x]@[a])))
}

/// One list of actions per node, one entry per action; standing nodes are nodes,
/// and standing actions of decisions have slots.
pub open spec fn pairing_fits<T: Widen>(
    tree: &FlatTree,
    zones: Seq<Zone>,
    lean: &FlopStartVectorCfr<T>,
    nodes: Seq<Option<usize>>,
    actions: Seq<Vec<Option<usize>>>,
) -> bool {
    &&& nodes.len() == tree.size()
    &&& actions.len() == tree.size()
    &&& forall|x: int| tree.is_node(x) ==> (#[trigger] actions[x])@.len() == tree.arity(x)
    &&& forall|x: int| tree.is_node(x) ==> ((#[trigger] nodes[x]) matches Some(l) ==> l
        < lean.zones@.len())
    &&& forall|x: int, a: int|
        #![trigger actions[x]@[a]]
        tree.is_edge(x, a) && tree.nodes@[x].is_player() ==> (source_of(
            lean,
            zones[x],
            opt_int(nodes[x]),
            opt_int(actions[x]@[a]),
        ) matches Some((l, b)) ==> b < MAX_NA_POSTFLOP)
}

/// Lists the only source of every action.
fn single_plan<T: Widen>(
    tree: &FlatTree,
    zones: &Vec<Zone>,
    lean: &FlopStartVectorCfr<T>,
    nodes: &Vec<Option<usize>>,
    actions: &Vec<Vec<Option<usize>>>,
    Ghost(lean_tree): Ghost<&FlatTree>,
) -> (plan: Vec<Vec<Vec<(usize, usize, T)>>>)
    requires
        tree.wf(),
        zones@.len() == tree.size(),
        lean.wf(lean_tree),
        pairing_fits(tree, zones@, lean, nodes@, actions@),
    ensures
        plan_is(tree, plan@, single_sources(lean, zones@, nodes@, actions@)),
{
    let ghost src = single_sources(lean, zones@, nodes@, actions@);
    let n: usize = tree.nodes.len();
    let mut plan: Vec<Vec<Vec<(usize, usize, T)>>> = Vec::new();
    let mut x: usize = 0;
    while x < n
        invariant
            x <= n,
            n == tree.size(),
            tree.wf(),
            zones@.len() == tree.size(),
            lean.wf(lean_tree),
            pairing_fits(tree, zones@, lean, nodes@, actions@),
            src == single_sources(lean, zones@, nodes@, actions@),
            plan@.len() == x,
            forall|y: int| 0 <= y < x ==> (#[trigger] plan@[y])@.len() == tree.arity(y),
            forall|y: int, a: int|
                #![trigger plan@[y]@[a]]
                y < x && tree.is_edge(y, a) ==> plain_sources(plan@[y]@[a]@) == src(y, a),
        decreases n - x,
    {
        let zone = zones[x];
        assert(actions@[x as int]@.len() == tree.arity(x as int));
        assert(nodes@[x as int] matches Some(l) ==> l < lean.zones@.len());
        let stand = match nodes[x] {
            Some(l) => if lean.zones[l] == zone && local_in(lean, zone, l, Ghost(lean_tree))
                != UNUSED {
                Some(l)
            } else {
                None
            },
            None => None,
        };
        let m: usize = actions[x].len();
        let mut lists: Vec<Vec<(usize, usize, T)>> = Vec::new();
        let mut a: usize = 0;
        while a < m
            invariant
                a <= m,
                x < n,
                n == tree.size(),
                m == actions@[x as int]@.len(),
                actions@.len() == n,
                zones@.len() == n,
                zone == zones@[x as int],
                src == single_sources(lean, zones@, nodes@, actions@),
                stand == match nodes@[x as int] {
                    Some(l) => if answers(lean, zone, l as int) {
                        Some(l)
                    } else {
                        None
                    },
                    None => None,
                },
                lists@.len() == a,
                forall|b: int|
                    0 <= b < a ==> plain_sources((#[trigger] lists@[b])@) == src(x as int, b),
            decreases m - a,
        {
            let mut list: Vec<(usize, usize, T)> = Vec::new();
            if let (Some(l), Some(b)) = (stand, actions[x][a]) {
                list.push((l, b, T::one()));
            }
            assert(plain_sources(list@) =~= src(x as int, a as int));
            lists.push(list);
            a += 1;
        }
        plan.push(lists);
        x += 1;
    }
    plan
}

proof fn lemma_single_rule<T: Widen>(
    tree: &FlatTree,
    zones: Seq<Zone>,
    lean: &FlopStartVectorCfr<T>,
    nodes: Seq<Option<usize>>,
    actions: Seq<Vec<Option<usize>>>,
)
    requires
        pairing_fits(tree, zones, lean, nodes, actions),
        lean.flop.width == lean.nh,
        lean.turn.width == lean.nh,
        lean.river.width == lean.nh,
    ensures
        sources_fit(tree, zones, lean, single_sources(lean, zones, nodes, actions)),
        agrees(
            tree,
            zones,
            drawn_by(lean, single_sources(lean, zones, nodes, actions), false),
            copy_rule(lean, nodes, actions),
        ),
{
    let src = single_sources(lean, zones, nodes, actions);
    assert forall|x: int, a: int, k: int|
        #![trigger src(x, a)[k]]
        tree.is_edge(x, a) && tree.nodes@[x].is_player() && 0 <= k < src(
            x,
            a,
        ).len() implies answers(lean, zones[x], src(x, a)[k].0) && 0 <= src(x, a)[k].1
        < MAX_NA_POSTFLOP by {
        let act = actions[x]@[a];
        assert(source_of(lean, zones[x], opt_int(nodes[x]), opt_int(act)) is Some);
    }
}

/// What the map's node and action pairs copy over. Where a lean action stands for
/// several actions, each of them gets a copy of it.
pub fn lift_into_rich_solver<T: Widen>(
    rich_tree: &FlatTree,
    map: &CrossTreeMap,
    lean_cpu: &FlopStartVectorCfr<T>,
    rich_cpu_lifted: &mut FlopStartVectorCfr<T>,
)
    requires
        old(rich_cpu_lifted).wf(rich_tree),
        exists|lean_tree: &FlatTree| #[trigger]
            lean_cpu.wf(lean_tree) && map.pairs(rich_tree, lean_tree),
        same_deals(lean_cpu, old(rich_cpu_lifted)),
    ensures
        final(rich_cpu_lifted).wf(rich_tree),
        solver_lifted(
            rich_tree,
            old(rich_cpu_lifted),
            final(rich_cpu_lifted),
            copy_rule(lean_cpu, map.rich_to_lean_node@, map.rich_action_to_lean@),
        ),
{
    let ghost lean_tree = choose|lean_tree: &FlatTree| #[trigger]
        lean_cpu.wf(lean_tree) && map.pairs(rich_tree, lean_tree);
    proof {
        lemma_map_fits(rich_tree, rich_cpu_lifted, lean_tree, lean_cpu, map);
        lemma_single_rule(
            rich_tree,
            rich_cpu_lifted.zones@,
            lean_cpu,
            map.rich_to_lean_node@,
            map.rich_action_to_lean@,
        );
    }
    let plan = single_plan(
        rich_tree,
        &rich_cpu_lifted.zones,
        lean_cpu,
        &map.rich_to_lean_node,
        &map.rich_action_to_lean,
        Ghost(lean_tree),
    );
    lift_plan(
        rich_tree,
        lean_cpu,
        rich_cpu_lifted,
        &plan,
        false,
        Ghost(lean_tree),
        Ghost(
            single_sources(
                lean_cpu,
                rich_cpu_lifted.zones@,
                map.rich_to_lean_node@,
                map.rich_action_to_lean@,
            ),
        ),
        Ghost(copy_rule(lean_cpu, map.rich_to_lean_node@, map.rich_action_to_lean@)),
    );
}

/// A map that pairs the two trees fits their solvers.
proof fn lemma_map_fits<T: Widen>(
    tree: &FlatTree,
    rich: &FlopStartVectorCfr<T>,
    lean_tree: &FlatTree,
    lean: &FlopStartVectorCfr<T>,
    map: &CrossTreeMap,
)
    requires
        rich.wf(tree),
        lean.wf(lean_tree),
        map.pairs(tree, lean_tree),
    ensures
        pairing_fits(
            tree,
            rich.zones@,
            lean,
            map.rich_to_lean_node@,
            map.rich_action_to_lean@,
        ),
{
    let nodes = map.rich_to_lean_node@;
    let actions = map.rich_action_to_lean@;
    assert forall|x: int| tree.is_node(x) implies ((#[trigger] nodes[x]) matches Some(l) ==> l
        < lean.zones@.len()) by {
        assert(paired_at(tree, lean_tree, nodes, actions[x]@, x));
        assert(node_of(nodes, x) == opt_int(nodes[x]));
    }
    assert forall|x: int, a: int|
        #![trigger actions[x]@[a]]
        tree.is_edge(x, a) && tree.nodes@[x].is_player() implies (source_of(
        lean,
        rich.zones@[x],
        opt_int(nodes[x]),
        opt_int(actions[x]@[a]),
    ) matches Some((l, b)) ==> b < MAX_NA_POSTFLOP) by {
        assert(paired_at(tree, lean_tree, nodes, actions[x]@, x));
        if let Some((l, b)) = source_of(
            lean,
            rich.zones@[x],
            opt_int(nodes[x]),
            opt_int(actions[x]@[a]),
        ) {
            lemma_answers(lean, lean_tree, rich.zones@[x], l);
            lemma_pair_action(tree, lean_tree, x, l, a);
            assert(lean_tree.nodes@[l].is_player());
        }
    }
}

/// Copies by node, and by equal action of the two nodes.
pub open spec fn exact_rule<T: Widen>(
    tree: &FlatTree,
    lean_tree: &FlatTree,
    lean: &FlopStartVectorCfr<T>,
    nodes: Seq<Option<usize>>,
) -> spec_fn(Zone, int, int, int) -> Seq<T> {
    |z: Zone, o: int, x: int, a: int|
        copied(
            lean,
            z,
            o,
            source_of(lean, z, opt_int(nodes[x]), exact_action(tree, lean_tree, nodes, x, a)),
        )
}

/// The lean action that equals action `a` of node `x`.
pub open spec fn exact_action(
    tree: &FlatTree,
    lean_tree: &FlatTree,
    nodes: Seq<Option<usize>>,
    x: int,
    a: int,
) -> Option<int> {
    match nodes[x] {
        Some(l) => claims(tree, lean_tree, x, l as int, tree.arity(x) as nat)[a],
        None => None,
    }
}

/// The equal actions of every node.
fn exact_actions(tree: &FlatTree, lean_tree: &FlatTree, nodes: &Vec<Option<usize>>) -> (actions:
    Vec<Vec<Option<usize>>>)
    requires
        tree.wf(),
        lean_tree.wf(),
        nodes@.len() == tree.size(),
        forall|x: int|
            tree.is_node(x) ==> ((#[trigger] nodes@[x]) matches Some(l) ==> lean_tree.is_node(
                l as int,
            )),
    ensures
        actions@.len() == tree.size(),
        forall|x: int| tree.is_node(x) ==> (#[trigger] actions@[x])@.len() == tree.arity(x),
        forall|x: int, a: int|
            #![trigger actions@[x]@[a]]
            tree.is_edge(x, a) ==> opt_int(actions@[x]@[a]) == exact_action(
                tree,
                lean_tree,
                nodes@,
                x,
                a,
            ) && (nodes@[x] matches Some(l) ==> (actions@[x]@[a] matches Some(b) ==> b
                < lean_tree.arity(l as int))),
{
    let n: usize = tree.nodes.len();
    let mut actions: Vec<Vec<Option<usize>>> = Vec::new();
    let mut x: usize = 0;
    while x < n
        invariant
            x <= n,
            n == tree.size(),
            tree.wf(),
            lean_tree.wf(),
            nodes@.len() == tree.size(),
            forall|x: int|
                tree.is_node(x) ==> ((#[trigger] nodes@[x]) matches Some(l) ==> lean_tree.is_node(
                    l as int,
                )),
            actions@.len() == x,
            forall|y: int| 0 <= y < x ==> (#[trigger] actions@[y])@.len() == tree.arity(y),
            forall|y: int, a: int|
                #![trigger actions@[y]@[a]]
                y < x && tree.is_edge(y, a) ==> opt_int(actions@[y]@[a]) == exact_action(
                    tree,
                    lean_tree,
                    nodes@,
                    y,
                    a,
                ) && (nodes@[y] matches Some(l) ==> (actions@[y]@[a] matches Some(b) ==> b
                    < lean_tree.arity(l as int))),
        decreases n - x,
    {
        assert(nodes@[x as int] matches Some(l) ==> lean_tree.is_node(l as int));
        let row = match nodes[x] {
            Some(l) => claimed_row(tree, lean_tree, x, l),
            None => filled(None, tree.nodes[x].num_children as usize),
        };
        actions.push(row);
        x += 1;
    }
    actions
}

/// What equal actions of paired nodes copy over; an action that its lean node
/// does not have gets nothing.
pub fn lift_into_rich_solver_with_lean<T: Widen>(
    rich_tree: &FlatTree,
    lean_tree: &FlatTree,
    map: &CrossTreeMap,
    lean_cpu: &FlopStartVectorCfr<T>,
    rich_cpu_lifted: &mut FlopStartVectorCfr<T>,
)
    requires
        old(rich_cpu_lifted).wf(rich_tree),
        lean_cpu.wf(lean_tree),
        map.pairs(rich_tree, lean_tree),
        same_deals(lean_cpu, old(rich_cpu_lifted)),
    ensures
        final(rich_cpu_lifted).wf(rich_tree),
        solver_lifted(
            rich_tree,
            old(rich_cpu_lifted),
            final(rich_cpu_lifted),
            exact_rule(rich_tree, lean_tree, lean_cpu, map.rich_to_lean_node@),
        ),
{
    let ghost nodes = map.rich_to_lean_node@;
    let ghost zones = rich_cpu_lifted.zones@;
    proof {
        lemma_map_fits(rich_tree, rich_cpu_lifted, lean_tree, lean_cpu, map);
        assert(lean_cpu.zones@.len() == lean_tree.size());
        assert(forall|x: int|
            rich_tree.is_node(x) ==> ((#[trigger] nodes[x]) matches Some(l) ==> lean_tree.is_node(
                l as int,
            )));
    }
    let actions = exact_actions(rich_tree, lean_tree, &map.rich_to_lean_node);
    let ghost f = exact_rule(rich_tree, lean_tree, lean_cpu, nodes);
    proof {
        assert forall|x: int, a: int|
            #![trigger actions@[x]@[a]]
            rich_tree.is_edge(x, a) && rich_tree.nodes@[x].is_player() implies (source_of(
            lean_cpu,
            zones[x],
            opt_int(nodes[x]),
            opt_int(actions@[x]@[a]),
        ) matches Some((l, b)) ==> b < MAX_NA_POSTFLOP) by {
            if let Some((l, b)) = source_of(
                lean_cpu,
                zones[x],
                opt_int(nodes[x]),
                opt_int(actions@[x]@[a]),
            ) {
                lemma_answers(lean_cpu, lean_tree, zones[x], l);
                assert(lean_tree.nodes@[l].is_player());
            }
        }
        lemma_single_rule(rich_tree, zones, lean_cpu, nodes, actions@);
        let src = single_sources(lean_cpu, zones, nodes, actions@);
        let g = drawn_by(lean_cpu, src, false);
        assert forall|o: int, x: int, a: int|
            #![trigger g(zones[x], o, x, a)]
            rich_tree.is_edge(x, a) && rich_tree.nodes@[x].is_player() implies g(zones[x], o, x, a)
            == f(zones[x], o, x, a) by {
            let c = copy_rule(lean_cpu, nodes, actions@);
            assert(g(zones[x], o, x, a) == c(zones[x], o, x, a));
            assert(opt_int(actions@[x]@[a]) == exact_action(rich_tree, lean_tree, nodes, x, a));
        }
    }
    let plan = single_plan(
        rich_tree,
        &rich_cpu_lifted.zones,
        lean_cpu,
        &map.rich_to_lean_node,
        &actions,
        Ghost(lean_tree),
    );
    lift_plan(
        rich_tree,
        lean_cpu,
        rich_cpu_lifted,
        &plan,
        false,
        Ghost(lean_tree),
        Ghost(single_sources(lean_cpu, zones, nodes, actions@)),
        Ghost(f),
    );
}

/// The weighted sources of action `a` of decision `x`: for each of the first `n`
/// nodes that stand for it, the equal action there.
pub open spec fn weighted_sources<T: Widen>(
    tree: &FlatTree,
    lean_tree: &FlatTree,
    tol: T::Wide,
    lean: &FlopStartVectorCfr<T>,
    zone: Zone,
    entries: Seq<(usize, T)>,
    x: int,
    a: int,
    n: nat,
) -> Seq<(int, int, T)>
    decreases n,
{
    if n == 0 || !tree.nodes@[x].is_player() {
        Seq::empty()
    } else {
        let prev = weighted_sources(
            tree,
            lean_tree,
            tol,
            lean,
            zone,
            entries,
            x,
            a,
            (n - 1) as nat,
        );
        let (l, w) = entries[n - 1];
        if answers(lean, zone, l as int) {
            match claim_of(tree, lean_tree, tol, x, l as int, a) {
                Some(b) => prev.push((l as int, b, w)),
                None => prev,
            }
        } else {
            prev
        }
    }
}

/// The sources of every action.
pub open spec fn blend_sources<T: Widen>(
    tree: &FlatTree,
    lean_tree: &FlatTree,
    tol: T::Wide,
    lean: &FlopStartVectorCfr<T>,
    zones: Seq<Zone>,
    map: Seq<Vec<(usize, T)>>,
) -> spec_fn(int, int) -> Seq<(int, int, T)> {
    |x: int, a: int|
        weighted_sources(
            tree,
            lean_tree,
            tol,
            lean,
            zones[x],
            map[x]@,
            x,
            a,
            map[x]@.len(),
        )
}

/// Blends by weight what stands for each action.
pub open spec fn blend_rule<T: Widen>(
    tree: &FlatTree,
    lean_tree: &FlatTree,
    tol: T::Wide,
    lean: &FlopStartVectorCfr<T>,
    map: Seq<Vec<(usize, T)>>,
) -> spec_fn(Zone, int, int, int) -> Seq<T> {
    |z: Zone, o: int, x: int, a: int|
        {
            let src = weighted_sources(
                tree,
                lean_tree,
                tol,
                lean,
                z,
                map[x]@,
                x,
                a,
                map[x]@.len(),
            );
            blend(&lean.bank(z), &lean.book(z), o, src, src.len())
        }
}

/// One list per node, of lean nodes.
pub open spec fn lists_fit<T>(tree: &FlatTree, lean_tree: &FlatTree, map: Seq<Vec<(usize, T)>>) -> bool {
    &&& map.len() == tree.size()
    &&& forall|x: int| tree.is_node(x) ==> are_nodes(lean_tree, (#[trigger] map[x])@)
}

proof fn lemma_weighted_fit<T: Widen>(
    tree: &FlatTree,
    lean_tree: &FlatTree,
    tol: T::Wide,
    lean: &FlopStartVectorCfr<T>,
    zone: Zone,
    entries: Seq<(usize, T)>,
    x: int,
    a: int,
    n: nat,
)
    requires
        tree.is_edge(x, a),
        lean.wf(lean_tree),
        n <= entries.len(),
    ensures
        forall|k: int|
            #![trigger weighted_sources(tree, lean_tree, tol, lean, zone, entries, x, a, n)[k]]
            0 <= k < weighted_sources(
                tree,
                lean_tree,
                tol,
                lean,
                zone,
                entries,
                x,
                a,
                n,
            ).len() ==> {
                let s = weighted_sources(tree, lean_tree, tol, lean, zone, entries, x, a, n)[k];
                answers(lean, zone, s.0) && 0 <= s.1 < MAX_NA_POSTFLOP
            },
    decreases n,
{
    if n > 0 && tree.nodes@[x].is_player() {
        lemma_weighted_fit(
            tree,
            lean_tree,
            tol,
            lean,
            zone,
            entries,
            x,
            a,
            (n - 1) as nat,
        );
        let l = entries[n - 1].0 as int;
        if answers(lean, zone, l) {
            lemma_answers(lean, lean_tree, zone, l);
            lemma_claim_bound(tree, lean_tree, tol, x, l, a);
            assert(lean_tree.nodes@[l].is_player());
        }
        let prev = weighted_sources(
            tree,
            lean_tree,
            tol,
            lean,
            zone,
            entries,
            x,
            a,
            (n - 1) as nat,
        );
        let all = weighted_sources(tree, lean_tree, tol, lean, zone, entries, x, a, n);
        assert forall|k: int| 0 <= k < all.len() implies answers(
            lean,
            zone,
            (#[trigger] all[k]).0,
        ) && 0 <= all[k].1 < MAX_NA_POSTFLOP by {
            if k < prev.len() {
                assert(all[k] == prev[k]);
            }
        }
    }
}

/// The source lists of one decision.
fn weighted_lists<T: Widen>(
    tree: &FlatTree,
    lean_tree: &FlatTree,
    tol: T::Wide,
    lean: &FlopStartVectorCfr<T>,
    zone: Zone,
    entries: &Vec<(usize, T)>,
    x: usize,
) -> (lists: Vec<Vec<(usize, usize, T)>>)
    requires
        tree.wf(),
        tree.is_node(x as int),
        lean.wf(lean_tree),
        are_nodes(lean_tree, entries@),
    ensures
        lists@.len() == tree.arity(x as int),
        forall|a: int|
            0 <= a < lists@.len() ==> plain_sources((#[trigger] lists@[a])@) == weighted_sources(
                tree,
                lean_tree,
                tol,
                lean,
                zone,
                entries@,
                x as int,
                a,
                entries@.len(),
            ),
{
    let m: usize = tree.nodes[x].num_children as usize;
    let mut lists: Vec<Vec<(usize, usize, T)>> = Vec::new();
    let mut a: usize = 0;
    while a < m
        invariant
            a <= m,
            lists@.len() == a,
            forall|b: int| 0 <= b < a ==> (#[trigger] lists@[b])@.len() == 0,
        decreases m - a,
    {
        lists.push(Vec::new());
        a += 1;
    }
    proof {
        assert forall|b: int| 0 <= b < m implies plain_sources((#[trigger] lists@[b])@)
            == weighted_sources(
            tree,
            lean_tree,
            tol,
            lean,
            zone,
            entries@,
            x as int,
            b,
            0,
        ) by {
            assert(plain_sources(lists@[b]@) =~= Seq::empty());
        }
    }
    if !tree.nodes[x].is_player() {
        proof {
            assert forall|b: int| 0 <= b < m implies plain_sources((#[trigger] lists@[b])@)
                == weighted_sources(
                tree,
                lean_tree,
                tol,
                lean,
                zone,
                entries@,
                x as int,
                b,
                entries@.len(),
            ) by {
                assert(plain_sources(lists@[b]@) =~= Seq::empty());
            }
        }
        return lists;
    }
    let mut k: usize = 0;
    while k < entries.len()
        invariant
            k <= entries@.len(),
            m == tree.arity(x as int),
            tree.wf(),
            tree.is_node(x as int),
            tree.nodes@[x as int].is_player(),
            lean.wf(lean_tree),
            are_nodes(lean_tree, entries@),
            lists@.len() == m,
            forall|b: int|
                0 <= b < m ==> plain_sources((#[trigger] lists@[b])@) == weighted_sources(
                    tree,
                    lean_tree,
                    tol,
                    lean,
                    zone,
                    entries@,
                    x as int,
                    b,
                    k as nat,
                ),
        decreases entries@.len() - k,
    {
        let (l, w) = entries[k];
        assert(lean_tree.is_node(l as int));
        if lean.zones[l] == zone && local_in(lean, zone, l, Ghost(lean_tree)) != UNUSED {
            proof {
                lemma_answers(lean, lean_tree, zone, l as int);
                assert(tree.node_ok(x as int));
                assert(lean_tree.node_ok(l as int));
            }
            let claims = claimed_moves(tree, lean_tree, tol, x, l);
            let ghost before = lists@;
            let mut a: usize = 0;
            while a < m
                invariant
                    a <= m,
                    k < entries@.len(),
                    m == tree.arity(x as int),
                    tree.nodes@[x as int].is_player(),
                    lists@.len() == m,
                    before.len() == m,
                    claims@.len() == m,
                    entries@[k as int] == (l, w),
                    answers(lean, zone, l as int),
                    forall|b: int|
                        0 <= b < m ==> opt_int(#[trigger] claims@[b]) == claim_of(
                            tree,
                            lean_tree,
                            tol,
                            x as int,
                            l as int,
                            b,
                        ),
                    forall|b: int|
                        0 <= b < m ==> plain_sources((#[trigger] before[b])@) == weighted_sources(
                            tree,
                            lean_tree,
                            tol,
                            lean,
                            zone,
                            entries@,
                            x as int,
                            b,
                            k as nat,
                        ),
                    forall|b: int|
                        0 <= b < a ==> plain_sources((#[trigger] lists@[b])@) == weighted_sources(
                            tree,
                            lean_tree,
                            tol,
                            lean,
                            zone,
                            entries@,
                            x as int,
                            b,
                            (k + 1) as nat,
                        ),
                    forall|b: int| a <= b < m ==> #[trigger] lists@[b] == before[b],
                decreases m - a,
            {
                assert(lists@[a as int] == before[a as int]);
                assert(opt_int(claims@[a as int]) == claim_of(
                    tree,
                    lean_tree,
                    tol,
                    x as int,
                    l as int,
                    a as int,
                ));
                if let Some(b) = claims[a] {
                    let ghost was = lists@[a as int]@;
                    lists[a].push((l, b, w));
                    assert(lists@[a as int]@ == was.push((l, b, w)));
                    assert(plain_sources(lists@[a as int]@) =~= plain_sources(was).push(
                        (l as int, b as int, w),
                    ));
                }
                a += 1;
            }
        }
        k += 1;
    }
    lists
}

/// What stands for each action by pot fraction, blended by weight.
pub fn lift_into_rich_solver_pseudo_harmonic<T: Widen>(
    rich_tree: &FlatTree,
    lean_tree: &FlatTree,
    ph_map: &PseudoHarmonicCrossTreeMap<T>,
    lean_cpu: &FlopStartVectorCfr<T>,
    rich_cpu_lifted: &mut FlopStartVectorCfr<T>,
)
    requires
        old(rich_cpu_lifted).wf(rich_tree),
        lean_cpu.wf(lean_tree),
        lists_fit(rich_tree, lean_tree, ph_map.rich_to_lean_nodes@),
        same_deals(lean_cpu, old(rich_cpu_lifted)),
    ensures
        final(rich_cpu_lifted).wf(rich_tree),
        solver_lifted(
            rich_tree,
            old(rich_cpu_lifted),
            final(rich_cpu_lifted),
            blend_rule(rich_tree, lean_tree, s_fraction_tolerance::<T::Wide>(), lean_cpu, ph_map.rich_to_lean_nodes@),
        ),
{
    let tol = fraction_tolerance::<T::Wide>();
    let ghost map = ph_map.rich_to_lean_nodes@;
    let ghost zones = rich_cpu_lifted.zones@;
    let ghost src = blend_sources(rich_tree, lean_tree, tol, lean_cpu, zones, map);
    let n: usize = rich_tree.nodes.len();
    let mut plan: Vec<Vec<Vec<(usize, usize, T)>>> = Vec::new();
    let mut x: usize = 0;
    while x < n
        invariant
            x <= n,
            n == rich_tree.size(),
            rich_cpu_lifted.wf(rich_tree),
            lean_cpu.wf(lean_tree),
            map == ph_map.rich_to_lean_nodes@,
            zones == rich_cpu_lifted.zones@,
            lists_fit(rich_tree, lean_tree, map),
            src == blend_sources(rich_tree, lean_tree, tol, lean_cpu, zones, map),
            plan@.len() == x,
            forall|y: int| 0 <= y < x ==> (#[trigger] plan@[y])@.len() == rich_tree.arity(y),
            forall|y: int, a: int|
                #![trigger plan@[y]@[a]]
                y < x && rich_tree.is_edge(y, a) ==> plain_sources(plan@[y]@[a]@) == src(y, a),
        decreases n - x,
    {
        assert(are_nodes(lean_tree, map[x as int]@));
        let zone = rich_cpu_lifted.zones[x];
        let lists = weighted_lists(
            rich_tree,
            lean_tree,
            tol,
            lean_cpu,
            zone,
            &ph_map.rich_to_lean_nodes[x],
            x,
        );
        plan.push(lists);
        x += 1;
    }
    let ghost f = blend_rule(rich_tree, lean_tree, tol, lean_cpu, map);
    proof {
        assert forall|x: int, a: int, k: int|
            #![trigger src(x, a)[k]]
            rich_tree.is_edge(x, a) && rich_tree.nodes@[x].is_player() && 0 <= k < src(
                x,
                a,
            ).len() implies answers(lean_cpu, zones[x], src(x, a)[k].0) && 0 <= src(x, a)[k].1
            < MAX_NA_POSTFLOP by {
            lemma_weighted_fit(
                rich_tree,
                lean_tree,
                tol,
                lean_cpu,
                zones[x],
                map[x]@,
                x,
                a,
                map[x]@.len(),
            );
        }
    }
    lift_plan(
        rich_tree,
        lean_cpu,
        rich_cpu_lifted,
        &plan,
        true,
        Ghost(lean_tree),
        Ghost(src),
        Ghost(f),
    );
}

/// A solver carried over to another one of the same tree arrives unchanged: every
/// action of every decision gets its own accumulated strategy.
pub proof fn law_lift_to_the_same_tree<T: Widen>(
    tree: &FlatTree,
    map: &CrossTreeMap,
    lean: &FlopStartVectorCfr<T>,
    zone: Zone,
    o: int,
    x: int,
    a: int,
)
    requires
        lean.wf(tree),
        map.pairs(tree, tree),
        ZoneBook::owns(tree, lean.zones@, zone, x),
        tree.is_edge(x, a),
    ensures
        exact_rule(tree, tree, lean, map.rich_to_lean_node@)(zone, o, x, a) == kept_row(
            &lean.bank(zone),
            &lean.book(zone),
            o,
            x,
            a,
        ),
        copy_rule(lean, map.rich_to_lean_node@, map.rich_action_to_lean@)(zone, o, x, a)
            == kept_row(&lean.bank(zone), &lean.book(zone), o, x, a),
{
    law_identity_pairing(tree, map, x);
    lemma_self_claims(tree, x, tree.arity(x) as nat);
    assert(opt_int(map.rich_action_to_lean@[x]@[a]) == Some(a));
    assert(lean.book(zone).of(tree, lean.zones@, zone));
    lean.book(zone).lemma_local(tree, lean.zones@, zone, x);
}

} // verus!
