//! Flop values from a solver of single flops.
use vstd::prelude::*;

use vstd::seq_lib::seq_to_set_is_finite;
use vstd::set_lib::{lemma_int_range, lemma_len_subset, set_int_range};

use crate::card::{card_pair_to_index, lemma_pair_bound, pair_number, NUM_POSSIBLE_HANDS};
use crate::deck::{is_rest_of_deck, on_board, rest_of_deck};
use crate::layout::row_copy;
use crate::postflop_oracle::{ask_of, FlopAsk, PostflopValueOracle, SeamCell};
use crate::scalar::{filled, Scalar};
use crate::terminal::views;
use crate::tree::FlatTree;

verus! {

/// Number of a pair of cards, in either order.
pub open spec fn pair_index(c: (u8, u8)) -> int {
    if c.0 < c.1 {
        pair_number(c.0 as int, c.1 as int)
    } else {
        pair_number(c.1 as int, c.0 as int)
    }
}

pub open spec fn is_combo(c: (u8, u8)) -> bool {
    c.0 < 52 && c.1 < 52 && c.0 != c.1
}

proof fn lemma_combo_bound(c: (u8, u8))
    requires
        is_combo(c),
    ensures
        0 <= pair_index(c) < NUM_POSSIBLE_HANDS,
{
    if c.0 < c.1 {
        lemma_pair_bound(c.0 as int, c.1 as int);
    } else {
        lemma_pair_bound(c.1 as int, c.0 as int);
    }
}

/// A list of pairs of cards, each once.
pub open spec fn is_layout(lay: Seq<(u8, u8)>) -> bool {
    &&& forall|k: int| 0 <= k < lay.len() ==> is_combo(#[trigger] lay[k])
    &&& forall|k: int, l: int|
        0 <= k < lay.len() && 0 <= l < lay.len() && pair_index(#[trigger] lay[k]) == pair_index(
            #[trigger] lay[l],
        ) ==> k == l
}

/// Entry `k` of the layout is pair number `i`.
pub open spec fn lists(lay: Seq<(u8, u8)>, k: int, i: int) -> bool {
    0 <= k < lay.len() && pair_index(lay[k]) == i
}

/// A row over a layout, as a row over all pairs of cards.
pub open spec fn spread_entry<T: Scalar>(lay: Seq<(u8, u8)>, vals: Seq<T>, i: int) -> T {
    if exists|k: int| #[trigger] lists(lay, k, i) {
        vals[choose|k: int| #[trigger] lists(lay, k, i)]
    } else {
        T::s_zero()
    }
}

/// The same for the whole row.
pub open spec fn spread_of<T: Scalar>(lay: Seq<(u8, u8)>, vals: Seq<T>) -> Seq<T> {
    Seq::new(NUM_POSSIBLE_HANDS as nat, |i: int| spread_entry(lay, vals, i))
}

/// Computes [`spread_of`].
fn spread<T: Scalar>(lay: &Vec<(u8, u8)>, vals: &Vec<T>) -> (out: Vec<T>)
    requires
        is_layout(lay@),
        vals@.len() == lay@.len(),
    ensures
        out@ == spread_of(lay@, vals@),
{
    let n: usize = lay.len();
    let mut out: Vec<T> = filled(T::zero(), NUM_POSSIBLE_HANDS);
    let mut k: usize = 0;
    while k < n
        invariant
            k <= n,
            n == lay@.len(),
            n == vals@.len(),
            is_layout(lay@),
            out@.len() == NUM_POSSIBLE_HANDS,
            forall|l: int, i: int|
                0 <= l < k && #[trigger] lists(lay@, l, i) ==> out@[i] == vals@[l],
            forall|i: int|
                0 <= i < NUM_POSSIBLE_HANDS && (forall|l: int|
                    0 <= l < k ==> !#[trigger] lists(lay@, l, i)) ==> #[trigger] out@[i]
                    == T::s_zero(),
        decreases n - k,
    {
        let c = lay[k];
        assert(is_combo(lay@[k as int]));
        let i: usize = card_pair_to_index(c.0, c.1);
        assert(lists(lay@, k as int, i as int));
        let ghost was = out@;
        out.set(i, vals[k]);
        proof {
            assert forall|l: int, x: int| 0 <= l < k + 1 && #[trigger] lists(lay@, l, x) implies out@[x]
                == vals@[l] by {
                if l < k {
                    lemma_combo_bound(lay@[l]);
                    assert(was[x] == vals@[l]);
                    assert(x != i) by {
                        if x == i {
                            assert(pair_index(lay@[l]) == pair_index(lay@[k as int]));
                        }
                    }
                }
            }
            assert forall|x: int|
                0 <= x < NUM_POSSIBLE_HANDS && (forall|l: int|
                    0 <= l < k + 1 ==> !#[trigger] lists(lay@, l, x)) implies #[trigger] out@[x]
                == T::s_zero() by {
                assert(!lists(lay@, k as int, x));
                assert(was[x] == T::s_zero());
            }
        }
        k += 1;
    }
    proof {
        assert forall|i: int| 0 <= i < NUM_POSSIBLE_HANDS implies #[trigger] out@[i]
            == spread_entry(lay@, vals@, i) by {
            if exists|l: int| #[trigger] lists(lay@, l, i) {
                let l = choose|l: int| #[trigger] lists(lay@, l, i);
                assert(lists(lay@, l, i));
            }
        }
        assert(out@ =~= spread_of(lay@, vals@));
    }
    out
}

/// Every row, spread.
pub open spec fn spread_rows<T: Scalar>(lay: Seq<(u8, u8)>, rows: Seq<Seq<T>>) -> Seq<Seq<T>> {
    Seq::new(rows.len(), |p: int| spread_of(lay, rows[p]))
}

/// Computes [`spread_rows`].
fn spread_all<T: Scalar>(lay: &Vec<(u8, u8)>, rows: &Vec<Vec<T>>) -> (out: Vec<Vec<T>>)
    requires
        is_layout(lay@),
        forall|p: int| 0 <= p < rows@.len() ==> (#[trigger] rows@[p])@.len() == lay@.len(),
    ensures
        views(out@) == spread_rows(lay@, views(rows@)),
{
    let n: usize = rows.len();
    let mut out: Vec<Vec<T>> = Vec::new();
    let mut p: usize = 0;
    while p < n
        invariant
            p <= n,
            n == rows@.len(),
            is_layout(lay@),
            forall|q: int| 0 <= q < rows@.len() ==> (#[trigger] rows@[q])@.len() == lay@.len(),
            out@.len() == p,
            forall|q: int| 0 <= q < p ==> (#[trigger] out@[q])@ == spread_of(lay@, rows@[q]@),
        decreases n - p,
    {
        assert(rows@[p as int]@.len() == lay@.len());
        out.push(spread(lay, &rows[p]));
        p += 1;
    }
    assert(views(out@) =~= spread_rows(lay@, views(rows@)));
    out
}

/// `k` is the first place of `c` in the layout.
pub open spec fn is_place(lay: Seq<(u8, u8)>, c: (u8, u8), k: int) -> bool {
    0 <= k < lay.len() && lay[k] == c && forall|l: int| 0 <= l < k ==> #[trigger] lay[l] != c
}

pub open spec fn place_of(lay: Seq<(u8, u8)>, c: (u8, u8)) -> int {
    choose|k: int| is_place(lay, c, k)
}

/// Every pair of `to` stands in `from`.
pub open spec fn covers(from: Seq<(u8, u8)>, to: Seq<(u8, u8)>) -> bool {
    forall|k: int| 0 <= k < to.len() ==> from.contains(#[trigger] to[k])
}

/// A row over layout `from`, in the order of layout `to`.
pub open spec fn relaid<T>(from: Seq<(u8, u8)>, to: Seq<(u8, u8)>, vals: Seq<T>) -> Seq<T> {
    Seq::new(to.len(), |k: int| vals[place_of(from, to[k])])
}

/// The first place of `c`.
fn find_place(lay: &Vec<(u8, u8)>, c: (u8, u8)) -> (k: usize)
    requires
        lay@.contains(c),
    ensures
        k == place_of(lay@, c),
        k < lay@.len(),
{
    let n: usize = lay.len();
    let mut k: usize = 0;
    while !(lay[k].0 == c.0 && lay[k].1 == c.1)
        invariant
            k < n,
            n == lay@.len(),
            lay@.contains(c),
            forall|l: int| 0 <= l < k ==> #[trigger] lay@[l] != c,
        decreases n - k,
    {
        assert(lay@[k as int] != c);
        proof {
            let l = choose|l: int| 0 <= l < lay@.len() && lay@[l] == c;
            assert(l > k);
        }
        k += 1;
    }
    proof {
        assert(lay@[k as int] == c);
        assert(is_place(lay@, c, k as int));
        let l = place_of(lay@, c);
        assert(is_place(lay@, c, l));
        if l < k {
            assert(lay@[l] != c);
        }
        if k < l {
            assert(lay@[k as int] != c);
        }
    }
    k
}

/// Computes [`relaid`].
fn relay<T: Copy>(from: &Vec<(u8, u8)>, to: &Vec<(u8, u8)>, vals: &Vec<T>) -> (out: Vec<T>)
    requires
        covers(from@, to@),
        vals@.len() == from@.len(),
    ensures
        out@ == relaid(from@, to@, vals@),
{
    let n: usize = to.len();
    let mut out: Vec<T> = Vec::new();
    let mut k: usize = 0;
    while k < n
        invariant
            k <= n,
            n == to@.len(),
            covers(from@, to@),
            vals@.len() == from@.len(),
            out@.len() == k,
            forall|l: int|
                0 <= l < k ==> #[trigger] out@[l] == vals@[place_of(from@, to@[l])],
        decreases n - k,
    {
        assert(from@.contains(to@[k as int]));
        let at: usize = find_place(from, to[k]);
        out.push(vals[at]);
        k += 1;
    }
    assert(out@ =~= relaid(from@, to@, vals@));
    out
}

/// What the solver of a single flop gives: values, and the layout that they are over.
pub type Solved<T> = (Vec<T>, Vec<(u8, u8)>);

/// A solver of single flops: it takes a row over the pairs of cards of a flop for every
/// player, and values them for the traverser. `layout` lists those pairs; `solve` plays
/// the flop on all pairs, for so many iterations, or not at all.
pub struct PerFlopSolver<'a, L, S> {
    pub flop_tree: &'a FlatTree,
    pub num_postflop_iters: Option<u32>,
    pub layout: L,
    pub solve: S,
}

/// A solver that plays every flop for `num_postflop_iters` iterations.
pub fn make_per_flop_solver_converged<'a, L, S>(
    flop_tree: &'a FlatTree,
    num_postflop_iters: u32,
    layout: L,
    solve: S,
) -> (s: PerFlopSolver<'a, L, S>)
    ensures
        s == (PerFlopSolver {
            flop_tree,
            num_postflop_iters: Some(num_postflop_iters),
            layout,
            solve,
        }),
{
    PerFlopSolver { flop_tree, num_postflop_iters: Some(num_postflop_iters), layout, solve }
}

/// A solver that values every flop as it stands, without play.
pub fn make_per_flop_solver_iter0<'a, L, S>(flop_tree: &'a FlatTree, layout: L, solve: S) -> (s:
    PerFlopSolver<'a, L, S>)
    ensures
        s == (PerFlopSolver { flop_tree, num_postflop_iters: None, layout, solve }),
{
    PerFlopSolver { flop_tree, num_postflop_iters: None, layout, solve }
}

/// Closure `f` lists the pairs of a flop so.
pub open spec fn lays_out<L: Fn([u8; 3]) -> Vec<(u8, u8)>>(
    f: &L,
    flop: [u8; 3],
    lay: Vec<(u8, u8)>,
) -> bool {
    call_ensures(*f, (flop,), lay)
}

/// Closure `f` solves a flop so.
pub open spec fn solves<
    T,
    S: Fn([u8; 3], &FlatTree, &Vec<Vec<T>>, u8, Option<u32>) -> Solved<T>,
>(
    f: &S,
    flop: [u8; 3],
    tree: &FlatTree,
    full: Vec<Vec<T>>,
    t: u8,
    iters: Option<u32>,
    out: Solved<T>,
) -> bool {
    call_ensures(*f, (flop, tree, &full, t, iters), out)
}

/// Rows of this width can be asked for: they have an entry for every pair of the
/// flop, and the solver's layout holds those pairs.
pub open spec fn solver_takes<
    T: Scalar,
    L: Fn([u8; 3]) -> Vec<(u8, u8)>,
    S: Fn([u8; 3], &FlatTree, &Vec<Vec<T>>, u8, Option<u32>) -> Solved<T>,
>(s: &PerFlopSolver<L, S>, ask: FlopAsk<T>) -> bool {
    &&& ask.ranges.len() >= 2
    &&& forall|flop: [u8; 3]| #[trigger] call_requires(s.layout, (flop,))
    &&& forall|flop: [u8; 3], lay: Vec<(u8, u8)>|
        flop@ == ask.flop && #[trigger] lays_out(&s.layout, flop, lay) ==> is_layout(lay@)
            && forall|p: int|
            0 <= p < ask.ranges.len() ==> (#[trigger] ask.ranges[p]).len() == lay@.len()
    &&& forall|flop: [u8; 3], full: &Vec<Vec<T>>| #[trigger]
        call_requires(
            s.solve,
            (flop, s.flop_tree, full, ask.traverser, s.num_postflop_iters),
        )
    &&& forall|
        flop: [u8; 3],
        lay: Vec<(u8, u8)>,
        full: Vec<Vec<T>>,
        t: u8,
        out: Solved<T>,
    |
        #![trigger lays_out(&s.layout, flop, lay), solves(&s.solve, flop, s.flop_tree, full, t, s.num_postflop_iters, out)]
        lays_out(&s.layout, flop, lay) && solves(
            &s.solve,
            flop,
            s.flop_tree,
            full,
            t,
            s.num_postflop_iters,
            out,
        ) ==> covers(out.1@, lay@) && out.1@.len() == lay@.len() && out.0@.len() == out.1@.len()
}

/// The rows are spread over all pairs, the flop is solved, and the values are brought
/// back into the order of the rows.
pub open spec fn solver_answers<
    T: Scalar,
    L: Fn([u8; 3]) -> Vec<(u8, u8)>,
    S: Fn([u8; 3], &FlatTree, &Vec<Vec<T>>, u8, Option<u32>) -> Solved<T>,
>(
    s: &PerFlopSolver<L, S>,
    ask: FlopAsk<T>,
    v: Seq<T>,
) -> bool {
    exists|flop: [u8; 3], lay: Vec<(u8, u8)>, full: Vec<Vec<T>>, out: Solved<T>|
        #![trigger lays_out(&s.layout, flop, lay), solves(&s.solve, flop, s.flop_tree, full, ask.traverser, s.num_postflop_iters, out)]
        flop@ == ask.flop && lays_out(&s.layout, flop, lay) && views(full@) == spread_rows(
            lay@,
            ask.ranges,
        ) && solves(
            &s.solve,
            flop,
            s.flop_tree,
            full,
            ask.traverser,
            s.num_postflop_iters,
            out,
        ) && v == relaid(out.1@, lay@, out.0@)
}

/// Values a flop for the traverser.
pub fn value_flop<
    T: Scalar,
    L: Fn([u8; 3]) -> Vec<(u8, u8)>,
    S: Fn([u8; 3], &FlatTree, &Vec<Vec<T>>, u8, Option<u32>) -> Solved<T>,
>(
    s: &PerFlopSolver<L, S>,
    canonical: [u8; 3], traverser: u8, combo_reaches: &Vec<Vec<T>>) -> (v: Vec<
    T,
>)
    requires
        solver_takes(s, ask_of(canonical, combo_reaches, traverser, None)),
    ensures
        forall|cell: Option<(SeamCell, u16)>|
            solver_answers(s, #[trigger] ask_of(canonical, combo_reaches, traverser, cell), v@),
        v@.len() == combo_reaches@[0]@.len(),
{
    let ghost ask = ask_of(canonical, combo_reaches, traverser, None);
    let f = &s.layout;
    let lay = f(canonical);
    assert(lays_out(&s.layout, canonical, lay));
    proof {
        assert forall|p: int| 0 <= p < combo_reaches@.len() implies (
        #[trigger] combo_reaches@[p])@.len() == lay@.len() by {
            assert(ask.ranges[p] == combo_reaches@[p]@);
        }
    }
    let full = spread_all(&lay, combo_reaches);
    let g = &s.solve;
    assert(call_requires(
        s.solve,
        (canonical, s.flop_tree, &full, ask.traverser, s.num_postflop_iters),
    ));
    let out = g(canonical, s.flop_tree, &full, traverser, s.num_postflop_iters);
    assert(solves(
        &s.solve,
        canonical,
        s.flop_tree,
        full,
        traverser,
        s.num_postflop_iters,
        out,
    ));
    let v = relay(&out.1, &lay, &out.0);
    proof {
        assert forall|cell: Option<(SeamCell, u16)>| solver_answers(s, 
            #[trigger] ask_of(canonical, combo_reaches, traverser, cell),
            v@,
        ) by {
            let q = ask_of(canonical, combo_reaches, traverser, cell);
            assert(solves(
                &s.solve,
                canonical,
                s.flop_tree,
                full,
                q.traverser,
                s.num_postflop_iters,
                out,
            ));
        }
        assert(ask.ranges[0] == combo_reaches@[0]@);
    }
    v
}

/// An oracle that plays every flop itself.
pub struct UnabstractedPostflopOracle<'a, L, S> {
    pub solver: PerFlopSolver<'a, L, S>,
}

impl<'a, L, S> UnabstractedPostflopOracle<'a, L, S> {
    pub fn new(flop_tree: &'a FlatTree, num_postflop_iters: u32, layout: L, solve: S) -> (o:
        UnabstractedPostflopOracle<'a, L, S>)
        ensures
            o.solver == (PerFlopSolver {
                flop_tree,
                num_postflop_iters: Some(num_postflop_iters),
                layout,
                solve,
            }),
    {
        UnabstractedPostflopOracle {
            solver: make_per_flop_solver_converged(flop_tree, num_postflop_iters, layout, solve),
        }
    }
}

impl<
    'a,
    T: Scalar,
    L: Fn([u8; 3]) -> Vec<(u8, u8)>,
    S: Fn([u8; 3], &FlatTree, &Vec<Vec<T>>, u8, Option<u32>) -> Solved<T>,
> PostflopValueOracle<T> for UnabstractedPostflopOracle<'a, L, S> {
    open spec fn s_takes(&self, ask: FlopAsk<T>) -> bool {
        solver_takes(&self.solver, ask)
    }

    open spec fn s_answers(&self, after: &Self, ask: FlopAsk<T>, v: Seq<T>) -> bool {
        *after == *self && solver_answers(&self.solver, ask, v)
    }

    open spec fn s_begins(&self, after: &Self, iter: u32) -> bool {
        *after == *self
    }

    open spec fn s_ends(&self, after: &Self, iter: u32) -> bool {
        *after == *self
    }

    proof fn lemma_even(&self, after: &Self, ask: FlopAsk<T>, v: Seq<T>, n: int) {
        assert(ask.ranges[0].len() == n);
    }

    proof fn lemma_still_takes(&self, after: &Self, ask: FlopAsk<T>, v: Seq<T>, other: FlopAsk<T>) {
    }

    proof fn lemma_takes_on(&self, after: &Self, iter: u32, other: FlopAsk<T>) {
    }

    fn flop_root_cfv(
        &mut self,
        canonical_flop: [u8; 3],
        combo_ranges: &Vec<Vec<T>>,
        traverser: u8,
    ) -> (v: Vec<T>) {
        value_flop(&self.solver, canonical_flop, traverser, combo_ranges)
    }

    fn flop_root_cfv_for_cell(
        &mut self,
        canonical_flop: [u8; 3],
        combo_ranges: &Vec<Vec<T>>,
        traverser: u8,
        cell: SeamCell,
        folded_mask: u16,
    ) -> (v: Vec<T>) {
        let ghost ask = ask_of(canonical_flop, combo_ranges, traverser, Some((cell, folded_mask)));
        let ghost blind = ask_of(canonical_flop, combo_ranges, traverser, None);
        assert(solver_takes(&self.solver, blind)) by {
            assert(blind.ranges == ask.ranges && blind.flop == ask.flop);
            assert(blind.traverser == ask.traverser);
        }
        value_flop(&self.solver, canonical_flop, traverser, combo_ranges)
    }

    fn begin_preflop_iter(&mut self, iter: u32) {
    }

    fn end_preflop_iter(&mut self, iter: u32) {
    }
}

/// The players of `0..n` that have not folded, in order.
pub open spec fn live_seats_upto(mask: u16, n: nat) -> Seq<usize>
    decreases n,
{
    if n == 0 {
        Seq::empty()
    } else {
        let prev = live_seats_upto(mask, (n - 1) as nat);
        if (mask >> ((n - 1) as u16)) & 1u16 == 0 {
            prev.push((n - 1) as usize)
        } else {
            prev
        }
    }
}

/// Lists the players that have not folded.
pub fn live_seats(mask: u16, np: usize) -> (seats: Vec<usize>)
    requires
        np <= 16,
    ensures
        seats@ == live_seats_upto(mask, np as nat),
{
    let mut seats: Vec<usize> = Vec::new();
    let mut p: usize = 0;
    while p < np
        invariant
            p <= np,
            np <= 16,
            seats@ == live_seats_upto(mask, p as nat),
        decreases np - p,
    {
        if (mask >> (p as u16)) & 1u16 == 0 {
            seats.push(p);
        }
        p += 1;
        assert((p - 1) as nat == p - 1);
    }
    seats
}

/// The traverser's place among the players that have not folded: how many of them sit
/// before it.
pub fn live_position(mask: u16, traverser: u8) -> (k: usize)
    requires
        traverser < 16,
    ensures
        k == live_seats_upto(mask, traverser as nat).len(),
{
    let before = live_seats(mask, traverser as usize);
    before.len()
}

/// A player that has not folded stands in the list of the live players at its place.
pub proof fn law_live_place(mask: u16, t: nat, np: nat)
    requires
        t < np <= 16,
        (mask >> (t as u16)) & 1u16 == 0,
    ensures
        live_seats_upto(mask, t).len() < live_seats_upto(mask, np).len(),
        live_seats_upto(mask, np)[live_seats_upto(mask, t).len() as int] == t,
    decreases np,
{
    if t + 1 < np {
        law_live_place(mask, t, (np - 1) as nat);
    }
}

/// Which cards of the deck are dealt as turns when `nt` are asked for.
pub open spec fn turn_places(nt: int) -> Seq<int> {
    if nt == 2 {
        seq![12, 36]
    } else if nt == 4 {
        seq![6, 18, 30, 42]
    } else {
        seq![12]
    }
}

/// Which cards are dealt as rivers when `nr` are asked for.
pub open spec fn river_places(nr: int) -> Seq<int> {
    if nr == 2 {
        seq![10, 30]
    } else if nr == 4 {
        seq![8, 20, 32, 44]
    } else {
        seq![10]
    }
}

/// The cards at these places.
pub open spec fn at_places(deck: Seq<u8>, places: Seq<int>) -> Seq<u8> {
    Seq::new(places.len(), |k: int| deck[places[k]])
}

/// A deck that leaves `board` out has all other cards.
pub proof fn lemma_deck_size(board: Seq<u8>, deck: Seq<u8>)
    requires
        is_rest_of_deck(board, deck),
    ensures
        board.len() + deck.len() >= 52,
{
    let all = (board + deck).map_values(|c: u8| c as int);
    let need = set_int_range(0, 52);
    lemma_int_range(0, 52);
    assert forall|c: int| need.contains(c) implies #[trigger] all.to_set().contains(c) by {
        let card = c as u8;
        if board.contains(card) {
            let k = choose|k: int| 0 <= k < board.len() && board[k] == card;
            assert(all[k] == c);
        } else {
            assert(deck.contains(card));
            let k = choose|k: int| 0 <= k < deck.len() && deck[k] == card;
            assert(all[board.len() + k] == c);
        }
    }
    seq_to_set_is_finite(all);
    lemma_len_subset(need, all.to_set());
    all.lemma_cardinality_of_set();
}

fn pick_places(deck: &Vec<u8>, n: usize, one: usize, two: [usize; 2], four: [usize; 4]) -> (out: Vec<u8>)
    requires
        one < deck@.len(),
        two[0] < deck@.len(),
        two[1] < deck@.len(),
        four[0] < deck@.len(),
        four[1] < deck@.len(),
        four[2] < deck@.len(),
        four[3] < deck@.len(),
    ensures
        out@ == (if n == 2 {
            seq![deck@[two[0] as int], deck@[two[1] as int]]
        } else if n == 4 {
            seq![
                deck@[four[0] as int],
                deck@[four[1] as int],
                deck@[four[2] as int],
                deck@[four[3] as int],
            ]
        } else {
            seq![deck@[one as int]]
        }),
{
    let mut out: Vec<u8> = Vec::new();
    if n == 2 {
        out.push(deck[two[0]]);
        out.push(deck[two[1]]);
    } else if n == 4 {
        out.push(deck[four[0]]);
        out.push(deck[four[1]]);
        out.push(deck[four[2]]);
        out.push(deck[four[3]]);
    } else {
        out.push(deck[one]);
    }
    out
}

/// The `nr` river cards of a deck that leaves `board` out.
pub open spec fn are_rivers(board: Seq<u8>, nr: int, cards: Seq<u8>) -> bool {
    exists|deck: Seq<u8>| #[trigger]
        is_rest_of_deck(board, deck) && cards == at_places(deck, river_places(nr))
}

/// Turn cards from the deck that the flop leaves, and after each of them river cards
/// from the deck that flop and turn leave; no river cards after other turns.
pub open spec fn is_runout(flop: Seq<u8>, nt: int, nr: int, turns: Seq<u8>, rivers: Seq<Seq<u8>>) -> bool {
    &&& exists|deck: Seq<u8>| #[trigger]
        is_rest_of_deck(flop, deck) && turns == at_places(deck, turn_places(nt))
    &&& rivers.len() == 52
    &&& forall|c: int|
        0 <= c < 52 && !turns.contains(c as u8) ==> (#[trigger] rivers[c]).len() == 0
    &&& forall|c: int|
        0 <= c < 52 && turns.contains(c as u8) ==> are_rivers(
            flop.push(c as u8),
            nr,
            #[trigger] rivers[c],
        )
}

/// Deals `nt` turns after the flop, and `nr` rivers after each.
pub fn runout(flop: [u8; 3], nt: usize, nr: usize) -> (r: (Vec<u8>, Vec<Vec<u8>>))
    ensures
        is_runout(flop@, nt as int, nr as int, r.0@, views(r.1@)),
{
    let mut board: Vec<u8> = Vec::new();
    board.push(flop[0]);
    board.push(flop[1]);
    board.push(flop[2]);
    assert(board@ =~= flop@);
    let deck = rest_of_deck(board.as_slice());
    proof {
        lemma_deck_size(board@, deck@);
    }
    let turns = pick_places(&deck, nt, 12, [12, 36], [6, 18, 30, 42]);
    assert(turns@ =~= at_places(deck@, turn_places(nt as int)));
    let mut rivers: Vec<Vec<u8>> = Vec::new();
    let mut c: u8 = 0;
    while c < 52
        invariant
            c <= 52,
            board@ == flop@,
            rivers@.len() == c,
            forall|d: int|
                0 <= d < c && !turns@.contains(d as u8) ==> (#[trigger] rivers@[d])@.len() == 0,
            forall|d: int|
                0 <= d < c && turns@.contains(d as u8) ==> are_rivers(
                    flop@.push(d as u8),
                    nr as int,
                    (#[trigger] rivers@[d])@,
                ),
        decreases 52 - c,
    {
        if on_board(turns.as_slice(), c) {
            let mut seen: Vec<u8> = Vec::new();
            seen.push(flop[0]);
            seen.push(flop[1]);
            seen.push(flop[2]);
            seen.push(c);
            assert(seen@ =~= flop@.push(c));
            let rest = rest_of_deck(seen.as_slice());
            proof {
                lemma_deck_size(seen@, rest@);
            }
            let cards = pick_places(&rest, nr, 10, [10, 30], [8, 20, 32, 44]);
            assert(cards@ =~= at_places(rest@, river_places(nr as int)));
            assert(is_rest_of_deck(flop@.push(c), rest@));
            assert(are_rivers(flop@.push(c), nr as int, cards@));
            rivers.push(cards);
        } else {
            rivers.push(Vec::new());
        }
        c += 1;
    }
    proof {
        let rv = views(rivers@);
        assert forall|d: int| 0 <= d < 52 && turns@.contains(d as u8) implies are_rivers(
            flop@.push(d as u8),
            nr as int,
            #[trigger] rv[d],
        ) by {
            assert(rv[d] == rivers@[d]@);
        }
        assert forall|d: int| 0 <= d < 52 && !turns@.contains(d as u8) implies (
        #[trigger] rv[d]).len() == 0 by {
            assert(rv[d] == rivers@[d]@);
        }
        assert(is_rest_of_deck(flop@, deck@));
    }
    (turns, rivers)
}

/// The values of one flop entered through one cell, for every live player.
pub struct LiveEntry<T> {
    pub cell: SeamCell,
    pub flop: [u8; 3],
    pub per_live: Vec<Vec<T>>,
}

/// Place of the first entry for a cell and a flop.
pub open spec fn is_first_live<T>(
    entries: Seq<LiveEntry<T>>,
    cell: SeamCell,
    flop: Seq<u8>,
    k: int,
) -> bool {
    &&& 0 <= k < entries.len()
    &&& entries[k].cell == cell && entries[k].flop@ == flop
    &&& forall|l: int|
        0 <= l < k ==> (#[trigger] entries[l]).cell != cell || entries[l].flop@ != flop
}

pub open spec fn no_live<T>(entries: Seq<LiveEntry<T>>, cell: SeamCell, flop: Seq<u8>) -> bool {
    forall|l: int|
        0 <= l < entries.len() ==> (#[trigger] entries[l]).cell != cell || entries[l].flop@ != flop
}

/// The cell that the tree of a seam is built for: no more is put in than the stack.
pub open spec fn built_cell(cell: SeamCell, stack: i32) -> SeamCell {
    SeamCell {
        commit: if cell.commit < stack {
            cell.commit
        } else {
            stack
        },
        ..cell
    }
}

/// Flop values for the players that have not folded. A flop entered through a cell is
/// played once, on the tree that `tree` builds for it, and its values for all live
/// players are kept. Three and more players are played by buckets, on `nt` turns with
/// `nr` rivers each: `bucketed` gives their values hand by hand, and for each pair of the
/// layout the hand that holds it. Two are played exactly, by `exact`, both with every pair.
pub struct LiveSubsetSource<T, R, B, L, S> {
    pub stack: i32,
    pub nt: usize,
    pub nr: usize,
    pub iters: u32,
    pub tree: R,
    pub bucketed: B,
    pub layout: L,
    pub exact: S,
    pub cache: Vec<LiveEntry<T>>,
}

/// Closure `f` builds the tree of a cell.
pub open spec fn builds_seam<R: Fn(SeamCell) -> FlatTree>(
    f: &R,
    cell: SeamCell,
    tree: FlatTree,
) -> bool {
    call_ensures(*f, (cell,), tree)
}

/// Values of all live players, hand by hand, and the hands in the order of the layout.
pub type ByHand<T> = (Vec<Vec<T>>, Vec<usize>);

/// Closure `f` plays the flop by buckets.
pub open spec fn plays_flop<
    T,
    B: Fn(&FlatTree, [u8; 3], u8, &Vec<u8>, &Vec<Vec<u8>>) -> ByHand<T>,
>(
    f: &B,
    tree: FlatTree,
    flop: [u8; 3],
    live: u8,
    turns: Vec<u8>,
    rivers: Vec<Vec<u8>>,
    out: ByHand<T>,
) -> bool {
    call_ensures(*f, (&tree, flop, live, &turns, &rivers), out)
}

/// Every hand of the order is one of every player's.
pub open spec fn is_by_hand<T>(out: ByHand<T>, live: int) -> bool {
    &&& out.0@.len() == live
    &&& forall|p: int, k: int|
        0 <= p < out.0@.len() && 0 <= k < out.1@.len() ==> (#[trigger] out.1@[k]) < (
        #[trigger] out.0@[p])@.len()
}

/// A source of flop values for live players.
pub fn bucketed_live_subset_source<T, R, B, L, S>(
    stack: i32,
    nt: usize,
    nr: usize,
    iters: u32,
    tree: R,
    bucketed: B,
    layout: L,
    exact: S,
) -> (s: LiveSubsetSource<T, R, B, L, S>)
    ensures
        s.stack == stack,
        s.nt == nt,
        s.nr == nr,
        s.iters == iters,
        s.tree == tree,
        s.bucketed == bucketed,
        s.layout == layout,
        s.exact == exact,
        s.cache@.len() == 0,
{
    LiveSubsetSource { stack, nt, nr, iters, tree, bucketed, layout, exact, cache: Vec::new() }
}

impl<
    T: Scalar,
    R: Fn(SeamCell) -> FlatTree,
    B: Fn(&FlatTree, [u8; 3], u8, &Vec<u8>, &Vec<Vec<u8>>) -> ByHand<T>,
    L: Fn([u8; 3]) -> Vec<(u8, u8)>,
    S: Fn([u8; 3], &FlatTree, &Vec<Vec<T>>, u8, Option<u32>) -> Solved<T>,
> LiveSubsetSource<T, R, B, L, S> {
    /// The closures take every flop and runout, and what they give fits together.
    pub open spec fn wf(&self) -> bool {
        &&& forall|cell: SeamCell| #[trigger] call_requires(self.tree, (cell,))
        &&& forall|
            tree: &FlatTree,
            flop: [u8; 3],
            live: u8,
            turns: &Vec<u8>,
            rivers: &Vec<Vec<u8>>,
        |
            is_runout(flop@, self.nt as int, self.nr as int, turns@, views(rivers@))
                ==> #[trigger] call_requires(self.bucketed, (tree, flop, live, turns, rivers))
        &&& forall|
            tree: FlatTree,
            flop: [u8; 3],
            live: u8,
            turns: Vec<u8>,
            rivers: Vec<Vec<u8>>,
            out: ByHand<T>,
        | #[trigger]
            plays_flop(&self.bucketed, tree, flop, live, turns, rivers, out) ==> is_by_hand(
                out,
                live as int,
            )
        &&& forall|tree: &FlatTree, flop: [u8; 3]| #[trigger]
            can_value_evenly(&self.layout, &self.exact, tree, Some(self.iters), flop)
        &&& forall|k: int|
            0 <= k < self.cache@.len() ==> (#[trigger] self.cache@[k]).per_live@.len()
                == self.cache@[k].cell.live
    }

    /// The values are those that buckets give on some runout of the flop.
    pub open spec fn is_bucketed(
        &self,
        tree: FlatTree,
        flop: [u8; 3],
        live: u8,
        values: Seq<Vec<T>>,
    ) -> bool {
        exists|turns: Vec<u8>, rivers: Vec<Vec<u8>>, out: ByHand<T>|
            is_runout(flop@, self.nt as int, self.nr as int, turns@, views(rivers@))
                && #[trigger] plays_flop(&self.bucketed, tree, flop, live, turns, rivers, out)
                && views(values) == permuted(views(out.0@), out.1@)
    }

    /// The values are those of an exact game in which all hold every pair.
    pub open spec fn is_exact_play(
        &self,
        tree: FlatTree,
        flop: [u8; 3],
        live: u8,
        values: Seq<Vec<T>>,
    ) -> bool {
        forall|t: int|
            0 <= t < live ==> is_uniform_value(
                &self.layout,
                &self.exact,
                &tree,
                Some(self.iters),
                flop,
                live as int,
                t as u8,
                (#[trigger] values[t])@,
            )
    }

    /// The values of a cell's flop: by buckets from three players on, else exact.
    pub open spec fn is_play(
        &self,
        tree: FlatTree,
        flop: [u8; 3],
        live: u8,
        values: Seq<Vec<T>>,
    ) -> bool {
        &&& values.len() == live
        &&& if live >= 3 {
            self.is_bucketed(tree, flop, live, values)
        } else {
            self.is_exact_play(tree, flop, live, values)
        }
    }

    /// The entry for a cell and a flop that a new play makes.
    pub open spec fn is_new_entry(&self, cell: SeamCell, flop: Seq<u8>, e: LiveEntry<T>) -> bool {
        &&& e.cell == cell
        &&& e.flop@ == flop
        &&& exists|tree: FlatTree| #[trigger]
            builds_seam(&self.tree, built_cell(cell, self.stack), tree) && self.is_play(
                tree,
                e.flop,
                cell.live,
                e.per_live@,
            )
    }

    /// Plays a flop on the tree of its cell.
    fn play(&self, tree: &FlatTree, flop: [u8; 3], live: u8) -> (values: Vec<Vec<T>>)
        requires
            self.wf(),
        ensures
            self.is_play(*tree, flop, live, values@),
    {
        if live >= 3 {
            let (turns, rivers) = runout(flop, self.nt, self.nr);
            let f = &self.bucketed;
            let out = f(tree, flop, live, &turns, &rivers);
            assert(plays_flop(&self.bucketed, *tree, flop, live, turns, rivers, out));
            let values = in_layout_order(&out.0, &out.1);
            proof {
                assert(views(values@).len() == views(out.0@).len());
                assert(self.is_bucketed(*tree, flop, live, values@));
            }
            values
        } else {
            assert(can_value_evenly(&self.layout, &self.exact, tree, Some(self.iters), flop));
            even_values(&self.layout, &self.exact, tree, Some(self.iters), flop, live)
        }
    }

    /// Makes sure that the flop has been played, and returns the place of its entry.
    fn played(&mut self, cell: SeamCell, flop: [u8; 3]) -> (k: usize)
        requires
            old(self).wf(),
        ensures
            final(self).wf(),
            *final(self) == (LiveSubsetSource { cache: final(self).cache, ..*old(self) }),
            if no_live(old(self).cache@, cell, flop@) {
                &&& final(self).cache@.len() == old(self).cache@.len() + 1
                &&& final(self).cache@.drop_last() == old(self).cache@
                &&& old(self).is_new_entry(cell, flop@, final(self).cache@.last())
            } else {
                final(self).cache == old(self).cache
            },
            is_first_live(final(self).cache@, cell, flop@, k as int),
    {
        let n: usize = self.cache.len();
        let mut k: usize = 0;
        while k < n
            invariant
                k <= n,
                n == self.cache@.len(),
                *self == *old(self),
                self.wf(),
                forall|l: int|
                    0 <= l < k ==> (#[trigger] self.cache@[l]).cell != cell || self.cache@[l].flop@
                        != flop@,
            decreases n - k,
        {
            let e = &self.cache[k];
            let same_flop = e.flop[0] == flop[0] && e.flop[1] == flop[1] && e.flop[2] == flop[2];
            let same_cell = e.cell.live == cell.live && e.cell.commit == cell.commit && e.cell.pot
                == cell.pot;
            if same_cell && same_flop {
                assert(e.flop@ =~= flop@);
                assert(self.cache@[k as int].cell == cell);
                return k;
            }
            assert(e.flop@ == flop@ ==> e.flop@[0] == flop@[0] && e.flop@[1] == flop@[1]
                && e.flop@[2] == flop@[2]);
            k += 1;
        }
        let f = &self.tree;
        let tree = f(
            SeamCell {
                live: cell.live,
                commit: if cell.commit < self.stack {
                    cell.commit
                } else {
                    self.stack
                },
                pot: cell.pot,
            },
        );
        assert(builds_seam(&self.tree, built_cell(cell, self.stack), tree));
        let per_live = self.play(&tree, flop, cell.live);
        let ghost was = self.cache@;
        self.cache.push(LiveEntry { cell, flop, per_live });
        proof {
            assert(self.cache@.drop_last() =~= was);
            let e = self.cache@.last();
            assert(builds_seam(&old(self).tree, built_cell(cell, old(self).stack), tree));
            assert(old(self).is_play(tree, e.flop, cell.live, e.per_live@));
            assert(old(self).is_new_entry(cell, flop@, e));
        }
        n
    }

    /// The traverser's values of the flop: its row among those of the live players.
    pub fn value(
        &mut self,
        cell: SeamCell,
        folded_mask: u16,
        canonical: [u8; 3],
        np: usize,
        traverser: u8,
    ) -> (v: Vec<T>)
        requires
            old(self).wf(),
            np <= 16,
            traverser < np,
            (folded_mask >> (traverser as u16)) & 1u16 == 0,
            cell.live == live_seats_upto(folded_mask, np as nat).len(),
        ensures
            final(self).wf(),
            *final(self) == (LiveSubsetSource { cache: final(self).cache, ..*old(self) }),
            if no_live(old(self).cache@, cell, canonical@) {
                &&& final(self).cache@.len() == old(self).cache@.len() + 1
                &&& final(self).cache@.drop_last() == old(self).cache@
                &&& old(self).is_new_entry(cell, canonical@, final(self).cache@.last())
            } else {
                final(self).cache == old(self).cache
            },
            exists|k: int| #[trigger]
                is_first_live(final(self).cache@, cell, canonical@, k) && v@
                    == final(self).cache@[k].per_live@[live_seats_upto(
                    folded_mask,
                    traverser as nat,
                ).len() as int]@,
    {
        let k: usize = self.played(cell, canonical);
        let at: usize = live_position(folded_mask, traverser);
        proof {
            law_live_place(folded_mask, traverser as nat, np as nat);
            assert(self.cache@[k as int].per_live@.len() == cell.live);
        }
        row_copy(&self.cache[k].per_live[at])
    }
}

/// Rows over one order, in the order of `perm`.
pub open spec fn permuted<T>(rows: Seq<Seq<T>>, perm: Seq<usize>) -> Seq<Seq<T>> {
    Seq::new(
        rows.len(),
        |p: int| Seq::new(perm.len(), |k: int| rows[p][perm[k] as int]),
    )
}

/// Brings the root values of all players, hand by hand, into the order of a layout.
pub fn in_layout_order<T: Copy>(rows: &Vec<Vec<T>>, perm: &Vec<usize>) -> (out: Vec<Vec<T>>)
    requires
        forall|p: int, k: int|
            0 <= p < rows@.len() && 0 <= k < perm@.len() ==> (#[trigger] perm@[k])
                < (#[trigger] rows@[p])@.len(),
    ensures
        views(out@) == permuted(views(rows@), perm@),
{
    let n: usize = rows.len();
    let w: usize = perm.len();
    let ghost goal = permuted(views(rows@), perm@);
    let mut out: Vec<Vec<T>> = Vec::new();
    let mut p: usize = 0;
    while p < n
        invariant
            p <= n,
            n == rows@.len(),
            w == perm@.len(),
            goal == permuted(views(rows@), perm@),
            forall|p: int, k: int|
                0 <= p < rows@.len() && 0 <= k < perm@.len() ==> (#[trigger] perm@[k])
                    < (#[trigger] rows@[p])@.len(),
            out@.len() == p,
            forall|q: int| 0 <= q < p ==> (#[trigger] out@[q])@ == goal[q],
        decreases n - p,
    {
        let mut mine: Vec<T> = Vec::new();
        let mut k: usize = 0;
        while k < w
            invariant
                k <= w,
                p < n,
                n == rows@.len(),
                w == perm@.len(),
                forall|p: int, k: int|
                    0 <= p < rows@.len() && 0 <= k < perm@.len() ==> (#[trigger] perm@[k])
                        < (#[trigger] rows@[p])@.len(),
                mine@.len() == k,
                forall|l: int| 0 <= l < k ==> #[trigger] mine@[l] == rows@[p as int]@[perm@[l] as int],
            decreases w - k,
        {
            assert(perm@[k as int] < rows@[p as int]@.len());
            mine.push(rows[p][perm[k]]);
            k += 1;
        }
        assert(mine@ =~= goal[p as int]);
        out.push(mine);
        p += 1;
    }
    assert(views(out@) =~= goal);
    out
}

/// Every pair of `to` stands in `from`, in either order.
pub open spec fn covers_pairs(from: Seq<(u8, u8)>, to: Seq<(u8, u8)>) -> bool {
    forall|k: int|
        0 <= k < to.len() ==> exists|l: int| #[trigger]
            lists(from, l, pair_index(#[trigger] to[k]))
}

/// A row over layout `from`, in the order of layout `to`, pairs taken in either order.
pub open spec fn repaired<T>(from: Seq<(u8, u8)>, to: Seq<(u8, u8)>, vals: Seq<T>) -> Seq<T> {
    Seq::new(
        to.len(),
        |k: int| vals[choose|l: int| #[trigger] lists(from, l, pair_index(to[k]))],
    )
}

/// Computes [`repaired`].
fn repair<T: Copy>(from: &Vec<(u8, u8)>, to: &Vec<(u8, u8)>, vals: &Vec<T>) -> (out: Vec<T>)
    requires
        is_layout(from@),
        is_layout(to@),
        covers_pairs(from@, to@),
        vals@.len() == from@.len(),
    ensures
        out@ == repaired(from@, to@, vals@),
{
    let n: usize = to.len();
    let m: usize = from.len();
    let mut out: Vec<T> = Vec::new();
    let mut k: usize = 0;
    while k < n
        invariant
            k <= n,
            n == to@.len(),
            m == from@.len(),
            is_layout(from@),
            is_layout(to@),
            covers_pairs(from@, to@),
            vals@.len() == from@.len(),
            out@.len() == k,
            forall|j: int|
                0 <= j < k ==> #[trigger] out@[j] == repaired(from@, to@, vals@)[j],
        decreases n - k,
    {
        let c = to[k];
        assert(is_combo(to@[k as int]));
        let want: usize = card_pair_to_index(c.0, c.1);
        let ghost l = choose|l: int| #[trigger] lists(from@, l, pair_index(to@[k as int]));
        assert(lists(from@, l, want as int));
        let mut j: usize = 0;
        assert(is_combo(from@[0]));
        while card_pair_to_index(from[j].0, from[j].1) != want
            invariant
                j <= l < m,
                m == from@.len(),
                is_layout(from@),
                is_combo(from@[j as int]),
                lists(from@, l, want as int),
            decreases m - j,
        {
            assert(is_combo(from@[j as int]));
            j += 1;
            assert(is_combo(from@[j as int]));
        }
        assert(pair_index(from@[j as int]) == pair_index(from@[l]));
        out.push(vals[j]);
        k += 1;
    }
    assert(out@ =~= repaired(from@, to@, vals@));
    out
}

/// Row `t` of the values holds what player `t` gets when every player of `live` holds
/// every pair alike, over the flop's layout.
pub open spec fn is_uniform_value<
    T: Scalar,
    L: Fn([u8; 3]) -> Vec<(u8, u8)>,
    S: Fn([u8; 3], &FlatTree, &Vec<Vec<T>>, u8, Option<u32>) -> Solved<T>,
>(
    layout: &L,
    solve: &S,
    tree: &FlatTree,
    iters: Option<u32>,
    flop: [u8; 3],
    live: int,
    t: u8,
    v: Seq<T>,
) -> bool {
    exists|lay: Vec<(u8, u8)>, full: Vec<Vec<T>>, out: Solved<T>|
        #![trigger lays_out(layout, flop, lay), solves(solve, flop, tree, full, t, iters, out)]
        lays_out(layout, flop, lay) && views(full@) == ones::<T>(live) && solves(
            solve,
            flop,
            tree,
            full,
            t,
            iters,
            out,
        ) && v == repaired(out.1@, lay@, out.0@)
}

/// Full rows over all pairs.
pub open spec fn ones<T: Scalar>(n: int) -> Seq<Seq<T>> {
    Seq::new(n as nat, |p: int| Seq::new(NUM_POSSIBLE_HANDS as nat, |i: int| T::s_one()))
}

/// The flop can be valued for live players who all hold every pair alike.
pub open spec fn can_value_evenly<
    T: Scalar,
    L: Fn([u8; 3]) -> Vec<(u8, u8)>,
    S: Fn([u8; 3], &FlatTree, &Vec<Vec<T>>, u8, Option<u32>) -> Solved<T>,
>(layout: &L, solve: &S, tree: &FlatTree, iters: Option<u32>, canonical: [u8; 3]) -> bool {
    &&& forall|flop: [u8; 3]| #[trigger] call_requires(*layout, (flop,))
    &&& forall|lay: Vec<(u8, u8)>| #[trigger] lays_out(layout, canonical, lay) ==> is_layout(lay@)
    &&& forall|flop: [u8; 3], full: &Vec<Vec<T>>, t: u8| #[trigger]
        call_requires(*solve, (flop, tree, full, t, iters))
    &&& forall|lay: Vec<(u8, u8)>, full: Vec<Vec<T>>, t: u8, out: Solved<T>|
        #![trigger lays_out(layout, canonical, lay), solves(solve, canonical, tree, full, t, iters, out)]
        lays_out(layout, canonical, lay) && solves(
            solve,
            canonical,
            tree,
            full,
            t,
            iters,
            out,
        ) ==> is_layout(out.1@) && covers_pairs(out.1@, lay@) && out.0@.len() == out.1@.len()
}

/// Values a flop for every live player, all of whom hold every pair alike.
pub fn uniform_values<
    T: Scalar,
    L: Fn([u8; 3]) -> Vec<(u8, u8)>,
    S: Fn([u8; 3], &FlatTree, &Vec<Vec<T>>, u8, Option<u32>) -> Solved<T>,
>(s: &PerFlopSolver<L, S>, canonical: [u8; 3], live: u8) -> (rows: Vec<Vec<T>>)
    requires
        can_value_evenly(&s.layout, &s.solve, s.flop_tree, s.num_postflop_iters, canonical),
    ensures
        rows@.len() == live,
        forall|t: int|
            0 <= t < live ==> is_uniform_value(
                &s.layout,
                &s.solve,
                s.flop_tree,
                s.num_postflop_iters,
                canonical,
                live as int,
                t as u8,
                (#[trigger] rows@[t])@,
            ),
{
    even_values(&s.layout, &s.solve, s.flop_tree, s.num_postflop_iters, canonical, live)
}

/// Plays the flop once for every live player.
fn even_values<
    T: Scalar,
    L: Fn([u8; 3]) -> Vec<(u8, u8)>,
    S: Fn([u8; 3], &FlatTree, &Vec<Vec<T>>, u8, Option<u32>) -> Solved<T>,
>(
    layout: &L,
    solve: &S,
    tree: &FlatTree,
    iters: Option<u32>,
    canonical: [u8; 3],
    live: u8,
) -> (rows: Vec<Vec<T>>)
    requires
        can_value_evenly(layout, solve, tree, iters, canonical),
    ensures
        rows@.len() == live,
        forall|t: int|
            0 <= t < live ==> is_uniform_value(layout, solve, tree, iters,
                canonical,
                live as int,
                t as u8,
                (#[trigger] rows@[t])@,
            ),
{
    let lay = layout(canonical);
    assert(lays_out(layout, canonical, lay));
    let mut full: Vec<Vec<T>> = Vec::new();
    let mut p: u8 = 0;
    while p < live
        invariant
            p <= live,
            full@.len() == p,
            forall|q: int| 0 <= q < p ==> (#[trigger] full@[q])@ == ones::<T>(live as int)[q],
        decreases live - p,
    {
        let row: Vec<T> = filled(T::one(), NUM_POSSIBLE_HANDS);
        assert(row@ =~= ones::<T>(live as int)[p as int]);
        full.push(row);
        p += 1;
    }
    assert(views(full@) =~= ones::<T>(live as int));
    let mut rows: Vec<Vec<T>> = Vec::new();
    let mut t: u8 = 0;
    while t < live
        invariant
            t <= live,
            lays_out(layout, canonical, lay),
            is_layout(lay@),
            views(full@) == ones::<T>(live as int),
            can_value_evenly(layout, solve, tree, iters, canonical),
            rows@.len() == t,
            forall|q: int|
                0 <= q < t ==> is_uniform_value(layout, solve, tree, iters,
                    canonical,
                    live as int,
                    q as u8,
                    (#[trigger] rows@[q])@,
                ),
        decreases live - t,
    {
        let out = solve(canonical, tree, &full, t, iters);
        assert(solves(solve, canonical, tree, full, t, iters, out));
        let row = repair(&out.1, &lay, &out.0);
        assert(is_uniform_value(layout, solve, tree, iters, canonical, live as int, t, row@));
        rows.push(row);
        t += 1;
    }
    rows
}

} // verus!
