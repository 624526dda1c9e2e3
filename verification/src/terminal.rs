//! What a showdown evaluator is told of a terminal, and what becomes of its
//! answer.
use vstd::prelude::*;

use crate::deck::law_strength_order_is_unique;
use crate::flop_start_game::{pair_slot, FlopChanceTable};
use crate::layout::{lemma_row_inside, row};
use crate::scalar::{Scalar, Widen};
use crate::tree::FlatTree;

verus! {

/// The cards dealt since the flop.
#[derive(Clone, Copy, Debug)]
pub struct Dealt {
    pub turn: Option<u8>,
    pub river: Option<u8>,
}

impl Dealt {
    /// Cards of the deck; a river card counts only after a turn card.
    pub open spec fn wf(&self) -> bool {
        &&& self.turn matches Some(t) ==> t < 52
        &&& self.river matches Some(r) ==> r < 52
    }

    /// Card `c` lies on the board since the flop.
    pub open spec fn shows(&self, c: u8) -> bool {
        self.turn matches Some(t) && (c == t || self.river == Some(c))
    }
}

/// Whether `c` lies on the board since the flop.
fn is_shown(dealt: &Dealt, c: u8) -> (r: bool)
    ensures
        r == dealt.shows(c),
{
    match dealt.turn {
        None => false,
        Some(t) => c == t || (match dealt.river {
            None => false,
            Some(r) => c == r,
        }),
    }
}

/// What the house keeps of a pot: a share of it, up to a cap.
#[derive(Clone, Copy, Debug)]
pub struct Rake<T> {
    pub rate: T,
    pub cap: T,
}

/// The rake of a tree.
pub open spec fn tree_rake<T: Widen>(tree: &FlatTree) -> Rake<T> {
    Rake {
        rate: T::s_narrow(T::Wide::s_of_bits(tree.rake_rate)),
        cap: T::s_narrow(T::Wide::s_of_bits(tree.rake_cap)),
    }
}

/// Reads the rake of a tree.
pub fn rake_of<T: Widen>(tree: &FlatTree) -> (rake: Rake<T>)
    ensures
        rake == tree_rake::<T>(tree),
{
    Rake {
        rate: T::narrow(T::Wide::of_bits(tree.rake_rate)),
        cap: T::narrow(T::Wide::of_bits(tree.rake_cap)),
    }
}

/// A terminal as its traverser's opponents stand there.
pub struct TerminalSpot<T> {
    /// Reach of every opponent, in player order, without the hands that the
    /// dealt cards rule out.
    pub opp_reach: Vec<Vec<T>>,
    pub contributions: Vec<i32>,
    pub fold_mask: u16,
    pub traverser: u8,
    /// Strength order of the hands, once per opponent.
    pub strength: Vec<u16>,
    pub index: Vec<u16>,
    /// The two cards of every hand.
    pub hand_cards: Vec<u8>,
    pub starting_pot: i32,
    pub rake: Rake<T>,
    /// No rake is taken of a pot that ends before the flop.
    pub flop_seen: bool,
}

/// The `q`-th opponent of `traverser`.
pub open spec fn opponent(traverser: int, q: int) -> int {
    if q < traverser {
        q
    } else {
        q + 1
    }
}

/// Hand `h` of the table uses a card dealt since the flop.
pub open spec fn is_ruled_out(cards: Seq<u8>, dealt: &Dealt, h: int) -> bool {
    dealt.shows(cards[2 * h]) || dealt.shows(cards[2 * h + 1])
}

/// A reach row without the hands that the dealt cards rule out.
pub open spec fn unblocked<T: Scalar>(cards: Seq<u8>, dealt: &Dealt, raw: Seq<T>) -> Seq<T> {
    Seq::new(
        raw.len(),
        |h: int|
            if !raw[h].s_same(T::s_zero()) && is_ruled_out(cards, dealt, h) {
                T::s_zero()
            } else {
                raw[h]
            },
    )
}

impl<T: Widen> FlopChanceTable<T> {
    /// The strength order that holds once `dealt` lies on the board.
    pub open spec fn is_order_for(&self, dealt: &Dealt, strength: Seq<u16>, index: Seq<u16>) -> bool {
        let w = self.num_opp() * self.nh();
        match dealt.turn {
            None => self.is_base_order(strength, index),
            Some(t) => match dealt.river {
                None => strength == row(self.turn_sorted_str@, w, t as int) && index == row(
                    self.turn_sorted_idx@,
                    w,
                    t as int,
                ),
                Some(r) => strength == row(
                    self.river_sorted_str@,
                    w,
                    pair_slot(t as int, r as int),
                ) && index == row(self.river_sorted_idx@, w, pair_slot(t as int, r as int)),
            },
        }
    }
}

impl<T: Widen> TerminalSpot<T> {
    /// This is node `node` seen by `traverser`, with the players' reach `rows`.
    pub open spec fn is_at(
        &self,
        tree: &FlatTree,
        table: &FlopChanceTable<T>,
        dealt: &Dealt,
        rows: Seq<Seq<T>>,
        traverser: u8,
        node: int,
    ) -> bool {
        &&& self.traverser == traverser
        &&& self.fold_mask == tree.folded_masks@[node]
        &&& self.starting_pot == tree.starting_pot
        &&& self.rake == tree_rake::<T>(tree)
        &&& self.flop_seen
        &&& self.hand_cards@ == table.hand_cards@
        &&& self.contributions@ == Seq::new(
            tree.np() as nat,
            |p: int| tree.contribution(node, p) as i32,
        )
        &&& self.opp_reach@.len() == tree.np() - 1
        &&& forall|q: int|
            0 <= q < tree.np() - 1 ==> (#[trigger] self.opp_reach@[q])@ == unblocked(
                table.hand_cards@,
                dealt,
                rows[opponent(traverser as int, q)],
            )
        &&& table.is_order_for(dealt, self.strength@, self.index@)
    }

    /// The evaluator can be asked about every spot of the table.
    pub open spec fn fits(&self, np: int, nh: int) -> bool {
        &&& self.traverser < np
        &&& self.contributions@.len() == np
        &&& self.opp_reach@.len() == np - 1
        &&& forall|q: int| 0 <= q < np - 1 ==> (#[trigger] self.opp_reach@[q])@.len() == nh
        &&& self.strength@.len() == (np - 1) * nh
        &&& self.index@.len() == (np - 1) * nh
        &&& self.hand_cards@.len() == 2 * nh
    }
}

/// The two spots hold the same.
pub open spec fn alike<T>(a: &TerminalSpot<T>, b: &TerminalSpot<T>) -> bool {
    &&& a.traverser == b.traverser
    &&& a.fold_mask == b.fold_mask
    &&& a.starting_pot == b.starting_pot
    &&& a.rake == b.rake
    &&& a.flop_seen == b.flop_seen
    &&& a.hand_cards@ == b.hand_cards@
    &&& a.contributions@ == b.contributions@
    &&& a.strength@ == b.strength@
    &&& a.index@ == b.index@
    &&& views(a.opp_reach@) == views(b.opp_reach@)
}

/// `f` answers every spot with one value per hand, and always in the same way.
pub open spec fn is_evaluator<T: Widen, F: Fn(&TerminalSpot<T>) -> Vec<T>>(
    f: &F,
    np: int,
    nh: int,
) -> bool {
    &&& forall|spot: &TerminalSpot<T>| #[trigger]
        spot.fits(np, nh) ==> call_requires(*f, (spot,))
    &&& forall|spot: &TerminalSpot<T>, out: Vec<T>| #[trigger]
        call_ensures(*f, (spot,), out) && spot.fits(np, nh) ==> out@.len() == nh
    &&& forall|a: &TerminalSpot<T>, x: Vec<T>, b: &TerminalSpot<T>, y: Vec<T>| #[trigger]
        call_ensures(*f, (a,), x) && #[trigger] call_ensures(*f, (b,), y) && alike(a, b) && a.fits(
            np,
            nh,
        ) ==> x@ == y@
}

/// Values per deal: divided by the weight of all deals, if there is any.
pub open spec fn per_deal<T: Widen>(out: Seq<T>, combinations: T::Wide) -> Seq<T> {
    let nc = T::s_narrow(combinations);
    if T::s_zero().s_below(nc) {
        Seq::new(out.len(), |h: int| out[h].s_over(nc))
    } else {
        out
    }
}

/// `values` is what `f` answers for the spot, per deal.
pub open spec fn is_answer<T: Widen, F: Fn(&TerminalSpot<T>) -> Vec<T>>(
    f: &F,
    table: &FlopChanceTable<T>,
    spot: &TerminalSpot<T>,
    out: Vec<T>,
    values: Seq<T>,
) -> bool {
    call_ensures(*f, (spot,), out) && values == per_deal::<T>(out@, table.num_combinations)
}

/// `values` are the traverser's values at terminal `node`.
pub open spec fn is_terminal_value<T: Widen, F: Fn(&TerminalSpot<T>) -> Vec<T>>(
    f: &F,
    tree: &FlatTree,
    table: &FlopChanceTable<T>,
    dealt: &Dealt,
    rows: Seq<Seq<T>>,
    traverser: u8,
    node: int,
    values: Seq<T>,
) -> bool {
    exists|spot: &TerminalSpot<T>, out: Vec<T>|
        spot.is_at(tree, table, dealt, rows, traverser, node) && #[trigger] is_answer(
            f,
            table,
            spot,
            out,
            values,
        )
}

/// A table and a tree speak of the same players.
pub open spec fn is_table_for<T: Widen>(table: &FlopChanceTable<T>, tree: &FlatTree) -> bool {
    table.wf() && table.num_players == tree.num_players
}

/// Copies a run of entries.
pub fn copied<T: Copy>(src: &[T]) -> (out: Vec<T>)
    ensures
        out@ == src@,
{
    let mut out: Vec<T> = Vec::new();
    let mut k: usize = 0;
    while k < src.len()
        invariant
            k <= src@.len(),
            out@ == src@.take(k as int),
        decreases src@.len() - k,
    {
        out.push(src[k]);
        k += 1;
        assert(out@ =~= src@.take(k as int));
    }
    assert(out@ =~= src@);
    out
}

/// The strength order that holds once `dealt` lies on the board.
pub fn order_for<T: Widen>(table: &FlopChanceTable<T>, dealt: &Dealt) -> (order: (Vec<u16>, Vec<u16>))
    requires
        table.wf(),
        dealt.wf(),
    ensures
        table.is_order_for(dealt, order.0@, order.1@),
        order.0@.len() == table.num_opp() * table.nh(),
        order.1@.len() == table.num_opp() * table.nh(),
{
    let ghost w = table.num_opp() * table.nh();
    proof {
        assert(0 <= w) by (nonlinear_arith)
            requires
                w == table.num_opp() * table.nh(),
                0 <= table.num_opp(),
                0 <= table.nh(),
        ;
    }
    match dealt.turn {
        None => {
            let (s, i, _, _, _) = table.sorted_opp_arrays_base();
            (s, i)
        },
        Some(t) => match dealt.river {
            None => {
                let (s, i, _, _) = table.turn_sorted_arrays(t);
                proof {
                    lemma_row_inside(w, 52, t as int);
                }
                (copied(s), copied(i))
            },
            Some(r) => {
                let (s, i, _, _) = table.river_sorted_arrays(t, r);
                proof {
                    lemma_row_inside(w, 2704, pair_slot(t as int, r as int));
                }
                (copied(s), copied(i))
            },
        },
    }
}

/// Drops the hands that the dealt cards rule out.
fn without_blocked<T: Scalar>(cards: &Vec<u8>, dealt: &Dealt, raw: &Vec<T>) -> (out: Vec<T>)
    requires
        cards@.len() == 2 * raw@.len(),
    ensures
        out@ == unblocked(cards@, dealt, raw@),
{
    let mut out: Vec<T> = Vec::new();
    let total: usize = cards.len();
    let mut h: usize = 0;
    while h < raw.len()
        invariant
            h <= raw@.len(),
            total == cards@.len(),
            cards@.len() == 2 * raw@.len(),
            out@.len() == h,
            forall|k: int| 0 <= k < h ==> #[trigger] out@[k] == unblocked(cards@, dealt, raw@)[k],
        decreases raw@.len() - h,
    {
        let v = raw[h];
        let blocked = is_shown(dealt, cards[2 * h]) || is_shown(dealt, cards[2 * h + 1]);
        if !v.same(T::zero()) && blocked {
            out.push(T::zero());
        } else {
            out.push(v);
        }
        h += 1;
    }
    assert(out@ =~= unblocked(cards@, dealt, raw@));
    out
}

/// The views of the players' rows.
pub open spec fn views<T>(rows: Seq<Vec<T>>) -> Seq<Seq<T>> {
    Seq::new(rows.len(), |p: int| rows[p]@)
}

/// Describes node `node` to an evaluator.
pub fn make_spot<T: Widen>(
    tree: &FlatTree,
    table: &FlopChanceTable<T>,
    dealt: &Dealt,
    rows: &Vec<Vec<T>>,
    traverser: u8,
    node: usize,
) -> (spot: TerminalSpot<T>)
    requires
        tree.wf(),
        is_table_for(table, tree),
        dealt.wf(),
        tree.is_node(node as int),
        traverser < tree.num_players,
        rows@.len() == tree.np(),
        forall|p: int| 0 <= p < tree.np() ==> (#[trigger] rows@[p])@.len() == table.nh(),
    ensures
        spot.is_at(tree, table, dealt, views(rows@), traverser, node as int),
        spot.fits(tree.np(), table.nh()),
{
    let np: usize = tree.num_players as usize;
    let (strength, index) = order_for(table, dealt);
    let mut contributions: Vec<i32> = Vec::new();
    let mut opp_reach: Vec<Vec<T>> = Vec::new();
    let mut p: usize = 0;
    let ghost t = traverser as int;
    while p < np
        invariant
            p <= np,
            np == tree.np(),
            t == traverser,
            0 <= t < np,
            tree.wf(),
            is_table_for(table, tree),
            tree.is_node(node as int),
            rows@.len() == tree.np(),
            forall|q: int| 0 <= q < tree.np() ==> (#[trigger] rows@[q])@.len() == table.nh(),
            contributions@ == Seq::new(
                p as nat,
                |q: int| tree.contribution(node as int, q) as i32,
            ),
            opp_reach@.len() == if p <= t {
                p as int
            } else {
                p - 1
            },
            forall|q: int|
                0 <= q < opp_reach@.len() ==> (#[trigger] opp_reach@[q])@ == unblocked(
                    table.hand_cards@,
                    dealt,
                    views(rows@)[opponent(t, q)],
                ),
        decreases np - p,
    {
        contributions.push(tree.get_contribution(node, p as u8));
        assert(contributions@ =~= Seq::new(
            (p + 1) as nat,
            |q: int| tree.contribution(node as int, q) as i32,
        ));
        if p != traverser as usize {
            let r = without_blocked(&table.hand_cards, dealt, &rows[p]);
            opp_reach.push(r);
        }
        p += 1;
    }
    let spot = TerminalSpot {
        opp_reach,
        contributions,
        fold_mask: tree.get_folded_mask(node),
        traverser,
        strength,
        index,
        hand_cards: copied(table.hand_cards.as_slice()),
        starting_pot: tree.starting_pot,
        rake: rake_of(tree),
        flop_seen: true,
    };
    proof {
        assert forall|q: int| 0 <= q < tree.np() - 1 implies (#[trigger] spot.opp_reach@[q])@.len()
            == table.nh() by {
            assert(rows@[opponent(t, q)]@.len() == table.nh());
        }
    }
    spot
}

/// Divides the evaluator's answer by the weight of all deals.
pub fn scaled<T: Widen>(out: Vec<T>, combinations: T::Wide) -> (values: Vec<T>)
    ensures
        values@ == per_deal::<T>(out@, combinations),
{
    let nc = T::narrow(combinations);
    if T::zero().below(nc) {
        let mut values: Vec<T> = Vec::new();
        let mut h: usize = 0;
        while h < out.len()
            invariant
                h <= out@.len(),
                nc == T::s_narrow(combinations),
                T::s_zero().s_below(nc),
                values@.len() == h,
                forall|k: int|
                    0 <= k < h ==> #[trigger] values@[k] == per_deal::<T>(out@, combinations)[k],
            decreases out@.len() - h,
        {
            values.push(out[h].over(nc));
            h += 1;
        }
        assert(values@ =~= per_deal::<T>(out@, combinations));
        values
    } else {
        out
    }
}

/// The traverser's values at terminal `node`, by the evaluator `f`.
pub fn terminal_values<T: Widen, F: Fn(&TerminalSpot<T>) -> Vec<T>>(
    f: &F,
    tree: &FlatTree,
    table: &FlopChanceTable<T>,
    dealt: &Dealt,
    rows: &Vec<Vec<T>>,
    traverser: u8,
    node: usize,
) -> (values: Vec<T>)
    requires
        tree.wf(),
        is_table_for(table, tree),
        dealt.wf(),
        tree.is_node(node as int),
        traverser < tree.num_players,
        rows@.len() == tree.np(),
        forall|p: int| 0 <= p < tree.np() ==> (#[trigger] rows@[p])@.len() == table.nh(),
        is_evaluator(f, tree.np(), table.nh()),
    ensures
        values@.len() == table.nh(),
        is_terminal_value(
            f,
            tree,
            table,
            dealt,
            views(rows@),
            traverser,
            node as int,
            values@,
        ),
{
    let spot = make_spot(tree, table, dealt, rows, traverser, node);
    let out = f(&spot);
    let ghost answer = out;
    let values = scaled(out, table.num_combinations);
    proof {
        assert(is_answer(f, table, &spot, answer, values@));
    }
    values
}

/// The traverser's values at terminal `node`.
pub open spec fn terminal_value_of<T: Widen, F: Fn(&TerminalSpot<T>) -> Vec<T>>(
    f: &F,
    tree: &FlatTree,
    table: &FlopChanceTable<T>,
    dealt: &Dealt,
    rows: Seq<Seq<T>>,
    traverser: u8,
    node: int,
) -> Seq<T> {
    choose|values: Seq<T>|
        is_terminal_value(f, tree, table, dealt, rows, traverser, node, values)
}

/// An order for the dealt cards has one entry per opponent and hand, and is the
/// only one.
proof fn lemma_order_for<T: Widen>(
    table: &FlopChanceTable<T>,
    dealt: &Dealt,
    s1: Seq<u16>,
    i1: Seq<u16>,
    s2: Seq<u16>,
    i2: Seq<u16>,
)
    requires
        table.wf(),
        dealt.wf(),
        table.is_order_for(dealt, s1, i1),
        table.is_order_for(dealt, s2, i2),
    ensures
        s1.len() == table.num_opp() * table.nh(),
        i1.len() == table.num_opp() * table.nh(),
        s1 == s2,
        i1 == i2,
{
    let no = table.num_opp();
    let nh = table.nh();
    let w = no * nh;
    assert(0 <= w) by (nonlinear_arith)
        requires
            w == no * nh,
            0 <= no,
            0 <= nh,
    ;
    match dealt.turn {
        None => {
            assert forall|k: int| 0 <= k < w implies s1[k] == s2[k] && i1[k] == i2[k] by {
                let oi = k / nh;
                let h = k % nh;
                assert(0 <= oi < no && 0 <= h < nh && k == oi * nh + h) by (nonlinear_arith)
                    requires
                        0 <= k < w,
                        w == no * nh,
                        0 <= nh,
                        oi == k / nh,
                        h == k % nh,
                ;
                lemma_row_inside(nh, no, oi);
                law_strength_order_is_unique(
                    table.hand_ranks_base@,
                    row(s1, nh, oi),
                    row(i1, nh, oi),
                    row(s2, nh, oi),
                    row(i2, nh, oi),
                );
                assert(row(s1, nh, oi)[h] == s1[k]);
                assert(row(s2, nh, oi)[h] == s2[k]);
                assert(row(i1, nh, oi)[h] == i1[k]);
                assert(row(i2, nh, oi)[h] == i2[k]);
            }
            assert(s1 =~= s2);
            assert(i1 =~= i2);
        },
        Some(t) => match dealt.river {
            None => {
                lemma_row_inside(w, 52, t as int);
            },
            Some(r) => {
                lemma_row_inside(w, 2704, pair_slot(t as int, r as int));
            },
        },
    }
}

/// Terminal values are a function of what they are asked for.
pub proof fn lemma_terminal_value<T: Widen, F: Fn(&TerminalSpot<T>) -> Vec<T>>(
    f: &F,
    tree: &FlatTree,
    table: &FlopChanceTable<T>,
    dealt: &Dealt,
    rows: Seq<Seq<T>>,
    traverser: u8,
    node: int,
    values: Seq<T>,
)
    requires
        tree.wf(),
        is_table_for(table, tree),
        dealt.wf(),
        traverser < tree.num_players,
        rows.len() == tree.np(),
        forall|p: int| 0 <= p < tree.np() ==> (#[trigger] rows[p]).len() == table.nh(),
        is_evaluator(f, tree.np(), table.nh()),
        is_terminal_value(f, tree, table, dealt, rows, traverser, node, values),
    ensures
        values == terminal_value_of(f, tree, table, dealt, rows, traverser, node),
        values.len() == table.nh(),
{
    let v = values;
    let w = terminal_value_of(f, tree, table, dealt, rows, traverser, node);
    assert(is_terminal_value(f, tree, table, dealt, rows, traverser, node, w));
    let (s1, o1): (&TerminalSpot<T>, Vec<T>) = choose|spot: &TerminalSpot<T>, out: Vec<T>|
        spot.is_at(tree, table, dealt, rows, traverser, node) && #[trigger] is_answer(
            f,
            table,
            spot,
            out,
            v,
        );
    let (s2, o2): (&TerminalSpot<T>, Vec<T>) = choose|spot: &TerminalSpot<T>, out: Vec<T>|
        spot.is_at(tree, table, dealt, rows, traverser, node) && #[trigger] is_answer(
            f,
            table,
            spot,
            out,
            w,
        );
    lemma_order_for(table, dealt, s1.strength@, s1.index@, s2.strength@, s2.index@);
    assert forall|q: int| 0 <= q < tree.np() - 1 implies (#[trigger] s1.opp_reach@[q])@.len()
        == table.nh() by {
        assert(rows[opponent(traverser as int, q)].len() == table.nh());
    }
    assert(s1.fits(tree.np(), table.nh()));
    assert forall|q: int| 0 <= q < tree.np() - 1 implies #[trigger] views(s1.opp_reach@)[q] == views(
        s2.opp_reach@,
    )[q] by {
        assert(s1.opp_reach@[q]@ == s2.opp_reach@[q]@);
    }
    assert(views(s1.opp_reach@) =~= views(s2.opp_reach@));
    assert(alike(s1, s2));
    assert(o1@ == o2@);
}

} // verus!
