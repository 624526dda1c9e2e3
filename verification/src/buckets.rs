//! Buckets of hands, street by street, and what a showdown pays them.
use vstd::prelude::*;

use crate::bucketed_showdown::{
    bucketed_showdown_cfv, field_of, field_on, reach_fits, stakes_of, BucketedRunoutTables, MAX_OPP,
    WtlMatrices,
};
use crate::flop_start_game::FlopChanceTable;
use crate::layout::at;
use crate::learn::{gain, pooled_gain};
use crate::scalar::{filled, Scalar, Widen};
use crate::sweep::{Lens, NO_BUCKET};
use crate::terminal::{
    copied, is_table_for, make_spot, opponent, order_for, tree_rake, unblocked, views, Dealt,
};
use crate::tree::FlatTree;

verus! {

/// The buckets of one board: which bucket each hand is in, the weight of each hand
/// within its bucket, and how the buckets stand to each other.
pub struct BucketLayer<T> {
    pub lens: Lens,
    pub omega: Vec<T>,
    pub tables: BucketedRunoutTables<T>,
}

impl<T: Widen> BucketLayer<T> {
    pub open spec fn wf(&self, nh: int, nb: int) -> bool {
        &&& self.lens.wf(nh)
        &&& self.lens.width == nb
        &&& self.omega@.len() == nh
        &&& self.tables.wf()
        &&& self.tables.nb == nb
    }
}

/// How many of the first `n` hands are in bucket `b`.
pub open spec fn members<T: Scalar>(map: Seq<u16>, b: int, n: nat) -> T
    decreases n,
{
    if n == 0 {
        T::s_zero()
    } else {
        let prev = members::<T>(map, b, (n - 1) as nat);
        if map[n - 1] != NO_BUCKET && map[n - 1] == b {
            prev.s_plus(T::s_one())
        } else {
            prev
        }
    }
}

/// The sizes of the buckets.
pub open spec fn bucket_sizes<T: Scalar>(map: Seq<u16>, nb: int) -> Seq<T> {
    Seq::new(nb as nat, |b: int| members::<T>(map, b, map.len()))
}

/// Every hand of a bucket has the same weight, and together they have full weight;
/// a hand without a bucket has none.
pub open spec fn even_weights<T: Scalar>(map: Seq<u16>) -> Seq<T> {
    Seq::new(
        map.len(),
        |h: int|
            if map[h] == NO_BUCKET {
                T::s_zero()
            } else {
                T::s_one().s_over(members::<T>(map, map[h] as int, map.len()))
            },
    )
}

/// Every hand is in a bucket or in none.
pub open spec fn is_bucket_map(map: Seq<u16>, nh: int, nb: int) -> bool {
    &&& map.len() == nh
    &&& forall|h: int| 0 <= h < nh ==> (#[trigger] map[h]) == NO_BUCKET || map[h] < nb
}

/// Computes [`bucket_sizes`].
fn sizes_of<T: Scalar>(map: &Vec<u16>, nb: usize) -> (sizes: Vec<T>)
    requires
        is_bucket_map(map@, map@.len() as int, nb as int),
    ensures
        sizes@ == bucket_sizes::<T>(map@, nb as int),
{
    let mut sizes: Vec<T> = filled(T::zero(), nb);
    let mut h: usize = 0;
    while h < map.len()
        invariant
            h <= map@.len(),
            is_bucket_map(map@, map@.len() as int, nb as int),
            sizes@.len() == nb,
            forall|b: int| 0 <= b < nb ==> #[trigger] sizes@[b] == members::<T>(map@, b, h as nat),
        decreases map@.len() - h,
    {
        let ghost before = sizes@;
        assert(map@[h as int] == NO_BUCKET || map@[h as int] < nb);
        if map[h] != NO_BUCKET {
            let b: usize = map[h] as usize;
            let x = sizes[b].plus(T::one());
            sizes[b] = x;
        }
        proof {
            assert forall|b: int| 0 <= b < nb implies #[trigger] sizes@[b] == members::<T>(
                map@,
                b,
                (h + 1) as nat,
            ) by {
                assert(before[b] == members::<T>(map@, b, h as nat));
            }
        }
        h += 1;
    }
    assert(sizes@ =~= bucket_sizes::<T>(map@, nb as int));
    sizes
}

/// Computes [`even_weights`].
fn weights_of<T: Scalar>(map: &Vec<u16>, nb: usize) -> (omega: Vec<T>)
    requires
        is_bucket_map(map@, map@.len() as int, nb as int),
    ensures
        omega@ == even_weights::<T>(map@),
{
    let sizes: Vec<T> = sizes_of(map, nb);
    let mut omega: Vec<T> = Vec::new();
    let mut h: usize = 0;
    while h < map.len()
        invariant
            h <= map@.len(),
            is_bucket_map(map@, map@.len() as int, nb as int),
            sizes@ == bucket_sizes::<T>(map@, nb as int),
            omega@.len() == h,
            forall|k: int| 0 <= k < h ==> #[trigger] omega@[k] == even_weights::<T>(map@)[k],
        decreases map@.len() - h,
    {
        assert(map@[h as int] == NO_BUCKET || map@[h as int] < nb);
        if map[h] == NO_BUCKET {
            omega.push(T::zero());
        } else {
            omega.push(T::one().over(sizes[map[h] as usize]));
        }
        h += 1;
    }
    assert(omega@ =~= even_weights::<T>(map@));
    omega
}

/// What the win, tie and loss mass of bucket pairs is computed from.
pub struct WtlSpot<W> {
    /// Two cards per hand.
    pub hand_cards: Vec<u8>,
    pub strength: Vec<i32>,
    pub weights: Vec<W>,
    pub map: Vec<u16>,
    pub nb: usize,
}

/// The strength of hand `h` by the first `n` places of a strength order; the lowest
/// number for a hand that is not among them.
pub open spec fn strength_by(strength: Seq<u16>, index: Seq<u16>, h: int, n: nat) -> i32
    decreases n,
{
    if n == 0 {
        i32::MIN
    } else if index[n - 1] == h {
        strength[n - 1] as i32
    } else {
        strength_by(strength, index, h, (n - 1) as nat)
    }
}

impl<W: Scalar> WtlSpot<W> {
    pub open spec fn fits(&self, nh: int) -> bool {
        &&& self.hand_cards@.len() == 2 * nh
        &&& self.strength@.len() == nh
        &&& self.weights@.len() == nh
        &&& is_bucket_map(self.map@, nh, self.nb as int)
    }

    /// The hands of the table with the strengths that hold once `dealt` lies on the
    /// board, all of weight one.
    pub open spec fn is_at<T: Widen<Wide = W>>(
        &self,
        table: &FlopChanceTable<T>,
        dealt: &Dealt,
        map: Seq<u16>,
        nb: int,
    ) -> bool {
        &&& self.hand_cards@ == table.hand_cards@
        &&& self.map@ == map
        &&& self.nb == nb
        &&& self.weights@ == Seq::new(table.nh() as nat, |h: int| W::s_one())
        &&& exists|strength: Seq<u16>, index: Seq<u16>| #[trigger]
            table.is_order_for(dealt, strength, index) && self.strength@ == Seq::new(
                table.nh() as nat,
                |h: int| strength_by(strength, index, h, table.nh() as nat),
            )
    }
}

/// `g` gives the masses of every spot.
pub open spec fn is_wtl<W: Scalar, G: Fn(&WtlSpot<W>) -> WtlMatrices<W>>(g: &G, nh: int) -> bool {
    &&& forall|spot: &WtlSpot<W>| #[trigger] spot.fits(nh) ==> call_requires(*g, (spot,))
    &&& forall|spot: &WtlSpot<W>, out: WtlMatrices<W>| #[trigger]
        call_ensures(*g, (spot,), out) && spot.fits(nh) ==> out.wf() && out.nb == spot.nb
}

impl<T: Widen> BucketLayer<T> {
    /// The layer of `map` once `dealt` lies on the board, by the masses that `g`
    /// gives.
    pub open spec fn is_of<G: Fn(&WtlSpot<T::Wide>) -> WtlMatrices<T::Wide>>(
        &self,
        table: &FlopChanceTable<T>,
        g: &G,
        dealt: &Dealt,
        map: Seq<u16>,
        nb: int,
    ) -> bool {
        &&& self.wf(table.nh(), nb)
        &&& self.lens.of@ == map
        &&& self.omega@ == even_weights::<T>(map)
        &&& exists|spot: &WtlSpot<T::Wide>, wtl: WtlMatrices<T::Wide>|
            spot.is_at(table, dealt, map, nb) && #[trigger] call_ensures(*g, (spot,), wtl)
                && self.tables.is_of(&wtl, bucket_sizes::<T::Wide>(map, nb))
    }

    /// Builds the layer of `map`.
    fn build<G: Fn(&WtlSpot<T::Wide>) -> WtlMatrices<T::Wide>>(
        table: &FlopChanceTable<T>,
        g: &G,
        dealt: &Dealt,
        map: &Vec<u16>,
        nb: usize,
    ) -> (layer: BucketLayer<T>)
        requires
            table.wf(),
            2 <= table.num_players,
            dealt.wf(),
            is_bucket_map(map@, table.nh(), nb as int),
            is_wtl(g, table.nh()),
        ensures
            layer.is_of(table, g, dealt, map@, nb as int),
    {
        let nh: usize = table.num_valid;
        let (order_s, order_i) = order_for(table, dealt);
        let ghost os = order_s@;
        let ghost oi = order_i@;
        proof {
            assert(nh <= table.num_opp() * nh) by (nonlinear_arith)
                requires
                    1 <= table.num_opp(),
                    0 <= nh,
            ;
        }
        let mut strength: Vec<i32> = filled(i32::MIN, nh);
        let mut si: usize = 0;
        while si < nh
            invariant
                si <= nh,
                nh <= os.len(),
                os.len() == oi.len(),
                os == order_s@,
                oi == order_i@,
                strength@.len() == nh,
                forall|h: int|
                    0 <= h < nh ==> #[trigger] strength@[h] == strength_by(os, oi, h, si as nat),
            decreases nh - si,
        {
            let h: usize = order_i[si] as usize;
            let ghost before = strength@;
            if h < nh {
                strength[h] = order_s[si] as i32;
            }
            proof {
                assert forall|k: int| 0 <= k < nh implies #[trigger] strength@[k] == strength_by(
                    os,
                    oi,
                    k,
                    (si + 1) as nat,
                ) by {
                    assert(before[k] == strength_by(os, oi, k, si as nat));
                }
            }
            si += 1;
        }
        assert(strength@ =~= Seq::new(
            table.nh() as nat,
            |h: int| strength_by(os, oi, h, table.nh() as nat),
        ));
        let spot = WtlSpot {
            hand_cards: copied(table.hand_cards.as_slice()),
            strength,
            weights: filled(T::Wide::one(), nh),
            map: copied(map.as_slice()),
            nb,
        };
        assert(table.is_order_for(dealt, os, oi));
        assert(spot.is_at(table, dealt, map@, nb as int));
        assert(spot.fits(table.nh()));
        let wtl = g(&spot);
        let sums: Vec<T::Wide> = sizes_of(map, nb);
        let tables = BucketedRunoutTables::from_wtl(&wtl, sums.as_slice());
        let ghost r = &spot;
        assert(call_ensures(*g, (r,), wtl));
        BucketLayer {
            lens: Lens { width: nb, of: copied(map.as_slice()) },
            omega: weights_of(map, nb),
            tables,
        }
    }
}

/// Buckets for every street and every card that can come.
pub struct FlopBucketing<T> {
    pub nh: usize,
    pub nb_flop: usize,
    pub nb_turn: usize,
    pub nb_river: usize,
    pub flop: BucketLayer<T>,
    /// By turn place.
    pub turn: Vec<BucketLayer<T>>,
    /// By turn place and river place.
    pub river: Vec<Vec<BucketLayer<T>>>,
}

/// The cards that a table deals after turn place `ti`.
pub open spec fn river_deck<T: Widen>(table: &FlopChanceTable<T>, ti: int) -> Seq<u8> {
    table.river_decks@[table.remaining_deck@[ti] as int]@
}

/// The board after turn place `ti`.
pub open spec fn turn_board<T: Widen>(table: &FlopChanceTable<T>, ti: int) -> Dealt {
    Dealt { turn: Some(table.remaining_deck@[ti]), river: None }
}

/// The board after turn place `ti` and river place `ri`.
pub open spec fn river_board<T: Widen>(table: &FlopChanceTable<T>, ti: int, ri: int) -> Dealt {
    Dealt { turn: Some(table.remaining_deck@[ti]), river: Some(river_deck(table, ti)[ri]) }
}

/// The board before the turn.
pub open spec fn flop_board() -> Dealt {
    Dealt { turn: None, river: None }
}

/// One map per street and card.
pub open spec fn are_maps<T: Widen>(
    table: &FlopChanceTable<T>,
    nb: (int, int, int),
    flop: Seq<u16>,
    turn: Seq<Vec<u16>>,
    river: Seq<Vec<Vec<u16>>>,
) -> bool {
    let nh = table.nh();
    &&& is_bucket_map(flop, nh, nb.0)
    &&& turn.len() == table.remaining_deck@.len()
    &&& forall|ti: int| 0 <= ti < turn.len() ==> is_bucket_map((#[trigger] turn[ti])@, nh, nb.1)
    &&& river.len() == table.remaining_deck@.len()
    &&& forall|ti: int|
        0 <= ti < river.len() ==> (#[trigger] river[ti])@.len() == river_deck(table, ti).len()
    &&& forall|ti: int, ri: int|
        #![trigger river[ti]@[ri]]
        0 <= ti < river.len() && 0 <= ri < river[ti]@.len() ==> is_bucket_map(
            river[ti]@[ri]@,
            nh,
            nb.2,
        )
}

impl<T: Widen> FlopBucketing<T> {
    /// The layers fit the hands and cards of the table.
    pub open spec fn wf(&self, table: &FlopChanceTable<T>) -> bool {
        &&& self.nh == table.nh()
        &&& self.flop.wf(self.nh as int, self.nb_flop as int)
        &&& self.turn@.len() == table.remaining_deck@.len()
        &&& forall|ti: int|
            0 <= ti < self.turn@.len() ==> (#[trigger] self.turn@[ti]).wf(
                self.nh as int,
                self.nb_turn as int,
            )
        &&& self.river@.len() == table.remaining_deck@.len()
        &&& forall|ti: int|
            0 <= ti < self.river@.len() ==> (#[trigger] self.river@[ti])@.len() == river_deck(
                table,
                ti,
            ).len()
        &&& forall|ti: int, ri: int|
            #![trigger self.river@[ti]@[ri]]
            0 <= ti < self.river@.len() && 0 <= ri < self.river@[ti]@.len()
                ==> self.river@[ti]@[ri].wf(self.nh as int, self.nb_river as int)
    }

    /// Every layer is that of its map.
    pub open spec fn is_of<G: Fn(&WtlSpot<T::Wide>) -> WtlMatrices<T::Wide>>(
        &self,
        table: &FlopChanceTable<T>,
        g: &G,
        nb: (int, int, int),
        flop: Seq<u16>,
        turn: Seq<Vec<u16>>,
        river: Seq<Vec<Vec<u16>>>,
    ) -> bool {
        &&& self.wf(table)
        &&& self.nb_flop == nb.0
        &&& self.nb_turn == nb.1
        &&& self.nb_river == nb.2
        &&& self.flop.is_of(table, g, &flop_board(), flop, nb.0)
        &&& forall|ti: int|
            0 <= ti < self.turn@.len() ==> (#[trigger] self.turn@[ti]).is_of(
                table,
                g,
                &turn_board(table, ti),
                turn[ti]@,
                nb.1,
            )
        &&& forall|ti: int, ri: int|
            #![trigger self.river@[ti]@[ri]]
            0 <= ti < self.river@.len() && 0 <= ri < self.river@[ti]@.len()
                ==> self.river@[ti]@[ri].is_of(
                table,
                g,
                &river_board(table, ti, ri),
                river[ti]@[ri]@,
                nb.2,
            )
    }

    /// The layers of the given maps, all hands of weight one.
    pub fn from_maps<G: Fn(&WtlSpot<T::Wide>) -> WtlMatrices<T::Wide>>(
        table: &FlopChanceTable<T>,
        nb_flop: usize,
        nb_turn: usize,
        nb_river: usize,
        flop_map: Vec<u16>,
        turn_map: Vec<Vec<u16>>,
        river_map: Vec<Vec<Vec<u16>>>,
        wtl: &G,
    ) -> (bk: FlopBucketing<T>)
        requires
            table.wf(),
            2 <= table.num_players,
            is_wtl(wtl, table.nh()),
            are_maps(
                table,
                (nb_flop as int, nb_turn as int, nb_river as int),
                flop_map@,
                turn_map@,
                river_map@,
            ),
        ensures
            bk.is_of(
                table,
                wtl,
                (nb_flop as int, nb_turn as int, nb_river as int),
                flop_map@,
                turn_map@,
                river_map@,
            ),
    {
        let flop = BucketLayer::build(
            table,
            wtl,
            &Dealt { turn: None, river: None },
            &flop_map,
            nb_flop,
        );
        let n_turn: usize = table.remaining_deck.len();
        let mut turn: Vec<BucketLayer<T>> = Vec::new();
        let mut river: Vec<Vec<BucketLayer<T>>> = Vec::new();
        let mut ti: usize = 0;
        while ti < n_turn
            invariant
                ti <= n_turn,
                n_turn == table.remaining_deck@.len(),
                table.wf(),
                2 <= table.num_players,
                is_wtl(wtl, table.nh()),
                are_maps(
                    table,
                    (nb_flop as int, nb_turn as int, nb_river as int),
                    flop_map@,
                    turn_map@,
                    river_map@,
                ),
                turn@.len() == ti,
                forall|k: int|
                    0 <= k < ti ==> (#[trigger] turn@[k]).is_of(
                        table,
                        wtl,
                        &turn_board(table, k),
                        turn_map@[k]@,
                        nb_turn as int,
                    ),
                river@.len() == ti,
                forall|k: int|
                    0 <= k < ti ==> (#[trigger] river@[k])@.len() == river_deck(table, k).len(),
                forall|k: int, j: int|
                    #![trigger river@[k]@[j]]
                    0 <= k < ti && 0 <= j < river@[k]@.len() ==> river@[k]@[j].is_of(
                        table,
                        wtl,
                        &river_board(table, k, j),
                        river_map@[k]@[j]@,
                        nb_river as int,
                    ),
            decreases n_turn - ti,
        {
            let tc: u8 = table.remaining_deck[ti];
            proof {
                assert(table.remaining_deck@[ti as int] < 52);
                assert(is_bucket_map(turn_map@[ti as int]@, table.nh(), nb_turn as int));
                assert(river_map@[ti as int]@.len() == river_deck(table, ti as int).len());
            }
            turn.push(
                BucketLayer::build(
                    table,
                    wtl,
                    &Dealt { turn: Some(tc), river: None },
                    &turn_map[ti],
                    nb_turn,
                ),
            );
            let n: usize = river_map[ti].len();
            let mut layers: Vec<BucketLayer<T>> = Vec::new();
            let mut ri: usize = 0;
            while ri < n
                invariant
                    ri <= n,
                    ti < n_turn,
                    n_turn == table.remaining_deck@.len(),
                    tc == table.remaining_deck@[ti as int],
                    tc < 52,
                    n == river_map@[ti as int]@.len(),
                    n == river_deck(table, ti as int).len(),
                    table.wf(),
                    2 <= table.num_players,
                    is_wtl(wtl, table.nh()),
                    are_maps(
                        table,
                        (nb_flop as int, nb_turn as int, nb_river as int),
                        flop_map@,
                        turn_map@,
                        river_map@,
                    ),
                    layers@.len() == ri,
                    forall|j: int|
                        0 <= j < ri ==> (#[trigger] layers@[j]).is_of(
                            table,
                            wtl,
                            &river_board(table, ti as int, j),
                            river_map@[ti as int]@[j]@,
                            nb_river as int,
                        ),
                decreases n - ri,
            {
                assert(is_bucket_map(
                    river_map@[ti as int]@[ri as int]@,
                    table.nh(),
                    nb_river as int,
                ));
                assert(table.river_decks@[tc as int]@[ri as int] < 52);
                let rc: u8 = table.river_decks[tc as usize][ri];
                layers.push(
                    BucketLayer::build(
                        table,
                        wtl,
                        &Dealt { turn: Some(tc), river: Some(rc) },
                        &river_map[ti][ri],
                        nb_river,
                    ),
                );
                ri += 1;
            }
            river.push(layers);
            ti += 1;
        }
        FlopBucketing { nh: table.num_valid, nb_flop, nb_turn, nb_river, flop, turn, river }
    }

    /// Every hand a bucket of its own, on every board.
    pub fn identity<G: Fn(&WtlSpot<T::Wide>) -> WtlMatrices<T::Wide>>(
        table: &FlopChanceTable<T>,
        wtl: &G,
    ) -> (bk: FlopBucketing<T>)
        requires
            table.wf(),
            2 <= table.num_players,
            is_wtl(wtl, table.nh()),
        ensures
            bk.is_identity(table, wtl),
    {
        let nh: usize = table.num_valid;
        let n_turn: usize = table.remaining_deck.len();
        let flop_map = own_buckets(nh);
        let mut turn_map: Vec<Vec<u16>> = Vec::new();
        let mut river_map: Vec<Vec<Vec<u16>>> = Vec::new();
        let mut ti: usize = 0;
        while ti < n_turn
            invariant
                ti <= n_turn,
                n_turn == table.remaining_deck@.len(),
                nh == table.nh(),
                table.wf(),
                turn_map@.len() == ti,
                forall|k: int| 0 <= k < ti ==> (#[trigger] turn_map@[k])@ == own_map(nh as int),
                river_map@.len() == ti,
                forall|k: int|
                    0 <= k < ti ==> (#[trigger] river_map@[k])@.len() == river_deck(table, k).len(),
                forall|k: int, j: int|
                    #![trigger river_map@[k]@[j]]
                    0 <= k < ti && 0 <= j < river_map@[k]@.len() ==> river_map@[k]@[j]@ == own_map(
                        nh as int,
                    ),
            decreases n_turn - ti,
        {
            let tc: u8 = table.remaining_deck[ti];
            assert(table.remaining_deck@[ti as int] < 52);
            turn_map.push(own_buckets(nh));
            let n: usize = table.river_decks[tc as usize].len();
            let mut maps: Vec<Vec<u16>> = Vec::new();
            let mut ri: usize = 0;
            while ri < n
                invariant
                    ri <= n,
                    nh == table.nh(),
                    table.wf(),
                    maps@.len() == ri,
                    forall|j: int| 0 <= j < ri ==> (#[trigger] maps@[j])@ == own_map(nh as int),
                decreases n - ri,
            {
                maps.push(own_buckets(nh));
                ri += 1;
            }
            river_map.push(maps);
            ti += 1;
        }
        let bk = FlopBucketing::from_maps(
            table,
            nh,
            nh,
            nh,
            flop_map,
            turn_map,
            river_map,
            wtl,
        );
        proof {
            assert forall|ti: int| 0 <= ti < bk.turn@.len() implies (
            #[trigger] bk.turn@[ti]).is_of(
                table,
                wtl,
                &turn_board(table, ti),
                own_map(nh as int),
                nh as int,
            ) by {
                assert(turn_map@[ti]@ == own_map(nh as int));
            }
            assert forall|ti: int, ri: int|
                #![trigger bk.river@[ti]@[ri]]
                0 <= ti < bk.river@.len() && 0 <= ri < bk.river@[ti]@.len() implies bk.river@[ti]@[ri].is_of(
                table,
                wtl,
                &river_board(table, ti, ri),
                own_map(nh as int),
                nh as int,
            ) by {
                assert(river_map@[ti]@[ri]@ == own_map(nh as int));
            }
        }
        bk
    }

    /// Every layer keeps all hands apart.
    pub open spec fn is_identity<G: Fn(&WtlSpot<T::Wide>) -> WtlMatrices<T::Wide>>(
        &self,
        table: &FlopChanceTable<T>,
        g: &G,
    ) -> bool {
        let nh = table.nh();
        &&& self.wf(table)
        &&& self.nb_flop == nh
        &&& self.nb_turn == nh
        &&& self.nb_river == nh
        &&& self.flop.is_of(table, g, &flop_board(), own_map(nh), nh)
        &&& forall|ti: int|
            0 <= ti < self.turn@.len() ==> (#[trigger] self.turn@[ti]).is_of(
                table,
                g,
                &turn_board(table, ti),
                own_map(nh),
                nh,
            )
        &&& forall|ti: int, ri: int|
            #![trigger self.river@[ti]@[ri]]
            0 <= ti < self.river@.len() && 0 <= ri < self.river@[ti]@.len()
                ==> self.river@[ti]@[ri].is_of(
                table,
                g,
                &river_board(table, ti, ri),
                own_map(nh),
                nh,
            )
    }
}

/// Every hand in the bucket of its own number.
pub open spec fn own_map(nh: int) -> Seq<u16> {
    Seq::new(nh as nat, |h: int| h as u16)
}

fn own_buckets(nh: usize) -> (map: Vec<u16>)
    requires
        nh <= NO_BUCKET,
    ensures
        map@ == own_map(nh as int),
        is_bucket_map(map@, nh as int, nh as int),
{
    let mut map: Vec<u16> = Vec::new();
    let mut h: usize = 0;
    while h < nh
        invariant
            h <= nh,
            nh <= NO_BUCKET,
            map@.len() == h,
            forall|k: int| 0 <= k < h ==> (#[trigger] map@[k]) == k,
        decreases nh - h,
    {
        map.push(h as u16);
        h += 1;
    }
    assert(map@ =~= own_map(nh as int));
    map
}

/// The reach of bucket `b`: that of its hands among the first `n`, added up.
pub open spec fn bucket_sum<T: Scalar>(lens: &Lens, row: Seq<T>, b: int, n: nat) -> T
    decreases n,
{
    if n == 0 {
        T::s_zero()
    } else {
        let prev = bucket_sum(lens, row, b, (n - 1) as nat);
        if lens.column(n - 1) == Some(b) {
            prev.s_plus(row[n - 1])
        } else {
            prev
        }
    }
}

/// The reach of every bucket.
pub open spec fn bucket_reach<T: Scalar>(lens: &Lens, row: Seq<T>) -> Seq<T> {
    Seq::new(lens.width as nat, |b: int| bucket_sum(lens, row, b, row.len()))
}

/// Computes [`bucket_reach`].
pub fn pool<T: Scalar>(lens: &Lens, row: &Vec<T>) -> (out: Vec<T>)
    requires
        lens.wf(row@.len() as int),
    ensures
        out@ == bucket_reach(lens, row@),
{
    let nb: usize = lens.width;
    let mut out: Vec<T> = filled(T::zero(), nb);
    let mut h: usize = 0;
    while h < row.len()
        invariant
            h <= row@.len(),
            nb == lens.width,
            lens.wf(row@.len() as int),
            out@.len() == nb,
            forall|b: int|
                0 <= b < nb ==> #[trigger] out@[b] == bucket_sum(lens, row@, b, h as nat),
        decreases row@.len() - h,
    {
        let ghost before = out@;
        let c: u16 = lens.of[h];
        assert(lens.of@[h as int] == NO_BUCKET || lens.of@[h as int] < nb);
        if c != NO_BUCKET {
            let x = out[c as usize].plus(row[h]);
            out[c as usize] = x;
        }
        proof {
            assert forall|b: int| 0 <= b < nb implies #[trigger] out@[b] == bucket_sum(
                lens,
                row@,
                b,
                (h + 1) as nat,
            ) by {
                assert(before[b] == bucket_sum(lens, row@, b, h as nat));
            }
        }
        h += 1;
    }
    assert(out@ =~= bucket_reach(lens, row@));
    out
}

/// The values of the hands from those of their buckets, per deal; nothing for a hand
/// without a bucket.
pub open spec fn spread<T: Widen>(lens: &Lens, nh: int, vals: Seq<T>, combinations: T::Wide) -> Seq<
    T,
> {
    let nc = T::s_narrow(combinations);
    Seq::new(
        nh as nat,
        |h: int|
            match lens.column(h) {
                None => T::s_zero(),
                Some(b) => if T::s_zero().s_below(nc) {
                    vals[b].s_over(nc)
                } else {
                    vals[b]
                },
            },
    )
}

/// Computes [`spread`].
pub fn spread_of<T: Widen>(lens: &Lens, vals: &Vec<T>, combinations: T::Wide) -> (out: Vec<T>)
    requires
        lens.wf(lens.of@.len() as int),
        vals@.len() == lens.width,
    ensures
        out@ == spread(lens, lens.of@.len() as int, vals@, combinations),
{
    let nc = T::narrow(combinations);
    let scaled = T::zero().below(nc);
    let ghost want = spread(lens, lens.of@.len() as int, vals@, combinations);
    let mut out: Vec<T> = Vec::new();
    let mut h: usize = 0;
    while h < lens.of.len()
        invariant
            h <= lens.of@.len(),
            lens.wf(lens.of@.len() as int),
            vals@.len() == lens.width,
            nc == T::s_narrow(combinations),
            scaled == T::s_zero().s_below(nc),
            want == spread(lens, lens.of@.len() as int, vals@, combinations),
            out@.len() == h,
            forall|k: int| 0 <= k < h ==> #[trigger] out@[k] == want[k],
        decreases lens.of@.len() - h,
    {
        let c: u16 = lens.of[h];
        assert(lens.of@[h as int] == NO_BUCKET || lens.of@[h as int] < lens.width);
        if c == NO_BUCKET {
            out.push(T::zero());
        } else if scaled {
            out.push(vals[c as usize].over(nc));
        } else {
            out.push(vals[c as usize]);
        }
        h += 1;
    }
    assert(out@ =~= want);
    out
}

/// The traverser's values at terminal `node` when hands are taken by bucket.
pub open spec fn bucket_terminal<T: Widen>(
    layer: &BucketLayer<T>,
    tree: &FlatTree,
    table: &FlopChanceTable<T>,
    dealt: &Dealt,
    rows: Seq<Seq<T>>,
    traverser: u8,
    node: int,
) -> Seq<T> {
    let reach = Seq::new(
        (tree.np() - 1) as nat,
        |q: int|
            bucket_reach(
                &layer.lens,
                unblocked(table.hand_cards@, dealt, rows[opponent(traverser as int, q)]),
            ),
    );
    let st = stakes_of(
        Seq::new(tree.np() as nat, |p: int| tree.contribution(node, p) as i32),
        tree.folded_masks@[node],
        traverser as int,
        tree.starting_pot,
        tree_rake::<T>(tree).rate,
        tree_rake::<T>(tree).cap,
        true,
    );
    let vals = Seq::new(
        layer.tables.nb as nat,
        |bt: int| field_on(reach, &layer.tables, bt).value(&st),
    );
    spread(&layer.lens, table.nh(), vals, table.num_combinations)
}

/// Computes [`bucket_terminal`].
pub fn bucket_terminal_values<T: Widen>(
    layer: &BucketLayer<T>,
    tree: &FlatTree,
    table: &FlopChanceTable<T>,
    dealt: &Dealt,
    rows: &Vec<Vec<T>>,
    traverser: u8,
    node: usize,
) -> (values: Vec<T>)
    requires
        tree.wf(),
        is_table_for(table, tree),
        3 <= tree.num_players <= MAX_OPP + 1,
        dealt.wf(),
        tree.is_node(node as int),
        traverser < tree.num_players,
        rows@.len() == tree.np(),
        forall|p: int| 0 <= p < tree.np() ==> (#[trigger] rows@[p])@.len() == table.nh(),
        layer.wf(table.nh(), layer.tables.nb as int),
    ensures
        values@ == bucket_terminal(
            layer,
            tree,
            table,
            dealt,
            views(rows@),
            traverser,
            node as int,
        ),
        values@.len() == table.nh(),
{
    let spot = make_spot(tree, table, dealt, rows, traverser, node);
    let num_opp: usize = spot.opp_reach.len();
    let mut pooled: Vec<Vec<T>> = Vec::new();
    let mut q: usize = 0;
    while q < num_opp
        invariant
            q <= num_opp,
            num_opp == spot.opp_reach@.len(),
            spot.fits(tree.np(), table.nh()),
            layer.wf(table.nh(), layer.tables.nb as int),
            pooled@.len() == q,
            forall|k: int|
                0 <= k < q ==> (#[trigger] pooled@[k])@ == bucket_reach(
                    &layer.lens,
                    spot.opp_reach@[k]@,
                ),
        decreases num_opp - q,
    {
        assert(spot.opp_reach@[q as int]@.len() == table.nh());
        pooled.push(pool(&layer.lens, &spot.opp_reach[q]));
        q += 1;
    }
    let mut slices: Vec<&[T]> = Vec::new();
    let mut q: usize = 0;
    while q < num_opp
        invariant
            q <= num_opp,
            num_opp == pooled@.len(),
            slices@.len() == q,
            forall|k: int| 0 <= k < q ==> (#[trigger] slices@[k])@ == pooled@[k]@,
        decreases num_opp - q,
    {
        slices.push(pooled[q].as_slice());
        q += 1;
    }
    proof {
        assert forall|oi: int| 0 <= oi < slices@.len() implies (#[trigger] slices@[oi])@.len()
            == layer.tables.nb by {
            assert(pooled@[oi]@ == bucket_reach(&layer.lens, spot.opp_reach@[oi]@));
        }
        assert(reach_fits(slices@, layer.tables.nb as int, tree.np() - 1));
    }
    let vals = bucketed_showdown_cfv(
        slices.as_slice(),
        &layer.tables,
        spot.contributions.as_slice(),
        spot.fold_mask,
        traverser as usize,
        tree.num_players,
        spot.starting_pot,
        spot.rake.rate,
        spot.rake.cap,
        true,
    );
    proof {
        let reach = Seq::new(
            (tree.np() - 1) as nat,
            |q: int|
                bucket_reach(
                    &layer.lens,
                    unblocked(
                        table.hand_cards@,
                        dealt,
                        views(rows@)[opponent(traverser as int, q)],
                    ),
                ),
        );
        let given = Seq::new(slices@.len(), |oi: int| slices@[oi]@);
        assert forall|q: int| 0 <= q < tree.np() - 1 implies #[trigger] given[q] == reach[q] by {
            assert(slices@[q]@ == pooled@[q]@);
            assert(pooled@[q]@ == bucket_reach(&layer.lens, spot.opp_reach@[q]@));
            assert(spot.opp_reach@[q]@ == unblocked(
                table.hand_cards@,
                dealt,
                views(rows@)[opponent(traverser as int, q)],
            ));
        }
        assert(given =~= reach);
        let st = stakes_of(
            Seq::new(tree.np() as nat, |p: int| tree.contribution(node as int, p) as i32),
            tree.folded_masks@[node as int],
            traverser as int,
            tree.starting_pot,
            tree_rake::<T>(tree).rate,
            tree_rake::<T>(tree).cap,
            true,
        );
        let want = Seq::new(
            layer.tables.nb as nat,
            |bt: int| field_on(reach, &layer.tables, bt).value(&st),
        );
        assert forall|bt: int| 0 <= bt < layer.tables.nb implies vals@[bt] == want[bt] by {
            assert(field_of(slices@, &layer.tables, bt) == field_on(given, &layer.tables, bt));
        }
        assert(vals@ =~= want);
    }
    spread_of(&layer.lens, &vals, table.num_combinations)
}

/// Zero adds nothing and one changes nothing.
pub open spec fn has_units<T: Scalar>() -> bool {
    &&& forall|x: T| #[trigger] T::s_zero().s_plus(x) == x
    &&& forall|x: T| #[trigger] T::s_one().s_times(x) == x
    &&& T::s_one().s_over(T::s_one()) == T::s_one()
}

proof fn lemma_own_members<T: Scalar>(nh: int, b: int, n: nat)
    requires
        has_units::<T>(),
        n <= nh <= NO_BUCKET,
        0 <= b < nh,
    ensures
        members::<T>(own_map(nh), b, n) == if b < n {
            T::s_one()
        } else {
            T::s_zero()
        },
    decreases n,
{
    if n > 0 {
        lemma_own_members::<T>(nh, b, (n - 1) as nat);
        assert(own_map(nh)[n - 1] == n - 1);
    }
}

/// Where every hand is a bucket of its own, every hand has full weight.
pub proof fn law_singletons_weigh_one<T: Scalar>(nh: int)
    requires
        has_units::<T>(),
        0 <= nh <= NO_BUCKET,
    ensures
        even_weights::<T>(own_map(nh)) == Seq::new(nh as nat, |h: int| T::s_one()),
{
    assert forall|h: int| 0 <= h < nh implies even_weights::<T>(own_map(nh))[h] == T::s_one() by {
        lemma_own_members::<T>(nh, h, nh as nat);
        assert(own_map(nh)[h] == h);
    }
    assert(even_weights::<T>(own_map(nh)) =~= Seq::new(nh as nat, |h: int| T::s_one()));
}

proof fn lemma_own_sum<T: Scalar>(lens: &Lens, row: Seq<T>, b: int, n: nat)
    requires
        has_units::<T>(),
        lens.is_identity(row.len() as int),
        row.len() <= NO_BUCKET,
        n <= row.len(),
        0 <= b < row.len(),
    ensures
        bucket_sum(lens, row, b, n) == if b < n {
            row[b]
        } else {
            T::s_zero()
        },
    decreases n,
{
    if n > 0 {
        lemma_own_sum(lens, row, b, (n - 1) as nat);
        assert(lens.of@[n - 1] == n - 1);
    }
}

/// Where every hand is a bucket of its own, reach by bucket is reach by hand.
pub proof fn law_singletons_keep_reach<T: Scalar>(lens: &Lens, row: Seq<T>)
    requires
        has_units::<T>(),
        lens.is_identity(row.len() as int),
        row.len() <= NO_BUCKET,
    ensures
        bucket_reach(lens, row) == row,
{
    assert forall|b: int| 0 <= b < row.len() implies bucket_reach(lens, row)[b] == row[b] by {
        lemma_own_sum(lens, row, b, row.len());
    }
    assert(bucket_reach(lens, row) =~= row);
}

proof fn lemma_own_gain<T: Scalar>(
    lens: &Lens,
    omega: Seq<T>,
    v: Seq<T>,
    nh: int,
    i: int,
    c: int,
    b: int,
    n: nat,
)
    requires
        has_units::<T>(),
        lens.is_identity(nh),
        nh <= NO_BUCKET,
        omega == Seq::new(nh as nat, |h: int| T::s_one()),
        n <= nh,
        0 <= b < nh,
    ensures
        pooled_gain(lens, omega, v, nh, i, c, b, n) == if b < n {
            v[at(nh, c, b)].s_minus(v[at(nh, i, b)])
        } else {
            T::s_zero()
        },
    decreases n,
{
    if n > 0 {
        lemma_own_gain(lens, omega, v, nh, i, c, b, (n - 1) as nat);
        assert(lens.of@[n - 1] == n - 1);
    }
}

/// Where every hand is a bucket of its own, a bucket's regret is its hand's.
pub proof fn law_singletons_keep_regrets<T: Scalar>(
    tree: &FlatTree,
    lens: &Lens,
    v: Seq<T>,
    nh: int,
    i: int,
    a: int,
    b: int,
)
    requires
        has_units::<T>(),
        lens.is_identity(nh),
        nh <= NO_BUCKET,
        0 <= b < nh,
    ensures
        gain(tree, lens, Some(even_weights::<T>(own_map(nh))), v, nh, i, a, b) == gain(
            tree,
            lens,
            None,
            v,
            nh,
            i,
            a,
            b,
        ),
{
    law_singletons_weigh_one::<T>(nh);
    lemma_own_gain(
        lens,
        even_weights::<T>(own_map(nh)),
        v,
        nh,
        i,
        tree.child(i, a),
        b,
        nh as nat,
    );
}

} // verus!
