//! Rows of hands in another order: every value stays with its hand.
use vstd::prelude::*;

use crate::card::NUM_POSSIBLE_HANDS;
use crate::flop_sources::{
    covers, is_layout, is_place, lists, pair_index, place_of, relaid, repaired, spread_of,
};
use crate::scalar::Scalar;

verus! {

/// In a layout a hand stands in one place.
proof fn lemma_one_place(lay: Seq<(u8, u8)>, k: int, l: int)
    requires
        is_layout(lay),
        0 <= k < lay.len(),
        lists(lay, l, pair_index(lay[k])),
    ensures
        l == k,
{
    assert(pair_index(lay[k]) == pair_index(lay[l]));
}

proof fn lemma_its_place(lay: Seq<(u8, u8)>, k: int)
    requires
        is_layout(lay),
        0 <= k < lay.len(),
    ensures
        place_of(lay, lay[k]) == k,
{
    assert forall|l: int| 0 <= l < k implies #[trigger] lay[l] != lay[k] by {
        if lay[l] == lay[k] {
            assert(pair_index(lay[k]) == pair_index(lay[l]));
        }
    }
    assert(is_place(lay, lay[k], k));
    let p = place_of(lay, lay[k]);
    assert(is_place(lay, lay[k], p));
    assert(pair_index(lay[p]) == pair_index(lay[k]));
}

/// A value that is laid out anew stays with its hand.
pub proof fn law_relaid_values_stay_with_their_hands<T>(
    from: Seq<(u8, u8)>,
    to: Seq<(u8, u8)>,
    vals: Seq<T>,
    j: int,
    k: int,
)
    requires
        is_layout(from),
        0 <= j < from.len(),
        0 <= k < to.len(),
        from[j] == to[k],
    ensures
        relaid(from, to, vals)[k] == vals[j],
{
    lemma_its_place(from, j);
}

/// The same where the two cards may stand in either order.
pub proof fn law_repaired_values_stay_with_their_hands<T>(
    from: Seq<(u8, u8)>,
    to: Seq<(u8, u8)>,
    vals: Seq<T>,
    j: int,
    k: int,
)
    requires
        is_layout(from),
        0 <= j < from.len(),
        0 <= k < to.len(),
        pair_index(from[j]) == pair_index(to[k]),
    ensures
        repaired(from, to, vals)[k] == vals[j],
{
    assert(lists(from, j, pair_index(to[k])));
    let l = choose|l: int| #[trigger] lists(from, l, pair_index(to[k]));
    lemma_one_place(from, j, l);
}

/// Laying out anew and back again changes nothing.
pub proof fn law_relaying_back_changes_nothing<T>(
    from: Seq<(u8, u8)>,
    to: Seq<(u8, u8)>,
    vals: Seq<T>,
)
    requires
        is_layout(from),
        is_layout(to),
        covers(from, to),
        covers(to, from),
        vals.len() == from.len(),
    ensures
        relaid(to, from, relaid(from, to, vals)) == vals,
{
    let there = relaid(from, to, vals);
    let back = relaid(to, from, there);
    assert forall|j: int| 0 <= j < vals.len() implies back[j] == vals[j] by {
        assert(to.contains(from[j]));
        let k = choose|k: int| 0 <= k < to.len() && to[k] == from[j];
        law_relaid_values_stay_with_their_hands(from, to, vals, j, k);
        law_relaid_values_stay_with_their_hands(to, from, there, k, j);
    }
    assert(back =~= vals);
}

/// A row spread over all hands has each value at its hand, and nothing at the hands that the
/// layout does not list.
pub proof fn law_spread_values_stay_with_their_hands<T: Scalar>(
    lay: Seq<(u8, u8)>,
    vals: Seq<T>,
    i: int,
)
    requires
        is_layout(lay),
        0 <= i < NUM_POSSIBLE_HANDS,
    ensures
        forall|k: int| #[trigger] lists(lay, k, i) ==> spread_of(lay, vals)[i] == vals[k],
        (forall|k: int| !#[trigger] lists(lay, k, i)) ==> spread_of(lay, vals)[i] == T::s_zero(),
{
    assert forall|k: int| #[trigger] lists(lay, k, i) implies spread_of(lay, vals)[i]
        == vals[k] by {
        let l = choose|l: int| #[trigger] lists(lay, l, i);
        lemma_one_place(lay, k, l);
    }
}

} // verus!
