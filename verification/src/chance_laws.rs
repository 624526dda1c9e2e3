//! What a hand sees dealt adds up to one.
use vstd::prelude::*;

use crate::buckets::river_deck;
use crate::deck::holds;
use crate::exact::{has_neutrals, is_exact, lemma_orders, lemma_undo, lemma_units};
use crate::flop_start_game::{
    deal_chance, deal_chances, free_chance, holds_at, law_deal_chances_add_up, times_over,
    FlopChanceTable,
};
use crate::layout::{count_upto, lemma_count_bound};
use crate::response_laws::{has_quotients, is_ordered, is_rational};
use crate::scalar::{lemma_sum_ext, sum_upto, Scalar, Widen};

verus! {

/// Counts add up.
proof fn lemma_counts_add<T: Scalar>(a: int, b: nat)
    requires
        is_rational::<T>(),
        0 <= a,
    ensures
        T::s_of(a + b) == T::s_of(a).s_plus(T::s_of(b as int)),
    decreases b,
{
    if b == 0 {
        assert(T::s_of(0) == T::s_zero()) by {
            reveal(has_quotients);
        }
        lemma_units(T::s_of(a));
    } else {
        let c = (b - 1) as nat;
        lemma_counts_add::<T>(a, c);
        let (x, y, one) = (T::s_of(a), T::s_of(c as int), T::s_one());
        assert(T::s_of((a + c) + 1) == T::s_of(a + c).s_plus(one) && T::s_of(c as int + 1)
            == y.s_plus(one)) by {
            reveal(has_quotients);
        }
        lemma_orders(x, y, one);
        assert(a + b == (a + c) + 1 && b as int == c as int + 1);
    }
}

/// A count less a smaller one is the count of the difference.
proof fn lemma_counts_part<T: Scalar>(a: int, b: int)
    requires
        is_rational::<T>(),
        0 <= b <= a,
    ensures
        T::s_of(a).s_minus(T::s_of(b)) == T::s_of(a - b),
{
    lemma_counts_add::<T>(a - b, b as nat);
    lemma_undo(T::s_of(a - b), T::s_of(b));
}

/// One part in `t`, so many times over.
proof fn lemma_parts<T: Scalar>(t: T, n: nat)
    requires
        is_rational::<T>(),
        T::s_zero().s_below(t),
    ensures
        times_over(T::s_one().s_over(t), n) == T::s_of(n as int).s_over(t),
    decreases n,
{
    reveal(has_quotients);
    if n > 0 {
        let m = (n - 1) as nat;
        lemma_parts(t, m);
        assert(T::s_of(m as int + 1) == T::s_of(m as int).s_plus(T::s_one()));
        assert(T::s_of(m as int).s_plus(T::s_one()).s_over(t) == T::s_of(m as int).s_over(
            t,
        ).s_plus(T::s_one().s_over(t)));
    }
}

/// Nothing, so many times over.
proof fn lemma_nothing_over<T: Scalar>(n: nat)
    requires
        is_exact::<T>(),
    ensures
        times_over(T::s_zero(), n) == T::s_zero(),
    decreases n,
{
    if n > 0 {
        lemma_nothing_over::<T>((n - 1) as nat);
        lemma_units(T::s_zero());
    }
}

/// As long as the deck has a card that the hand does not hold, the chances of its places
/// add up to one. A place has no chance if and only if the hand holds its card, and all
/// others have the same.
pub proof fn law_deal_chances_make_one<T: Scalar>(deck: Seq<u8>, index: int)
    requires
        is_rational::<T>(),
        exists|k: int| 0 <= k < deck.len() && !holds(index, (#[trigger] deck[k]) as int),
    ensures
        sum_upto(deal_chances::<T>(deck, index), deck.len()) == T::s_one(),
        forall|k: int|
            0 <= k < deck.len() ==> (#[trigger] deal_chance::<T>(deck, k, index) == T::s_zero()
                <==> holds(index, deck[k] as int)),
        forall|k: int|
            0 <= k < deck.len() && !holds(index, deck[k] as int) ==> #[trigger] deal_chance::<T>(
                deck,
                k,
                index,
            ) == free_chance::<T>(deck, index),
{
    let n = deck.len();
    let held = holds_at(deck, index);
    let b = count_upto(held, n);
    lemma_count_bound(held, n);
    let k = choose|k: int| 0 <= k < deck.len() && !holds(index, (#[trigger] deck[k]) as int);
    lemma_not_all(held, n, k);
    let free = (n - b) as nat;
    let t = T::s_of(free as int);
    lemma_counts_part::<T>(n as int, b as int);
    let part = T::s_one().s_over(t);
    assert(free_chance::<T>(deck, index) == part);
    assert(T::s_zero().s_below(t) && t.s_over(t) == T::s_one()) by {
        reveal(has_quotients);
    }
    lemma_parts(t, free);
    assert forall|x: T| #[trigger] x.s_plus(T::s_zero()) == x by {
        reveal(has_neutrals);
    }
    law_deal_chances_add_up::<T>(deck, index, n);
    assert(part != T::s_zero()) by {
        if part == T::s_zero() {
            lemma_nothing_over::<T>(free);
            let zero: int = 0;
            assert(T::s_of(zero + 1) == T::s_of(zero).s_plus(T::s_one()) && T::s_of(zero)
                == T::s_zero() && T::s_zero().s_below(T::s_of(zero + 1))) by {
                reveal(has_quotients);
            }
            lemma_units(T::s_one());
            assert(!T::s_zero().s_below(T::s_zero())) by {
                reveal(is_ordered);
            }
        }
    }
}

/// A place that does not count leaves the count below the places.
proof fn lemma_not_all(p: spec_fn(int) -> bool, n: nat, k: int)
    requires
        0 <= k < n,
        !p(k),
    ensures
        count_upto(p, n) < n,
    decreases n,
{
    if k < n - 1 {
        lemma_not_all(p, (n - 1) as nat, k);
    } else {
        lemma_count_bound(p, (n - 1) as nat);
    }
}

/// The chances of the turn cards, seen by hand `h`.
pub open spec fn turn_chances_of<T: Widen>(table: &FlopChanceTable<T>, h: int) -> spec_fn(int) -> T {
    |k: int| table.turn_chance(k, h)
}

/// The chances of the river cards after turn place `tc`, seen by hand `h`.
pub open spec fn river_chances_of<T: Widen>(
    table: &FlopChanceTable<T>,
    tc: int,
    h: int,
) -> spec_fn(int) -> T {
    |k: int| table.river_chance(table.remaining_deck@[tc] as int, k, h)
}

/// The chances of the turn cards make one for every hand that leaves a card in the deck;
/// a card has no chance if and only if the hand holds it.
pub proof fn law_turn_chances_make_one<T: Widen>(table: &FlopChanceTable<T>, h: int)
    requires
        is_rational::<T>(),
        exists|k: int|
            0 <= k < table.remaining_deck@.len() && !holds(
                table.valid_hand_indices@[h] as int,
                (#[trigger] table.remaining_deck@[k]) as int,
            ),
    ensures
        sum_upto(turn_chances_of(table, h), table.remaining_deck@.len()) == T::s_one(),
        forall|k: int|
            0 <= k < table.remaining_deck@.len() ==> (#[trigger] table.turn_chance(k, h)
                == T::s_zero() <==> holds(
                table.valid_hand_indices@[h] as int,
                table.remaining_deck@[k] as int,
            )),
        forall|k: int, l: int|
            0 <= k < table.remaining_deck@.len() && 0 <= l < table.remaining_deck@.len()
                && #[trigger] table.turn_chance(k, h) != T::s_zero() && #[trigger] table.turn_chance(
                l,
                h,
            ) != T::s_zero() ==> table.turn_chance(k, h) == table.turn_chance(l, h),
{
    let index = table.valid_hand_indices@[h] as int;
    law_deal_chances_make_one::<T>(table.remaining_deck@, index);
    lemma_sum_ext(
        turn_chances_of(table, h),
        deal_chances::<T>(table.remaining_deck@, index),
        table.remaining_deck@.len(),
    );
    assert forall|k: int| 0 <= k < table.remaining_deck@.len() implies (#[trigger] table.turn_chance(
        k,
        h,
    ) == T::s_zero() <==> holds(index, table.remaining_deck@[k] as int)) by {
        assert(deal_chance::<T>(table.remaining_deck@, k, index) == table.turn_chance(k, h));
    }
}

/// The same of the river cards after a turn card.
pub proof fn law_river_chances_make_one<T: Widen>(table: &FlopChanceTable<T>, tc: int, h: int)
    requires
        is_rational::<T>(),
        exists|k: int|
            0 <= k < river_deck(table, tc).len() && !holds(
                table.valid_hand_indices@[h] as int,
                (#[trigger] river_deck(table, tc)[k]) as int,
            ),
    ensures
        sum_upto(river_chances_of(table, tc, h), river_deck(table, tc).len()) == T::s_one(),
        forall|k: int|
            0 <= k < river_deck(table, tc).len() ==> (#[trigger] table.river_chance(
                table.remaining_deck@[tc] as int,
                k,
                h,
            ) == T::s_zero() <==> holds(
                table.valid_hand_indices@[h] as int,
                river_deck(table, tc)[k] as int,
            )),
{
    let index = table.valid_hand_indices@[h] as int;
    let deck = river_deck(table, tc);
    law_deal_chances_make_one::<T>(deck, index);
    lemma_sum_ext(river_chances_of(table, tc, h), deal_chances::<T>(deck, index), deck.len());
    assert forall|k: int| 0 <= k < deck.len() implies (#[trigger] table.river_chance(
        table.remaining_deck@[tc] as int,
        k,
        h,
    ) == T::s_zero() <==> holds(index, deck[k] as int)) by {
        assert(deal_chance::<T>(deck, k, index) == table.river_chance(
            table.remaining_deck@[tc] as int,
            k,
            h,
        ));
    }
}

} // verus!
