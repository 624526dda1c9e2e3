//! Pooled, averaged and blended numbers, in terms of what they are made of.
use vstd::prelude::*;

use crate::bank::{room, ZoneBank};
use crate::bucketed_search::{normalized, weight_sum};
use crate::buckets::{bucket_reach, bucket_sum, even_weights, members};
use crate::cluster_laws::one_if;
use crate::even_pots::{lemma_into_quotient, lemma_one};
use crate::exact::{
    is_exact, lemma_orders, lemma_pairs, lemma_spread, lemma_spread_difference, lemma_sum_one,
    lemma_sum_times, lemma_sum_zero, lemma_undo, lemma_units, row_of, row_sums, Exact,
};
use crate::exploit_laws::quotients_return;
use crate::flop_start_vector_cfr::FlopStartVectorCfr;
use crate::flop_storage::{flattened_entry, river_total, turn_entries};
use crate::layout::{at, count_upto, row};
use crate::lift::{blend, kept_row};
use crate::many_sums::lemma_sum2_turn;
use crate::pseudo_harmonic::lower_weight;
use crate::response_laws::{has_quotients, is_rational, lemma_quotient_of_sum};
use crate::scalar::{lemma_sum_ext, sum_upto, Scalar, Widen};
use crate::sweep::{Lens, NO_BUCKET};
use crate::zones::{Zone, ZoneBook};

verus! {

/// What the hands of column `b` have.
pub open spec fn column_parts<T: Scalar>(lens: &Lens, row: Seq<T>, b: int) -> spec_fn(int) -> T {
    |h: int| one_if::<T>(lens.column(h) == Some(b)) * row[h]
}

proof fn lemma_bucket_sum<T: Scalar>(lens: &Lens, row: Seq<T>, b: int, n: nat)
    requires
        is_exact::<T>(),
    ensures
        bucket_sum(lens, row, b, n) == sum_upto(column_parts(lens, row, b), n),
    decreases n,
{
    if n > 0 {
        lemma_bucket_sum(lens, row, b, (n - 1) as nat);
        lemma_units(row[n - 1]);
        lemma_units(bucket_sum(lens, row, b, (n - 1) as nat));
    }
}

/// What the hands with a column have.
pub open spec fn placed_parts<T: Scalar>(lens: &Lens, row: Seq<T>) -> spec_fn(int) -> T {
    |h: int| one_if::<T>(lens.column(h) is Some) * row[h]
}

/// The entries of a row.
pub open spec fn entries_in<T>(row: Seq<T>) -> spec_fn(int) -> T {
    |b: int| row[b]
}

/// Where numbers are exact, pooling into buckets keeps the reach: the reach of all buckets
/// is the reach of all hands that have one.
pub proof fn law_pooling_keeps_the_reach<T: Scalar>(lens: &Lens, row: Seq<T>)
    requires
        is_exact::<T>(),
        lens.wf(row.len() as int),
    ensures
        sum_upto(entries_in(bucket_reach(lens, row)), lens.width as nat) == sum_upto(
            placed_parts(lens, row),
            row.len(),
        ),
{
    let (n, w) = (row.len(), lens.width as nat);
    let f = |b: int, h: int| column_parts(lens, row, b)(h);
    let g = |h: int, b: int| column_parts(lens, row, b)(h);
    let pooled = entries_in(bucket_reach(lens, row));
    assert forall|b: int| 0 <= b < w implies #[trigger] pooled(b) == row_sums(f, n)(b) by {
        lemma_bucket_sum(lens, row, b, n);
        lemma_sum_ext(column_parts(lens, row, b), row_of(f, b), n);
    }
    lemma_sum_ext(pooled, row_sums(f, n), w);
    lemma_sum2_turn(f, g, w, n);
    let placed = placed_parts(lens, row);
    assert forall|h: int| 0 <= h < n implies #[trigger] row_sums(g, w)(h) == placed(h) by {
        let q = row_of(g, h);
        lemma_units(row[h]);
        assert(lens.of@[h] == NO_BUCKET || lens.of@[h] < lens.width);
        match lens.column(h) {
            None => {
                lemma_sum_zero(q, w);
            },
            Some(b) => {
                lemma_sum_one(q, b, w);
            },
        }
    }
    lemma_sum_ext(row_sums(g, w), placed, n);
}

/// Where numbers are exact, the reach of a bucket is the reach of all hands in it.
pub proof fn law_a_bucket_has_its_hands_reach<T: Scalar>(lens: &Lens, row: Seq<T>, b: int)
    requires
        is_exact::<T>(),
        0 <= b < lens.width,
    ensures
        bucket_reach(lens, row)[b] == sum_upto(column_parts(lens, row, b), row.len()),
{
    lemma_bucket_sum(lens, row, b, row.len());
}

/// The hands of bucket `b`.
pub open spec fn is_member(map: Seq<u16>, b: int) -> spec_fn(int) -> bool {
    |h: int| map[h] != NO_BUCKET && map[h] == b
}

proof fn lemma_members<T: Scalar>(map: Seq<u16>, b: int, n: nat)
    requires
        is_rational::<T>(),
    ensures
        members::<T>(map, b, n) == T::s_of(count_upto(is_member(map, b), n) as int),
    decreases n,
{
    if n == 0 {
        lemma_one::<T>();
    } else {
        lemma_members::<T>(map, b, (n - 1) as nat);
        let c: int = count_upto(is_member(map, b), (n - 1) as nat) as int;
        assert(T::s_of(c + 1) == T::s_of(c).s_plus(T::s_one())) by {
            reveal(has_quotients);
        }
    }
}

/// The weights of the hands of bucket `b`.
pub open spec fn member_weights<T: Scalar>(map: Seq<u16>, b: int) -> spec_fn(int) -> T {
    |h: int|
        if is_member(map, b)(h) {
            even_weights::<T>(map)[h]
        } else {
            T::s_zero()
        }
}

proof fn lemma_member_ones<T: Scalar>(map: Seq<u16>, b: int, f: spec_fn(int) -> T, n: nat)
    requires
        is_rational::<T>(),
        forall|h: int|
            0 <= h < n ==> #[trigger] f(h) == if is_member(map, b)(h) {
                T::s_one()
            } else {
                T::s_zero()
            },
    ensures
        sum_upto(f, n) == members::<T>(map, b, n),
    decreases n,
{
    if n > 0 {
        lemma_member_ones(map, b, f, (n - 1) as nat);
        assert(f(n - 1) == if is_member(map, b)(n - 1) {
            T::s_one()
        } else {
            T::s_zero()
        });
        lemma_units(members::<T>(map, b, (n - 1) as nat));
    }
}

/// The even weights of a bucket's hands add up to one, if the bucket has a hand.
pub proof fn law_even_weights_make_one<T: Scalar>(map: Seq<u16>, b: int, h: int)
    requires
        is_rational::<T>(),
        0 <= h < map.len(),
        is_member(map, b)(h),
    ensures
        sum_upto(member_weights::<T>(map, b), map.len()) == T::s_one(),
{
    let n = map.len();
    let m = members::<T>(map, b, n);
    let f = member_weights::<T>(map, b);
    let ones = |k: int|
        if is_member(map, b)(k) {
            T::s_one()
        } else {
            T::s_zero()
        };
    lemma_members::<T>(map, b, n);
    lemma_counted(is_member(map, b), h, n);
    assert(T::s_zero().s_below(m) && m.s_over(m) == T::s_one() && T::s_zero().s_over(m)
        == T::s_zero()) by {
        reveal(has_quotients);
    }
    lemma_member_ones(map, b, ones, n);
    lemma_quotient_of_sum(ones, f, m, n);
}

proof fn lemma_counted(p: spec_fn(int) -> bool, h: int, n: nat)
    requires
        0 <= h < n,
        p(h),
    ensures
        count_upto(p, n) > 0,
    decreases n,
{
    if h < n - 1 {
        lemma_counted(p, h, (n - 1) as nat);
    }
}

proof fn lemma_weight_sum<T: Scalar>(w: Seq<T>, n: nat)
    ensures
        weight_sum(w, n) == sum_upto(entries_in(w), n),
    decreases n,
{
    if n > 0 {
        lemma_weight_sum(w, (n - 1) as nat);
    }
}

/// Weights with a positive sum are scaled to a sum of one, each in proportion.
pub proof fn law_normalized_weights_make_one<T: Scalar>(w: Seq<T>, h: int)
    requires
        is_rational::<T>(),
        quotients_return::<T>(),
        0 <= h < w.len(),
        T::s_zero().s_below(sum_upto(entries_in(w), w.len())),
    ensures
        sum_upto(entries_in(normalized(w)), w.len()) == T::s_one(),
        normalized(w)[h] * sum_upto(entries_in(w), w.len()) == w[h],
{
    let n = w.len();
    let s = sum_upto(entries_in(w), n);
    lemma_weight_sum(w, n);
    lemma_quotient_of_sum(entries_in(w), entries_in(normalized(w)), s, n);
    assert(s.s_over(s) == T::s_one()) by {
        reveal(has_quotients);
    }
    lemma_into_quotient(s, w[h], s);
}

/// What hand `h` has accumulated for action `a` of node `i` after each river place behind
/// turn place `t`.
pub open spec fn river_entries<T: Widen>(
    s: &FlopStartVectorCfr<T>,
    i: int,
    a: int,
    h: int,
    t: int,
) -> spec_fn(int) -> T {
    |r: int|
        row(
            s.river.cum@,
            room(s.nh as int),
            at(s.river.infosets as int, at(s.max_n_river as int, t, r), s.river_book.local(i)),
        )[at(s.nh as int, a, h)]
}

/// The same, added up over the river places, by turn place.
pub open spec fn turn_totals<T: Widen>(
    s: &FlopStartVectorCfr<T>,
    i: int,
    a: int,
    h: int,
) -> spec_fn(int) -> T {
    |t: int| sum_upto(river_entries(s, i, a, h, t), s.river_counts@[t] as nat)
}

/// How many rivers there are behind the first `n` turn places.
pub open spec fn rivers_behind<T: Widen>(s: &FlopStartVectorCfr<T>, n: nat) -> nat
    decreases n,
{
    if n == 0 {
        0
    } else {
        rivers_behind(s, (n - 1) as nat) + s.river_counts@[n - 1] as nat
    }
}

proof fn lemma_river_total<T: Widen>(
    s: &FlopStartVectorCfr<T>,
    i: int,
    a: int,
    h: int,
    tc: nat,
    r: nat,
)
    requires
        is_exact::<T>(),
    ensures
        river_total(s, i, a, h, tc, r).0 == sum_upto(turn_totals(s, i, a, h), tc) + sum_upto(
            river_entries(s, i, a, h, tc as int),
            r,
        ),
        river_total(s, i, a, h, tc, r).1 == rivers_behind(s, tc) + r,
    decreases tc, r,
{
    let f = turn_totals(s, i, a, h);
    if r > 0 {
        lemma_river_total(s, i, a, h, tc, (r - 1) as nat);
        let g = river_entries(s, i, a, h, tc as int);
        lemma_orders(sum_upto(f, tc), sum_upto(g, (r - 1) as nat), g(r - 1));
    } else if tc > 0 {
        lemma_river_total(s, i, a, h, (tc - 1) as nat, s.river_counts@[tc - 1] as nat);
        lemma_units(sum_upto(f, tc));
    } else {
        lemma_units(T::s_zero());
    }
}

/// Where numbers are exact, a turn decision's entry in the flattened strategy, times the
/// number of turn cards, is the sum over all turn cards; a river decision's, times the
/// number of rivers, is the sum over all pairs of a turn and a river card.
pub proof fn law_flattening_averages_all_deals<T: Widen>(
    s: &FlopStartVectorCfr<T>,
    i: int,
    a: int,
    h: int,
)
    requires
        is_rational::<T>(),
        quotients_return::<T>(),
    ensures
        s.zones@[i] == Zone::Turn && s.n_turn > 0 ==> flattened_entry(s, i, a, h) * T::s_of(
            s.n_turn as int,
        ) == sum_upto(turn_entries(s, i, a, h), s.n_turn as nat),
        s.zones@[i] == Zone::River && rivers_behind(s, s.n_turn as nat) > 0 ==> flattened_entry(
            s,
            i,
            a,
            h,
        ) * T::s_of(rivers_behind(s, s.n_turn as nat) as int) == sum_upto(
            turn_totals(s, i, a, h),
            s.n_turn as nat,
        ),
{
    let n = s.n_turn as nat;
    lemma_river_total(s, i, a, h, n, 0);
    let x = sum_upto(turn_totals(s, i, a, h), n);
    lemma_units(x);
    let (p, q) = (T::s_of(n as int), T::s_of(rivers_behind(s, n) as int));
    if n > 0 {
        assert(T::s_zero().s_below(p)) by {
            reveal(has_quotients);
        }
        lemma_into_quotient(p, sum_upto(turn_entries(s, i, a, h), n), p);
    }
    if rivers_behind(s, n) > 0 {
        assert(T::s_zero().s_below(q)) by {
            reveal(has_quotients);
        }
        lemma_into_quotient(q, x, q);
    }
}

/// A bet `b` between its neighbours `a` and `c` is split so that the weight of the lower one
/// and the rest are to each other as `(c - b)(1 + a)` and `(b - a)(1 + c)`, which together
/// are `(c - a)(1 + b)`. A bet that is the lower neighbour keeps all of the weight there,
/// one that is the upper none.
pub proof fn law_the_split_is_harmonic<W: Scalar>(a: W, b: W, c: W)
    requires
        is_rational::<W>(),
        quotients_return::<W>(),
        W::s_zero().s_below((c - a) * (W::s_one() + b)),
    ensures
        ({
            let p = lower_weight(a, b, c);
            let one = W::s_one();
            &&& p * ((c - a) * (one + b)) == (c - b) * (one + a)
            &&& (one - p) * ((c - a) * (one + b)) == (b - a) * (one + c)
            &&& b == a ==> p == one
            &&& b == c ==> p == W::s_zero()
        }),
{
    let one = W::s_one();
    let p = lower_weight(a, b, c);
    let den = (c - a) * (one + b);
    let num = (c - b) * (one + a);
    lemma_into_quotient(den, num, den);
    lemma_spread_difference(den, one, p);
    lemma_units(den);
    // What is left of the whole.
    lemma_spread(c - a, one, b);
    lemma_spread(c - b, one, a);
    lemma_spread(b - a, one, c);
    lemma_units(c - a);
    lemma_units(c - b);
    lemma_units(b - a);
    lemma_spread_difference(b, c, a);
    lemma_spread_difference(a, c, b);
    lemma_spread_difference(c, b, a);
    lemma_orders(a, b, c);
    lemma_orders(a, c, b);
    lemma_orders(b, c, a);
    lemma_left_over(a, b, c, a * b, a * c, b * c);
    if b == a {
        assert(den.s_over(den) == one) by {
            reveal(has_quotients);
        }
    }
    if b == c {
        lemma_undo(W::s_zero(), c);
        lemma_units(c);
        lemma_units(one + a);
        assert(c - c == W::s_zero());
        assert(W::s_zero().s_over(den) == W::s_zero()) by {
            reveal(has_quotients);
        }
    }
}

/// `(c - a) + (bc - ab) - ((c - b) + (ac - ab))` is `(b - a) + (bc - ac)`.
proof fn lemma_left_over<W: Scalar>(a: W, b: W, c: W, ab: W, ac: W, bc: W)
    requires
        is_exact::<W>(),
    ensures
        ((c - a) + (bc - ab)) - ((c - b) + (ac - ab)) == (b - a) + (bc - ac),
{
    let x = (c - b) + (ac - ab);
    let y = (b - a) + (bc - ac);
    // The difference and what is taken away make the whole.
    lemma_pairs(b - a, bc - ac, c - b, ac - ab);
    lemma_undo(b, a);
    lemma_undo(c, b);
    lemma_undo(bc, ac);
    lemma_undo(ac, ab);
    lemma_orders(c - b, b - a, a);
    lemma_orders(bc - ac, ac - ab, ab);
    let u = (c - b) + (b - a);
    lemma_orders(c - b, b - a, a);
    assert(u + a == c);
    lemma_undo(u, a);
    let v = (bc - ac) + (ac - ab);
    assert(v + ab == bc);
    lemma_undo(v, ab);
    lemma_orders(b - a, c - b, a);
    assert(y + x == (c - a) + (bc - ab));
    lemma_undo(y, x);
}

/// What each source gives to hand `h`.
pub open spec fn source_parts<T: Scalar>(
    bank: &ZoneBank<T>,
    book: &ZoneBook,
    o: int,
    sources: Seq<(int, int, T)>,
    h: int,
) -> spec_fn(int) -> T {
    |k: int| sources[k].2 * kept_row(bank, book, o, sources[k].0, sources[k].1)[h]
}

/// Where numbers are exact, a blend is the sum of all sources, each times its weight.
pub proof fn law_a_blend_has_all_its_sources<T: Scalar>(
    bank: &ZoneBank<T>,
    book: &ZoneBook,
    o: int,
    sources: Seq<(int, int, T)>,
    h: int,
    n: nat,
)
    requires
        0 <= h < bank.width,
    ensures
        blend(bank, book, o, sources, n).len() == bank.width,
        blend(bank, book, o, sources, n)[h] == sum_upto(
            source_parts(bank, book, o, sources, h),
            n,
        ),
    decreases n,
{
    if n > 0 {
        law_a_blend_has_all_its_sources(bank, book, o, sources, h, (n - 1) as nat);
    }
}

/// Sources that agree are blended to what they agree on, if their weights add up to one.
pub proof fn law_a_blend_of_equals_is_the_same<T: Scalar>(
    bank: &ZoneBank<T>,
    book: &ZoneBook,
    o: int,
    sources: Seq<(int, int, T)>,
    h: int,
    x: T,
)
    requires
        is_exact::<T>(),
        0 <= h < bank.width,
        sum_upto(|k: int| sources[k].2, sources.len()) == T::s_one(),
        forall|k: int|
            0 <= k < sources.len() ==> kept_row(
                bank,
                book,
                o,
                (#[trigger] sources[k]).0,
                sources[k].1,
            )[h] == x,
    ensures
        blend(bank, book, o, sources, sources.len())[h] == x,
{
    let n = sources.len();
    let f = source_parts(bank, book, o, sources, h);
    let g = |k: int| sources[k].2;
    law_a_blend_has_all_its_sources(bank, book, o, sources, h, n);
    assert forall|k: int| 0 <= k < n implies #[trigger] f(k) == x * g(k) by {
        let s = sources[k];
        assert(kept_row(bank, book, o, s.0, s.1)[h] == x);
        lemma_orders(s.2, x, x);
    }
    lemma_sum_times(x, g, f, n);
    lemma_units(x);
}

} // verus!
