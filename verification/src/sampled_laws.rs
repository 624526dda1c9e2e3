//! What sampled walks write and play, entry by entry.
use vstd::prelude::*;

use crate::best_response::entries;
use crate::even_pots::lemma_into_quotient;
use crate::exact::{
    is_exact, lemma_orders, lemma_spread_difference, lemma_sum_add, lemma_sum_times, lemma_undo,
    lemma_units, Exact,
};
use crate::exploit_laws::quotients_return;
use crate::gain_laws::lemma_same_shift;
use crate::grid::lemma_grid;
use crate::layout::at;
use crate::mccfr::{heat, heats, logit, share_or, CpuMccfr, Ledger};
use crate::mccfr_steps::{
    added, added_discounted, added_scaled, averaged, gains, plays, stacked, weighted,
};
use crate::response_laws::{has_quotients, is_rational, lemma_quotient_of_sum};
use crate::scalar::{s_regret_floor, sum_upto, Scalar};

verus! {

impl<T: Scalar> CpuMccfr<T> {
    /// A decision that learned adds to each regret the weight times what the action is worth
    /// more than the node, down to the floor, and to each cumulative entry the weight times
    /// the owner's reach times what is played; with a quantal response it also adds what it
    /// saw. No other entry changes.
    pub proof fn law_a_decision_adds_what_it_learns(
        &self,
        l: Ledger<T>,
        i: int,
        weight: T,
        mine: Seq<T>,
        s: Seq<T>,
        vs: Seq<Seq<T>>,
        avg: Seq<T>,
        a: int,
        h: int,
    )
        requires
            0 <= self.offset(i),
            0 <= a < vs.len(),
            0 <= h < mine.len(),
            self.offset(i) + vs.len() * mine.len() <= l.regrets.len(),
            self.offset(i) + vs.len() * mine.len() <= l.cum.len(),
            self.offset(i) + vs.len() * mine.len() <= l.seen.len(),
        ensures
            ({
                let x = self.offset(i) + at(mine.len() as int, a, h);
                let after = self.learned(l, i, weight, mine, s, vs, avg);
                let r = l.regrets[x] + weight * (vs[a][h] - avg[h]);
                &&& !r.s_below(s_regret_floor::<T>()) ==> after.regrets[x] == r
                &&& r.s_below(s_regret_floor::<T>()) ==> after.regrets[x] == s_regret_floor::<T>()
                &&& after.cum[x] == l.cum[x] + weight * mine[h] * s[at(mine.len() as int, a, h)]
                &&& self.lambda is Some ==> after.seen[x] == l.seen[x] + vs[a][h]
                &&& self.lambda is None ==> after.seen == l.seen
            }),
            forall|x: int|
                0 <= x < l.regrets.len() && !(self.offset(i) <= x < self.offset(i) + vs.len()
                    * mine.len()) ==> #[trigger] self.learned(
                    l,
                    i,
                    weight,
                    mine,
                    s,
                    vs,
                    avg,
                ).regrets[x] == l.regrets[x],
    {
        let nh = mine.len() as int;
        let na = vs.len() as int;
        let off = self.offset(i);
        let e = at(nh, a, h);
        let f = |a: int, h: int| weight.s_times(vs[a][h].s_minus(avg[h]));
        let g = |a: int, h: int|
            weight.s_times(mine[h]).s_times(s[at(mine.len() as int, a, h)]);
        let k = |a: int, h: int| vs[a][h];
        lemma_grid(na, nh, f, a, h);
        lemma_grid(na, nh, g, a, h);
        lemma_grid(na, nh, k, a, h);
        assert(gains(weight, nh, vs, avg)[e] == f(a, h));
        assert(plays(weight, na, mine, s)[e] == g(a, h));
        assert(stacked(nh, vs)[e] == k(a, h));
        assert(gains(weight, nh, vs, avg).len() == na * nh);
    }
}

/// Discounted adding keeps the old entry by its factor and adds the new value, down to the
/// floor.
pub proof fn law_discounted_adding_remembers<T: Scalar>(
    buf: Seq<T>,
    other: Seq<T>,
    from: int,
    vals: Seq<T>,
    pos: T,
    neg: T,
    x: int,
)
    requires
        is_exact::<T>(),
        0 <= from,
        0 <= x < vals.len(),
        from + vals.len() <= buf.len(),
        from + vals.len() <= other.len(),
        T::s_zero().s_below(buf[from + x]),
        T::s_zero().s_below(other[from + x]),
        added_discounted(buf, from, vals, pos, neg)[from + x] != s_regret_floor::<T>(),
        added_discounted(other, from, vals, pos, neg)[from + x] != s_regret_floor::<T>(),
    ensures
        added_discounted(buf, from, vals, pos, neg)[from + x] == buf[from + x] * pos + vals[x],
        added_discounted(buf, from, vals, pos, neg)[from + x] - added_discounted(
            other,
            from,
            vals,
            pos,
            neg,
        )[from + x] == (buf[from + x] - other[from + x]) * pos,
{
    let (r, s) = (buf[from + x], other[from + x]);
    lemma_same_shift(r * pos, s * pos, vals[x]);
    lemma_spread_difference(pos, r, s);
}

/// A strategy's entries that are kept by a factor and added to.
pub proof fn law_scaled_adding_remembers<T: Scalar>(
    buf: Seq<T>,
    from: int,
    vals: Seq<T>,
    kept: T,
    x: int,
)
    requires
        0 <= from,
        0 <= x < vals.len(),
        from + vals.len() <= buf.len(),
    ensures
        added_scaled(buf, from, vals, kept)[from + x] == buf[from + x] * kept + vals[x],
        added(buf, from, vals)[from + x] == buf[from + x] + vals[x],
{
}

/// What a node's actions gain over their mix with hand `h`, each times its probability.
pub open spec fn mixed_gains<T: Scalar>(s: Seq<T>, nh: int, vs: Seq<Seq<T>>, h: int) -> spec_fn(
    int,
) -> T {
    |a: int| s[at(nh, a, h)] * (vs[a][h] - averaged(true, s, nh, vs)[h])
}

/// The probabilities of hand `h`, by action.
pub open spec fn chances_of<T>(s: Seq<T>, nh: int, h: int) -> spec_fn(int) -> T {
    |a: int| s[at(nh, a, h)]
}

/// Where numbers are exact and a hand's probabilities add up to one, what the actions gain
/// over their mix, each times its probability, adds up to nothing.
pub proof fn law_mixed_gains_cancel_out<T: Scalar>(s: Seq<T>, nh: int, vs: Seq<Seq<T>>, h: int)
    requires
        is_exact::<T>(),
        0 <= h < nh,
        sum_upto(chances_of(s, nh, h), vs.len()) == T::s_one(),
    ensures
        sum_upto(mixed_gains(s, nh, vs, h), vs.len()) == T::s_zero(),
{
    let n = vs.len();
    let x = averaged(true, s, nh, vs)[h];
    let p = chances_of(s, nh, h);
    let f = weighted(s, nh, vs, h);
    let g = mixed_gains(s, nh, vs, h);
    let k = |a: int| x * p(a);
    assert forall|a: int| 0 <= a < n implies #[trigger] f(a) == g(a) + k(a) by {
        lemma_spread_difference(p(a), vs[a][h], x);
        lemma_undo(p(a) * vs[a][h], p(a) * x);
        lemma_orders(p(a), x, x);
    }
    lemma_sum_add(g, k, f, n);
    lemma_sum_times(x, p, k, n);
    lemma_units(x);
    lemma_undo(sum_upto(g, n), x);
    lemma_undo(T::s_zero(), x);
}

/// The quantal responses of hand `h`, by action.
pub open spec fn quantal<T: Scalar>(
    seen: Seq<T>,
    nh: int,
    na: int,
    lambda: T,
    denom: T,
    h: int,
) -> spec_fn(int) -> T {
    |a: int| logit(seen, nh, na, lambda, denom, a, h)
}

/// Quantal responses add up to one and are in proportion to the actions' weights, where
/// these have a positive sum.
pub proof fn law_quantal_responses_add_up<T: Scalar>(
    seen: Seq<T>,
    nh: int,
    na: int,
    lambda: T,
    denom: T,
    h: int,
    a: int,
)
    requires
        is_rational::<T>(),
        quotients_return::<T>(),
        0 <= a < na,
        T::s_zero().s_below(sum_upto(heats(seen, nh, na, lambda, denom, h), na as nat)),
    ensures
        sum_upto(quantal(seen, nh, na, lambda, denom, h), na as nat) == T::s_one(),
        logit(seen, nh, na, lambda, denom, a, h) * sum_upto(
            heats(seen, nh, na, lambda, denom, h),
            na as nat,
        ) == heat(seen, nh, na, lambda, denom, a, h),
{
    let f = heats(seen, nh, na, lambda, denom, h);
    let z = sum_upto(f, na as nat);
    lemma_quotient_of_sum(f, quantal(seen, nh, na, lambda, denom, h), z, na as nat);
    assert(z.s_over(z) == T::s_one()) by {
        reveal(has_quotients);
    }
    lemma_into_quotient(z, heat(seen, nh, na, lambda, denom, a, h), z);
}

/// The average strategy of hand `h`, by action.
pub open spec fn shares_from<T: Scalar>(
    cum: Seq<T>,
    from: int,
    nh: int,
    na: int,
    other: Seq<T>,
    h: int,
) -> spec_fn(int) -> T {
    |a: int| share_or(cum, from, nh, na, other, a, h)
}

/// Average strategies add up to one and are in proportion to what was accumulated, where
/// that is positive.
pub proof fn law_average_strategies_add_up<T: Scalar>(
    cum: Seq<T>,
    from: int,
    nh: int,
    na: int,
    other: Seq<T>,
    h: int,
    a: int,
)
    requires
        is_rational::<T>(),
        quotients_return::<T>(),
        0 <= a < na,
        T::s_zero().s_below(sum_upto(entries(cum, from, nh, h), na as nat)),
    ensures
        sum_upto(shares_from(cum, from, nh, na, other, h), na as nat) == T::s_one(),
        share_or(cum, from, nh, na, other, a, h) * sum_upto(entries(cum, from, nh, h), na as nat)
            == cum[from + at(nh, a, h)],
{
    let f = entries(cum, from, nh, h);
    let z = sum_upto(f, na as nat);
    lemma_quotient_of_sum(f, shares_from(cum, from, nh, na, other, h), z, na as nat);
    assert(z.s_over(z) == T::s_one()) by {
        reveal(has_quotients);
    }
    lemma_into_quotient(z, cum[from + at(nh, a, h)], z);
}

} // verus!
