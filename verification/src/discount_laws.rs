//! What an iteration keeps of what was learned before it.
use vstd::prelude::*;

use crate::even_pots::{lemma_into_quotient, lemma_one};
use crate::exact::{lemma_spread, lemma_units, Exact};
use crate::exploit_laws::quotients_return;
use crate::flop_response_laws::lemma_counts_add;
use crate::learn::{discounts, power_of_four};
use crate::response_laws::{has_quotients, is_rational};
use crate::scalar::{Scalar, Widen};

verus! {

/// The first iteration keeps no positive regret, and the strategy is forgotten at every
/// power of four.
pub proof fn law_some_iterations_start_anew<T: Widen>(t: int)
    requires
        is_rational::<T::Wide>(),
        T::s_narrow(T::Wide::s_zero()) == T::s_zero(),
    ensures
        t <= 1 ==> discounts::<T>(t).0 == T::s_zero(),
        0 <= t && t == power_of_four(t as nat) ==> discounts::<T>(t).2 == T::s_zero(),
{
    let (zero, one) = (T::Wide::s_zero(), T::Wide::s_one());
    lemma_one::<T::Wide>();
    lemma_units(zero);
    lemma_units(one);
    lemma_units(zero.s_root());
    assert(T::Wide::s_zero().s_below(T::Wide::s_of(1))) by {
        reveal(has_quotients);
    }
    assert(zero.s_over(one) == zero) by {
        reveal(has_quotients);
    }
}

/// Negative regret keeps a half.
pub proof fn law_negative_regret_keeps_a_half<T: Widen>(t: int)
    requires
        is_rational::<T>(),
        quotients_return::<T>(),
    ensures
        discounts::<T>(t).1 + discounts::<T>(t).1 == T::s_one(),
{
    let two = T::s_of(2);
    let half = T::s_one().s_over(two);
    assert(T::s_zero().s_below(two)) by {
        reveal(has_quotients);
    }
    lemma_counts_add::<T>(1, 1);
    lemma_one::<T>();
    lemma_into_quotient(two, T::s_one(), two);
    lemma_spread(half, T::s_one(), T::s_one());
    lemma_units(half);
}

/// The part of positive regret that iteration `t` keeps is to what it drops as the three
/// halves power of `t - 1` to one; of the strategy it keeps the cube of a part that is to
/// the rest as the iterations since the last power of four to one.
pub proof fn law_kept_parts<T: Widen>(t: int) -> (kept: (T::Wide, T::Wide))
    requires
        is_rational::<T::Wide>(),
        quotients_return::<T::Wide>(),
        1 <= t <= i32::MAX,
        ({
            let n = T::Wide::s_of(t - 1);
            let s = T::Wide::s_of(t - power_of_four(t as nat));
            &&& T::Wide::s_zero().s_below(n * n.s_root() + T::Wide::s_one())
            &&& T::Wide::s_zero().s_below(s + T::Wide::s_one())
        }),
    ensures
        ({
            let n = T::Wide::s_of(t - 1);
            let s = T::Wide::s_of(t - power_of_four(t as nat));
            let one = T::Wide::s_one();
            &&& discounts::<T>(t).0 == T::s_narrow(kept.0)
            &&& kept.0 * (n * n.s_root() + one) == n * n.s_root()
            &&& discounts::<T>(t).2 == T::s_narrow(kept.1 * kept.1 * kept.1)
            &&& kept.1 * (s + one) == s
        }),
{
    let n = T::Wide::s_of(t - 1);
    let s = T::Wide::s_of(t - power_of_four(t as nat));
    let one = T::Wide::s_one();
    let x = n * n.s_root();
    lemma_into_quotient(one, x, x + one);
    lemma_into_quotient(one, s, s + one);
    (x.s_over(x + one), s.s_over(s + one))
}

/// Four, multiplied by itself `k` times.
pub open spec fn four_to(k: nat) -> nat
    decreases k,
{
    if k == 0 {
        1
    } else {
        4 * four_to((k - 1) as nat)
    }
}

/// The clock of the strategy starts at the largest power of four that is not over the
/// iteration.
pub proof fn law_the_clock_starts_at_a_power_of_four(n: nat) -> (k: nat)
    requires
        n > 0,
    ensures
        power_of_four(n) == four_to(k),
        power_of_four(n) <= n < 4 * power_of_four(n),
    decreases n,
{
    if n < 4 {
        0
    } else {
        let k = law_the_clock_starts_at_a_power_of_four(n / 4);
        assert(four_to(k + 1) == 4 * four_to(k));
        k + 1
    }
}

} // verus!
