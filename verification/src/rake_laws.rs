//! What the house takes.
use vstd::prelude::*;

use crate::bucketed_showdown::{capped, reaching, sum_of, Stakes};
use crate::chip_laws::lemma_all_reach;
use crate::exact::{is_exact, lemma_units, Exact};
use crate::exploit_laws::is_antisymmetric;
use crate::flop_response_laws::larger_covers;
use crate::response_laws::is_ordered;
use crate::scalar::Scalar;

verus! {

/// Numbers have an order, and the larger of two is one of them.
pub open spec fn has_order<T: Scalar>() -> bool {
    is_ordered::<T>() && larger_covers::<T>() && is_antisymmetric::<T>()
}

proof fn lemma_larger<T: Scalar>(x: T)
    requires
        has_order::<T>(),
    ensures
        T::s_zero().s_at_most(x.s_larger(T::s_zero())),
        T::s_zero().s_at_most(x) ==> x.s_larger(T::s_zero()) == x,
        x.s_at_most(T::s_zero()) ==> x.s_larger(T::s_zero()) == T::s_zero(),
{
    let zero = T::s_zero();
    let y = x.s_larger(zero);
    assert(x.s_at_most(y) && zero.s_at_most(y) && (y == x || y == zero)) by {
        reveal(larger_covers);
    }
    assert(y == zero && zero.s_at_most(x) ==> y == x) by {
        reveal(is_antisymmetric);
    }
    assert(y == x && x.s_at_most(zero) ==> y == zero) by {
        reveal(is_antisymmetric);
    }
}

/// Of two numbers one is at most the other.
pub(crate) proof fn lemma_either<T: Scalar>(x: T, y: T)
    requires
        is_ordered::<T>(),
    ensures
        x.s_at_most(y) || y.s_at_most(x),
{
    reveal(is_ordered);
    if x.s_below(y) {
        assert(x.s_at_most(y));
    }
}

/// A cap over a number that is not negative changes nothing.
pub(crate) proof fn lemma_under_cap<T: Scalar>(x: T, cap: T)
    requires
        has_order::<T>(),
        x.s_at_most(cap),
    ensures
        !cap.s_below(x),
{
    if cap.s_below(x) {
        assert(cap.s_at_most(x) && !x.s_below(x)) by {
            reveal(is_ordered);
        }
        assert(x == cap) by {
            reveal(is_antisymmetric);
        }
    }
}

/// What is taken of `x` under a cap is not negative, is at most `x` and at most the cap
/// where these are not negative, and is all of `x` where the cap leaves room for it.
/// Nothing is taken of nothing, whatever the cap.
pub proof fn law_the_cap_limits<T: Scalar>(x: T, cap: T)
    requires
        has_order::<T>(),
    ensures
        T::s_zero().s_at_most(capped(x, cap)),
        T::s_zero().s_at_most(x) ==> capped(x, cap).s_at_most(x),
        T::s_zero().s_at_most(cap) ==> capped(x, cap).s_at_most(cap),
        T::s_zero().s_at_most(x) && x.s_at_most(cap) ==> capped(x, cap) == x,
        T::s_zero().s_at_most(cap) && cap.s_at_most(x) ==> capped(x, cap) == cap,
        x.s_at_most(T::s_zero()) ==> capped(x, cap) == T::s_zero(),
{
    let zero = T::s_zero();
    lemma_larger(x);
    lemma_larger(cap);
    assert(x.s_at_most(x) && cap.s_at_most(cap) && zero.s_at_most(zero)) by {
        reveal(is_ordered);
    }
    if cap.s_below(x) {
        assert(cap.s_at_most(x)) by {
            reveal(is_ordered);
        }
        if x.s_at_most(cap) {
            lemma_under_cap(x, cap);
        }
        if x.s_at_most(zero) {
            assert(cap.s_at_most(zero)) by {
                reveal(is_ordered);
            }
        }
        if !zero.s_at_most(cap) {
            lemma_either(zero, cap);
        }
    } else {
        assert(x.s_at_most(cap)) by {
            reveal(is_ordered);
        }
        if cap.s_at_most(x) {
            assert(x == cap) by {
                reveal(is_antisymmetric);
            }
        }
        if !zero.s_at_most(x) {
            lemma_either(zero, x);
        }
    }
}

impl<T: Scalar> Stakes<T> {
    /// All chips of the first level: what every player put in up to the least
    /// contribution, and the starting pot.
    pub open spec fn raked_pot(&self) -> T {
        T::s_of(self.levels()[0] * self.np() + self.starting_pot)
    }

    /// The rake on the first level is at most the rate times its pot as well as at most the
    /// cap, and is the rate times the pot whenever the cap leaves room for it.
    pub proof fn law_main_rake_is_the_rate(&self)
        requires
            has_order::<T>(),
            self.wf(),
        ensures
            T::s_zero().s_at_most(self.main_rake()),
            T::s_zero().s_at_most(self.raked_pot() * self.rake_rate)
                ==> self.main_rake().s_at_most(self.raked_pot() * self.rake_rate),
            T::s_zero().s_at_most(self.rake_cap) ==> self.main_rake().s_at_most(self.rake_cap),
            T::s_zero().s_at_most(self.raked_pot() * self.rake_rate) && (self.raked_pot()
                * self.rake_rate).s_at_most(self.rake_cap) ==> self.main_rake() == self.raked_pot()
                * self.rake_rate,
    {
        lemma_all_reach(self);
        law_the_cap_limits(self.raked_pot() * self.rake_rate, self.rake_cap);
    }

    /// A rate of zero takes nothing, whatever the cap.
    pub proof fn law_no_rate_takes_nothing(&self)
        requires
            has_order::<T>(),
            is_exact::<T>(),
            self.rake_rate == T::s_zero(),
            forall|t: T| T::s_zero().s_below(t) ==> #[trigger] T::s_zero().s_over(t) == T::s_zero(),
        ensures
            self.main_rake() == T::s_zero(),
            self.unit_rake() == T::s_zero(),
    {
        let lev = self.levels()[0];
        let amount = lev * reaching(
            self.contributions,
            lev,
            self.contributions.len(),
        ) + self.starting_pot;
        let total = self.starting_pot + sum_of(self.contributions, self.contributions.len());
        lemma_units(T::s_of(amount));
        lemma_units(T::s_of(total));
        assert(T::s_zero().s_at_most(T::s_zero())) by {
            reveal(is_ordered);
        }
        law_the_cap_limits(T::s_of(amount) * self.rake_rate, self.rake_cap);
        law_the_cap_limits(T::s_of(total) * self.rake_rate, self.rake_cap);
    }
}

} // verus!
