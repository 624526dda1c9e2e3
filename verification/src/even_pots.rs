//! How an even pot is split.
use vstd::prelude::*;

use crate::bucketed_showdown::{capped, sum_of, unit_net, Field, REL_FOLDED, Stakes};
use crate::exact::{
    lemma_differences, lemma_orders, lemma_spread, lemma_spread_difference, lemma_undo, lemma_units,
    Exact,
};
use crate::exploit_laws::quotients_return;
use crate::flop_response_laws::lemma_counts_add;
use crate::known_showdowns::{loses_to_one, tells_zero, ties_of};
use crate::rake_laws::{has_order, law_the_cap_limits};
use crate::response_laws::{has_quotients, is_rational};
use crate::scalar::Scalar;
use crate::terminal::opponent;

verus! {

/// Counts multiply.
pub(crate) proof fn lemma_counts_times<T: Scalar>(m: int, n: int)
    requires
        is_rational::<T>(),
        0 <= m,
        0 <= n,
    ensures
        T::s_of(m * n) == T::s_of(m) * T::s_of(n),
    decreases n,
{
    let x = T::s_of(m);
    if n == 0 {
        assert(T::s_of(0) == T::s_zero()) by {
            reveal(has_quotients);
        }
        assert(m * n == 0) by (nonlinear_arith)
            requires
                n == 0,
        ;
        lemma_units(x);
    } else {
        lemma_counts_times::<T>(m, n - 1);
        assert(m * n == m * (n - 1) + m && 0 <= m * (n - 1)) by (nonlinear_arith)
            requires
                0 <= m,
                1 <= n,
        ;
        lemma_counts_add::<T>(m * (n - 1), m);
        lemma_counts_add::<T>(n - 1, 1);
        lemma_one::<T>();
        lemma_spread(x, T::s_of(n - 1), T::s_one());
        lemma_units(x);
    }
}

/// One, counted, is one.
pub(crate) proof fn lemma_one<T: Scalar>()
    requires
        is_rational::<T>(),
    ensures
        T::s_of(1) == T::s_one(),
        T::s_of(0) == T::s_zero(),
{
    assert(T::s_of(0) == T::s_zero() && T::s_of(0int + 1int) == T::s_of(0).s_plus(T::s_one())) by {
        reveal(has_quotients);
    }
    lemma_units(T::s_one());
}

/// A factor goes into a quotient.
pub(crate) proof fn lemma_into_quotient<T: Scalar>(c: T, x: T, t: T)
    requires
        is_rational::<T>(),
        quotients_return::<T>(),
        T::s_zero().s_below(t),
    ensures
        c * x.s_over(t) == (c * x).s_over(t),
        x.s_over(t) * t == x,
        (x * t).s_over(t) == x,
{
    let q = x.s_over(t);
    assert(q.s_times(t) == x && c.s_times(q).s_times(t).s_over(t) == c.s_times(q)
        && x.s_times(t).s_over(t) == x) by {
        reveal(quotients_return);
    }
    lemma_orders(c, q, t);
}

/// A quotient of a difference is the difference of the quotients.
pub(crate) proof fn lemma_quotient_of_difference<T: Scalar>(x: T, y: T, t: T)
    requires
        is_rational::<T>(),
        T::s_zero().s_below(t),
    ensures
        (x - y).s_over(t) == x.s_over(t) - y.s_over(t),
{
    let d = x - y;
    assert(d.s_plus(y).s_over(t) == d.s_over(t).s_plus(y.s_over(t))) by {
        reveal(has_quotients);
    }
    lemma_undo(x, y);
    lemma_undo(d.s_over(t), y.s_over(t));
}

proof fn lemma_even_sum(c: Seq<int>, x: int, n: nat)
    requires
        n <= c.len(),
        forall|p: int| 0 <= p < c.len() ==> #[trigger] c[p] == x,
    ensures
        sum_of(c, n) == n * x,
    decreases n,
{
    if n > 0 {
        lemma_even_sum(c, x, (n - 1) as nat);
        assert(c[n - 1] == x);
        assert(n * x == (n - 1) * x + x) by (nonlinear_arith);
    } else {
        assert(n * x == 0) by (nonlinear_arith)
            requires
                n == 0,
        ;
    }
}

impl<T: Scalar> Stakes<T> {
    /// All chips in play.
    pub open spec fn pot(&self) -> T {
        T::s_of(self.starting_pot + sum_of(self.contributions, self.contributions.len()))
    }

    /// Stakes with chips in them, the same for every player.
    pub open spec fn is_even_pot(&self) -> bool {
        &&& self.wf()
        &&& self.is_even()
        &&& 0 <= self.starting_pot
        &&& 0 <= self.contributions[0]
        &&& T::s_zero().s_below(self.stake())
    }

    /// The pot is everybody's stake.
    proof fn lemma_pot(&self)
        requires
            is_rational::<T>(),
            quotients_return::<T>(),
            self.is_even_pot(),
        ensures
            self.pot() == T::s_of(self.np()) * self.stake(),
            self.pot() == self.rivals() * self.stake() + self.stake(),
    {
        let (np, c, sp) = (self.np(), self.contributions[0], self.starting_pot);
        let t = T::s_of(np);
        assert(T::s_zero().s_below(t)) by {
            reveal(has_quotients);
        }
        lemma_even_sum(self.contributions, c, self.contributions.len());
        assert(0 <= np * c) by (nonlinear_arith)
            requires
                0 <= np,
                0 <= c,
        ;
        lemma_counts_add::<T>(sp, np * c);
        lemma_counts_times::<T>(np, c);
        let s = self.stake();
        assert(self.contributions[self.traverser] == c);
        let q = T::s_of(sp).s_over(t);
        lemma_into_quotient(t, T::s_of(sp), t);
        lemma_orders(q, t, t);
        lemma_spread(t, q, T::s_of(c));
        lemma_counts_add::<T>(self.num_opp(), 1);
        lemma_one::<T>();
        lemma_spread(s, self.rivals(), T::s_one());
        lemma_units(s);
        lemma_orders(s, self.rivals(), s);
        lemma_orders(s, t, s);
    }

    /// What a unit of stake wins, times the stake.
    proof fn lemma_unit(&self, j: int)
        requires
            is_rational::<T>(),
            quotients_return::<T>(),
            self.is_even_pot(),
            0 <= j,
        ensures
            ({
                let rake = capped(self.pot() * self.rake_rate, self.rake_cap);
                self.stake() * unit_net(self.rivals(), self.unit_rake(), j) == (self.pot()
                    - rake).s_over(T::s_of(j + 1)) - self.stake()
            }),
    {
        let rake = capped(self.pot() * self.rake_rate, self.rake_cap);
        let (s, k, pot) = (self.stake(), self.rivals(), self.pot());
        let t = T::s_of(j + 1);
        let u = self.unit_rake();
        assert(u == rake.s_over(s));
        assert(T::s_zero().s_below(t)) by {
            reveal(has_quotients);
        }
        self.lemma_pot();
        lemma_into_quotient(s, rake, s);
        lemma_orders(s, u, s);
        assert(s * u == rake);
        if j == 0 {
            lemma_spread_difference(s, k, u);
            lemma_orders(s, k, s);
            lemma_one::<T>();
            lemma_into_quotient(T::s_one(), pot - rake, T::s_one());
            lemma_units(pot - rake);
            lemma_undo(k * s, s);
            lemma_differences(pot, s, rake);
            assert(pot - s == k * s);
            assert(pot - s - rake == pot - rake - s);
        } else {
            let n = k + T::s_one();
            let a = (n - t).s_over(t);
            let b = u.s_over(t);
            lemma_spread_difference(s, a, b);
            lemma_into_quotient(s, n - t, t);
            lemma_into_quotient(s, u, t);
            lemma_spread_difference(s, n, t);
            lemma_spread(s, k, T::s_one());
            lemma_units(s);
            lemma_orders(s, k, s);
            assert(s * n == pot);
            lemma_quotient_of_difference(pot, s * t, t);
            lemma_into_quotient(s, s, t);
            assert((s * t).s_over(t) == s);
            assert(s * a == pot.s_over(t) - s);
            assert(s * b == rake.s_over(t));
            lemma_differences(pot.s_over(t), s, rake.s_over(t));
            lemma_quotient_of_difference(pot, rake, t);
        }
    }
}

impl<T: Scalar> Field<T> {
    /// An even showdown between known buckets: a traverser who is beaten loses the stake; else
    /// the pot after rake is split with those who tie, and the stake is taken off.
    pub proof fn law_even_pot_is_split(&self, st: &Stakes<T>, held: Seq<int>, rel: Seq<u8>)
        requires
            is_rational::<T>(),
            quotients_return::<T>(),
            tells_zero::<T>(),
            T::s_of(-1) == T::s_zero() - T::s_one(),
            st.is_even_pot(),
            self.is_known(st, held, rel),
        ensures
            loses_to_one(rel, rel.len()) ==> self.value(st) == T::s_zero() - st.stake(),
            !loses_to_one(rel, rel.len()) ==> self.value(st) == (st.pot() - capped(
                st.pot() * st.rake_rate,
                st.rake_cap,
            )).s_over(T::s_of(ties_of(rel, rel.len()) as int + 1int)) - st.stake(),
    {
        assert forall|oi: int| 0 <= oi < rel.len() implies #[trigger] rel[oi] != REL_FOLDED by {
            let p = opponent(st.traverser, oi) as u16;
            assert(0u16 & (1u16 << p) == 0) by (bit_vector);
        }
        self.lemma_known_even_value(st, held, rel);
        let s = st.stake();
        lemma_spread_difference(s, T::s_zero(), T::s_one());
        lemma_units(s);
        st.lemma_unit(ties_of(rel, rel.len()) as int);
    }

    /// The winner of an uncontested even pot gets the pot, less the rate times the pot and
    /// less the stake, if the rake is not negative and the cap leaves room for it.
    pub proof fn law_the_winner_takes_the_pot(
        &self,
        st: &Stakes<T>,
        held: Seq<int>,
        rel: Seq<u8>,
    )
        requires
            is_rational::<T>(),
            quotients_return::<T>(),
            has_order::<T>(),
            tells_zero::<T>(),
            T::s_of(-1) == T::s_zero() - T::s_one(),
            st.is_even_pot(),
            self.is_known(st, held, rel),
            !loses_to_one(rel, rel.len()),
            ties_of(rel, rel.len()) == 0,
            T::s_zero().s_at_most(st.pot() * st.rake_rate),
            (st.pot() * st.rake_rate).s_at_most(st.rake_cap),
        ensures
            self.value(st) == st.pot() - st.pot() * st.rake_rate - st.stake(),
    {
        self.law_even_pot_is_split(st, held, rel);
        law_the_cap_limits(st.pot() * st.rake_rate, st.rake_cap);
        let x = st.pot() - st.pot() * st.rake_rate;
        lemma_one::<T>();
        assert(T::s_zero().s_below(T::s_of(1))) by {
            reveal(has_quotients);
        }
        lemma_into_quotient(T::s_one(), x, T::s_one());
        lemma_units(x);
    }
}

} // verus!
