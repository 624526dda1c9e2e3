//! Showdowns between buckets that can stand to each other in one way only.
use vstd::prelude::*;

use crate::bucketed_showdown::{
    is_zero, share_by_ties, tie_step, Field, Odds, REL_FOLDED, REL_LOSE, REL_TIE, REL_WIN, Stakes,
};
use crate::buckets::has_units;
use crate::layout::at;
use crate::scalar::Scalar;
use crate::showdown_laws::beaten_upto;

verus! {

/// Zero and one are neutral on either side and are told apart, and ones added up are
/// neither.
pub open spec fn has_sure_odds<T: Scalar>() -> bool {
    let (zero, one) = (T::s_zero(), T::s_one());
    &&& has_units::<T>()
    &&& forall|x: T| #[trigger] x.s_plus(T::s_zero()) == x
    &&& forall|x: T| #[trigger] x.s_times(T::s_one()) == x
    &&& is_zero(zero)
    &&& !is_zero(one)
    &&& one.s_plus(one) != zero
    &&& one.s_plus(one) != one
    &&& one.s_plus(one).s_plus(one) != zero
    &&& one.s_plus(one).s_plus(one) != one
}

/// Zero or one.
pub open spec fn is_bit<T: Scalar>(x: T) -> bool {
    x == T::s_zero() || x == T::s_one()
}

/// The odds of an opponent who stands to the traverser as `rel` says.
pub open spec fn is_sure<T: Scalar>(o: Odds<T>, rel: u8) -> bool {
    let (zero, one) = (T::s_zero(), T::s_one());
    ||| rel == REL_FOLDED && o.compat == one
    ||| rel == REL_WIN && o.win == one && o.tie == zero && o.lose == zero
    ||| rel == REL_TIE && o.win == zero && o.tie == one && o.lose == zero
    ||| rel == REL_LOSE && o.win == zero && o.tie == zero && o.lose == one
}

/// All opponents stand to the traverser as `rel` says; those who folded, and no others,
/// as having folded.
pub open spec fn are_sure<T: Scalar>(st: &Stakes<T>, sc: Seq<Odds<T>>, rel: Seq<u8>) -> bool {
    &&& sc.len() == rel.len()
    &&& forall|oi: int|
        0 <= oi < rel.len() ==> is_sure(sc[oi], #[trigger] rel[oi]) && (st.opp_folded(oi) <==> rel[oi]
            == REL_FOLDED)
}

/// Nothing but a one at place `k`; nothing at all for no place.
pub open spec fn is_only<T: Scalar>(d: Seq<T>, k: Option<int>) -> bool {
    forall|j: int|
        0 <= j < d.len() ==> #[trigger] d[j] == if k == Some(j) {
            T::s_one()
        } else {
            T::s_zero()
        }
}

proof fn lemma_sure_mass<T: Scalar>(st: &Stakes<T>, sc: Seq<Odds<T>>, rel: Seq<u8>, lev: int, n: nat)
    requires
        has_sure_odds::<T>(),
        are_sure(st, sc, rel),
        n <= rel.len(),
    ensures
        st.mass(sc, n) == T::s_one(),
        st.outside(lev, sc, n) == T::s_one(),
    decreases n,
{
    if n > 0 {
        lemma_sure_mass(st, sc, rel, lev, (n - 1) as nat);
        assert(is_sure(sc[n - 1], rel[n - 1]));
        let o = sc[n - 1];
        let (zero, one) = (T::s_zero(), T::s_one());
        assert(zero.s_plus(zero) == zero && zero.s_plus(one) == one && one.s_plus(zero) == one);
        assert(one.s_times(one) == one);
    }
}

/// The traverser is tied with the opponents before `n` that tie, or behind.
proof fn lemma_sure_ties<T: Scalar>(st: &Stakes<T>, lev: int, sc: Seq<Odds<T>>, rel: Seq<u8>, n: nat)
    requires
        has_sure_odds::<T>(),
        are_sure(st, sc, rel),
        n <= rel.len(),
    ensures
        1 <= st.tied(lev, rel, n) <= st.tie_odds(lev, sc, n).len(),
        is_only(
            st.tie_odds(lev, sc, n),
            if beaten_upto(st, lev, rel, n) {
                None
            } else {
                Some(st.tied(lev, rel, n) - 1)
            },
        ),
    decreases n,
{
    let (zero, one) = (T::s_zero(), T::s_one());
    if n > 0 {
        let m = (n - 1) as nat;
        lemma_sure_ties(st, lev, sc, rel, m);
        let d = st.tie_odds(lev, sc, m);
        let o = sc[n - 1];
        let x = rel[n - 1];
        assert(is_sure(o, x) && (st.opp_folded(n - 1) <==> x == REL_FOLDED));
        let was = beaten_upto(st, lev, rel, m);
        let now = beaten_upto(st, lev, rel, n);
        assert(now == (was || st.opp_in(lev, n - 1) && x == REL_LOSE)) by {
            if was {
                let oi = choose|oi: int|
                    0 <= oi < m && #[trigger] st.opp_in(lev, oi) && rel[oi] == REL_LOSE;
                assert(st.opp_in(lev, oi));
            }
            if st.opp_in(lev, n - 1) && x == REL_LOSE {
                assert(st.opp_in(lev, n - 1));
            }
        }
        if st.opp_in(lev, n - 1) {
            let e = tie_step(d, o.win, o.tie);
            assert(one.s_times(one) == one && zero.s_plus(one) == one);
            let k = if now {
                None
            } else {
                Some(st.tied(lev, rel, n) - 1)
            };
            assert forall|j: int| 0 <= j < e.len() implies #[trigger] e[j] == if k == Some(j) {
                one
            } else {
                zero
            } by {
                if j < d.len() {
                    assert(d[j] == d[j]);
                }
                if j > 0 {
                    assert(d[j - 1] == d[j - 1]);
                }
            }
        }
    }
}

/// A level's shares are those of the one tie count.
proof fn lemma_sure_share<T: Scalar>(acc: T, d: Seq<T>, k: Option<int>, pot: T, n: nat)
    requires
        has_sure_odds::<T>(),
        is_only(d, k),
        n <= d.len(),
    ensures
        share_by_ties(acc, T::s_one(), d, pot, n) == match k {
            Some(j) => if 0 <= j < n {
                acc.s_plus(pot.s_over(T::s_of(j + 1)))
            } else {
                acc
            },
            None => acc,
        },
    decreases n,
{
    if n > 0 {
        lemma_sure_share(acc, d, k, pot, (n - 1) as nat);
        let one = T::s_one();
        let x = pot.s_over(T::s_of(n as int));
        assert(d[n - 1] == d[n - 1]);
        assert(one.s_times(one) == one && one.s_times(x) == x);
    }
}

proof fn lemma_sure_cash<T: Scalar>(st: &Stakes<T>, sc: Seq<Odds<T>>, rel: Seq<u8>, n: nat)
    requires
        has_sure_odds::<T>(),
        are_sure(st, sc, rel),
        rel.len() == st.num_opp(),
        n <= st.levels().len(),
    ensures
        st.cash_expected(sc, n) == st.cash(rel, n),
    decreases n,
{
    if n > 0 {
        lemma_sure_cash(st, sc, rel, (n - 1) as nat);
        let li: int = n - 1;
        let lev = st.levels()[li];
        let all = st.num_opp() as nat;
        lemma_sure_mass(st, sc, rel, lev, all);
        lemma_sure_ties(st, lev, sc, rel, all);
        let refund = st.refund(li);
        assert(refund.s_times(T::s_one()) == refund);
        let d = st.tie_odds(lev, sc, all);
        let k = if beaten_upto(st, lev, rel, all) {
            None
        } else {
            Some(st.tied(lev, rel, all) - 1)
        };
        assert(st.is_beaten(lev, rel) == beaten_upto(st, lev, rel, all));
        lemma_sure_share(st.cash_expected(sc, (n - 1) as nat), d, k, st.net_pot(li), d.len());
    }
}

/// Where it is sure how the opponents stand, the average is what they then pay.
proof fn lemma_sure_net<T: Scalar>(st: &Stakes<T>, sc: Seq<Odds<T>>, rel: Seq<u8>)
    requires
        has_sure_odds::<T>(),
        are_sure(st, sc, rel),
        rel.len() == st.num_opp(),
    ensures
        st.net_expected(sc) == st.net(rel),
{
    lemma_sure_cash(st, sc, rel, st.levels().len());
    lemma_sure_mass(st, sc, rel, 0, rel.len());
    let stake = st.stake();
    assert(stake.s_times(T::s_one()) == stake);
}

impl<T: Scalar> Field<T> {
    /// Every fraction of the traverser's bucket is zero or one, and that of sharing no card
    /// is the sum of the other three.
    pub open spec fn has_bits(&self) -> bool {
        forall|bo: int|
            0 <= bo < self.nb ==> {
                let i = #[trigger] at(self.nb, self.bt, bo);
                &&& is_bit(self.win[i])
                &&& is_bit(self.tie[i])
                &&& is_bit(self.lose[i])
                &&& is_bit(self.compat[i])
                &&& self.compat[i] == self.win[i].s_plus(self.tie[i]).s_plus(self.lose[i])
            }
    }

    proof fn lemma_bits_all(
        &self,
        st: &Stakes<T>,
        weight: T,
        prefix: Seq<usize>,
        sc: Seq<Odds<T>>,
        rel: Seq<u8>,
        acc: T,
    )
        requires
            has_sure_odds::<T>(),
            self.has_bits(),
            self.num_opp() == st.num_opp(),
            0 <= self.nb,
            prefix.len() == rel.len() <= self.num_opp(),
            are_sure(st, sc, rel),
        ensures
            self.tuples_all(st, weight, prefix, sc, acc) == self.levels_all(
                st,
                weight,
                prefix,
                rel,
                acc,
            ),
        decreases self.num_opp() - prefix.len(), self.nb + 1,
    {
        if prefix.len() >= self.num_opp() {
            lemma_sure_net(st, sc, rel);
        } else {
            self.lemma_bits_upto(st, weight, prefix, sc, rel, acc, self.nb);
        }
    }

    proof fn lemma_bits_upto(
        &self,
        st: &Stakes<T>,
        weight: T,
        prefix: Seq<usize>,
        sc: Seq<Odds<T>>,
        rel: Seq<u8>,
        acc: T,
        n: int,
    )
        requires
            has_sure_odds::<T>(),
            self.has_bits(),
            self.num_opp() == st.num_opp(),
            0 <= n <= self.nb,
            prefix.len() == rel.len() < self.num_opp(),
            are_sure(st, sc, rel),
        ensures
            self.tuples_upto(st, weight, prefix, sc, acc, n) == self.levels_upto(
                st,
                weight,
                prefix,
                rel,
                acc,
                n,
            ),
        decreases self.num_opp() - prefix.len(), n,
    {
        if n > 0 {
            self.lemma_bits_upto(st, weight, prefix, sc, rel, acc, n - 1);
            let prev = self.tuples_upto(st, weight, prefix, sc, acc, n - 1);
            let i = at(self.nb, self.bt, n - 1);
            let longer = prefix.push((n - 1) as usize);
            let folded = st.opp_folded(prefix.len() as int);
            let (zero, one) = (T::s_zero(), T::s_one());
            assert(zero.s_plus(zero) == zero && zero.s_plus(one) == one && one.s_plus(zero) == one);
            if let Some(base) = self.joint(prefix, n - 1, Some(weight)) {
                assert(base.s_times(one) == base);
                if let Some(o) = self.odds(folded, n - 1) {
                    let x = if folded {
                        REL_FOLDED
                    } else if self.win[i] == one {
                        REL_WIN
                    } else if self.tie[i] == one {
                        REL_TIE
                    } else {
                        REL_LOSE
                    };
                    let (sc2, rel2) = (sc.push(o), rel.push(x));
                    assert(is_sure(o, x));
                    assert forall|oi: int| 0 <= oi < rel2.len() implies is_sure(
                        sc2[oi],
                        #[trigger] rel2[oi],
                    ) && (st.opp_folded(oi) <==> rel2[oi] == REL_FOLDED) by {
                        if oi < rel.len() {
                            assert(is_sure(sc[oi], rel[oi]));
                        }
                    }
                    self.lemma_bits_all(st, base, longer, sc2, rel2, prev);
                }
            }
        }
    }

    /// Where every fraction is zero or one, averaging over relations computes the very same:
    /// every pair of buckets stands in one relation at most, and both ways multiply by ones
    /// and pass over the same zeros.
    pub proof fn law_bits_collapse_to_the_same(&self, st: &Stakes<T>)
        requires
            has_sure_odds::<T>(),
            self.has_bits(),
            self.num_opp() == st.num_opp(),
            0 <= self.nb,
        ensures
            self.collapsed_value(st) == self.value(st),
    {
        if !st.is_even() {
            self.lemma_bits_all(
                st,
                T::s_one(),
                Seq::empty(),
                Seq::empty(),
                Seq::empty(),
                T::s_zero(),
            );
        }
    }
}

} // verus!
