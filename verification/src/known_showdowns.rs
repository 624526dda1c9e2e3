//! What a showdown pays when everybody's bucket is known.
use vstd::prelude::*;

use crate::bucketed_showdown::{
    beaten_after, even_leaf, even_step, is_zero, ties_after, unit_net, Field, REL_FOLDED, REL_LOSE,
    REL_TIE, REL_WIN, Stakes, Step,
};
use crate::cluster_laws::one_if;
use crate::exact::{is_exact, lemma_units, Exact};
use crate::layout::{at, count_upto, lemma_count_bound};
use crate::scalar::Scalar;
use crate::sure_showdowns::is_only;

verus! {

/// Zero is taken for zero, and one is not.
pub open spec fn tells_zero<T: Scalar>() -> bool {
    is_zero(T::s_zero()) && !is_zero(T::s_one())
}

/// Which opponents tie with the traverser.
pub open spec fn ties_with(rel: Seq<u8>) -> spec_fn(int) -> bool {
    |oi: int| rel[oi] == REL_TIE
}

/// One of the first `n` opponents beats the traverser.
pub open spec fn loses_to_one(rel: Seq<u8>, n: nat) -> bool {
    exists|oi: int| 0 <= oi < n && #[trigger] rel[oi] == REL_LOSE
}

/// How many of the first `n` opponents tie with the traverser.
pub open spec fn ties_of(rel: Seq<u8>, n: nat) -> nat {
    count_upto(ties_with(rel), n)
}

/// Zero for a traverser who is beaten, else one more than the ties.
spec fn place(rel: Seq<u8>, n: nat) -> int {
    if loses_to_one(rel, n) {
        0
    } else {
        (1 + ties_of(rel, n)) as int
    }
}

/// What a place pays per unit of stake.
spec fn unit_payoff<T: Scalar>(k: T, rake: T, s: int) -> T {
    if s == 0 {
        T::s_of(-1)
    } else {
        unit_net(k, rake, s - 1)
    }
}

/// The step of an opponent who stands to the traverser as `r` says.
spec fn is_step<T: Scalar>(s: Step<T>, r: u8) -> bool {
    &&& s.compat == T::s_one()
    &&& s.lose == one_if::<T>(r == REL_LOSE)
    &&& s.tie == one_if::<T>(r == REL_TIE)
    &&& s.win == one_if::<T>(r == REL_WIN)
    &&& s.lose_counts == (r == REL_LOSE)
    &&& s.tie_counts == (r == REL_TIE)
    &&& s.win_counts == (r == REL_WIN)
    &&& r == REL_LOSE || r == REL_TIE || r == REL_WIN
}

proof fn lemma_bits<T: Scalar>()
    requires
        is_exact::<T>(),
    ensures
        T::s_one() * T::s_one() == T::s_one(),
        T::s_zero() * T::s_one() == T::s_zero(),
        T::s_one() * T::s_zero() == T::s_zero(),
        T::s_zero() + T::s_one() == T::s_one(),
        T::s_zero() + T::s_zero() == T::s_zero(),
        T::s_one() + T::s_zero() == T::s_one(),
{
    lemma_units(T::s_one());
    lemma_units(T::s_zero());
}

proof fn lemma_beaten<T: Scalar>(state: Seq<T>, s: Step<T>, r: u8, x: int, k: nat)
    requires
        is_exact::<T>(),
        tells_zero::<T>(),
        is_only(state, Some(x)),
        0 <= x < state.len(),
        k < state.len(),
        is_step(s, r),
    ensures
        beaten_after(state, s.compat, s.lose, s.lose_counts, k) == one_if::<T>(
            x == 0 || r == REL_LOSE && x <= k,
        ),
    decreases k,
{
    lemma_bits::<T>();
    assert(state[k as int] == if x == k {
        T::s_one()
    } else {
        T::s_zero()
    });
    if k > 0 {
        lemma_beaten(state, s, r, x, (k - 1) as nat);
        assert(state[0] == if x == 0 {
            T::s_one()
        } else {
            T::s_zero()
        });
    }
}

proof fn lemma_step<T: Scalar>(state: Seq<T>, s: Step<T>, r: u8, x: int)
    requires
        is_exact::<T>(),
        tells_zero::<T>(),
        is_only(state, Some(x)),
        0 <= x < state.len(),
        is_step(s, r),
    ensures
        even_step(state, s).len() == state.len() + 1,
        is_only(
            even_step(state, s),
            Some(
                if x == 0 || r == REL_LOSE {
                    0int
                } else if r == REL_TIE {
                    x + 1
                } else {
                    x
                },
            ),
        ),
{
    let n = state.len();
    let y: int = if x == 0 || r == REL_LOSE {
        0
    } else if r == REL_TIE {
        x + 1
    } else {
        x
    };
    lemma_beaten(state, s, r, x, (n - 1) as nat);
    lemma_bits::<T>();
    let out = even_step(state, s);
    assert(out.len() == n + 1);
    assert forall|j: int| 0 <= j < out.len() implies #[trigger] out[j] == if Some(y) == Some(j) {
        T::s_one()
    } else {
        T::s_zero()
    } by {
        if j > 0 {
            let q: int = j - 1;
            assert(out[j] == ties_after(state, s.tie, s.win, s.tie_counts, s.win_counts, q));
            assert(state[q] == if x == q {
                T::s_one()
            } else {
                T::s_zero()
            });
            if q + 1 < n {
                assert(state[q + 1] == if x == q + 1 {
                    T::s_one()
                } else {
                    T::s_zero()
                });
            }
        }
    }
}

proof fn lemma_leaf<T: Scalar>(k: T, rake: T, state: Seq<T>, acc: T, x: int, n: nat)
    requires
        is_exact::<T>(),
        tells_zero::<T>(),
        is_only(state, Some(x)),
        0 <= x < state.len(),
        n < state.len(),
    ensures
        even_leaf(k, rake, state, acc, n) == if x <= n {
            acc + unit_payoff(k, rake, x)
        } else {
            acc
        },
    decreases n,
{
    lemma_bits::<T>();
    assert(state[n as int] == if x == n {
        T::s_one()
    } else {
        T::s_zero()
    });
    if n == 0 {
        lemma_units(T::s_of(-1));
    } else {
        lemma_leaf(k, rake, state, acc, x, (n - 1) as nat);
        lemma_units(unit_net(k, rake, n - 1));
    }
}

proof fn lemma_place(rel: Seq<u8>, n: nat)
    requires
        n < rel.len(),
    ensures
        place(rel, n + 1) == if place(rel, n) == 0 || rel[n as int] == REL_LOSE {
            0
        } else if rel[n as int] == REL_TIE {
            place(rel, n) + 1
        } else {
            place(rel, n)
        },
        0 <= place(rel, n) <= n + 1,
{
    lemma_count_bound(ties_with(rel), n);
    if loses_to_one(rel, n) {
        let oi = choose|oi: int| 0 <= oi < n && #[trigger] rel[oi] == REL_LOSE;
        assert(rel[oi] == REL_LOSE);
    }
    if loses_to_one(rel, n + 1) {
        let oi = choose|oi: int| 0 <= oi < n + 1 && #[trigger] rel[oi] == REL_LOSE;
        if oi < n {
            assert(loses_to_one(rel, n));
        }
    }
    if rel[n as int] == REL_LOSE {
        assert(loses_to_one(rel, n + 1));
    }
    assert(count_upto(ties_with(rel), n + 1) == count_upto(ties_with(rel), n) + if ties_with(rel)(
        n as int,
    ) {
        1nat
    } else {
        0nat
    });
}

/// The buckets of the first `m` opponents.
spec fn first_held(held: Seq<int>, m: int) -> Seq<usize> {
    Seq::new(m as nat, |oi: int| held[oi] as usize)
}

impl<T: Scalar> Field<T> {
    /// Opponent `oi` surely holds bucket `held[oi]`, no two hands share a card, and the
    /// opponents stand to the traverser as `rel` says; those who folded, and no others, as
    /// having folded.
    pub open spec fn is_known(&self, st: &Stakes<T>, held: Seq<int>, rel: Seq<u8>) -> bool {
        &&& st.wf()
        &&& self.num_opp() == st.num_opp()
        &&& held.len() == self.num_opp()
        &&& rel.len() == self.num_opp()
        &&& 0 <= self.nb <= usize::MAX
        &&& forall|oi: int| 0 <= oi < held.len() ==> 0 <= #[trigger] held[oi] < self.nb
        &&& forall|oi: int, b: int|
            0 <= oi < held.len() && 0 <= b < self.nb ==> #[trigger] self.reach[oi][b]
                == one_if::<T>(b == held[oi])
        &&& forall|oi: int, oj: int|
            0 <= oi < oj < held.len() ==> self.compat[at(
                self.nb,
                #[trigger] held[oi],
                #[trigger] held[oj],
            )] == T::s_one()
        &&& forall|oi: int|
            0 <= oi < rel.len() ==> {
                let i = at(self.nb, self.bt, held[oi]);
                let r = #[trigger] rel[oi];
                &&& self.compat[i] == T::s_one()
                &&& st.opp_folded(oi) <==> r == REL_FOLDED
                &&& r != REL_FOLDED ==> {
                    &&& r == REL_LOSE || r == REL_TIE || r == REL_WIN
                    &&& self.win[i] == one_if::<T>(r == REL_WIN)
                    &&& self.tie[i] == one_if::<T>(r == REL_TIE)
                    &&& self.lose[i] == one_if::<T>(r == REL_LOSE)
                }
            }
    }

    proof fn lemma_known_chain(
        &self,
        st: &Stakes<T>,
        held: Seq<int>,
        rel: Seq<u8>,
        m: int,
        k: nat,
    )
        requires
            is_exact::<T>(),
            tells_zero::<T>(),
            self.is_known(st, held, rel),
            0 <= m < held.len(),
            k <= m,
        ensures
            self.chain(first_held(held, m), held[m], T::s_one(), k) == Some(T::s_one()),
        decreases k,
    {
        lemma_bits::<T>();
        if k > 0 {
            self.lemma_known_chain(st, held, rel, m, (k - 1) as nat);
            let prefix = first_held(held, m);
            assert(0 <= held[k - 1] < self.nb);
            assert(prefix[k - 1] as int == held[k - 1]);
            assert(self.compat[at(self.nb, held[k - 1], held[m])] == T::s_one());
        }
    }

    proof fn lemma_known_joint(&self, st: &Stakes<T>, held: Seq<int>, rel: Seq<u8>, m: int, b: int)
        requires
            is_exact::<T>(),
            tells_zero::<T>(),
            self.is_known(st, held, rel),
            0 <= m < held.len(),
            0 <= b < self.nb,
        ensures
            self.joint(first_held(held, m), b, None) == if b == held[m] {
                Some(T::s_one())
            } else {
                None
            },
            self.joint(first_held(held, m), b, Some(T::s_one())) == if b == held[m] {
                Some(T::s_one())
            } else {
                None
            },
    {
        lemma_bits::<T>();
        self.lemma_known_chain(st, held, rel, m, m as nat);
        assert(self.reach[m][b] == one_if::<T>(b == held[m]));
    }

    proof fn lemma_known_even_all(
        &self,
        st: &Stakes<T>,
        held: Seq<int>,
        rel: Seq<u8>,
        k: T,
        rake: T,
        m: int,
        state: Seq<T>,
        acc: T,
    )
        requires
            is_exact::<T>(),
            tells_zero::<T>(),
            self.is_known(st, held, rel),
            forall|oi: int| 0 <= oi < rel.len() ==> #[trigger] rel[oi] != REL_FOLDED,
            0 <= m <= held.len(),
            state.len() == m + 2,
            is_only(state, Some(place(rel, m as nat))),
            0 <= place(rel, m as nat) < state.len(),
        ensures
            self.even_all(k, rake, first_held(held, m), state, acc) == acc + unit_payoff(
                k,
                rake,
                place(rel, rel.len()),
            ),
        decreases held.len() - m, self.nb + 1,
    {
        let prefix = first_held(held, m);
        if m == held.len() {
            lemma_leaf(k, rake, state, acc, place(rel, m as nat), (state.len() - 1) as nat);
        } else {
            self.lemma_known_even_upto(st, held, rel, k, rake, m, state, acc, self.nb);
        }
    }

    proof fn lemma_known_even_upto(
        &self,
        st: &Stakes<T>,
        held: Seq<int>,
        rel: Seq<u8>,
        k: T,
        rake: T,
        m: int,
        state: Seq<T>,
        acc: T,
        n: int,
    )
        requires
            is_exact::<T>(),
            tells_zero::<T>(),
            self.is_known(st, held, rel),
            forall|oi: int| 0 <= oi < rel.len() ==> #[trigger] rel[oi] != REL_FOLDED,
            0 <= m < held.len(),
            0 <= n <= self.nb,
            state.len() == m + 2,
            is_only(state, Some(place(rel, m as nat))),
            0 <= place(rel, m as nat) < state.len(),
        ensures
            self.even_upto(k, rake, first_held(held, m), state, acc, n) == if held[m] < n {
                acc + unit_payoff(k, rake, place(rel, rel.len()))
            } else {
                acc
            },
        decreases held.len() - m, n,
    {
        let prefix = first_held(held, m);
        if n > 0 {
            let b: int = n - 1;
            self.lemma_known_even_upto(st, held, rel, k, rake, m, state, acc, b);
            self.lemma_known_joint(st, held, rel, m, b);
            let r = rel[m];
            let i = at(self.nb, self.bt, b);
            lemma_bits::<T>();
            if b == held[m] {
                assert(self.compat[i] == T::s_one());
                let s = self.even_branch(prefix, b)->0;
                assert(self.even_branch(prefix, b) == Some(s));
                assert(is_step(s, r));
                lemma_step(state, s, r, place(rel, m as nat));
                lemma_place(rel, m as nat);
                if m + 1 < rel.len() {
                    lemma_place(rel, (m + 1) as nat);
                }
                assert(prefix.push(b as usize) =~= first_held(held, m + 1));
                self.lemma_known_even_all(st, held, rel, k, rake, m + 1, even_step(state, s), acc);
            }
        }
    }

    proof fn lemma_known_levels_all(
        &self,
        st: &Stakes<T>,
        held: Seq<int>,
        rel: Seq<u8>,
        m: int,
        acc: T,
    )
        requires
            is_exact::<T>(),
            tells_zero::<T>(),
            self.is_known(st, held, rel),
            0 <= m <= held.len(),
        ensures
            self.levels_all(st, T::s_one(), first_held(held, m), rel.take(m), acc) == acc + st.net(
                rel,
            ),
        decreases held.len() - m, self.nb + 1,
    {
        if m == held.len() {
            assert(rel.take(m) =~= rel);
            lemma_units(st.net(rel));
        } else {
            self.lemma_known_levels_upto(st, held, rel, m, acc, self.nb);
        }
    }

    proof fn lemma_known_levels_upto(
        &self,
        st: &Stakes<T>,
        held: Seq<int>,
        rel: Seq<u8>,
        m: int,
        acc: T,
        n: int,
    )
        requires
            is_exact::<T>(),
            tells_zero::<T>(),
            self.is_known(st, held, rel),
            0 <= m < held.len(),
            0 <= n <= self.nb,
        ensures
            self.levels_upto(st, T::s_one(), first_held(held, m), rel.take(m), acc, n)
                == if held[m] < n {
                acc + st.net(rel)
            } else {
                acc
            },
        decreases held.len() - m, n,
    {
        let prefix = first_held(held, m);
        if n > 0 {
            let b: int = n - 1;
            self.lemma_known_levels_upto(st, held, rel, m, acc, b);
            self.lemma_known_joint(st, held, rel, m, b);
            let r = rel[m];
            let i = at(self.nb, self.bt, b);
            lemma_bits::<T>();
            if b == held[m] {
                assert(self.compat[i] == T::s_one());
                assert(prefix.push(b as usize) =~= first_held(held, m + 1));
                assert(rel.take(m).push(r) =~= rel.take(m + 1));
                self.lemma_known_levels_all(st, held, rel, m + 1, acc);
                assert(st.opp_folded(m) <==> r == REL_FOLDED);
            }
        }
    }

    /// An uneven showdown between known buckets is worth what the relations pay.
    pub proof fn law_known_showdown_pays_its_relations(
        &self,
        st: &Stakes<T>,
        held: Seq<int>,
        rel: Seq<u8>,
    )
        requires
            is_exact::<T>(),
            tells_zero::<T>(),
            self.is_known(st, held, rel),
            !st.is_even(),
        ensures
            self.value(st) == st.net(rel),
    {
        self.lemma_known_levels_all(st, held, rel, 0, T::s_zero());
        assert(first_held(held, 0) =~= Seq::<usize>::empty());
        assert(rel.take(0) =~= Seq::<u8>::empty());
        lemma_units(st.net(rel));
    }

    /// The value of an even showdown between known buckets, per unit of stake.
    pub(crate) proof fn lemma_known_even_value(
        &self,
        st: &Stakes<T>,
        held: Seq<int>,
        rel: Seq<u8>,
    )
        requires
            is_exact::<T>(),
            tells_zero::<T>(),
            self.is_known(st, held, rel),
            forall|oi: int| 0 <= oi < rel.len() ==> #[trigger] rel[oi] != REL_FOLDED,
        ensures
            self.even_value(st) == st.stake() * if loses_to_one(rel, rel.len()) {
                T::s_of(-1)
            } else {
                unit_net(st.rivals(), st.unit_rake(), ties_of(rel, rel.len()) as int)
            },
    {
        let state = seq![T::s_zero(), T::s_one()];
        assert(!loses_to_one(rel, 0));
        assert(place(rel, 0) == 1);
        assert(is_only(state, Some(1int)));
        self.lemma_known_even_all(
            st,
            held,
            rel,
            st.rivals(),
            st.unit_rake(),
            0,
            state,
            T::s_zero(),
        );
        assert(first_held(held, 0) =~= Seq::<usize>::empty());
        lemma_units(unit_payoff(st.rivals(), st.unit_rake(), place(rel, rel.len())));
    }
}

} // verus!
