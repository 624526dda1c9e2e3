//! Where the chips of a showdown come from and go to.
use vstd::prelude::*;

use crate::bucketed_showdown::{
    has_folded, is_zero, law_levels_rise, levels_of, reaching, sum_of, REL_FOLDED, REL_LOSE,
    REL_TIE, REL_WIN, Stakes,
};
use crate::even_pots::{lemma_counts_times, lemma_into_quotient, lemma_one};
use crate::exact::{
    is_exact, lemma_nothing, lemma_orders, lemma_spread, lemma_sum_add, lemma_sum_one,
    lemma_sum_zero, lemma_undo, lemma_units, row_of, row_sums, Exact,
};
use crate::exploit_laws::quotients_return;
use crate::flop_response_laws::lemma_counts_add;
use crate::layout::count_upto;
use crate::many_sums::{copies, lemma_copies, lemma_sum2_turn};
use crate::response_laws::{has_quotients, is_rational};
use crate::scalar::{lemma_sum_ext, sum_upto, Scalar};
use crate::terminal::opponent;

verus! {

/// All contributions reach what is at most each of them.
proof fn lemma_reached_by_all(c: Seq<int>, lev: int, n: nat)
    requires
        n <= c.len(),
        forall|p: int| 0 <= p < n ==> lev <= #[trigger] c[p],
    ensures
        reaching(c, lev, n) == n,
    decreases n,
{
    if n > 0 {
        lemma_reached_by_all(c, lev, (n - 1) as nat);
        assert(lev <= c[n - 1]);
    }
}

/// Every player reaches the first level.
pub(crate) proof fn lemma_all_reach<T: Scalar>(st: &Stakes<T>)
    requires
        st.wf(),
    ensures
        reaching(st.contributions, st.levels()[0], st.contributions.len()) == st.np(),
        st.levels().len() > 0,
        forall|p: int| 0 <= p < st.np() ==> st.levels()[0] <= #[trigger] st.contributions[p],
{
    let c = st.contributions;
    let n = c.len();
    law_levels_rise(c, n);
    let levels = levels_of(c, n);
    assert forall|p: int| 0 <= p < n implies levels[0] <= #[trigger] c[p] by {
        assert(levels.contains(c[p]));
        let i = choose|i: int| 0 <= i < levels.len() && levels[i] == c[p];
        if i > 0 {
            assert(levels[0] < levels[i]);
        }
    }
    lemma_reached_by_all(c, levels[0], n);
}

/// The first `n` whole numbers of a list, added up.
pub open spec fn total_of(f: spec_fn(int) -> int, n: nat) -> int
    decreases n,
{
    if n == 0 {
        0
    } else {
        total_of(f, (n - 1) as nat) + f(n - 1)
    }
}

proof fn lemma_total_add(
    f: spec_fn(int) -> int,
    g: spec_fn(int) -> int,
    k: spec_fn(int) -> int,
    n: nat,
)
    requires
        forall|i: int| 0 <= i < n ==> #[trigger] k(i) == f(i) + g(i),
    ensures
        total_of(k, n) == total_of(f, n) + total_of(g, n),
    decreases n,
{
    if n > 0 {
        lemma_total_add(f, g, k, (n - 1) as nat);
        assert(k(n - 1) == f(n - 1) + g(n - 1));
    }
}

/// The steps between levels, as far as `x` reaches them.
spec fn steps_under(levels: Seq<int>, x: int) -> spec_fn(int) -> int {
    |i: int|
        if x >= levels[i] {
            levels[i] - if i == 0 {
                0
            } else {
                levels[i - 1]
            }
        } else {
            0
        }
}

/// The steps up to a level add up to it.
proof fn lemma_steps(levels: Seq<int>, k: int, n: nat)
    requires
        n <= levels.len(),
        0 <= k < levels.len(),
        forall|i: int, j: int|
            0 <= i < j < levels.len() ==> #[trigger] levels[i] < #[trigger] levels[j],
    ensures
        total_of(steps_under(levels, levels[k]), n) == if n == 0 {
            0
        } else if n <= k {
            levels[n - 1]
        } else {
            levels[k]
        },
    decreases n,
{
    if n > 0 {
        lemma_steps(levels, k, (n - 1) as nat);
        let i: int = n - 1;
        if i < k {
            assert(levels[i] < levels[k]);
        } else if i > k {
            assert(levels[k] < levels[i]);
        }
    }
}

/// What each level takes in from the first `n` players.
spec fn taken_in(c: Seq<int>, levels: Seq<int>, n: nat) -> spec_fn(int) -> int {
    |i: int|
        (levels[i] - if i == 0 {
            0
        } else {
            levels[i - 1]
        }) * reaching(c, levels[i], n)
}

/// The levels take in all chips.
proof fn lemma_levels_take_all(c: Seq<int>, levels: Seq<int>, n: nat)
    requires
        n <= c.len(),
        forall|i: int, j: int|
            0 <= i < j < levels.len() ==> #[trigger] levels[i] < #[trigger] levels[j],
        forall|p: int| 0 <= p < n ==> levels.contains(#[trigger] c[p]),
    ensures
        total_of(taken_in(c, levels, n), levels.len()) == sum_of(c, n),
    decreases n,
{
    let m = levels.len();
    let f = taken_in(c, levels, n);
    if n == 0 {
        assert forall|i: int| 0 <= i < m implies #[trigger] f(i) == 0 by {
            let d = levels[i] - if i == 0 {
                0
            } else {
                levels[i - 1]
            };
            let r = reaching(c, levels[i], n) as int;
            assert(d * r == 0) by (nonlinear_arith)
                requires
                    r == 0,
            ;
        }
        lemma_total_zero(f, m);
    } else {
        let q = (n - 1) as nat;
        lemma_levels_take_all(c, levels, q);
        let g = taken_in(c, levels, q);
        let x = c[n - 1];
        let s = steps_under(levels, x);
        assert forall|i: int| 0 <= i < m implies #[trigger] f(i) == g(i) + s(i) by {
            let d = levels[i] - if i == 0 {
                0
            } else {
                levels[i - 1]
            };
            let r = reaching(c, levels[i], q) as int;
            assert(d * (r + 1) == d * r + d) by (nonlinear_arith);
        }
        lemma_total_add(g, s, f, m);
        assert(levels.contains(c[n - 1]));
        let k = choose|k: int| 0 <= k < m && levels[k] == x;
        lemma_steps(levels, k, m);
    }
}

proof fn lemma_total_zero(f: spec_fn(int) -> int, n: nat)
    requires
        forall|i: int| 0 <= i < n ==> #[trigger] f(i) == 0,
    ensures
        total_of(f, n) == 0,
    decreases n,
{
    if n > 0 {
        lemma_total_zero(f, (n - 1) as nat);
        assert(f(n - 1) == 0);
    }
}

/// Whole numbers that are not negative, counted and added up.
proof fn lemma_counted_total<T: Scalar>(f: spec_fn(int) -> int, g: spec_fn(int) -> T, n: nat)
    requires
        is_rational::<T>(),
        forall|i: int| 0 <= i < n ==> 0 <= #[trigger] f(i),
        forall|i: int| 0 <= i < n ==> #[trigger] g(i) == T::s_of(f(i)),
    ensures
        sum_upto(g, n) == T::s_of(total_of(f, n)),
        0 <= total_of(f, n),
    decreases n,
{
    if n == 0 {
        lemma_one::<T>();
    } else {
        lemma_counted_total(f, g, (n - 1) as nat);
        let i: int = n - 1;
        assert(0 <= f(i) && g(i) == T::s_of(f(i)));
        lemma_counts_add::<T>(total_of(f, i as nat), f(i));
    }
}

/// So many copies are the count times the number.
pub(crate) proof fn lemma_copies_count<T: Scalar>(x: T, m: nat)
    requires
        is_rational::<T>(),
    ensures
        copies(x, m) == T::s_of(m as int) * x,
    decreases m,
{
    if m == 0 {
        lemma_one::<T>();
        lemma_units(x);
    } else {
        lemma_copies_count(x, (m - 1) as nat);
        lemma_counts_add::<T>(m - 1, 1);
        lemma_one::<T>();
        lemma_spread(x, T::s_of(m - 1), T::s_one());
        lemma_units(x);
    }
}

/// Everybody but `t`, counted by place among the opponents.
proof fn lemma_count_opponents(f: spec_fn(int) -> bool, t: int, m: nat)
    requires
        0 <= t,
    ensures
        count_upto(|oi: int| f(opponent(t, oi)), m) == if m <= t {
            count_upto(f, m) as int
        } else {
            count_upto(f, m + 1) - if f(t) {
                1int
            } else {
                0int
            }
        },
    decreases m,
{
    let g = |oi: int| f(opponent(t, oi));
    if m > 0 {
        lemma_count_opponents(f, t, (m - 1) as nat);
        assert(g(m - 1) == f(opponent(t, m - 1)));
        if m > t {
            assert(count_upto(f, m + 1) == count_upto(f, m) + if f(m as int) {
                1nat
            } else {
                0nat
            });
            if m - 1 == t {
                assert(count_upto(f, m) == count_upto(f, (m - 1) as nat) + if f(t) {
                    1nat
                } else {
                    0nat
                });
            }
        }
    } else {
        assert(count_upto(g, 0) == 0 && count_upto(f, 0) == 0);
    }
}

/// A showdown: the stakes, and how strong each player's hand is.
pub struct Table<T> {
    pub stakes: Stakes<T>,
    pub strength: Seq<int>,
}

impl<T: Scalar> Table<T> {
    /// The stakes as player `t` sees them.
    pub open spec fn seen_by(&self, t: int) -> Stakes<T> {
        Stakes { traverser: t, ..self.stakes }
    }

    /// How the opponents stand to player `t`.
    pub open spec fn relations(&self, t: int) -> Seq<u8> {
        Seq::new(
            (self.stakes.np() - 1) as nat,
            |oi: int|
                {
                    let q = opponent(t, oi);
                    if has_folded(self.stakes.fold_mask, q) {
                        REL_FOLDED
                    } else if self.strength[q] < self.strength[t] {
                        REL_WIN
                    } else if self.strength[q] == self.strength[t] {
                        REL_TIE
                    } else {
                        REL_LOSE
                    }
                },
        )
    }

    /// What each player wins or loses.
    pub open spec fn nets(&self) -> spec_fn(int) -> T {
        |t: int| self.seen_by(t).net(self.relations(t))
    }

    /// Chips are counted, and somebody can win them.
    pub open spec fn is_played(&self) -> bool {
        &&& self.stakes.wf()
        &&& self.strength.len() == self.stakes.np()
        &&& 0 <= self.stakes.starting_pot
        &&& forall|p: int| 0 <= p < self.stakes.np() ==> 0 <= #[trigger] self.stakes.contributions[p]
        &&& exists|p: int|
            0 <= p < self.stakes.np() && !#[trigger] has_folded(self.stakes.fold_mask, p)
        &&& !is_zero(self.stakes.level_pot(0))
    }

    /// Player `p` can win level `lev`.
    spec fn can_win(&self, lev: int, p: int) -> bool {
        !has_folded(self.stakes.fold_mask, p) && self.stakes.contributions[p] >= lev
    }

    /// Player `p` wins level `lev`, alone or with others.
    spec fn wins(&self, lev: int) -> spec_fn(int) -> bool {
        |p: int|
            self.can_win(lev, p) && forall|q: int|
                0 <= q < self.stakes.np() && #[trigger] self.can_win(lev, q) ==> self.strength[q]
                    <= self.strength[p]
    }

    /// What level `li` pays player `t`.
    spec fn paid(&self, t: int, li: int) -> T {
        match self.seen_by(t).payout(self.relations(t), li) {
            Some(x) => x,
            None => T::s_zero(),
        }
    }

    /// The same, by level.
    spec fn paid_by_level(&self, t: int) -> spec_fn(int) -> T {
        |li: int| self.paid(t, li)
    }

    proof fn lemma_cash(&self, t: int, n: nat)
        requires
            is_exact::<T>(),
        ensures
            self.seen_by(t).cash(self.relations(t), n) == sum_upto(self.paid_by_level(t), n),
        decreases n,
    {
        if n > 0 {
            self.lemma_cash(t, (n - 1) as nat);
            lemma_units(sum_upto(self.paid_by_level(t), (n - 1) as nat));
        }
    }

    /// Some player who can win is as strong as any of the first `n`.
    proof fn lemma_strongest(&self, lev: int, p: int, n: nat) -> (q: int)
        requires
            0 <= p < self.stakes.np(),
            self.can_win(lev, p),
            n <= self.stakes.np(),
        ensures
            0 <= q < self.stakes.np(),
            self.can_win(lev, q),
            self.strength[p] <= self.strength[q],
            forall|r: int|
                0 <= r < n && #[trigger] self.can_win(lev, r) ==> self.strength[r]
                    <= self.strength[q],
        decreases n,
    {
        if n == 0 {
            p
        } else {
            let q = self.lemma_strongest(lev, p, (n - 1) as nat);
            let r: int = n - 1;
            if self.can_win(lev, r) && self.strength[q] < self.strength[r] {
                r
            } else {
                q
            }
        }
    }

    /// What stands between player `t` and a level.
    proof fn lemma_seen(&self, t: int, lev: int)
        requires
            self.stakes.wf(),
            self.strength.len() == self.stakes.np(),
            0 <= t < self.stakes.np(),
        ensures
            ({
                let st = self.seen_by(t);
                let rel = self.relations(t);
                let all = st.num_opp() as nat;
                &&& st.is_in(lev) == self.can_win(lev, t)
                &&& forall|oi: int|
                    0 <= oi < all ==> #[trigger] st.opp_in(lev, oi) == self.can_win(
                        lev,
                        opponent(t, oi),
                    )
                &&& (st.is_in(lev) || st.some_opp_in(lev, all)) == exists|p: int|
                    0 <= p < self.stakes.np() && #[trigger] self.can_win(lev, p)
                &&& st.is_in(lev) ==> (st.is_beaten(lev, rel) == !self.wins(lev)(t))
                &&& self.wins(lev)(t) ==> st.tied(lev, rel, all) == count_upto(
                    self.wins(lev),
                    self.stakes.np() as nat,
                )
            }),
    {
        let st = self.seen_by(t);
        let rel = self.relations(t);
        let np = self.stakes.np();
        let all = st.num_opp() as nat;
        assert forall|oi: int| 0 <= oi < all implies #[trigger] st.opp_in(lev, oi) == self.can_win(
            lev,
            opponent(t, oi),
        ) by {}
        if exists|p: int| 0 <= p < np && #[trigger] self.can_win(lev, p) {
            let p = choose|p: int| 0 <= p < np && #[trigger] self.can_win(lev, p);
            if p != t {
                let oi: int = if p < t {
                    p
                } else {
                    p - 1
                };
                assert(opponent(t, oi) == p);
                assert(st.opp_in(lev, oi));
            }
        }
        if st.some_opp_in(lev, all) {
            let oi = choose|oi: int| 0 <= oi < all && #[trigger] st.opp_in(lev, oi);
            assert(self.can_win(lev, opponent(t, oi)));
        }
        if st.is_in(lev) {
            assert(self.can_win(lev, t));
            if st.is_beaten(lev, rel) {
                let oi = choose|oi: int|
                    0 <= oi < st.num_opp() && #[trigger] st.opp_in(lev, oi) && rel[oi] == REL_LOSE;
                let q = opponent(t, oi);
                assert(self.can_win(lev, q) && self.strength[t] < self.strength[q]);
            } else {
                assert forall|q: int|
                    0 <= q < np && #[trigger] self.can_win(lev, q) implies self.strength[q]
                    <= self.strength[t] by {
                    if q != t && self.strength[t] < self.strength[q] {
                        let oi: int = if q < t {
                            q
                        } else {
                            q - 1
                        };
                        assert(opponent(t, oi) == q);
                        assert(st.opp_in(lev, oi));
                        assert(rel[oi] == REL_LOSE);
                    }
                }
            }
        }
        if self.wins(lev)(t) {
            let f = self.wins(lev);
            let g = |oi: int| f(opponent(t, oi));
            self.lemma_tied(t, lev, all);
            lemma_count_opponents(f, t, all);
            assert(all + 1 == np);
            if all <= t {
                assert(count_upto(f, all + 1) == count_upto(f, all) + 1);
            }
        }
    }

    /// Those who tie with a winner are winners.
    proof fn lemma_tied(&self, t: int, lev: int, n: nat)
        requires
            self.stakes.wf(),
            self.strength.len() == self.stakes.np(),
            0 <= t < self.stakes.np(),
            self.wins(lev)(t),
            n <= self.stakes.np() - 1,
        ensures
            self.seen_by(t).tied(lev, self.relations(t), n) == 1 + count_upto(
                |oi: int| self.wins(lev)(opponent(t, oi)),
                n,
            ),
        decreases n,
    {
        let st = self.seen_by(t);
        let rel = self.relations(t);
        let g = |oi: int| self.wins(lev)(opponent(t, oi));
        if n > 0 {
            self.lemma_tied(t, lev, (n - 1) as nat);
            let oi: int = n - 1;
            let q = opponent(t, oi);
            assert(st.opp_in(lev, oi) == self.can_win(lev, q));
            assert(self.can_win(lev, t));
            assert((st.opp_in(lev, oi) && rel[oi] == REL_TIE) == self.wins(lev)(q)) by {
                if self.wins(lev)(q) {
                    assert(self.can_win(lev, q));
                    assert(self.strength[t] <= self.strength[q]);
                    assert(self.strength[q] <= self.strength[t]);
                }
                if st.opp_in(lev, oi) && rel[oi] == REL_TIE {
                    assert(self.strength[q] == self.strength[t]);
                }
            }
            assert(g(oi) == self.wins(lev)(q));
        }
    }

    /// What level `li` has to pay out.
    spec fn owed(&self, li: int) -> T {
        if li == 0 {
            self.stakes.level_pot(0) - self.stakes.main_rake()
        } else {
            self.stakes.level_pot(li)
        }
    }

    /// Every level pays out what it has.
    proof fn lemma_level_pays(&self, li: int)
        requires
            is_rational::<T>(),
            quotients_return::<T>(),
            self.is_played(),
            0 <= li < self.stakes.levels().len(),
        ensures
            sum_upto(|t: int| self.paid(t, li), self.stakes.np() as nat) == self.owed(li),
    {
        let np = self.stakes.np();
        let n = np as nat;
        let lev = self.stakes.levels()[li];
        let f = |t: int| self.paid(t, li);
        let pot = self.stakes.level_pot(li);
        lemma_all_reach(&self.stakes);
        law_levels_rise(self.stakes.contributions, self.stakes.contributions.len());
        if is_zero(pot) {
            assert(li != 0);
            lemma_nothing(pot);
            assert forall|t: int| 0 <= t < n implies #[trigger] f(t) == T::s_zero() by {
                assert(self.seen_by(t).level_pot(li) == pot);
            }
            lemma_sum_zero(f, n);
        } else if exists|p: int| 0 <= p < np && #[trigger] self.can_win(lev, p) {
            let p = choose|p: int| 0 <= p < np && #[trigger] self.can_win(lev, p);
            let b = self.wins(lev);
            let m = count_upto(b, n);
            let q = self.lemma_strongest(lev, p, n);
            assert(b(q));
            self.lemma_some_wins(b, q, n);
            let x = self.owed(li).s_over(T::s_of(m as int));
            assert forall|t: int| 0 <= t < n implies #[trigger] f(t) == if b(t) {
                x
            } else {
                T::s_zero()
            } by {
                self.lemma_seen(t, lev);
                assert(self.seen_by(t).level_pot(li) == pot);
                assert(self.seen_by(t).net_pot(li) == self.owed(li));
                assert(self.can_win(lev, p));
            }
            lemma_copies(f, b, x, n);
            lemma_copies_count(x, m);
            assert(T::s_zero().s_below(T::s_of(m as int))) by {
                reveal(has_quotients);
            }
            lemma_into_quotient(x, self.owed(li), T::s_of(m as int));
            lemma_orders(x, T::s_of(m as int), x);
        } else {
            let w = choose|w: int| 0 <= w < np && !#[trigger] has_folded(self.stakes.fold_mask, w);
            assert(!self.can_win(lev, w));
            assert(li != 0) by {
                if li == 0 {
                    assert(lev <= self.stakes.contributions[w]);
                }
            }
            let b = |t: int| self.stakes.contributions[t] >= lev;
            let x = T::s_of(self.stakes.step(li));
            assert forall|t: int| 0 <= t < n implies #[trigger] f(t) == if b(t) {
                x
            } else {
                T::s_zero()
            } by {
                self.lemma_seen(t, lev);
                assert(self.seen_by(t).level_pot(li) == pot);
                assert(!self.can_win(lev, t));
                lemma_units(x);
                assert(self.seen_by(t).refund(li) == x + T::s_zero());
            }
            lemma_copies(f, b, x, n);
            lemma_reaching(self.stakes.contributions, lev, n);
            let m = reaching(self.stakes.contributions, lev, n);
            lemma_copies_count(x, m);
            assert(self.stakes.levels()[li - 1] < self.stakes.levels()[li]);
            lemma_counts_times::<T>(self.stakes.step(li), m as int);
            lemma_orders(x, T::s_of(m as int), x);
        }
    }

    proof fn lemma_some_wins(&self, b: spec_fn(int) -> bool, q: int, n: nat)
        requires
            0 <= q < n,
            b(q),
        ensures
            count_upto(b, n) > 0,
        decreases n,
    {
        if q < n - 1 {
            self.lemma_some_wins(b, q, (n - 1) as nat);
        }
    }

    /// All levels together pay out all chips, less the rake.
    proof fn lemma_all_levels(&self)
        requires
            is_rational::<T>(),
            quotients_return::<T>(),
            self.is_played(),
        ensures
            sum_upto(|li: int| self.owed(li), self.stakes.levels().len()) == self.stakes.pot()
                - self.stakes.main_rake(),
    {
        let st = &self.stakes;
        let c = st.contributions;
        let levels = st.levels();
        let m = levels.len();
        law_levels_rise(c, c.len());
        lemma_all_reach(st);
        assert forall|p: int| 0 <= p < c.len() implies levels.contains(#[trigger] c[p]) by {}
        lemma_levels_take_all(c, levels, c.len());
        let f = taken_in(c, levels, c.len());
        let g = |li: int| T::s_of(f(li));
        assert forall|i: int| 0 <= i < m implies 0 <= #[trigger] f(i) by {
            let r = reaching(c, levels[i], c.len()) as int;
            let d = levels[i] - if i == 0 {
                0
            } else {
                levels[i - 1]
            };
            assert(0 <= d) by {
                if i == 0 {
                    assert(levels.contains(levels[0]));
                    let p = choose|p: int| 0 <= p < c.len() && #[trigger] c[p] == levels[0];
                    assert(0 <= c[p]);
                } else {
                    assert(levels[i - 1] < levels[i]);
                }
            }
            assert(0 <= d * r) by (nonlinear_arith)
                requires
                    0 <= d,
                    0 <= r,
            ;
        }
        lemma_counted_total(f, g, m);
        // The first level has the starting pot and pays the rake.
        let owed = |li: int| self.owed(li);
        let extra = T::s_of(st.starting_pot) - st.main_rake();
        let k = |li: int|
            if li == 0 {
                extra
            } else {
                T::s_zero()
            };
        assert forall|li: int| 0 <= li < m implies #[trigger] owed(li) == g(li) + k(li) by {
            assert(st.level_pot(li) == if li == 0 {
                g(li) + T::s_of(st.starting_pot)
            } else {
                g(li)
            });
            lemma_units(g(li));
            let (x, y, z) = (g(li), T::s_of(st.starting_pot), st.main_rake());
            lemma_undo(y, z);
            lemma_undo(x + y, z);
            lemma_orders(x, y - z, z);
            lemma_undo(x + (y - z), z);
        }
        lemma_sum_add(g, k, owed, m);
        lemma_sum_one(k, 0, m);
        let (x, y, z) = (T::s_of(sum_of(c, c.len())), T::s_of(st.starting_pot), st.main_rake());
        lemma_counts_add::<T>(st.starting_pot, sum_of(c, c.len()));
        lemma_undo(y, z);
        lemma_orders(x, y - z, z);
        lemma_undo(x + (y - z), z);
        lemma_orders(x, y, z);
    }

    /// All stakes together are all chips.
    proof fn lemma_all_stakes(&self)
        requires
            is_rational::<T>(),
            quotients_return::<T>(),
            self.is_played(),
        ensures
            sum_upto(|t: int| self.seen_by(t).stake(), self.stakes.np() as nat)
                == self.stakes.pot(),
    {
        let st = &self.stakes;
        let c = st.contributions;
        let n = c.len();
        let q = T::s_of(st.starting_pot).s_over(T::s_of(st.np()));
        let f = |t: int| self.seen_by(t).stake();
        let g = |t: int| q;
        let k = |t: int| T::s_of(c[t]);
        let ints = |t: int| c[t];
        assert forall|t: int| 0 <= t < n implies #[trigger] f(t) == g(t) + k(t) by {}
        lemma_sum_add(g, k, f, n);
        lemma_copies_count(q, n);
        assert(copies(q, n) == sum_upto(g, n));
        assert(T::s_zero().s_below(T::s_of(st.np()))) by {
            reveal(has_quotients);
        }
        lemma_into_quotient(q, T::s_of(st.starting_pot), T::s_of(st.np()));
        lemma_orders(q, T::s_of(st.np()), q);
        assert forall|t: int| 0 <= t < n implies 0 <= #[trigger] ints(t) by {
            assert(0 <= c[t]);
        }
        lemma_counted_total(ints, k, n);
        lemma_total_is_sum(c, n);
        lemma_counts_add::<T>(st.starting_pot, sum_of(c, n));
    }

    /// No chip is lost at a showdown and none appears: what all players win or lose adds up to
    /// the rake, taken away.
    pub proof fn law_chips_are_kept(&self)
        requires
            is_rational::<T>(),
            quotients_return::<T>(),
            self.is_played(),
        ensures
            sum_upto(self.nets(), self.stakes.np() as nat) == T::s_zero() - self.stakes.main_rake(),
    {
        let n = self.stakes.np() as nat;
        let m = self.stakes.levels().len();
        let nets = self.nets();
        let stakes = |t: int| self.seen_by(t).stake();
        let cash = |t: int| self.seen_by(t).cash(self.relations(t), m);
        assert forall|t: int| 0 <= t < n implies #[trigger] cash(t) == nets(t) + stakes(t) by {
            assert(self.seen_by(t).levels() == self.stakes.levels());
            lemma_undo(cash(t), stakes(t));
        }
        lemma_sum_add(nets, stakes, cash, n);
        self.lemma_all_stakes();
        // The cash, level by level.
        let f = |t: int, li: int| self.paid(t, li);
        let g = |li: int, t: int| self.paid(t, li);
        assert forall|t: int| 0 <= t < n implies #[trigger] cash(t) == row_sums(f, m)(t) by {
            self.lemma_cash(t, m);
            lemma_sum_ext(self.paid_by_level(t), row_of(f, t), m);
        }
        lemma_sum_ext(cash, row_sums(f, m), n);
        lemma_sum2_turn(f, g, n, m);
        let owed = |li: int| self.owed(li);
        assert forall|li: int| 0 <= li < m implies #[trigger] row_sums(g, n)(li) == owed(li) by {
            self.lemma_level_pays(li);
            lemma_sum_ext(|t: int| self.paid(t, li), row_of(g, li), n);
        }
        lemma_sum_ext(row_sums(g, n), owed, m);
        self.lemma_all_levels();
        let (x, pot, rake) = (sum_upto(nets, n), self.stakes.pot(), self.stakes.main_rake());
        assert(x + pot == pot - rake);
        lemma_undo(x, pot);
        lemma_undo(T::s_zero(), rake);
        lemma_undo(pot, rake);
        lemma_orders(T::s_zero() - rake, pot, rake);
        lemma_undo(T::s_zero() - rake, pot);
        lemma_units(pot);
        lemma_orders(pot, T::s_zero() - rake, rake);
    }
}

proof fn lemma_reaching(c: Seq<int>, lev: int, n: nat)
    requires
        n <= c.len(),
    ensures
        reaching(c, lev, n) == count_upto(|t: int| c[t] >= lev, n),
    decreases n,
{
    if n > 0 {
        lemma_reaching(c, lev, (n - 1) as nat);
        let f = |t: int| c[t] >= lev;
        assert(f(n - 1) == (c[n - 1] >= lev));
    }
}

proof fn lemma_total_is_sum(c: Seq<int>, n: nat)
    requires
        n <= c.len(),
    ensures
        total_of(|t: int| c[t], n) == sum_of(c, n),
    decreases n,
{
    if n > 0 {
        lemma_total_is_sum(c, (n - 1) as nat);
        let f = |t: int| c[t];
        assert(f(n - 1) == c[n - 1]);
    }
}

} // verus!
