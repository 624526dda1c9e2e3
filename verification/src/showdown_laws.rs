//! Averaging a showdown over relations is exact where numbers are.
use vstd::prelude::*;

use crate::bucketed_showdown::{
    is_zero, share_by_ties, tie_step, Field, Odds, REL_FOLDED, REL_LOSE, REL_TIE, REL_WIN, Stakes,
};
use crate::exact::{
    is_exact, lemma_nothing, lemma_orders, lemma_pairs, lemma_spread, lemma_spread3,
    lemma_spread_difference, lemma_sum_add, lemma_sum_times, lemma_undo, lemma_units, Exact,
};
use crate::layout::at;
use crate::scalar::{sum_upto, Scalar};

verus! {

/// One opponent's relations, each weighed: `f` after the relation is known, times the
/// relation's weight.
pub open spec fn stepped<T: Scalar>(
    st: &Stakes<T>,
    i: int,
    o: Odds<T>,
    f: spec_fn(Seq<u8>) -> T,
) -> spec_fn(Seq<u8>) -> T {
    |rel: Seq<u8>|
        if st.opp_folded(i) {
            o.compat * f(rel.push(REL_FOLDED))
        } else {
            o.win * f(rel.push(REL_WIN)) + o.tie * f(rel.push(REL_TIE)) + o.lose * f(
                rel.push(REL_LOSE),
            )
        }
}

/// `f`, added up over all relations of the first opponents, each times its weight.
pub open spec fn weighed<T: Scalar>(
    st: &Stakes<T>,
    sc: Seq<Odds<T>>,
    f: spec_fn(Seq<u8>) -> T,
) -> T
    decreases sc.len(),
{
    if sc.len() == 0 {
        f(Seq::empty())
    } else {
        weighed(st, sc.drop_last(), stepped(st, sc.len() - 1, sc.last(), f))
    }
}

proof fn lemma_weighed_same<T: Scalar>(
    st: &Stakes<T>,
    sc: Seq<Odds<T>>,
    f: spec_fn(Seq<u8>) -> T,
    g: spec_fn(Seq<u8>) -> T,
)
    requires
        forall|rel: Seq<u8>| rel.len() == sc.len() ==> #[trigger] f(rel) == g(rel),
    ensures
        weighed(st, sc, f) == weighed(st, sc, g),
    decreases sc.len(),
{
    if sc.len() == 0 {
        assert(f(Seq::empty()) == g(Seq::empty()));
    } else {
        let i = sc.len() - 1;
        let f2 = stepped(st, i, sc.last(), f);
        let g2 = stepped(st, i, sc.last(), g);
        assert forall|rel: Seq<u8>| rel.len() == sc.drop_last().len() implies #[trigger] f2(rel)
            == g2(rel) by {
            assert(f(rel.push(REL_FOLDED)) == g(rel.push(REL_FOLDED)));
            assert(f(rel.push(REL_WIN)) == g(rel.push(REL_WIN)));
            assert(f(rel.push(REL_TIE)) == g(rel.push(REL_TIE)));
            assert(f(rel.push(REL_LOSE)) == g(rel.push(REL_LOSE)));
        }
        lemma_weighed_same(st, sc.drop_last(), f2, g2);
    }
}

proof fn lemma_weighed_add<T: Scalar>(
    st: &Stakes<T>,
    sc: Seq<Odds<T>>,
    f: spec_fn(Seq<u8>) -> T,
    g: spec_fn(Seq<u8>) -> T,
    h: spec_fn(Seq<u8>) -> T,
)
    requires
        is_exact::<T>(),
        forall|rel: Seq<u8>| rel.len() == sc.len() ==> #[trigger] h(rel) == f(rel) + g(rel),
    ensures
        weighed(st, sc, h) == weighed(st, sc, f) + weighed(st, sc, g),
    decreases sc.len(),
{
    if sc.len() == 0 {
        assert(h(Seq::empty()) == f(Seq::empty()) + g(Seq::empty()));
    } else {
        let i = sc.len() - 1;
        let o = sc.last();
        let f2 = stepped(st, i, o, f);
        let g2 = stepped(st, i, o, g);
        let h2 = stepped(st, i, o, h);
        assert forall|rel: Seq<u8>| rel.len() == sc.drop_last().len() implies #[trigger] h2(rel)
            == f2(rel) + g2(rel) by {
            lemma_spread(o.compat, f(rel.push(REL_FOLDED)), g(rel.push(REL_FOLDED)));
            lemma_spread(o.win, f(rel.push(REL_WIN)), g(rel.push(REL_WIN)));
            lemma_spread(o.tie, f(rel.push(REL_TIE)), g(rel.push(REL_TIE)));
            lemma_spread(o.lose, f(rel.push(REL_LOSE)), g(rel.push(REL_LOSE)));
            assert(h(rel.push(REL_FOLDED)) == f(rel.push(REL_FOLDED)) + g(rel.push(REL_FOLDED)));
            assert(h(rel.push(REL_WIN)) == f(rel.push(REL_WIN)) + g(rel.push(REL_WIN)));
            assert(h(rel.push(REL_TIE)) == f(rel.push(REL_TIE)) + g(rel.push(REL_TIE)));
            assert(h(rel.push(REL_LOSE)) == f(rel.push(REL_LOSE)) + g(rel.push(REL_LOSE)));
            let (a1, b1) = (o.win * f(rel.push(REL_WIN)), o.win * g(rel.push(REL_WIN)));
            let (a2, b2) = (o.tie * f(rel.push(REL_TIE)), o.tie * g(rel.push(REL_TIE)));
            let (a3, b3) = (o.lose * f(rel.push(REL_LOSE)), o.lose * g(rel.push(REL_LOSE)));
            lemma_pairs(a1, b1, a2, b2);
            lemma_pairs(a1 + a2, b1 + b2, a3, b3);
        }
        lemma_weighed_add(st, sc.drop_last(), f2, g2, h2);
    }
}

proof fn lemma_weighed_times<T: Scalar>(
    st: &Stakes<T>,
    sc: Seq<Odds<T>>,
    c: T,
    f: spec_fn(Seq<u8>) -> T,
    h: spec_fn(Seq<u8>) -> T,
)
    requires
        is_exact::<T>(),
        forall|rel: Seq<u8>| rel.len() == sc.len() ==> #[trigger] h(rel) == c * f(rel),
    ensures
        weighed(st, sc, h) == c * weighed(st, sc, f),
    decreases sc.len(),
{
    if sc.len() == 0 {
        assert(h(Seq::empty()) == c * f(Seq::empty()));
    } else {
        let i = sc.len() - 1;
        let o = sc.last();
        let f2 = stepped(st, i, o, f);
        let h2 = stepped(st, i, o, h);
        assert forall|rel: Seq<u8>| rel.len() == sc.drop_last().len() implies #[trigger] h2(rel)
            == c * f2(rel) by {
            lemma_pull(o.compat, c, f, h, rel.push(REL_FOLDED));
            lemma_pull(o.win, c, f, h, rel.push(REL_WIN));
            lemma_pull(o.tie, c, f, h, rel.push(REL_TIE));
            lemma_pull(o.lose, c, f, h, rel.push(REL_LOSE));
            let x = o.win * f(rel.push(REL_WIN));
            let y = o.tie * f(rel.push(REL_TIE));
            let z = o.lose * f(rel.push(REL_LOSE));
            lemma_spread3(c, x, y, z);
        }
        lemma_weighed_times(st, sc.drop_last(), c, f2, h2);
    }
}

proof fn lemma_pull<T: Scalar>(
    a: T,
    c: T,
    f: spec_fn(Seq<u8>) -> T,
    h: spec_fn(Seq<u8>) -> T,
    rel: Seq<u8>,
)
    requires
        is_exact::<T>(),
        h(rel) == c * f(rel),
    ensures
        a * h(rel) == c * (a * f(rel)),
{
    lemma_orders(a, c, f(rel));
}

/// One of the first `n` opponents who can win level `lev` beats the traverser.
pub open spec fn beaten_upto<T: Scalar>(st: &Stakes<T>, lev: int, rel: Seq<u8>, n: nat) -> bool {
    exists|oi: int| 0 <= oi < n && #[trigger] st.opp_in(lev, oi) && rel[oi] == REL_LOSE
}

/// `q` of the number that share level `lev` with the traverser, as far as the first `n`
/// opponents go; nothing if one of them is ahead.
pub open spec fn standing<T: Scalar>(
    st: &Stakes<T>,
    lev: int,
    q: spec_fn(int) -> T,
    n: nat,
) -> spec_fn(Seq<u8>) -> T {
    |rel: Seq<u8>|
        if beaten_upto(st, lev, rel, n) {
            T::s_zero()
        } else {
            q(st.tied(lev, rel, n) as int)
        }
}

/// `q` one further.
pub open spec fn shifted<T>(q: spec_fn(int) -> T) -> spec_fn(int) -> T {
    |j: int| q(j + 1)
}

/// The weights of tie counts, each times `q` of those who then share.
pub open spec fn tie_terms<T: Scalar>(
    d: Seq<T>,
    q: spec_fn(int) -> T,
) -> spec_fn(int) -> T {
    |j: int| d[j] * q(j + 1)
}

proof fn lemma_sum_shift<T: Scalar>(
    c: T,
    g: spec_fn(int) -> T,
    h: spec_fn(int) -> T,
    n: nat,
)
    requires
        is_exact::<T>(),
        h(0) == T::s_zero(),
        forall|j: int| 0 <= j < n ==> h(j + 1) == c * #[trigger] g(j),
    ensures
        sum_upto(h, n + 1) == c * sum_upto(g, n),
    decreases n,
{
    if n == 0 {
        assert(sum_upto(h, 1) == sum_upto(h, 0) + h(0));
        lemma_units(c);
        lemma_units(T::s_zero());
    } else {
        let m = (n - 1) as nat;
        lemma_sum_shift(c, g, h, m);
        let k: int = n - 1;
        assert(h(k + 1) == c * g(k));
        assert((n + 1 - 1) as nat == m + 1);
        assert(sum_upto(h, n + 1) == sum_upto(h, m + 1) + h(k + 1));
        lemma_spread(c, sum_upto(g, m), g(k));
    }
}

/// One more opponent who can win the level loses or ties.
proof fn lemma_tie_step<T: Scalar>(
    d: Seq<T>,
    win: T,
    tie: T,
    q: spec_fn(int) -> T,
)
    requires
        is_exact::<T>(),
    ensures
        sum_upto(tie_terms(tie_step(d, win, tie), q), tie_step(d, win, tie).len()) == win * sum_upto(
            tie_terms(d, q),
            d.len(),
        ) + tie * sum_upto(tie_terms(d, shifted(q)), d.len()),
{
    let n = d.len();
    let e = tie_step(d, win, tie);
    let (w, t) = (win, tie);
    let base = tie_terms(d, q);
    let next = tie_terms(d, shifted(q));
    let all = tie_terms(e, q);
    let f = |j: int|
        if j < n {
            w * base(j)
        } else {
            T::s_zero()
        };
    let g = |j: int|
        if j > 0 {
            t * next(j - 1)
        } else {
            T::s_zero()
        };
    assert forall|j: int| 0 <= j < n + 1 implies #[trigger] all(j) == f(j) + g(j) by {
        let x = if j < n {
            d[j]
        } else {
            T::s_zero()
        };
        let y = if j > 0 {
            d[j - 1]
        } else {
            T::s_zero()
        };
        lemma_units(x * w);
        lemma_units(y * t);
        lemma_units(w);
        lemma_units(t);
        if j < n {
            lemma_nothing(d[j]);
        }
        if j > 0 {
            lemma_nothing(d[j - 1]);
        }
        lemma_nothing(w);
        lemma_nothing(t);
        lemma_units(x);
        lemma_units(y);
        assert(e[j] == x * w + y * t);
        let z = q(j + 1);
        lemma_spread(z, x * w, y * t);
        lemma_orders(x, w, z);
        lemma_orders(w, x, z);
        lemma_orders(y, t, z);
        lemma_orders(t, y, z);
        assert((x * w + y * t) * z == w * (x * z) + t * (y * z));
        lemma_units(z);
        assert(w * (T::s_zero() * z) == T::s_zero() && t * (T::s_zero() * z) == T::s_zero());
    }
    lemma_sum_add(f, g, all, n + 1);
    lemma_sum_times(w, base, f, n);
    assert(f(n as int) == T::s_zero());
    lemma_units(sum_upto(f, n));
    assert((n + 1 - 1) as nat == n);
    assert forall|j: int| 0 <= j < n implies g(j + 1) == t * #[trigger] next(j) by {}
    lemma_sum_shift(t, next, g, n);
}

/// Who is ahead or ties does not depend on later relations.
proof fn lemma_tied_push<T: Scalar>(st: &Stakes<T>, lev: int, rel: Seq<u8>, x: u8, n: nat)
    requires
        n <= rel.len(),
    ensures
        st.tied(lev, rel.push(x), n) == st.tied(lev, rel, n),
        beaten_upto(st, lev, rel.push(x), n) == beaten_upto(st, lev, rel, n),
    decreases n,
{
    if n > 0 {
        lemma_tied_push(st, lev, rel, x, (n - 1) as nat);
    }
    if beaten_upto(st, lev, rel.push(x), n) {
        let oi = choose|oi: int|
            0 <= oi < n && #[trigger] st.opp_in(lev, oi) && rel.push(x)[oi] == REL_LOSE;
        assert(rel[oi] == REL_LOSE);
    }
    if beaten_upto(st, lev, rel, n) {
        let oi = choose|oi: int|
            0 <= oi < n && #[trigger] st.opp_in(lev, oi) && rel[oi] == REL_LOSE;
        assert(rel.push(x)[oi] == REL_LOSE);
    }
}

/// One more relation.
proof fn lemma_standing_push<T: Scalar>(
    st: &Stakes<T>,
    lev: int,
    q: spec_fn(int) -> T,
    rel: Seq<u8>,
    x: u8,
)
    ensures
        standing(st, lev, q, rel.len() + 1)(rel.push(x)) == if !st.opp_in(lev, rel.len() as int) {
            standing(st, lev, q, rel.len())(rel)
        } else if x == REL_LOSE {
            T::s_zero()
        } else if x == REL_TIE {
            standing(st, lev, shifted(q), rel.len())(rel)
        } else {
            standing(st, lev, q, rel.len())(rel)
        },
{
    let n = rel.len();
    lemma_tied_push(st, lev, rel, x, n);
    let more = rel.push(x);
    if beaten_upto(st, lev, more, n) {
        let oi = choose|oi: int|
            0 <= oi < n && #[trigger] st.opp_in(lev, oi) && more[oi] == REL_LOSE;
        assert(0 <= oi < n + 1 && st.opp_in(lev, oi) && more[oi] == REL_LOSE);
    }
    if beaten_upto(st, lev, more, n + 1) {
        let oi = choose|oi: int|
            0 <= oi < n + 1 && #[trigger] st.opp_in(lev, oi) && more[oi] == REL_LOSE;
        if oi < n {
            assert(0 <= oi < n && st.opp_in(lev, oi) && more[oi] == REL_LOSE);
        }
    }
    if st.opp_in(lev, n as int) && x == REL_LOSE {
        assert(more[n as int] == REL_LOSE);
        assert(beaten_upto(st, lev, more, n + 1));
    }
    assert(st.tied(lev, more, n + 1) == st.tied(lev, more, n) + if st.opp_in(lev, n as int)
        && more[n as int] == REL_TIE {
        1nat
    } else {
        0nat
    });
}

/// The weights of the first opponents do not depend on later ones.
proof fn lemma_odds_prefix<T: Scalar>(st: &Stakes<T>, lev: int, sc: Seq<Odds<T>>, n: nat)
    requires
        n < sc.len(),
    ensures
        st.outside(lev, sc.drop_last(), n) == st.outside(lev, sc, n),
        st.tie_odds(lev, sc.drop_last(), n) == st.tie_odds(lev, sc, n),
        st.mass(sc.drop_last(), n) == st.mass(sc, n),
    decreases n,
{
    if n > 0 {
        lemma_odds_prefix(st, lev, sc, (n - 1) as nat);
        assert(sc.drop_last()[n - 1] == sc[n - 1]);
    }
}

/// What one level pays on average.
proof fn lemma_level<T: Scalar>(
    st: &Stakes<T>,
    lev: int,
    sc: Seq<Odds<T>>,
    q: spec_fn(int) -> T,
)
    requires
        is_exact::<T>(),
    ensures
        weighed(st, sc, standing(st, lev, q, sc.len())) == st.outside(lev, sc, sc.len()) * sum_upto(
            tie_terms(st.tie_odds(lev, sc, sc.len()), q),
            st.tie_odds(lev, sc, sc.len()).len(),
        ),
    decreases sc.len(),
{
    let n = sc.len();
    let f = standing(st, lev, q, n);
    if n == 0 {
        let e = Seq::<u8>::empty();
        assert(!beaten_upto(st, lev, e, 0));
        let d = st.tie_odds(lev, sc, 0);
        assert(d.len() == 1);
        let terms = tie_terms(d, q);
        assert(sum_upto(terms, 1) == sum_upto(terms, 0) + terms(0));
        lemma_units(q(1));
        lemma_units(sum_upto(terms, 1));
    } else {
        let m = (n - 1) as nat;
        let rest = sc.drop_last();
        let o = sc.last();
        let i: int = n - 1;
        let g = standing(st, lev, q, m);
        let g2 = standing(st, lev, shifted(q), m);
        let f2 = stepped(st, i, o, f);
        lemma_level(st, lev, rest, q);
        lemma_level(st, lev, rest, shifted(q));
        lemma_odds_prefix(st, lev, sc, m);
        let out = st.outside(lev, sc, m);
        let d = st.tie_odds(lev, sc, m);
        let s = sum_upto(tie_terms(d, q), d.len());
        let s2 = sum_upto(tie_terms(d, shifted(q)), d.len());
        assert forall|rel: Seq<u8>| rel.len() == m implies ({
            &&& f(#[trigger] rel.push(REL_FOLDED)) == if st.opp_in(lev, i) {
                f(rel.push(REL_FOLDED))
            } else {
                g(rel)
            }
            &&& f(rel.push(REL_WIN)) == g(rel)
            &&& f(rel.push(REL_TIE)) == if st.opp_in(lev, i) {
                g2(rel)
            } else {
                g(rel)
            }
            &&& f(rel.push(REL_LOSE)) == if st.opp_in(lev, i) {
                T::s_zero()
            } else {
                g(rel)
            }
        }) by {
            lemma_standing_push(st, lev, q, rel, REL_FOLDED);
            lemma_standing_push(st, lev, q, rel, REL_WIN);
            lemma_standing_push(st, lev, q, rel, REL_TIE);
            lemma_standing_push(st, lev, q, rel, REL_LOSE);
        }
        if st.opp_in(lev, i) {
            let a = |rel: Seq<u8>| o.win * g(rel);
            let b = |rel: Seq<u8>| o.tie * g2(rel);
            assert forall|rel: Seq<u8>| rel.len() == m implies #[trigger] f2(rel) == a(rel) + b(
                rel,
            ) by {
                let x = rel.push(REL_FOLDED);
                lemma_units(o.lose);
                lemma_units(a(rel) + b(rel));
            }
            lemma_weighed_add(st, rest, a, b, f2);
            lemma_weighed_times(st, rest, o.win, g, a);
            lemma_weighed_times(st, rest, o.tie, g2, b);
            lemma_tie_step(d, o.win, o.tie, q);
            let (w, t) = (o.win, o.tie);
            lemma_spread(out, w * s, t * s2);
            lemma_orders(out, w, s);
            lemma_orders(out, t, s2);
        } else {
            let c = if st.opp_folded(i) {
                o.compat
            } else {
                o.active()
            };
            assert forall|rel: Seq<u8>| rel.len() == m implies #[trigger] f2(rel) == c * g(rel) by {
                let x = rel.push(REL_FOLDED);
                let (w, t, l) = (o.win, o.tie, o.lose);
                let y = g(rel);
                lemma_spread3(y, w, t, l);
            }
            lemma_weighed_times(st, rest, c, g, f2);
            lemma_orders(c, out, s);
            lemma_orders(out, c, s);
        }
    }
}

/// One for every relation.
pub open spec fn always<T: Scalar>() -> spec_fn(Seq<u8>) -> T {
    |rel: Seq<u8>| T::s_one()
}

/// The weight of all relations.
proof fn lemma_mass<T: Scalar>(st: &Stakes<T>, sc: Seq<Odds<T>>)
    requires
        is_exact::<T>(),
    ensures
        weighed(st, sc, always::<T>()) == st.mass(sc, sc.len()),
    decreases sc.len(),
{
    let n = sc.len();
    if n > 0 {
        let m = (n - 1) as nat;
        let rest = sc.drop_last();
        let o = sc.last();
        let c = if st.opp_folded(n - 1) {
            o.compat
        } else {
            o.active()
        };
        let f2 = stepped(st, n - 1, o, always::<T>());
        lemma_mass(st, rest);
        lemma_odds_prefix(st, 0, sc, m);
        assert forall|rel: Seq<u8>| rel.len() == m implies #[trigger] f2(rel) == c * always::<T>()(rel) by {
            let (w, t, l) = (o.win, o.tie, o.lose);
            lemma_spread3(T::s_one(), w, t, l);
        }
        lemma_weighed_times(st, rest, c, always::<T>(), f2);
        let x = st.mass(sc, m);
        lemma_orders(c, x, x);
    }
}

/// What level `li` pays, exactly.
pub open spec fn pays<T: Scalar>(st: &Stakes<T>, li: int) -> spec_fn(
    Seq<u8>,
) -> T {
    |rel: Seq<u8>|
        match st.payout(rel, li) {
            Some(x) => x,
            None => T::s_zero(),
        }
}

/// What the first `n` levels pay, exactly.
pub open spec fn pays_upto<T: Scalar>(st: &Stakes<T>, n: nat) -> spec_fn(
    Seq<u8>,
) -> T {
    |rel: Seq<u8>| st.cash(rel, n)
}

/// What the traverser wins or loses, exactly.
pub open spec fn nets<T: Scalar>(st: &Stakes<T>) -> spec_fn(Seq<u8>) -> T {
    |rel: Seq<u8>| st.net(rel)
}

/// The traverser's share of a pot, exactly.
pub open spec fn share_of<T: Scalar>(pot: T) -> spec_fn(int) -> T {
    |j: int| pot.s_over(T::s_of(j))
}

proof fn lemma_share_by_ties<T: Scalar>(
    acc: T,
    out: T,
    d: Seq<T>,
    pot: T,
    n: nat,
)
    requires
        is_exact::<T>(),
    ensures
        share_by_ties(acc, out, d, pot, n) == acc + out * sum_upto(
            tie_terms(d, share_of(pot)),
            n,
        ),
    decreases n,
{
    let o = out;
    if n == 0 {
        lemma_units(o);
        lemma_units(acc);
    } else {
        lemma_share_by_ties(acc, out, d, pot, (n - 1) as nat);
        let f = tie_terms(d, share_of(pot));
        let k: int = n - 1;
        let (x, y) = (d[k], share_of(pot)(n as int));
        assert(f(k) == x * y);
        lemma_units(y);
        let s = sum_upto(f, (n - 1) as nat);
        lemma_spread(o, s, x * y);
        lemma_orders(o, x, y);
        lemma_orders(acc, o * s, o * x * y);
        lemma_units(s);
        lemma_units(o);
        lemma_nothing(d[k]);
    }
}

/// What the first `n` levels pay on average is the average of what they pay.
proof fn lemma_cash<T: Scalar>(st: &Stakes<T>, sc: Seq<Odds<T>>, n: nat)
    requires
        is_exact::<T>(),
        sc.len() == st.num_opp(),
        n <= st.levels().len(),
    ensures
        weighed(st, sc, pays_upto(st, n)) == st.cash_expected(sc, n),
    decreases n,
{
    let zero = |rel: Seq<u8>| T::s_zero() * always::<T>()(rel);
    lemma_weighed_times(st, sc, T::s_zero(), always::<T>(), zero);
    lemma_units(weighed(st, sc, always::<T>()));
    lemma_units(T::s_one());
    if n == 0 {
        lemma_weighed_same(st, sc, pays_upto(st, 0), zero);
    } else {
        let li: int = n - 1;
        let lev = st.levels()[li];
        let all = st.num_opp() as nat;
        let before = pays_upto(st, (n - 1) as nat);
        let now = pays(st, li);
        lemma_cash(st, sc, (n - 1) as nat);
        assert forall|rel: Seq<u8>| rel.len() == sc.len() implies #[trigger] pays_upto(st, n)(
            rel,
        ) == before(rel) + now(rel) by {
            lemma_units(before(rel));
        }
        lemma_weighed_add(st, sc, before, now, pays_upto(st, n));
        lemma_units(weighed(st, sc, before));
        let is_refund = !st.is_in(lev) && !st.some_opp_in(lev, all);
        if is_zero(st.level_pot(li)) {
            lemma_weighed_same(st, sc, now, zero);
        } else if is_refund && st.contributions[st.traverser] >= lev {
            let back = |rel: Seq<u8>| st.refund(li) * always::<T>()(rel);
            lemma_weighed_times(st, sc, st.refund(li), always::<T>(), back);
            lemma_mass(st, sc);
            lemma_units(st.refund(li));
            lemma_weighed_same(st, sc, now, back);
            lemma_orders(st.refund(li), st.mass(sc, sc.len()), T::s_zero());
        } else if is_refund || !st.is_in(lev) {
            lemma_weighed_same(st, sc, now, zero);
        } else {
            let pot = st.net_pot(li);
            let q = share_of(pot);
            let d = st.tie_odds(lev, sc, all);
            assert forall|rel: Seq<u8>| rel.len() == sc.len() implies #[trigger] now(rel)
                == standing(st, lev, q, all)(rel) by {
                assert(st.is_beaten(lev, rel) == beaten_upto(st, lev, rel, all));
            }
            lemma_weighed_same(st, sc, now, standing(st, lev, q, all));
            lemma_level(st, lev, sc, q);
            lemma_share_by_ties(
                st.cash_expected(sc, (n - 1) as nat),
                st.outside(lev, sc, all),
                d,
                pot,
                d.len(),
            );
        }
    }
}

/// The average payoff of one bucket tuple is the average over all relations.
pub proof fn law_average_over_relations<T: Scalar>(
    st: &Stakes<T>,
    sc: Seq<Odds<T>>,
)
    requires
        is_exact::<T>(),
        sc.len() == st.num_opp(),
    ensures
        st.net_expected(sc) == weighed(st, sc, nets(st)),
{
    let n = st.levels().len();
    let k = st.stake();
    let c = T::s_zero() - k;
    let lost = |rel: Seq<u8>| c * always::<T>()(rel);
    lemma_cash(st, sc, n);
    lemma_mass(st, sc);
    lemma_weighed_times(st, sc, c, always::<T>(), lost);
    assert forall|rel: Seq<u8>| rel.len() == sc.len() implies #[trigger] nets(st)(rel)
        == pays_upto(st, n)(rel) + lost(rel) by {
        lemma_units(c);
        lemma_undo(pays_upto(st, n)(rel), k);
    }
    lemma_weighed_add(st, sc, pays_upto(st, n), lost, nets(st));
    let m = st.mass(sc, sc.len());
    let x = st.cash_expected(sc, n);
    lemma_spread_difference(m, T::s_zero(), k);
    lemma_units(m);
    lemma_undo(x, k * m);
}

proof fn lemma_regroup<T: Scalar>(w: T, j: T, x: T, b: T)
    requires
        is_exact::<T>(),
    ensures
        w * (j * (x * b)) == (w * j * x) * b,
{
    lemma_orders(w * j, x, b);
    lemma_orders(w, j, x * b);
}

impl<T: Scalar> Field<T> {
    /// The exact weight of the next opponent holding bucket `bo`.
    pub open spec fn weight_of(&self, prefix: Seq<usize>, bo: int) -> T {
        match self.joint(prefix, bo, None) {
            Some(x) => x,
            None => T::s_zero(),
        }
    }

    proof fn lemma_chain(
        &self,
        prefix: Seq<usize>,
        bo: int,
        c: T,
        x: T,
        y: T,
        k: nat,
    )
        requires
            is_exact::<T>(),
            x == c * y,
        ensures
            self.chain(prefix, bo, x, k) is Some == self.chain(prefix, bo, y, k) is Some,
            self.chain(prefix, bo, x, k) matches Some(a) ==> a == c * self.chain(prefix, bo, y, k)->Some_0,
        decreases k,
    {
        if k > 0 {
            self.lemma_chain(prefix, bo, c, x, y, (k - 1) as nat);
            if let Some(a) = self.chain(prefix, bo, x, (k - 1) as nat) {
                let b = self.chain(prefix, bo, y, (k - 1) as nat)->Some_0;
                let f = self.compat[at(self.nb, prefix[k - 1] as int, bo)];
                let v = b;
                lemma_orders(c, v, f);
            }
        }
    }

    /// A weight multiplies through.
    proof fn lemma_joint(&self, prefix: Seq<usize>, bo: int, weight: T)
        requires
            is_exact::<T>(),
        ensures
            self.joint(prefix, bo, Some(weight)) matches Some(base) ==> base == weight
                * self.weight_of(prefix, bo),
            self.joint(prefix, bo, Some(weight)) is None ==> self.weight_of(prefix, bo) == T::s_zero(),
    {
        let r = self.reach[prefix.len() as int][bo];
        lemma_nothing(r);
        if !is_zero(r) {
            self.lemma_chain(prefix, bo, weight, weight.s_times(r), r, prefix.len());
        }
    }

    /// The exact payoffs of all bucket tuples and relations of the opponents after
    /// `prefix`.
    pub open spec fn brute_all(
        &self,
            st: &Stakes<T>,
        prefix: Seq<usize>,
        rel: Seq<u8>,
    ) -> T
        decreases self.num_opp() - prefix.len(), self.nb + 1,
    {
        if prefix.len() >= self.num_opp() || self.nb < 0 {
            st.net(rel)
        } else {
            self.brute_upto(st, prefix, rel, self.nb)
        }
    }

    /// The same, the next opponent holding one of the first `n` buckets.
    pub open spec fn brute_upto(
        &self,
            st: &Stakes<T>,
        prefix: Seq<usize>,
        rel: Seq<u8>,
        n: int,
    ) -> T
        decreases self.num_opp() - prefix.len(), n,
    {
        if n <= 0 || prefix.len() >= self.num_opp() {
            T::s_zero()
        } else {
            let i = at(self.nb, self.bt, n - 1);
            let longer = prefix.push((n - 1) as usize);
            self.brute_upto(st, prefix, rel, n - 1) + self.weight_of(prefix, n - 1) * (
            if st.opp_folded(prefix.len() as int) {
                self.compat[i] * self.brute_all(st, longer, rel.push(REL_FOLDED))
            } else {
                self.win[i] * self.brute_all(st, longer, rel.push(REL_WIN)) + self.tie[i] * self.brute_all(st, longer, rel.push(REL_TIE)) + self.lose[i]
                    * self.brute_all(st, longer, rel.push(REL_LOSE))
            })
        }
    }

    /// The enumeration adds its weight times the exact payoffs.
    pub(crate) proof fn lemma_levels_all(
        &self,
            st: &Stakes<T>,
        weight: T,
        prefix: Seq<usize>,
        rel: Seq<u8>,
        acc: T,
    )
        requires
            is_exact::<T>(),
        ensures
            self.levels_all(st, weight, prefix, rel, acc) == acc + weight
                * self.brute_all(st, prefix, rel),
        decreases self.num_opp() - prefix.len(), self.nb + 1,
    {
        if !(prefix.len() >= self.num_opp() || self.nb < 0) {
            self.lemma_levels_upto(st, weight, prefix, rel, acc, self.nb);
        }
    }

    proof fn lemma_levels_upto(
        &self,
            st: &Stakes<T>,
        weight: T,
        prefix: Seq<usize>,
        rel: Seq<u8>,
        acc: T,
        n: int,
    )
        requires
            is_exact::<T>(),
        ensures
            self.levels_upto(st, weight, prefix, rel, acc, n) == acc + weight
                * self.brute_upto(st, prefix, rel, n),
        decreases self.num_opp() - prefix.len(), n,
    {
        let w = weight;
        if n <= 0 || prefix.len() >= self.num_opp() {
            lemma_units(w);
            lemma_units(acc);
        } else {
            self.lemma_levels_upto(st, weight, prefix, rel, acc, n - 1);
            self.lemma_joint(prefix, n - 1, weight);
            let i = at(self.nb, self.bt, n - 1);
            let longer = prefix.push((n - 1) as usize);
            let j = self.weight_of(prefix, n - 1);
            let s = self.brute_upto(st, prefix, rel, n - 1);
            let prev = self.levels_upto(st, weight, prefix, rel, acc, n - 1);
            let (xf, xw, xt, xl) = (
                self.compat[i],
                self.win[i],
                self.tie[i],
                self.lose[i],
            );
            let bf = self.brute_all(st, longer, rel.push(REL_FOLDED));
            let bw = self.brute_all(st, longer, rel.push(REL_WIN));
            let bt = self.brute_all(st, longer, rel.push(REL_TIE));
            let bl = self.brute_all(st, longer, rel.push(REL_LOSE));
            let zero = T::s_zero();
            lemma_units(bf);
            lemma_units(bw);
            lemma_units(bt);
            lemma_units(bl);
            lemma_units(s);
            lemma_units(xf * bf);
            lemma_units(xw * bw + xt * bt + xl * bl);
            lemma_nothing(xf);
            lemma_nothing(xw);
            lemma_nothing(xt);
            lemma_nothing(xl);
            match self.joint(prefix, n - 1, Some(weight)) {
                None => {
                },
                Some(base) => {
                    let b = w * j;
                    if st.opp_folded(prefix.len() as int) {
                        self.lemma_levels_all(
                            st,
                            base.s_times(self.compat[i]),
                            longer,
                            rel.push(REL_FOLDED),
                            prev,
                        );
                        lemma_spread(w, s, j * (xf * bf));
                        lemma_regroup(w, j, xf, bf);
                        lemma_orders(acc, w * s, (w * j * xf) * bf);
                        lemma_units(b);
                        lemma_units(acc + w * s);
                    } else {
                        let won = if is_zero(self.win[i]) {
                            prev
                        } else {
                            self.levels_all(
                                st,
                                base.s_times(self.win[i]),
                                longer,
                                rel.push(REL_WIN),
                                prev,
                            )
                        };
                        self.lemma_levels_all(
                            st,
                            base.s_times(self.win[i]),
                            longer,
                            rel.push(REL_WIN),
                            prev,
                        );
                        let tied = if is_zero(self.tie[i]) {
                            won
                        } else {
                            self.levels_all(
                                st,
                                base.s_times(self.tie[i]),
                                longer,
                                rel.push(REL_TIE),
                                won,
                            )
                        };
                        self.lemma_levels_all(
                            st,
                            base.s_times(self.tie[i]),
                            longer,
                            rel.push(REL_TIE),
                            won,
                        );
                        self.lemma_levels_all(
                            st,
                            base.s_times(self.lose[i]),
                            longer,
                            rel.push(REL_LOSE),
                            tied,
                        );
                        lemma_units(b);
                        lemma_units(prev);
                        lemma_units(won);
                        lemma_units(tied);
                        lemma_regroup(w, j, xw, bw);
                        lemma_regroup(w, j, xt, bt);
                        lemma_regroup(w, j, xl, bl);
                        let (x, y, z) = (xw * bw, xt * bt, xl * bl);
                        lemma_spread3(j, x, y, z);
                        let (x2, y2, z2) = (j * x, j * y, j * z);
                        lemma_spread(w, s, x2 + y2 + z2);
                        lemma_spread3(w, x2, y2, z2);
                        let (x3, y3, z3) = (w * x2, w * y2, w * z2);
                        let from = acc + w * s;
                        assert(won == from + x3);
                        assert(tied == won + y3);
                        lemma_orders(acc, w * s, x3 + y3 + z3);
                        lemma_orders(from, x3 + y3, z3);
                        lemma_orders(from, x3, y3);
                    }
                },
            }
        }
    }

    /// The exact average payoffs of all bucket tuples of the opponents after `prefix`.
    pub open spec fn mean_all(
        &self,
            st: &Stakes<T>,
        prefix: Seq<usize>,
        sc: Seq<Odds<T>>,
    ) -> T
        decreases self.num_opp() - prefix.len(), self.nb + 1,
    {
        if prefix.len() >= self.num_opp() || self.nb < 0 {
            st.net_expected(sc)
        } else {
            self.mean_upto(st, prefix, sc, self.nb)
        }
    }

    /// The same, the next opponent holding one of the first `n` buckets.
    pub open spec fn mean_upto(
        &self,
            st: &Stakes<T>,
        prefix: Seq<usize>,
        sc: Seq<Odds<T>>,
        n: int,
    ) -> T
        decreases self.num_opp() - prefix.len(), n,
    {
        if n <= 0 || prefix.len() >= self.num_opp() {
            T::s_zero()
        } else {
            self.mean_upto(st, prefix, sc, n - 1) + self.weight_of(prefix, n - 1) * (
            match self.odds(st.opp_folded(prefix.len() as int), n - 1) {
                Some(o) => self.mean_all(st, prefix.push((n - 1) as usize), sc.push(o)),
                None => T::s_zero(),
            })
        }
    }

    proof fn lemma_tuples_all(
        &self,
            st: &Stakes<T>,
        weight: T,
        prefix: Seq<usize>,
        sc: Seq<Odds<T>>,
        acc: T,
    )
        requires
            is_exact::<T>(),
        ensures
            self.tuples_all(st, weight, prefix, sc, acc) == acc + weight
                * self.mean_all(st, prefix, sc),
        decreases self.num_opp() - prefix.len(), self.nb + 1,
    {
        if !(prefix.len() >= self.num_opp() || self.nb < 0) {
            self.lemma_tuples_upto(st, weight, prefix, sc, acc, self.nb);
        }
    }

    proof fn lemma_tuples_upto(
        &self,
            st: &Stakes<T>,
        weight: T,
        prefix: Seq<usize>,
        sc: Seq<Odds<T>>,
        acc: T,
        n: int,
    )
        requires
            is_exact::<T>(),
        ensures
            self.tuples_upto(st, weight, prefix, sc, acc, n) == acc + weight
                * self.mean_upto(st, prefix, sc, n),
        decreases self.num_opp() - prefix.len(), n,
    {
        let w = weight;
        if n <= 0 || prefix.len() >= self.num_opp() {
            lemma_units(w);
            lemma_units(acc);
        } else {
            self.lemma_tuples_upto(st, weight, prefix, sc, acc, n - 1);
            self.lemma_joint(prefix, n - 1, weight);
            let j = self.weight_of(prefix, n - 1);
            let s = self.mean_upto(st, prefix, sc, n - 1);
            let prev = self.tuples_upto(st, weight, prefix, sc, acc, n - 1);
            let longer = prefix.push((n - 1) as usize);
            let o = self.odds(st.opp_folded(prefix.len() as int), n - 1);
            lemma_units(j);
            lemma_units(s);
            if let Some(x) = o {
                let m = self.mean_all(st, longer, sc.push(x));
                lemma_units(m);
                lemma_spread(w, s, j * m);
                lemma_orders(w, j, m);
                lemma_orders(acc, w * s, (w * j) * m);
                if let Some(base) = self.joint(prefix, n - 1, Some(weight)) {
                    self.lemma_tuples_all(st, base, longer, sc.push(x), prev);
                }
            }
        }
    }

    /// The exact payoffs after `prefix`, by relations so far.
    pub open spec fn brute_by(
        &self,
            st: &Stakes<T>,
        prefix: Seq<usize>,
    ) -> spec_fn(Seq<u8>) -> T {
        |rel: Seq<u8>| self.brute_all(st, prefix, rel)
    }

    pub open spec fn brute_by_upto(
        &self,
            st: &Stakes<T>,
        prefix: Seq<usize>,
        n: int,
    ) -> spec_fn(Seq<u8>) -> T {
        |rel: Seq<u8>| self.brute_upto(st, prefix, rel, n)
    }

    /// Averages of all tuples are the averages over all relations.
    proof fn lemma_mean_all(
        &self,
            st: &Stakes<T>,
        prefix: Seq<usize>,
        sc: Seq<Odds<T>>,
    )
        requires
            is_exact::<T>(),
            self.num_opp() == st.num_opp(),
            0 <= self.nb,
            prefix.len() == sc.len() <= self.num_opp(),
        ensures
            self.mean_all(st, prefix, sc) == weighed(
                st,
                sc,
                self.brute_by(st, prefix),
            ),
        decreases self.num_opp() - prefix.len(), self.nb + 1,
    {
        if prefix.len() >= self.num_opp() {
            law_average_over_relations(st, sc);
            lemma_weighed_same(st, sc, nets(st), self.brute_by(st, prefix));
        } else {
            self.lemma_mean_upto(st, prefix, sc, self.nb);
            lemma_weighed_same(
                st,
                sc,
                self.brute_by_upto(st, prefix, self.nb),
                self.brute_by(st, prefix),
            );
        }
    }

    proof fn lemma_mean_upto(
        &self,
            st: &Stakes<T>,
        prefix: Seq<usize>,
        sc: Seq<Odds<T>>,
        n: int,
    )
        requires
            is_exact::<T>(),
            self.num_opp() == st.num_opp(),
            0 <= self.nb,
            prefix.len() == sc.len() < self.num_opp(),
            0 <= n <= self.nb,
        ensures
            self.mean_upto(st, prefix, sc, n) == weighed(
                st,
                sc,
                self.brute_by_upto(st, prefix, n),
            ),
        decreases self.num_opp() - prefix.len(), n,
    {
        let f = self.brute_by_upto(st, prefix, n);
        if n == 0 {
            let zero = |rel: Seq<u8>| T::s_zero() * always::<T>()(rel);
            lemma_weighed_times(st, sc, T::s_zero(), always::<T>(), zero);
            lemma_units(T::s_one());
            lemma_units(weighed(st, sc, always::<T>()));
            lemma_weighed_same(st, sc, f, zero);
        } else {
            self.lemma_mean_upto(st, prefix, sc, n - 1);
            let before = self.brute_by_upto(st, prefix, n - 1);
            let longer = prefix.push((n - 1) as usize);
            let j = self.weight_of(prefix, n - 1);
            let k = prefix.len() as int;
            let below = self.brute_by(st, longer);
            match self.odds(st.opp_folded(k), n - 1) {
                Some(o) => {
                    let more = sc.push(o);
                    self.lemma_mean_all(st, longer, more);
                    assert(more.drop_last() =~= sc);
                    let step = stepped(st, k, o, below);
                    let now = |rel: Seq<u8>| j * step(rel);
                    lemma_weighed_times(st, sc, j, step, now);
                    assert forall|rel: Seq<u8>| rel.len() == sc.len() implies #[trigger] f(rel)
                        == before(rel) + now(rel) by {}
                    lemma_weighed_add(st, sc, before, now, f);
                },
                None => {
                    assert forall|rel: Seq<u8>| rel.len() == sc.len() implies #[trigger] f(rel)
                        == before(rel) by {
                        let bf = below(rel.push(REL_FOLDED));
                        let bw = below(rel.push(REL_WIN));
                        let bt = below(rel.push(REL_TIE));
                        let bl = below(rel.push(REL_LOSE));
                        lemma_units(bf);
                        lemma_units(bw);
                        lemma_units(bt);
                        lemma_units(bl);
                        lemma_units(j);
                        lemma_units(T::s_zero());
                        lemma_units(before(rel));
                        let i = at(self.nb, self.bt, n - 1);
                        lemma_nothing(self.compat[i]);
                        lemma_nothing(self.win[i]);
                        lemma_nothing(self.tie[i]);
                        lemma_nothing(self.lose[i]);
                    }
                    lemma_weighed_same(st, sc, f, before);
                    lemma_units(j);
                    lemma_units(self.mean_upto(st, prefix, sc, n - 1));
                },
            }
        }
    }

    /// Where every player has put in the same and nobody has folded, averaging over
    /// relations computes the very same, whatever the numbers.
    pub proof fn law_even_collapse_is_the_same(&self, st: &Stakes<T>)
        requires
            st.is_even(),
        ensures
            self.collapsed_value(st) == self.value(st),
    {
    }

    /// Where numbers are exact, averaging every bucket tuple over its relations is no
    /// approximation: the value of a showdown is the same.
    pub proof fn law_collapse_is_exact(&self, st: &Stakes<T>)
        requires
            is_exact::<T>(),
            self.num_opp() == st.num_opp(),
            0 <= self.nb,
        ensures
            self.collapsed_value(st) == self.value(st),
    {
        if !st.is_even() {
            let one = T::s_one();
            let zero = T::s_zero();
            let e = Seq::<usize>::empty();
            self.lemma_levels_all(st, one, e, Seq::empty(), zero);
            self.lemma_tuples_all(st, one, e, Seq::empty(), zero);
            self.lemma_mean_all(st, e, Seq::empty());
            lemma_units(self.brute_all(st, e, Seq::empty()));
            lemma_units(self.mean_all(st, e, Seq::empty()));
        }
    }
}

} // verus!
