//! A showdown in which all hands are in one bucket factors exactly.
use vstd::prelude::*;

use crate::bucketed_showdown::{
    beaten_after, even_leaf, even_step, independent_state, is_zero, relations_all, ties_after,
    unit_net, Field, Odds, REL_FOLDED, REL_LOSE, REL_TIE, REL_WIN, Stakes, Step,
};
use crate::exact::{
    is_exact, lemma_nothing, lemma_orders, lemma_spread, lemma_spread3, lemma_units, Exact,
};
use crate::layout::at;
use crate::scalar::{Scalar, Widen};

verus! {

/// Narrow and wide numbers keep the laws of arithmetic, widening keeps products, narrowing
/// undoes it, and a wide quotient undoes a product.
pub open spec fn widens_exactly<T: Widen>() -> bool {
    &&& is_exact::<T>()
    &&& is_exact::<T::Wide>()
    &&& is_zero(T::s_zero())
    &&& forall|x: T, y: T| #[trigger]
        x.s_times(y).s_widen() == x.s_widen().s_times(y.s_widen())
    &&& forall|x: T| #[trigger] T::s_narrow(x.s_widen()) == x
    &&& T::s_one().s_widen() == T::Wide::s_one()
    &&& T::s_zero().s_widen() == T::Wide::s_zero()
    &&& is_zero(T::Wide::s_zero())
    &&& forall|t: T::Wide, x: T::Wide|
        !is_zero(t) ==> #[trigger] t.s_times(x).s_over(t) == x
}

/// `c` times itself, `n` times over.
pub open spec fn power<T: Scalar>(c: T, n: nat) -> T
    decreases n,
{
    if n == 0 {
        T::s_one()
    } else {
        power(c, (n - 1) as nat).s_times(c)
    }
}

proof fn lemma_power_sum<T: Scalar>(c: T, a: nat, b: nat)
    requires
        is_exact::<T>(),
    ensures
        power(c, a + b) == power(c, a) * power(c, b),
    decreases b,
{
    if b == 0 {
        lemma_units(power(c, a));
    } else {
        lemma_power_sum(c, a, (b - 1) as nat);
        lemma_orders(power(c, a), power(c, (b - 1) as nat), c);
    }
}

/// The payoffs of all relations of the opponents after `rel`, each times its weight.
pub open spec fn plain_all<T: Scalar>(st: &Stakes<T>, probs: Seq<Odds<T>>, rel: Seq<u8>) -> T
    decreases probs.len() - rel.len(),
{
    if rel.len() >= probs.len() {
        st.net(rel)
    } else {
        let p = probs[rel.len() as int];
        if st.opp_folded(rel.len() as int) {
            p.compat * plain_all(st, probs, rel.push(REL_FOLDED))
        } else {
            p.win * plain_all(st, probs, rel.push(REL_WIN)) + p.tie * plain_all(
                st,
                probs,
                rel.push(REL_TIE),
            ) + p.lose * plain_all(st, probs, rel.push(REL_LOSE))
        }
    }
}

/// One relation's part of [`relations_all`].
proof fn lemma_branch<T: Scalar>(weight: T, p: T, x: T, acc: T)
    requires
        is_exact::<T>(),
    ensures
        acc + (weight * p) * x == acc + weight * (p * x),
        is_zero(p) ==> acc == acc + weight * (p * x),
{
    lemma_orders(weight, p, x);
    lemma_nothing(p);
    lemma_units(x);
    lemma_units(weight);
    lemma_units(acc);
}

proof fn lemma_relations<T: Scalar>(
    st: &Stakes<T>,
    probs: Seq<Odds<T>>,
    weight: T,
    rel: Seq<u8>,
    acc: T,
)
    requires
        is_exact::<T>(),
    ensures
        relations_all(st, probs, weight, rel, acc) == acc + weight * plain_all(st, probs, rel),
    decreases probs.len() - rel.len(),
{
    if rel.len() < probs.len() {
        let p = probs[rel.len() as int];
        let w = weight;
        if st.opp_folded(rel.len() as int) {
            let x = plain_all(st, probs, rel.push(REL_FOLDED));
            lemma_branch(w, p.compat, x, acc);
            lemma_relations(st, probs, w.s_times(p.compat), rel.push(REL_FOLDED), acc);
        } else {
            let x = plain_all(st, probs, rel.push(REL_WIN));
            let y = plain_all(st, probs, rel.push(REL_TIE));
            let z = plain_all(st, probs, rel.push(REL_LOSE));
            let won = acc + w * (p.win * x);
            let tied = won + w * (p.tie * y);
            lemma_branch(w, p.win, x, acc);
            lemma_branch(w, p.tie, y, won);
            lemma_branch(w, p.lose, z, tied);
            lemma_relations(st, probs, w.s_times(p.win), rel.push(REL_WIN), acc);
            lemma_relations(st, probs, w.s_times(p.tie), rel.push(REL_TIE), won);
            lemma_relations(st, probs, w.s_times(p.lose), rel.push(REL_LOSE), tied);
            let (a, b, c) = (p.win * x, p.tie * y, p.lose * z);
            lemma_spread3(w, a, b, c);
            lemma_orders(acc, w * a, w * b);
            lemma_orders(acc, w * a + w * b, w * c);
        }
    }
}

/// Whoever cannot stand in any relation leaves no payoff.
proof fn lemma_no_relation<T: Scalar>(st: &Stakes<T>, probs: Seq<Odds<T>>, rel: Seq<u8>, i: int)
    requires
        is_exact::<T>(),
        rel.len() <= i < probs.len(),
        is_nothing(probs[i]),
    ensures
        plain_all(st, probs, rel) == T::s_zero(),
    decreases probs.len() - rel.len(),
{
    let p = probs[rel.len() as int];
    let (f, x, y, z) = (
        plain_all(st, probs, rel.push(REL_FOLDED)),
        plain_all(st, probs, rel.push(REL_WIN)),
        plain_all(st, probs, rel.push(REL_TIE)),
        plain_all(st, probs, rel.push(REL_LOSE)),
    );
    if rel.len() < i {
        lemma_no_relation(st, probs, rel.push(REL_FOLDED), i);
        lemma_no_relation(st, probs, rel.push(REL_WIN), i);
        lemma_no_relation(st, probs, rel.push(REL_TIE), i);
        lemma_no_relation(st, probs, rel.push(REL_LOSE), i);
    }
    lemma_units(p.compat);
    lemma_units(p.win);
    lemma_units(p.tie);
    lemma_units(p.lose);
    lemma_units(f);
    lemma_units(x);
    lemma_units(y);
    lemma_units(z);
    lemma_units(T::s_zero());
}

/// No weight in any relation.
pub open spec fn is_nothing<T: Scalar>(o: Odds<T>) -> bool {
    let zero = T::s_zero();
    o.win == zero && o.tie == zero && o.lose == zero && o.compat == zero
}

/// The opponents before `n`, each with as many as there are before them.
pub open spec fn pairs_upto(n: nat) -> nat
    decreases n,
{
    if n == 0 {
        0
    } else {
        pairs_upto((n - 1) as nat) + (n - 1) as nat
    }
}

impl<T: Widen> Field<T> {
    /// All hands are in one bucket, and the fraction of pairs that share no card is the sum
    /// of those that win, tie and lose.
    pub open spec fn is_one_bucket(&self) -> bool {
        &&& self.nb == 1
        &&& self.bt == 0
        &&& self.compat[0] == self.win[0].s_plus(self.tie[0]).s_plus(self.lose[0])
    }

    /// No pair of hands can meet if no pair shares no card.
    pub open spec fn adds_up(&self) -> bool {
        self.compat[0] == T::s_zero() ==> self.win[0] == T::s_zero() && self.tie[0] == T::s_zero()
            && self.lose[0] == T::s_zero()
    }

    /// How opponent `oi` stands: their reach times the fractions.
    proof fn lemma_blend(&self, oi: int)
        requires
            is_exact::<T>(),
            self.is_one_bucket(),
            0 <= oi < self.reach.len(),
        ensures
            self.all_blended()[oi] == (Odds {
                win: self.reach[oi][0] * self.win[0],
                tie: self.reach[oi][0] * self.tie[0],
                lose: self.reach[oi][0] * self.lose[0],
                compat: self.reach[oi][0] * self.compat[0],
            }),
    {
        let r = self.reach[oi][0];
        reveal_with_fuel(Field::blended, 2);
        assert(at(self.nb, self.bt, 0) == 0);
        lemma_nothing(r);
        lemma_units(self.win[0]);
        lemma_units(self.tie[0]);
        lemma_units(self.lose[0]);
        lemma_units(self.compat[0]);
        lemma_units(r * self.win[0]);
        lemma_units(r * self.tie[0]);
        lemma_units(r * self.lose[0]);
        lemma_units(r * self.compat[0]);
    }

    /// The weight of the next opponent: their reach, times the fraction once for every
    /// opponent before them.
    proof fn lemma_one_chain(&self, prefix: Seq<usize>, x: T, k: nat)
        requires
            is_exact::<T>(),
            is_zero(T::s_zero()),
            self.is_one_bucket(),
            k <= prefix.len(),
            forall|j: int| 0 <= j < prefix.len() ==> #[trigger] prefix[j] == 0,
        ensures
            self.chain(prefix, 0, x, k) matches Some(y) ==> y == x * power(self.compat[0], k),
            self.chain(prefix, 0, x, k) is None <==> (k > 0 && is_zero(self.compat[0])),
        decreases k,
    {
        if k == 0 {
            lemma_units(x);
        } else {
            self.lemma_one_chain(prefix, x, (k - 1) as nat);
            assert(prefix[k - 1] == 0);
            assert(at(self.nb, prefix[k - 1] as int, 0) == 0);
            lemma_orders(x, power(self.compat[0], (k - 1) as nat), self.compat[0]);
        }
    }

    proof fn lemma_one_weight(&self, prefix: Seq<usize>)
        requires
            is_exact::<T>(),
            is_zero(T::s_zero()),
            self.is_one_bucket(),
            prefix.len() < self.num_opp(),
            forall|j: int| 0 <= j < prefix.len() ==> #[trigger] prefix[j] == 0,
        ensures
            self.weight_of(prefix, 0) == self.reach[prefix.len() as int][0] * power(
                self.compat[0],
                prefix.len(),
            ),
    {
        let k = prefix.len();
        let r = self.reach[k as int][0];
        let c = self.compat[0];
        self.lemma_one_chain(prefix, r, k);
        lemma_nothing(r);
        lemma_nothing(c);
        lemma_units(power(c, k));
        lemma_units(r);
        if k > 0 && is_zero(c) {
            lemma_units(power(c, (k - 1) as nat));
        }
    }

    /// The enumeration counts the fraction once for every pair of opponents.
    proof fn lemma_brute_is_plain(&self, st: &Stakes<T>, prefix: Seq<usize>, rel: Seq<u8>, e: nat)
        requires
            is_exact::<T>(),
            is_zero(T::s_zero()),
            self.is_one_bucket(),
            prefix.len() == rel.len() <= self.num_opp(),
            forall|j: int| 0 <= j < prefix.len() ==> #[trigger] prefix[j] == 0,
            e + pairs_upto(prefix.len()) == pairs_upto(self.num_opp() as nat),
        ensures
            self.brute_all(st, prefix, rel) == power(self.compat[0], e) * plain_all(
                st,
                self.all_blended(),
                rel,
            ),
        decreases self.num_opp() - prefix.len(),
    {
        let probs = self.all_blended();
        let c = self.compat[0];
        let k = prefix.len();
        if k >= self.num_opp() {
            lemma_units(st.net(rel));
        } else {
            let r = self.reach[k as int][0];
            let longer = prefix.push(0);
            lemma_pairs_step(k, self.num_opp() as nat);
            let f = (e - k) as nat;
            self.lemma_blend(k as int);
            self.lemma_one_weight(prefix);
            self.lemma_brute_is_plain(st, longer, rel.push(REL_FOLDED), f);
            self.lemma_brute_is_plain(st, longer, rel.push(REL_WIN), f);
            self.lemma_brute_is_plain(st, longer, rel.push(REL_TIE), f);
            self.lemma_brute_is_plain(st, longer, rel.push(REL_LOSE), f);
            assert(at(self.nb, self.bt, 0) == 0);
            let one: int = 1;
            assert(one - 1 == 0 && prefix.push((one - 1) as usize) == longer);
            assert(self.brute_all(st, prefix, rel) == self.brute_upto(st, prefix, rel, one));
            assert(self.brute_upto(st, prefix, rel, 0) == T::s_zero());
            let pf = power(c, f);
            let pk = power(c, k);
            lemma_power_sum(c, k, f);
            assert(power(c, e) == pk * pf);
            let g = plain_all(st, probs, rel.push(REL_FOLDED));
            let (x, y, z) = (
                plain_all(st, probs, rel.push(REL_WIN)),
                plain_all(st, probs, rel.push(REL_TIE)),
                plain_all(st, probs, rel.push(REL_LOSE)),
            );
            let inner = if st.opp_folded(k as int) {
                c * (pf * g)
            } else {
                self.win[0] * (pf * x) + self.tie[0] * (pf * y) + self.lose[0] * (pf * z)
            };
            assert(self.brute_all(st, prefix, rel) == T::s_zero() + (r * pk) * inner);
            lemma_units((r * pk) * inner);
            if st.opp_folded(k as int) {
                lemma_weigh(r, pk, c, pf, g);
            } else {
                lemma_weigh(r, pk, self.win[0], pf, x);
                lemma_weigh(r, pk, self.tie[0], pf, y);
                lemma_weigh(r, pk, self.lose[0], pf, z);
                lemma_spread3(
                    r * pk,
                    self.win[0] * (pf * x),
                    self.tie[0] * (pf * y),
                    self.lose[0] * (pf * z),
                );
                lemma_spread3(
                    pk * pf,
                    (r * self.win[0]) * x,
                    (r * self.tie[0]) * y,
                    (r * self.lose[0]) * z,
                );
            }
        }
    }
}

proof fn lemma_pairs_step(k: nat, n: nat)
    requires
        k < n,
    ensures
        pairs_upto(k + 1) == pairs_upto(k) + k,
        pairs_upto(k + 1) <= pairs_upto(n),
    decreases n,
{
    if k + 1 < n {
        lemma_pairs_step(k, (n - 1) as nat);
    }
}

/// One product in another order.
proof fn lemma_weigh<T: Scalar>(r: T, pk: T, w: T, pf: T, x: T)
    requires
        is_exact::<T>(),
    ensures
        (r * pk) * (w * (pf * x)) == (pk * pf) * ((r * w) * x),
{
    lemma_orders(w, pf, x);
    lemma_orders(r * pk, pf, w * x);
    lemma_orders(r, pk, w * x);
    lemma_orders(r, w, x);
    lemma_orders(pk, pf, r * (w * x));
    lemma_orders(pf, pk, r * (w * x));
    lemma_orders(pk, r, w * x);
}

/// The later partners of the first `n` of `m` opponents.
pub open spec fn partners(m: nat, n: nat) -> nat
    decreases n,
{
    if n == 0 {
        0
    } else {
        partners(m, (n - 1) as nat) + (m - n) as nat
    }
}

proof fn lemma_partners(m: nat, n: nat)
    requires
        n <= m,
    ensures
        partners(m, n) + pairs_upto((m - n) as nat) == pairs_upto(m),
    decreases n,
{
    if n > 0 {
        lemma_partners(m, (n - 1) as nat);
        assert(pairs_upto((m - n + 1) as nat) == pairs_upto((m - n) as nat) + (m - n) as nat);
    }
}

proof fn lemma_power_widens<T: Widen>(c: T, n: nat)
    requires
        widens_exactly::<T>(),
    ensures
        power(c.s_widen(), n) == power(c, n).s_widen(),
    decreases n,
{
    if n > 0 {
        lemma_power_widens(c, (n - 1) as nat);
    }
}

/// A wide product is nothing only if one of its parts is.
proof fn lemma_wide_parts<T: Widen>(x: T::Wide, y: T::Wide)
    requires
        widens_exactly::<T>(),
        !is_zero(x),
        !is_zero(y),
    ensures
        !is_zero(x.s_times(y)),
{
    if is_zero(x.s_times(y)) {
        lemma_nothing(x.s_times(y));
        lemma_units(x);
        assert(x.s_times(y).s_over(x) == y);
        assert(x.s_times(T::Wide::s_zero()).s_over(x) == T::Wide::s_zero());
    }
}

impl<T: Widen> Field<T> {
    /// Opponent `oi`'s weight of sharing no card with the traverser, wide.
    proof fn lemma_free_reach(&self, oi: int)
        requires
            widens_exactly::<T>(),
            self.is_one_bucket(),
            0 <= oi < self.reach.len(),
        ensures
            self.free_reach(oi, 0) == self.all_blended()[oi].compat.s_widen(),
    {
        self.lemma_blend(oi);
        assert(at(self.nb, self.bt, 0) == 0);
        let (r, c) = (self.reach[oi][0], self.compat[0]);
        assert(r.s_times(c).s_widen() == r.s_widen().s_times(c.s_widen()));
    }

    /// Every opponent can hold a hand that shares no card with the traverser's.
    pub open spec fn all_free(&self) -> bool {
        forall|oi: int|
            0 <= oi < self.reach.len() ==> !is_zero(
                (#[trigger] self.all_blended()[oi]).compat.s_widen(),
            )
    }

    /// With one bucket the mean compatibility of two opponents is the fraction.
    proof fn lemma_mean(&self, i: int, j: int)
        requires
            widens_exactly::<T>(),
            self.is_one_bucket(),
            self.all_free(),
            0 <= i < self.reach.len(),
            0 <= j < self.reach.len(),
        ensures
            self.pair_compat_mass(i, j, self.nb as nat).s_over(
                self.all_blended()[i].compat.s_widen().s_times(
                    self.all_blended()[j].compat.s_widen(),
                ),
            ) == self.compat[0].s_widen(),
    {
        let ni = self.all_blended()[i].compat.s_widen();
        let nj = self.all_blended()[j].compat.s_widen();
        let c = self.compat[0].s_widen();
        let zero = T::Wide::s_zero();
        self.lemma_free_reach(i);
        self.lemma_free_reach(j);
        assert(at(self.nb, 0, 0) == 0);
        let one: nat = 1;
        assert((one - 1) as nat == 0);
        assert(self.pair_compat_mass(i, j, 0) == zero);
        assert(self.pair_compat_mass(i, j, one) == self.row_compat(ni, 0, j, zero, one));
        assert(self.row_compat(ni, 0, j, zero, 0) == zero);
        assert(self.row_compat(ni, 0, j, zero, one) == zero.s_plus(ni.s_times(nj).s_times(c)));
        lemma_units(ni.s_times(nj).s_times(c));
        lemma_wide_parts::<T>(ni, nj);
        assert(ni.s_times(nj).s_times(c).s_over(ni.s_times(nj)) == c);
    }

    proof fn lemma_thinned_by(&self, i: int, x: T::Wide, m: int)
        requires
            widens_exactly::<T>(),
            self.is_one_bucket(),
            self.all_free(),
            0 <= i < m <= self.num_opp(),
        ensures
            self.thinned_by(i, x, m) == x * power(self.compat[0].s_widen(), (m - i - 1) as nat),
        decreases m,
    {
        let c = self.compat[0].s_widen();
        if m <= i + 1 {
            lemma_units(x);
        } else {
            self.lemma_thinned_by(i, x, m - 1);
            self.lemma_mean(i, m - 1);
            assert(!is_zero(self.all_blended()[m - 1].compat.s_widen()));
            let e = (m - i - 2) as nat;
            assert((m - i - 1) as nat == e + 1);
            lemma_orders(x, power(c, e), c);
        }
    }

    proof fn lemma_thinned(&self, n: nat)
        requires
            widens_exactly::<T>(),
            self.is_one_bucket(),
            self.all_free(),
            n <= self.num_opp(),
        ensures
            self.thinned(n) == power(
                self.compat[0].s_widen(),
                partners(self.num_opp() as nat, n),
            ),
        decreases n,
    {
        let m = self.num_opp() as nat;
        let c = self.compat[0].s_widen();
        if n > 0 {
            let k = (n - 1) as nat;
            self.lemma_thinned(k);
            assert(!is_zero(self.all_blended()[n - 1].compat.s_widen()));
            self.lemma_thinned_by(n - 1, self.thinned(k), self.num_opp());
            lemma_power_sum(c, partners(m, k), (m - n) as nat);
        }
    }

    /// The scale counts the fraction once for every pair of opponents.
    proof fn lemma_scale(&self)
        requires
            widens_exactly::<T>(),
            self.is_one_bucket(),
            self.all_free(),
        ensures
            self.mass_scale() == power(self.compat[0], pairs_upto(self.num_opp() as nat)),
    {
        let n = self.num_opp() as nat;
        self.lemma_thinned(n);
        lemma_partners(n, n);
        lemma_power_widens(self.compat[0], pairs_upto(n));
    }

    /// An opponent who cannot hold such a hand stands in no relation.
    proof fn lemma_not_free(&self, oi: int)
        requires
            widens_exactly::<T>(),
            self.is_one_bucket(),
            self.adds_up(),
            0 <= oi < self.reach.len(),
            is_zero(self.all_blended()[oi].compat.s_widen()),
        ensures
            is_nothing(self.all_blended()[oi]),
            self.reach[oi][0] == T::s_zero() || self.compat[0] == T::s_zero(),
    {
        self.lemma_blend(oi);
        let (r, c) = (self.reach[oi][0], self.compat[0]);
        assert(r.s_times(c).s_widen() == r.s_widen().s_times(c.s_widen()));
        assert(is_zero(r.s_widen()) || is_zero(c.s_widen())) by {
            if !is_zero(r.s_widen()) && !is_zero(c.s_widen()) {
                lemma_wide_parts::<T>(r.s_widen(), c.s_widen());
            }
        }
        lemma_nothing(r.s_widen());
        lemma_nothing(c.s_widen());
        assert(T::s_narrow(r.s_widen()) == r && T::s_narrow(c.s_widen()) == c && T::s_narrow(
            T::s_zero().s_widen(),
        ) == T::s_zero());
        lemma_units(self.win[0]);
        lemma_units(self.tie[0]);
        lemma_units(self.lose[0]);
        lemma_units(c);
        lemma_units(r);
    }
}

/// Every entry times `x`.
pub open spec fn scaled<T: Scalar>(state: Seq<T>, x: T) -> Seq<T> {
    Seq::new(state.len(), |j: int| x * state[j])
}

/// A product of scaled parts is the scaled product; what is taken for nothing is nothing.
proof fn lemma_term<T: Scalar>(x: T, s: T, m: T, l: T)
    requires
        is_exact::<T>(),
    ensures
        (x * s) * (m * l) == (x * m) * (s * l),
        is_zero(x * s) ==> (x * m) * (s * l) == T::s_zero(),
        is_zero(s) ==> s * l == T::s_zero(),
        l == T::s_zero() ==> s * l == T::s_zero(),
{
    lemma_orders(x, s, m * l);
    lemma_orders(s, m, l);
    lemma_orders(x, m, s * l);
    lemma_nothing(x * s);
    lemma_nothing(s);
    lemma_units(m * l);
    lemma_units(s);
    lemma_units(l);
}

proof fn lemma_beaten<T: Scalar>(
    state: Seq<T>,
    x: T,
    m: T,
    a: Step<T>,
    b: Step<T>,
    k: nat,
)
    requires
        is_exact::<T>(),
        b.compat == m * a.compat,
        b.lose == m * a.lose,
        a.lose_counts,
        !b.lose_counts ==> a.lose == T::s_zero(),
        k < state.len(),
    ensures
        beaten_after(scaled(state, x), b.compat, b.lose, b.lose_counts, k) == (x * m)
            * beaten_after(state, a.compat, a.lose, a.lose_counts, k),
    decreases k,
{
    let s = state[k as int];
    assert(scaled(state, x)[k as int] == x * s);
    let xm = x * m;
    lemma_units(xm);
    if k == 0 {
        lemma_term(x, s, m, a.compat);
        lemma_units(s * a.compat);
        lemma_units((x * s) * b.compat);
    } else {
        let j = (k - 1) as nat;
        lemma_beaten(state, x, m, a, b, j);
        let prev = beaten_after(state, a.compat, a.lose, a.lose_counts, j);
        lemma_term(x, s, m, a.lose);
        lemma_spread(xm, prev, s * a.lose);
        lemma_units(xm * prev);
        lemma_units(prev);
    }
}

proof fn lemma_ties<T: Scalar>(state: Seq<T>, x: T, m: T, a: Step<T>, b: Step<T>, j: int)
    requires
        is_exact::<T>(),
        b.tie == m * a.tie,
        b.win == m * a.win,
        a.tie_counts,
        a.win_counts,
        !b.tie_counts ==> a.tie == T::s_zero(),
        !b.win_counts ==> a.win == T::s_zero(),
        0 <= j < state.len(),
    ensures
        ties_after(scaled(state, x), b.tie, b.win, b.tie_counts, b.win_counts, j) == (x * m)
            * ties_after(state, a.tie, a.win, a.tie_counts, a.win_counts, j),
{
    let xm = x * m;
    let zero = T::s_zero();
    lemma_units(xm);
    lemma_units(zero);
    let s = state[j];
    assert(scaled(state, x)[j] == x * s);
    lemma_term(x, s, m, a.tie);
    let t = s * a.tie;
    lemma_units(t);
    lemma_units(xm * t);
    let kept = if j > 0 {
        t
    } else {
        zero
    };
    lemma_units(kept);
    lemma_units(xm * kept);
    if j + 1 < state.len() {
        let u = state[j + 1];
        assert(scaled(state, x)[j + 1] == x * u);
        lemma_term(x, u, m, a.win);
        lemma_spread(xm, kept, u * a.win);
    }
}

/// One more opponent scales with the weights so far and their own.
proof fn lemma_even_scaled<T: Scalar>(state: Seq<T>, x: T, m: T, a: Step<T>, b: Step<T>)
    requires
        is_exact::<T>(),
        state.len() >= 1,
        b.compat == m * a.compat,
        b.lose == m * a.lose,
        b.tie == m * a.tie,
        b.win == m * a.win,
        a.lose_counts,
        a.tie_counts,
        a.win_counts,
        !b.lose_counts ==> a.lose == T::s_zero(),
        !b.tie_counts ==> a.tie == T::s_zero(),
        !b.win_counts ==> a.win == T::s_zero(),
    ensures
        even_step(scaled(state, x), b) == scaled(even_step(state, a), x * m),
{
    let n = (state.len() - 1) as nat;
    let p = even_step(scaled(state, x), b);
    let q = scaled(even_step(state, a), x * m);
    lemma_beaten(state, x, m, a, b, n);
    assert forall|j: int| 0 <= j < p.len() implies p[j] == q[j] by {
        if j > 0 {
            lemma_ties(state, x, m, a, b, j - 1);
        }
    }
    assert(p =~= q);
}

proof fn lemma_leaf_scaled<T: Scalar>(k: T, rake: T, state: Seq<T>, x: T, acc: T, n: nat)
    requires
        is_exact::<T>(),
        n < state.len(),
    ensures
        even_leaf(k, rake, scaled(state, x), acc, n) == acc + x * even_leaf(
            k,
            rake,
            state,
            T::s_zero(),
            n,
        ),
    decreases n,
{
    let s = state[n as int];
    let zero = T::s_zero();
    assert(scaled(state, x)[n as int] == x * s);
    let u = if n == 0 {
        T::s_of(-1)
    } else {
        unit_net(k, rake, n - 1)
    };
    lemma_nothing(s);
    lemma_nothing(x * s);
    lemma_units(u);
    lemma_units(x);
    lemma_units(acc);
    lemma_units(s * u);
    lemma_orders(x, s, u);
    if n > 0 {
        let m = (n - 1) as nat;
        lemma_leaf_scaled(k, rake, state, x, acc, m);
        let prev = even_leaf(k, rake, state, zero, m);
        lemma_spread(x, prev, s * u);
        lemma_orders(acc, x * prev, x * (s * u));
        lemma_units(prev);
        lemma_units(acc + x * prev);
    }
}

/// Nothing but zeros.
pub open spec fn is_blank<T: Scalar>(state: Seq<T>) -> bool {
    forall|j: int| 0 <= j < state.len() ==> #[trigger] state[j] == T::s_zero()
}

proof fn lemma_state_len<T: Scalar>(probs: Seq<Odds<T>>, n: nat)
    ensures
        independent_state(probs, n).len() == n + 2,
    decreases n,
{
    if n > 0 {
        lemma_state_len(probs, (n - 1) as nat);
    }
}

proof fn lemma_blank_beaten<T: Scalar>(state: Seq<T>, compat: T, lose: T, k: nat)
    requires
        is_exact::<T>(),
        k < state.len(),
        is_blank(state) || compat == T::s_zero() && lose == T::s_zero(),
    ensures
        beaten_after(state, compat, lose, true, k) == T::s_zero(),
    decreases k,
{
    let s = state[k as int];
    lemma_units(T::s_zero());
    lemma_units(s);
    lemma_units(compat);
    lemma_units(lose);
    if k > 0 {
        lemma_blank_beaten(state, compat, lose, (k - 1) as nat);
    }
}

/// An opponent who stands in no relation leaves no weight.
proof fn lemma_blank_state<T: Scalar>(probs: Seq<Odds<T>>, i: int, n: nat)
    requires
        is_exact::<T>(),
        0 <= i < n,
        is_nothing(probs[i]),
    ensures
        is_blank(independent_state(probs, n)),
    decreases n,
{
    let m = (n - 1) as nat;
    let was = independent_state(probs, m);
    let p = probs[n - 1];
    lemma_state_len(probs, m);
    lemma_state_len(probs, n);
    if i < n - 1 {
        lemma_blank_state(probs, i, m);
    }
    lemma_blank_beaten(was, p.compat, p.lose, (was.len() - 1) as nat);
    lemma_units(T::s_zero());
    lemma_units(p.tie);
    lemma_units(p.win);
    assert forall|j: int| 0 <= j < independent_state(probs, n).len() implies
        #[trigger] independent_state(probs, n)[j] == T::s_zero() by {
        if j > 0 {
            assert(independent_state(probs, n)[j] == ties_after(
                was,
                p.tie,
                p.win,
                true,
                true,
                j - 1,
            ));
            lemma_units(was[j - 1]);
            if j < was.len() {
                lemma_units(was[j]);
            }
        }
    }
}

proof fn lemma_blank_leaf<T: Scalar>(k: T, rake: T, state: Seq<T>, acc: T, n: nat)
    requires
        is_exact::<T>(),
        is_zero(T::s_zero()),
        is_blank(state),
        n < state.len(),
    ensures
        even_leaf(k, rake, state, acc, n) == acc,
    decreases n,
{
    assert(state[n as int] == T::s_zero());
    if n > 0 {
        lemma_blank_leaf(k, rake, state, acc, (n - 1) as nat);
    }
}

impl<T: Widen> Field<T> {
    /// Where one of the opponents to come cannot meet the traverser, nothing is added.
    proof fn lemma_even_nothing(
        &self,
        k: T,
        rake: T,
        prefix: Seq<usize>,
        state: Seq<T>,
        acc: T,
        i: int,
    )
        requires
            is_exact::<T>(),
            is_zero(T::s_zero()),
            self.is_one_bucket(),
            prefix.len() <= i < self.num_opp(),
            forall|j: int| 0 <= j < prefix.len() ==> #[trigger] prefix[j] == 0,
            self.reach[i][0] == T::s_zero() || self.compat[0] == T::s_zero(),
        ensures
            self.even_all(k, rake, prefix, state, acc) == acc,
        decreases self.num_opp() - prefix.len(),
    {
        let one: int = 1;
        assert(at(self.nb, self.bt, 0) == 0);
        assert(one - 1 == 0 && prefix.push((one - 1) as usize) == prefix.push(0));
        assert(self.even_all(k, rake, prefix, state, acc) == self.even_upto(
            k,
            rake,
            prefix,
            state,
            acc,
            one,
        ));
        assert(self.even_upto(k, rake, prefix, state, acc, 0) == acc);
        if let Some(s) = self.even_branch(prefix, 0) {
            assert(prefix.len() < i);
            self.lemma_even_nothing(k, rake, prefix.push(0), even_step(state, s), acc, i);
        }
    }

    /// The state of an even showdown is that of independent opponents, times the fraction
    /// once for every pair.
    proof fn lemma_even_path(&self, k: T, rake: T, prefix: Seq<usize>, acc: T)
        requires
            widens_exactly::<T>(),
            self.is_one_bucket(),
            self.all_free(),
            prefix.len() <= self.num_opp(),
            forall|j: int| 0 <= j < prefix.len() ==> #[trigger] prefix[j] == 0,
        ensures
            self.even_all(
                k,
                rake,
                prefix,
                scaled(
                    independent_state(self.all_blended(), prefix.len()),
                    power(self.compat[0], pairs_upto(prefix.len())),
                ),
                acc,
            ) == acc + power(self.compat[0], pairs_upto(self.num_opp() as nat)) * even_leaf(
                k,
                rake,
                independent_state(self.all_blended(), self.num_opp() as nat),
                T::s_zero(),
                (self.num_opp() + 1) as nat,
            ),
        decreases self.num_opp() - prefix.len(),
    {
        let probs = self.all_blended();
        let c = self.compat[0];
        let m = prefix.len();
        let x = power(c, pairs_upto(m));
        let own = independent_state(probs, m);
        let state = scaled(own, x);
        lemma_state_len(probs, m);
        if m >= self.num_opp() {
            lemma_leaf_scaled(k, rake, own, x, acc, (m + 1) as nat);
        } else {
            let r = self.reach[m as int][0];
            let u = power(c, m);
            let one: int = 1;
            assert(at(self.nb, self.bt, 0) == 0);
            assert(one - 1 == 0 && prefix.push((one - 1) as usize) == prefix.push(0));
            self.lemma_blend(m as int);
            assert(!is_zero(probs[m as int].compat.s_widen()));
            assert(!is_zero(r) && !is_zero(c)) by {
                lemma_nothing(r);
                lemma_nothing(c);
                lemma_units(r);
                lemma_units(c);
            }
            self.lemma_one_chain(prefix, r, m);
            let w = r * u;
            assert(self.joint(prefix, 0, None) == Some(w));
            let b = self.even_branch(prefix, 0)->Some_0;
            let p = probs[m as int];
            let a = Step {
                compat: p.compat,
                lose: p.lose,
                tie: p.tie,
                win: p.win,
                lose_counts: true,
                tie_counts: true,
                win_counts: true,
            };
            lemma_orders(r, u, c);
            lemma_orders(r, u, self.lose[0]);
            lemma_orders(r, u, self.tie[0]);
            lemma_orders(r, u, self.win[0]);
            lemma_orders(u, r, c);
            lemma_orders(u, r, self.lose[0]);
            lemma_orders(u, r, self.tie[0]);
            lemma_orders(u, r, self.win[0]);
            lemma_nothing(self.lose[0]);
            lemma_nothing(self.tie[0]);
            lemma_nothing(self.win[0]);
            lemma_units(r);
            lemma_even_scaled(own, x, u, a, b);
            lemma_power_sum(c, pairs_upto(m), m);
            lemma_pairs_step(m, self.num_opp() as nat);
            assert(power(c, pairs_upto(m + 1)) == x * u);
            assert(independent_state(probs, m + 1) == even_step(own, a));
            self.lemma_even_path(k, rake, prefix.push(0), acc);
            assert(self.even_all(k, rake, prefix, state, acc) == self.even_upto(
                k,
                rake,
                prefix,
                state,
                acc,
                one,
            ));
            assert(self.even_upto(k, rake, prefix, state, acc, 0) == acc);
        }
    }

    proof fn lemma_uneven(&self, st: &Stakes<T>)
        requires
            widens_exactly::<T>(),
            self.is_one_bucket(),
            self.adds_up(),
            !st.is_even(),
        ensures
            self.factored_value(st) == self.value(st),
    {
        let probs = self.all_blended();
        let (zero, one) = (T::s_zero(), T::s_one());
        let e = Seq::<u8>::empty();
        let x = plain_all(st, probs, e);
        let n = self.num_opp() as nat;
        let z = power(self.compat[0], pairs_upto(n));
        lemma_relations(st, probs, one, e, zero);
        self.lemma_levels_all(st, one, Seq::empty(), e, zero);
        self.lemma_brute_is_plain(st, Seq::empty(), e, pairs_upto(n));
        lemma_units(x);
        lemma_units(z * x);
        lemma_orders(z, x, x);
        if self.all_free() {
            self.lemma_scale();
        } else {
            let i = choose|i: int|
                0 <= i < self.reach.len() && is_zero(
                    (#[trigger] self.all_blended()[i]).compat.s_widen(),
                );
            self.lemma_not_free(i);
            lemma_no_relation(st, probs, e, i);
            lemma_units(self.mass_scale());
            lemma_units(z);
        }
    }

    proof fn lemma_even(&self, st: &Stakes<T>)
        requires
            widens_exactly::<T>(),
            self.is_one_bucket(),
            self.adds_up(),
            self.num_opp() == st.num_opp(),
            st.is_even(),
        ensures
            self.factored_value(st) == self.value(st),
    {
        let probs = self.all_blended();
        let (zero, one) = (T::s_zero(), T::s_one());
        let n = self.num_opp() as nat;
        let z = power(self.compat[0], pairs_upto(n));
        let (k, rake) = (st.rivals(), st.unit_rake());
        let end = independent_state(probs, n);
        let first = seq![zero, one];
        let leaf = even_leaf(k, rake, end, zero, (n + 1) as nat);
        let e = Seq::<usize>::empty();
        lemma_state_len(probs, n);
        if self.all_free() {
            self.lemma_scale();
            lemma_units(zero);
            lemma_units(one);
            assert(scaled(independent_state(probs, 0), power(self.compat[0], pairs_upto(0)))
                =~= first);
            self.lemma_even_path(k, rake, e, zero);
            lemma_units(z * leaf);
            lemma_orders(st.stake(), leaf, z);
            lemma_orders(leaf, z, z);
        } else {
            let i = choose|i: int|
                0 <= i < self.reach.len() && is_zero(
                    (#[trigger] self.all_blended()[i]).compat.s_widen(),
                );
            self.lemma_not_free(i);
            self.lemma_even_nothing(k, rake, e, first, zero, i);
            lemma_blank_state(probs, i, n);
            lemma_blank_leaf(k, rake, end, zero, (n + 1) as nat);
            lemma_units(st.stake());
            lemma_units(self.mass_scale());
        }
    }

    /// With all hands in one bucket, taking every opponent on their own and scaling the
    /// mass back is no approximation: the value is that of the enumeration, whatever the
    /// folds, side pots and rake.
    pub proof fn law_one_bucket_factors_exactly(&self, st: &Stakes<T>)
        requires
            widens_exactly::<T>(),
            has_no_debts::<T>(),
            self.is_one_bucket(),
            self.num_opp() == st.num_opp(),
            T::s_zero().s_at_most(self.win[0]),
            T::s_zero().s_at_most(self.tie[0]),
            T::s_zero().s_at_most(self.lose[0]),
        ensures
            self.factored_value(st) == self.value(st),
    {
        let (w, t, l) = (self.win[0], self.tie[0], self.lose[0]);
        assert(self.adds_up()) by {
            if self.compat[0] == T::s_zero() {
                assert(w.s_plus(t).s_plus(l) == T::s_zero());
                assert(T::s_zero().s_at_most(w.s_plus(t)));
            }
        }
        if st.is_even() {
            self.lemma_even(st);
        } else {
            self.lemma_uneven(st);
        }
    }
}

/// Sums of what is not negative are not negative, and are nothing only of nothing.
pub open spec fn has_no_debts<T: Scalar>() -> bool {
    forall|x: T, y: T|
        T::s_zero().s_at_most(x) && T::s_zero().s_at_most(y) ==> T::s_zero().s_at_most(
            #[trigger] x.s_plus(y),
        ) && (x.s_plus(y) == T::s_zero() ==> x == T::s_zero() && y == T::s_zero())
}

} // verus!
