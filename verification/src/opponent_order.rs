//! The mass of four opponents does not depend on their order.
use vstd::prelude::*;

use crate::bucketed_showdown::is_zero;
use crate::cluster_laws::{meets, one_if};
use crate::cluster_mass::Crowd;
use crate::exact::{
    is_exact, lemma_differences, lemma_nothing, lemma_orders, lemma_sum_zero, lemma_units, row_of,
    row_sums, Exact,
};
use crate::four_laws::lemma_negative;
use crate::gain_laws::lemma_sum_exchange;
use crate::many_sums::{
    in3, lemma_sum2_ext, lemma_sum2_turn, lemma_sum3_turn_first, lemma_sum3_turn_last,
};
use crate::scalar::{sum_upto, Scalar};

verus! {

/// The crowds see the same hands, and opponent `i` of the one is opponent `p` of the other.
spec fn stand_for<T: Scalar>(a: &Crowd<T>, i: int, b: &Crowd<T>, p: int) -> bool {
    &&& a.cards == b.cards
    &&& a.nh == b.nh
    &&& a.reach[i] == b.reach[p]
}

proof fn lemma_same_path_end<T: Scalar>(
    a: &Crowd<T>,
    b: &Crowd<T>,
    c: int,
    i: int,
    k: int,
    c2: int,
    i2: int,
    k2: int,
    e: int,
    n: nat,
)
    requires
        stand_for(a, c, b, c2),
        stand_for(a, i, b, i2),
        stand_for(a, k, b, k2),
    ensures
        a.path_end(c, i, k, e, n) == b.path_end(c2, i2, k2, e, n),
    decreases n,
{
    if n > 0 {
        lemma_same_path_end(a, b, c, i, k, c2, i2, k2, e, (n - 1) as nat);
    }
}

proof fn lemma_same_path_free<T: Scalar>(
    a: &Crowd<T>,
    b: &Crowd<T>,
    c: int,
    i: int,
    k: int,
    c2: int,
    i2: int,
    k2: int,
    h: int,
)
    requires
        stand_for(a, c, b, c2),
        stand_for(a, i, b, i2),
        stand_for(a, k, b, k2),
    ensures
        a.path_free(c, i, k, h) == b.path_free(c2, i2, k2, h),
{
    let n = a.nh as nat;
    assert(a.path_values(c, i, k) =~= b.path_values(c2, i2, k2));
    lemma_same_path_end(a, b, c, i, k, c2, i2, k2, a.low(h), n);
    lemma_same_path_end(a, b, c, i, k, c2, i2, k2, a.high(h), n);
    lemma_same_path_end(a, b, c, k, i, c2, k2, i2, a.low(h), n);
    lemma_same_path_end(a, b, c, k, i, c2, k2, i2, a.high(h), n);
}

/// The threes on three cards, one per choice of cards.
pub open spec fn ring_terms<T: Scalar>(m: &Crowd<T>, i: int, j: int, k: int) -> spec_fn(
    int,
    int,
    int,
) -> T {
    |c1: int, c2: int, c3: int|
        one_if::<T>(c1 != c2 && c1 != c3 && c2 != c3) * (m.entry(i, c1, c3) * m.entry(j, c1, c2)
            * m.entry(k, c2, c3))
}

proof fn lemma_ring_third<T: Scalar>(
    m: &Crowd<T>,
    i: int,
    j: int,
    k: int,
    c1: int,
    c2: int,
    acc: T,
    n: nat,
)
    requires
        is_exact::<T>(),
        c1 != c2,
    ensures
        m.ring_third(i, j, k, c1, c2, acc, n) == acc + sum_upto(
            |c3: int| ring_terms(m, i, j, k)(c1, c2, c3),
            n,
        ),
    decreases n,
{
    let f = |c3: int| ring_terms(m, i, j, k)(c1, c2, c3);
    if n == 0 {
        lemma_units(acc);
    } else {
        let p = (n - 1) as nat;
        let c3: int = n - 1;
        lemma_ring_third(m, i, j, k, c1, c2, acc, p);
        let x = m.entry(i, c1, c3) * m.entry(j, c1, c2) * m.entry(k, c2, c3);
        lemma_units(x);
        lemma_orders(acc, sum_upto(f, p), f(c3));
        lemma_units(sum_upto(f, p));
        lemma_units(acc + sum_upto(f, p));
    }
}

proof fn lemma_ring_second<T: Scalar>(
    m: &Crowd<T>,
    i: int,
    j: int,
    k: int,
    c1: int,
    acc: T,
    n: nat,
)
    requires
        is_exact::<T>(),
    ensures
        m.ring_second(i, j, k, c1, acc, n) == acc + sum_upto(
            row_of(in3(ring_terms(m, i, j, k), 52), c1),
            n,
        ),
    decreases n,
{
    let f = row_of(in3(ring_terms(m, i, j, k), 52), c1);
    if n == 0 {
        lemma_units(acc);
    } else {
        let p = (n - 1) as nat;
        let c2: int = n - 1;
        lemma_ring_second(m, i, j, k, c1, acc, p);
        let prev = m.ring_second(i, j, k, c1, acc, p);
        let g = |c3: int| ring_terms(m, i, j, k)(c1, c2, c3);
        assert(f(c2) == sum_upto(g, 52));
        lemma_orders(acc, sum_upto(f, p), f(c2));
        if c2 == c1 || is_zero(m.entry(j, c1, c2)) {
            assert forall|c3: int| 0 <= c3 < 52 implies #[trigger] g(c3) == T::s_zero() by {
                let (x, y, z) = (m.entry(i, c1, c3), m.entry(j, c1, c2), m.entry(k, c2, c3));
                lemma_nothing(y);
                lemma_units(x);
                lemma_units(z);
                lemma_units(x * y * z);
                lemma_units(T::s_zero());
                lemma_units(T::s_one());
            }
            lemma_sum_zero(g, 52);
            lemma_units(prev);
        } else {
            lemma_ring_third(m, i, j, k, c1, c2, prev, 52);
        }
    }
}

/// The threes on three cards are the sum of their terms.
pub(crate) proof fn lemma_ring<T: Scalar>(m: &Crowd<T>, i: int, j: int, k: int, n: nat)
    requires
        is_exact::<T>(),
    ensures
        m.ring(i, j, k, n) == sum_upto(row_sums(in3(ring_terms(m, i, j, k), 52), 52), n),
    decreases n,
{
    if n > 0 {
        lemma_ring(m, i, j, k, (n - 1) as nat);
        lemma_ring_second(m, i, j, k, n - 1, m.ring(i, j, k, (n - 1) as nat), 52);
    }
}

/// Two crowds in which three opponents stand for one another, in any order.
proof fn lemma_same_ring<T: Scalar>(
    a: &Crowd<T>,
    b: &Crowd<T>,
    i: int,
    j: int,
    k: int,
    i2: int,
    j2: int,
    k2: int,
)
    requires
        is_exact::<T>(),
        stand_for(a, i, b, i2),
        stand_for(a, j, b, j2),
        stand_for(a, k, b, k2),
    ensures
        a.ring(i, j, k, 52) == b.ring(i2, j2, k2, 52),
{
    lemma_ring(a, i, j, k, 52);
    lemma_ring(b, i2, j2, k2, 52);
    assert(ring_terms(a, i, j, k) =~= ring_terms(b, i2, j2, k2));
}

proof fn lemma_same_twins_second<T: Scalar>(
    a: &Crowd<T>,
    b: &Crowd<T>,
    i: int,
    j: int,
    k: int,
    i2: int,
    j2: int,
    k2: int,
    c: int,
    acc: T,
    n: nat,
)
    requires
        stand_for(a, i, b, i2),
        stand_for(a, j, b, j2),
        stand_for(a, k, b, k2),
    ensures
        a.twins_second(i, j, k, c, acc, n) == b.twins_second(i2, j2, k2, c, acc, n),
    decreases n,
{
    if n > 0 {
        lemma_same_twins_second(a, b, i, j, k, i2, j2, k2, c, acc, (n - 1) as nat);
    }
}

proof fn lemma_same_twins<T: Scalar>(
    a: &Crowd<T>,
    b: &Crowd<T>,
    i: int,
    j: int,
    k: int,
    i2: int,
    j2: int,
    k2: int,
    n: nat,
)
    requires
        stand_for(a, i, b, i2),
        stand_for(a, j, b, j2),
        stand_for(a, k, b, k2),
    ensures
        a.twins(i, j, k, n) == b.twins(i2, j2, k2, n),
    decreases n,
{
    if n > 0 {
        lemma_same_twins(a, b, i, j, k, i2, j2, k2, (n - 1) as nat);
        lemma_same_twins_second(
            a,
            b,
            i,
            j,
            k,
            i2,
            j2,
            k2,
            n - 1,
            a.twins(i, j, k, (n - 1) as nat),
            52,
        );
    }
}

proof fn lemma_same_stars<T: Scalar>(
    a: &Crowd<T>,
    b: &Crowd<T>,
    i: int,
    j: int,
    k: int,
    i2: int,
    j2: int,
    k2: int,
    n: nat,
)
    requires
        stand_for(a, i, b, i2),
        stand_for(a, j, b, j2),
        stand_for(a, k, b, k2),
    ensures
        a.stars(i, j, k, n) == b.stars(i2, j2, k2, n),
    decreases n,
{
    if n == 0 {
        lemma_same_twins(a, b, i, j, k, i2, j2, k2, 52);
    } else {
        lemma_same_stars(a, b, i, j, k, i2, j2, k2, (n - 1) as nat);
    }
}

proof fn lemma_same_cluster<T: Scalar>(
    a: &Crowd<T>,
    b: &Crowd<T>,
    i: int,
    j: int,
    k: int,
    i2: int,
    j2: int,
    k2: int,
    h: int,
)
    requires
        is_exact::<T>(),
        stand_for(a, i, b, i2),
        stand_for(a, j, b, j2),
        stand_for(a, k, b, k2),
    ensures
        a.cluster(i, j, k, h) == b.cluster(i2, j2, k2, h),
{
    lemma_same_path_free(a, b, i, j, k, i2, j2, k2, h);
    lemma_same_path_free(a, b, j, i, k, j2, i2, k2, h);
    lemma_same_path_free(a, b, k, i, j, k2, i2, j2, h);
    lemma_same_ring(a, b, i, j, k, i2, j2, k2);
    lemma_same_stars(a, b, i, j, k, i2, j2, k2, 52);
    assert(a.doubles(i, j, k) =~= b.doubles(i2, j2, k2));
    assert(a.triples(i, j, k) =~= b.triples(i2, j2, k2));
}

/// Three factors in other orders.
proof fn lemma_three<T: Scalar>(x: T, y: T, z: T)
    requires
        is_exact::<T>(),
    ensures
        x * y * z == y * x * z,
        x * y * z == x * z * y,
        x * y * z == z * y * x,
{
    lemma_orders(x, y, z);
    lemma_orders(z, y, x);
    lemma_orders(y, z, x);
    lemma_orders(x, z, y);
}

impl<T: Scalar> Crowd<T> {
    proof fn lemma_turned_path(&self, c: int, i: int, k: int, h: int)
        requires
            is_exact::<T>(),
        ensures
            self.path_free(c, i, k, h) == self.path_free(c, k, i, h),
    {
        let n = self.nh as nat;
        let (h1, h2) = (self.low(h), self.high(h));
        let (v, w) = (self.path_values(c, i, k), self.path_values(c, k, i));
        assert forall|g: int| 0 <= g < n implies v[g] == w[g] by {
            lemma_three(self.reach[c][g], self.touching(i, g), self.touching(k, g));
        }
        assert(v =~= w);
        let (x, y) = (self.path_end(c, i, k, h1, n), self.path_end(c, i, k, h2, n));
        let (z, u) = (self.path_end(c, k, i, h1, n), self.path_end(c, k, i, h2, n));
        lemma_orders(x + y, z, u);
        lemma_orders(z + u, x, y);
        lemma_orders(x + y, z + u, x);
    }

    proof fn lemma_turned_ring(&self, i: int, j: int, k: int)
        requires
            is_exact::<T>(),
            self.is_dealt(),
            0 <= i < self.reach.len(),
            0 <= j < self.reach.len(),
            0 <= k < self.reach.len(),
        ensures
            self.ring(i, j, k, 52) == self.ring(j, i, k, 52),
            self.ring(i, j, k, 52) == self.ring(k, j, i, 52),
    {
        lemma_ring(self, i, j, k, 52);
        lemma_ring(self, j, i, k, 52);
        lemma_ring(self, k, j, i, 52);
        let f = ring_terms(self, i, j, k);
        let g = ring_terms(self, j, i, k);
        let w = ring_terms(self, k, j, i);
        assert forall|a: int, b: int, c: int|
            0 <= a < 52 && 0 <= b < 52 && 0 <= c < 52 implies #[trigger] f(a, b, c) == g(
            a,
            c,
            b,
        ) by {
            self.lemma_look(k, b, c);
            self.lemma_look(k, c, b);
            lemma_three(self.entry(i, a, c), self.entry(j, a, b), self.entry(k, b, c));
        }
        lemma_sum3_turn_last(f, g, 52);
        assert forall|a: int, b: int, c: int|
            0 <= a < 52 && 0 <= b < 52 && 0 <= c < 52 implies #[trigger] f(a, b, c) == w(
            b,
            a,
            c,
        ) by {
            self.lemma_look(j, a, b);
            self.lemma_look(j, b, a);
            lemma_three(self.entry(i, a, c), self.entry(j, a, b), self.entry(k, b, c));
        }
        lemma_sum3_turn_first(f, w, 52);
    }

    proof fn lemma_turned_twins_second(&self, i: int, j: int, k: int, a: int, acc: T, n: nat)
        requires
            is_exact::<T>(),
            self.is_dealt(),
            0 <= i < self.reach.len(),
            0 <= j < self.reach.len(),
            0 <= k < self.reach.len(),
        ensures
            self.twins_second(i, j, k, a, acc, n) == self.twins_second(j, i, k, a, acc, n),
            self.twins_second(i, j, k, a, acc, n) == self.twins_second(k, j, i, a, acc, n),
        decreases n,
    {
        if n > 0 {
            self.lemma_turned_twins_second(i, j, k, a, acc, (n - 1) as nat);
            let b: int = n - 1;
            let prev = self.twins_second(i, j, k, a, acc, (n - 1) as nat);
            self.lemma_look(i, a, b);
            self.lemma_look(j, a, b);
            self.lemma_look(k, a, b);
            self.lemma_look(i, b, a);
            self.lemma_look(j, b, a);
            self.lemma_look(k, b, a);
            let (x, y, z) = (self.entry(i, a, b), self.entry(j, a, b), self.entry(k, a, b));
            let (u, v, w) = (self.with_card(i, a), self.with_card(j, a), self.with_card(k, a));
            lemma_three(x, v, z);
            lemma_three(x, y, w);
            lemma_three(u, y, z);
            let (p, q, r) = (x * v * z, x * y * w, u * y * z);
            lemma_orders(prev + p, q, r);
            lemma_orders(prev, p, q);
            lemma_orders(prev, p, r);
            lemma_orders(prev, q, r);
            lemma_orders(prev + r, q, p);
            lemma_orders(prev + q, p, r);
            lemma_orders(prev + p, r, q);
        }
    }

    proof fn lemma_turned_twins(&self, i: int, j: int, k: int, n: nat)
        requires
            is_exact::<T>(),
            self.is_dealt(),
            0 <= i < self.reach.len(),
            0 <= j < self.reach.len(),
            0 <= k < self.reach.len(),
        ensures
            self.twins(i, j, k, n) == self.twins(j, i, k, n),
            self.twins(i, j, k, n) == self.twins(k, j, i, n),
        decreases n,
    {
        if n > 0 {
            self.lemma_turned_twins(i, j, k, (n - 1) as nat);
            self.lemma_turned_twins_second(
                i,
                j,
                k,
                n - 1,
                self.twins(i, j, k, (n - 1) as nat),
                52,
            );
        }
    }

    proof fn lemma_turned_stars(&self, i: int, j: int, k: int, n: nat)
        requires
            is_exact::<T>(),
            self.is_dealt(),
            0 <= i < self.reach.len(),
            0 <= j < self.reach.len(),
            0 <= k < self.reach.len(),
        ensures
            self.stars(i, j, k, n) == self.stars(j, i, k, n),
            self.stars(i, j, k, n) == self.stars(k, j, i, n),
        decreases n,
    {
        if n == 0 {
            self.lemma_turned_twins(i, j, k, 52);
        } else {
            self.lemma_turned_stars(i, j, k, (n - 1) as nat);
            let c: int = n - 1;
            lemma_three(self.with_card(i, c), self.with_card(j, c), self.with_card(k, c));
        }
    }

    proof fn lemma_turned_knot(&self, i: int, j: int, k: int, h: int)
        requires
            is_exact::<T>(),
            self.is_dealt(),
            0 <= i < self.reach.len(),
            0 <= j < self.reach.len(),
            0 <= k < self.reach.len(),
        ensures
            self.knot(i, j, k, h) == self.knot(j, i, k, h),
            self.knot(i, j, k, h) == self.knot(k, j, i, h),
    {
        let n = self.nh as nat;
        self.lemma_turned_ring(i, j, k);
        self.lemma_turned_stars(i, j, k, 52);
        let (a, b) = (self.low(h), self.high(h));
        lemma_three(self.with_card(i, a), self.with_card(j, a), self.with_card(k, a));
        lemma_three(self.with_card(i, b), self.with_card(j, b), self.with_card(k, b));
        assert forall|g: int| 0 <= g < n implies self.doubles(i, j, k)[g] == self.doubles(j, i, k)[g]
            && self.doubles(i, j, k)[g] == self.doubles(k, j, i)[g] && self.triples(i, j, k)[g]
            == self.triples(j, i, k)[g] && self.triples(i, j, k)[g] == self.triples(
            k,
            j,
            i,
        )[g] by {
            let (x, y, z) = (self.reach[i][g], self.reach[j][g], self.reach[k][g]);
            let (u, v, w) = (self.around(i, g), self.around(j, g), self.around(k, g));
            lemma_three(x, y, z);
            lemma_orders(x, y, z);
            lemma_orders(x, z, y);
            lemma_orders(y, z, x);
            let (p, q, r) = (x * z * v, x * y * w, y * z * u);
            lemma_orders(p, q, r);
            lemma_orders(p, r, q);
            lemma_orders(q, r, p);
            lemma_orders(r, q, p);
        }
        assert(self.doubles(i, j, k) =~= self.doubles(j, i, k));
        assert(self.doubles(i, j, k) =~= self.doubles(k, j, i));
        assert(self.triples(i, j, k) =~= self.triples(j, i, k));
        assert(self.triples(i, j, k) =~= self.triples(k, j, i));
    }

    /// A cluster of three does not depend on the order of the three, where numbers are
    /// exact.
    pub proof fn law_clusters_have_no_order(&self, i: int, j: int, k: int, h: int)
        requires
            is_exact::<T>(),
            self.is_dealt(),
            0 <= i < self.reach.len(),
            0 <= j < self.reach.len(),
            0 <= k < self.reach.len(),
        ensures
            self.cluster(i, j, k, h) == self.cluster(j, i, k, h),
            self.cluster(i, j, k, h) == self.cluster(k, j, i, h),
            self.cluster(i, j, k, h) == self.cluster(i, k, j, h),
    {
        self.lemma_swapped_cluster(i, j, k, h);
        self.lemma_swapped_cluster(k, j, i, h);
        self.lemma_swapped_cluster(j, k, i, h);
        self.lemma_swapped_cluster(j, i, k, h);
        self.lemma_swapped_cluster(k, i, j, h);
        self.lemma_swapped_cluster(i, k, j, h);
    }

    proof fn lemma_swapped_cluster(&self, i: int, j: int, k: int, h: int)
        requires
            is_exact::<T>(),
            self.is_dealt(),
            0 <= i < self.reach.len(),
            0 <= j < self.reach.len(),
            0 <= k < self.reach.len(),
        ensures
            self.cluster(i, j, k, h) == self.cluster(j, i, k, h),
            self.cluster(i, j, k, h) == self.cluster(k, j, i, h),
    {
        self.lemma_turned_knot(i, j, k, h);
        self.lemma_turned_path(i, j, k, h);
        self.lemma_turned_path(j, i, k, h);
        self.lemma_turned_path(k, i, j, h);
        let (x, y) = (self.path_free(i, j, k, h), self.path_free(j, i, k, h));
        let z = self.path_free(k, i, j, h);
        lemma_units(x);
        lemma_units(y);
        lemma_units(z);
        lemma_orders(x, y, z);
        lemma_orders(z, y, x);
        lemma_orders(x, z, y);
        lemma_orders(y, z, x);
    }
}

/// The two who pair up, and the two who do not, by number.
spec fn pair_at(k: int) -> (int, int, int, int) {
    if k == 0 {
        (0, 1, 2, 3)
    } else if k == 1 {
        (0, 2, 1, 3)
    } else if k == 2 {
        (0, 3, 1, 2)
    } else if k == 3 {
        (1, 2, 0, 3)
    } else if k == 4 {
        (1, 3, 0, 2)
    } else {
        (2, 3, 0, 1)
    }
}

/// The three in a cluster, and the one outside, by number.
spec fn three_at(k: int) -> (int, int, int, int) {
    if k == 0 {
        (0, 1, 2, 3)
    } else if k == 1 {
        (0, 1, 3, 2)
    } else if k == 2 {
        (0, 2, 3, 1)
    } else {
        (1, 2, 3, 0)
    }
}

impl<T: Scalar> Crowd<T> {
    spec fn pair_parts(&self, h: int) -> spec_fn(int) -> T {
        |k: int|
            {
                let (i, j, l, m) = pair_at(k);
                self.clashes_by_hand(h)(i, j) * self.free(l, h) * self.free(m, h)
            }
    }

    spec fn double_parts(&self, h: int) -> spec_fn(int) -> T {
        |k: int|
            {
                let (i, j, l, m) = pair_at(k);
                self.clashes_by_hand(h)(i, j) * self.clashes_by_hand(h)(l, m)
            }
    }

    spec fn three_parts(&self, h: int) -> spec_fn(int) -> T {
        |k: int|
            {
                let (i, j, l, m) = three_at(k);
                self.cluster(i, j, l, h) * self.free(m, h)
            }
    }

    /// The mass of four opponents, its parts as sums.
    proof fn lemma_parts(&self, h: int)
        requires
            is_exact::<T>(),
            T::s_of(-1) == T::s_zero() - T::s_one(),
        ensures
            self.mass_of_four(h) == (self.free(0, h) * self.free(1, h) * self.free(2, h) * self.free(
                3,
                h,
            ) + (T::s_zero() - sum_upto(self.pair_parts(h), 6)) + sum_upto(self.double_parts(h), 3)
                + sum_upto(self.three_parts(h), 4)).s_larger(T::s_zero()),
    {
        let (s0, s1) = (self.free(0, h), self.free(1, h));
        let (s2, s3) = (self.free(2, h), self.free(3, h));
        let c = self.clashes_by_hand(h);
        let zero = T::s_zero();
        let f = self.pair_parts(h);
        let (p1, p2, p3, p4, p5, p6) = (f(0), f(1), f(2), f(3), f(4), f(5));
        lemma_negative(T::s_one(), c(0, 1));
        lemma_units(c(0, 1));
        lemma_negative(c(0, 1), s2);
        lemma_negative(c(0, 1) * s2, s3);
        assert(T::s_of(-1) * c(0, 1) * s2 * s3 == zero - p1);
        assert(sum_upto(f, 6) == zero + p1 + p2 + p3 + p4 + p5 + p6) by {
            reveal_with_fuel(sum_upto, 7);
        }
        lemma_units(p1);
        lemma_differences(zero, p1, p2);
        lemma_differences(zero, p1 + p2, p3);
        lemma_differences(zero, p1 + p2 + p3, p4);
        lemma_differences(zero, p1 + p2 + p3 + p4, p5);
        lemma_differences(zero, p1 + p2 + p3 + p4 + p5, p6);
        let d = self.double_parts(h);
        assert(sum_upto(d, 3) == zero + d(0) + d(1) + d(2)) by {
            reveal_with_fuel(sum_upto, 4);
        }
        lemma_units(d(0));
        let g = self.three_parts(h);
        assert(sum_upto(g, 4) == zero + g(0) + g(1) + g(2) + g(3)) by {
            reveal_with_fuel(sum_upto, 5);
        }
        lemma_units(g(0));
    }

    /// Clashes do not depend on the order of the two.
    proof fn lemma_turned_clash(&self, i: int, j: int, h: int)
        requires
            is_exact::<T>(),
            self.is_dealt(),
            0 <= i < self.reach.len(),
            0 <= j < self.reach.len(),
            0 <= h < self.nh,
        ensures
            self.clashes_by_hand(h)(i, j) == self.clashes_by_hand(h)(j, i),
    {
        let n = self.nh as nat;
        self.lemma_met(i, j, h);
        self.lemma_met(j, i, h);
        let (f, g) = (self.colliding(i, j, h), self.colliding(j, i, h));
        assert forall|x: int, y: int| 0 <= x < n && 0 <= y < n implies #[trigger] f(x, y) == g(
            y,
            x,
        ) by {
            lemma_orders(self.apart_from(i, h)(x), self.apart_from(j, h)(y), T::s_zero());
            assert(meets(self.cards, x, y) == meets(self.cards, y, x));
        }
        lemma_sum2_turn(f, g, n, n);
    }
}

/// Clashes of opponents who stand for one another.
proof fn lemma_same_clash<T: Scalar>(
    a: &Crowd<T>,
    b: &Crowd<T>,
    i: int,
    j: int,
    i2: int,
    j2: int,
    h: int,
)
    requires
        is_exact::<T>(),
        a.is_dealt(),
        b.is_dealt(),
        0 <= i < a.reach.len(),
        0 <= j < a.reach.len(),
        0 <= i2 < b.reach.len(),
        0 <= j2 < b.reach.len(),
        0 <= h < a.nh,
        stand_for(a, i, b, i2),
        stand_for(a, j, b, j2),
    ensures
        a.clashes_by_hand(h)(i, j) == b.clashes_by_hand(h)(i2, j2),
        a.clashes_by_hand(h)(i, j) == b.clashes_by_hand(h)(j2, i2),
{
    a.lemma_met(i, j, h);
    b.lemma_met(i2, j2, h);
    b.lemma_turned_clash(i2, j2, h);
    lemma_sum2_ext(a.colliding(i, j, h), b.colliding(i2, j2, h), a.nh as nat);
}

/// The opponent who takes the place of `x` when `p` and the next one change places.
pub open spec fn swapped(p: int, x: int) -> int {
    if x == p {
        p + 1
    } else if x == p + 1 {
        p
    } else {
        x
    }
}

/// Where numbers are exact, the mass of four opponents does not change when two neighbours
/// change places, and so not in any order of the four.
pub proof fn law_the_order_of_opponents_is_free<T: Scalar>(
    a: &Crowd<T>,
    b: &Crowd<T>,
    p: int,
    h: int,
)
    requires
        is_exact::<T>(),
        T::s_of(-1) == T::s_zero() - T::s_one(),
        a.is_dealt(),
        b.is_dealt(),
        a.reach.len() == 4,
        b.reach.len() == 4,
        a.cards == b.cards,
        a.nh == b.nh,
        0 <= p < 3,
        0 <= h < a.nh,
        forall|x: int| 0 <= x < 4 ==> #[trigger] a.reach[x] == b.reach[swapped(p, x)],
    ensures
        a.mass_of_four(h) == b.mass_of_four(h),
{
    a.lemma_parts(h);
    b.lemma_parts(h);
    lemma_swapped_parts(a, b, p, h);
    let (f, g) = (a.pair_parts(h), b.pair_parts(h));
    let (d, e) = (a.double_parts(h), b.double_parts(h));
    let (t, u) = (a.three_parts(h), b.three_parts(h));
    let (s0, s1, s2, s3) = (b.free(0, h), b.free(1, h), b.free(2, h), b.free(3, h));
    lemma_orders(s0, s1, s2);
    lemma_orders(s0 * s1, s2, s3);
    if p == 0 {
        lemma_two_exchanges(f, g, 1, 3, 2, 4, 6);
        lemma_sum_exchange(d, e, 1, 2, 3);
        lemma_sum_exchange(t, u, 2, 3, 4);
    } else if p == 1 {
        lemma_two_exchanges(f, g, 0, 1, 4, 5, 6);
        lemma_sum_exchange(d, e, 0, 1, 3);
        lemma_sum_exchange(t, u, 1, 2, 4);
    } else {
        lemma_two_exchanges(f, g, 1, 2, 3, 4, 6);
        lemma_sum_exchange(d, e, 1, 2, 3);
        lemma_sum_exchange(t, u, 0, 1, 4);
    }
}

/// Two pairs of terms change places.
proof fn lemma_two_exchanges<T: Scalar>(
    f: spec_fn(int) -> T,
    g: spec_fn(int) -> T,
    x: int,
    y: int,
    z: int,
    w: int,
    n: nat,
)
    requires
        is_exact::<T>(),
        0 <= x < n,
        0 <= y < n,
        0 <= z < n,
        0 <= w < n,
        x != z,
        x != w,
        y != z,
        y != w,
        x != y,
        z != w,
        f(x) == g(y),
        f(y) == g(x),
        f(z) == g(w),
        f(w) == g(z),
        forall|k: int| 0 <= k < n && k != x && k != y && k != z && k != w ==> #[trigger] f(k) == g(k),
    ensures
        sum_upto(f, n) == sum_upto(g, n),
{
    let m = |k: int|
        if k == x || k == y {
            g(k)
        } else {
            f(k)
        };
    lemma_sum_exchange(f, m, x, y, n);
    lemma_sum_exchange(m, g, z, w, n);
}

/// The parts of the mass, with two neighbours in each other's place.
proof fn lemma_swapped_parts<T: Scalar>(a: &Crowd<T>, b: &Crowd<T>, p: int, h: int)
    requires
        is_exact::<T>(),
        a.is_dealt(),
        b.is_dealt(),
        a.reach.len() == 4,
        b.reach.len() == 4,
        a.cards == b.cards,
        a.nh == b.nh,
        0 <= p < 3,
        0 <= h < a.nh,
        forall|x: int| 0 <= x < 4 ==> #[trigger] a.reach[x] == b.reach[swapped(p, x)],
    ensures
        forall|x: int| 0 <= x < 4 ==> #[trigger] a.free(x, h) == b.free(swapped(p, x), h),
        ({
            let (f, g) = (a.pair_parts(h), b.pair_parts(h));
            let (d, e) = (a.double_parts(h), b.double_parts(h));
            let (t, u) = (a.three_parts(h), b.three_parts(h));
            &&& p == 0 ==> {
                &&& f(0) == g(0) && f(1) == g(3) && f(2) == g(4)
                &&& f(3) == g(1) && f(4) == g(2) && f(5) == g(5)
                &&& d(0) == e(0) && d(1) == e(2) && d(2) == e(1)
                &&& t(0) == u(0) && t(1) == u(1) && t(2) == u(3) && t(3) == u(2)
            }
            &&& p == 1 ==> {
                &&& f(0) == g(1) && f(1) == g(0) && f(2) == g(2)
                &&& f(3) == g(3) && f(4) == g(5) && f(5) == g(4)
                &&& d(0) == e(1) && d(1) == e(0) && d(2) == e(2)
                &&& t(0) == u(0) && t(1) == u(2) && t(2) == u(1) && t(3) == u(3)
            }
            &&& p == 2 ==> {
                &&& f(0) == g(0) && f(1) == g(2) && f(2) == g(1)
                &&& f(3) == g(4) && f(4) == g(3) && f(5) == g(5)
                &&& d(0) == e(0) && d(1) == e(2) && d(2) == e(1)
                &&& t(0) == u(1) && t(1) == u(0) && t(2) == u(2) && t(3) == u(3)
            }
        }),
{
    let q = |x: int| swapped(p, x);
    assert(a.reach[0] == b.reach[q(0)]);
    assert(a.reach[1] == b.reach[q(1)]);
    assert(a.reach[2] == b.reach[q(2)]);
    assert(a.reach[3] == b.reach[q(3)]);
    lemma_same_clash(a, b, 0, 1, q(0), q(1), h);
    lemma_same_clash(a, b, 0, 2, q(0), q(2), h);
    lemma_same_clash(a, b, 0, 3, q(0), q(3), h);
    lemma_same_clash(a, b, 1, 2, q(1), q(2), h);
    lemma_same_clash(a, b, 1, 3, q(1), q(3), h);
    lemma_same_clash(a, b, 2, 3, q(2), q(3), h);
    lemma_same_cluster(a, b, 0, 1, 2, q(0), q(1), q(2), h);
    lemma_same_cluster(a, b, 0, 1, 3, q(0), q(1), q(3), h);
    lemma_same_cluster(a, b, 0, 2, 3, q(0), q(2), q(3), h);
    lemma_same_cluster(a, b, 1, 2, 3, q(1), q(2), q(3), h);
    b.law_clusters_have_no_order(0, 1, 2, h);
    b.law_clusters_have_no_order(0, 1, 3, h);
    b.law_clusters_have_no_order(0, 2, 3, h);
    b.law_clusters_have_no_order(1, 2, 3, h);
    let (s0, s1, s2, s3) = (b.free(0, h), b.free(1, h), b.free(2, h), b.free(3, h));
    let c = b.clashes_by_hand(h);
    lemma_orders(c(0, 1), s2, s3);
    lemma_orders(c(0, 2), s1, s3);
    lemma_orders(c(0, 3), s1, s2);
    lemma_orders(c(1, 2), s0, s3);
    lemma_orders(c(1, 3), s0, s2);
    lemma_orders(c(2, 3), s0, s1);
    lemma_orders(c(0, 1), c(2, 3), s0);
    lemma_orders(c(0, 2), c(1, 3), s0);
    lemma_orders(c(0, 3), c(1, 2), s0);
}

} // verus!
