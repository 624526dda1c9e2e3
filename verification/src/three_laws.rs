//! Clusters of three opponents where numbers are exact.
use vstd::prelude::*;

use crate::cluster_laws::{holds_card, lemma_by_card, meets, one_if, values_at, values_with};
use crate::cluster_mass::{by_card, everyone, is_pair, nonzero, total, Crowd};
use crate::exact::{is_exact, lemma_sum_zero, lemma_undo, lemma_units, Exact};
use crate::four_laws::fall_apart;
use crate::many_sums::{lemma_sum3_zero, lemma_sum4_zero, sum3, sum4};
use crate::scalar::Scalar;

verus! {

/// A product of three with nothing among them.
proof fn lemma_none<T: Scalar>(x: T, y: T, z: T)
    requires
        is_exact::<T>(),
        x == T::s_zero() || y == T::s_zero() || z == T::s_zero(),
    ensures
        x * y * z == T::s_zero(),
{
    lemma_units(x);
    lemma_units(y);
    lemma_units(z);
    lemma_units(x * y);
}

/// Values that are all nothing.
proof fn lemma_nothing_there<T: Scalar>(cards: Seq<u8>, v: Seq<T>, live: Seq<bool>, c: int, n: nat)
    requires
        is_exact::<T>(),
        n <= v.len(),
        forall|g: int| 0 <= g < n ==> #[trigger] v[g] == T::s_zero(),
    ensures
        total(v, live, n) == T::s_zero(),
        by_card(cards, v, live, c, n) == T::s_zero(),
    decreases n,
{
    if n > 0 {
        lemma_nothing_there(cards, v, live, c, (n - 1) as nat);
        assert(v[n - 1] == T::s_zero());
        lemma_units(T::s_zero());
    }
}

impl<T: Scalar> Crowd<T> {
    /// No three hands that three opponents can hold are connected by shared cards: no hand
    /// of one shares a card with a hand of each of the two others.
    pub open spec fn no_three_connect(&self) -> bool {
        forall|i: int, j: int, k: int, x: int, y: int, z: int|
            #![trigger self.reach[i][x], self.reach[j][y], self.reach[k][z]]
            0 <= i < self.reach.len() && 0 <= j < self.reach.len() && 0 <= k < self.reach.len() && i
                != j && i != k && j != k && 0 <= x < self.nh && 0 <= y < self.nh && 0 <= z < self.nh
                && self.reach[i][x] != T::s_zero() && self.reach[j][y] != T::s_zero()
                && self.reach[k][z] != T::s_zero() ==> !(meets(self.cards, x, y) && meets(
                self.cards,
                x,
                z,
            ))
    }

    /// Opponent `i` has no hand with card `c`.
    spec fn lacks(&self, i: int, c: int) -> bool {
        forall|g: int|
            0 <= g < self.nh && holds_card(self.cards, g, c) ==> #[trigger] self.reach[i][g]
                == T::s_zero()
    }

    /// Opponent `i` has no hand that shares a card with hand `g`.
    spec fn avoids(&self, i: int, g: int) -> bool {
        forall|k: int|
            0 <= k < self.nh && meets(self.cards, g, k) ==> #[trigger] self.reach[i][k]
                == T::s_zero()
    }

    /// Opponent `i` does not have the hand of `c` and `d`.
    spec fn lacks_pair(&self, i: int, c: int, d: int) -> bool {
        forall|g: int|
            0 <= g < self.nh && is_pair(self.cards, g, c, d) ==> #[trigger] self.reach[i][g]
                == T::s_zero()
    }

    proof fn lemma_lacks(&self, i: int, c: int)
        requires
            is_exact::<T>(),
            self.is_dealt(),
            0 <= i < self.reach.len(),
            self.lacks(i, c),
        ensures
            self.with_card(i, c) == T::s_zero(),
    {
        let n = self.nh as nat;
        let f = values_with(self.cards, self.reach[i], c);
        lemma_by_card(self.cards, self.reach[i], c, n);
        assert forall|g: int| 0 <= g < n implies #[trigger] f(g) == T::s_zero() by {
            lemma_units(self.reach[i][g]);
            lemma_units(T::s_zero());
        }
        lemma_sum_zero(f, n);
    }

    proof fn lemma_lacks_pair(&self, i: int, c: int, d: int)
        requires
            is_exact::<T>(),
            self.is_dealt(),
            0 <= i < self.reach.len(),
            self.lacks_pair(i, c, d),
        ensures
            self.entry(i, c, d) == T::s_zero(),
    {
        let n = self.nh as nat;
        let f = values_at(self.cards, self.reach[i], c, d);
        self.lemma_look(i, c, d);
        assert forall|g: int| 0 <= g < n implies #[trigger] f(g) == T::s_zero() by {
            lemma_units(self.reach[i][g]);
            lemma_units(T::s_zero());
        }
        lemma_sum_zero(f, n);
    }

    proof fn lemma_avoids(&self, i: int, g: int)
        requires
            is_exact::<T>(),
            self.is_dealt(),
            0 <= i < self.reach.len(),
            0 <= g < self.nh,
            self.avoids(i, g),
        ensures
            self.with_card(i, self.low(g)) == T::s_zero(),
            self.with_card(i, self.high(g)) == T::s_zero(),
            self.reach[i][g] == T::s_zero(),
            self.touching(i, g) == T::s_zero(),
            self.around(i, g) == T::s_zero(),
    {
        assert(self.lacks(i, self.low(g)));
        assert(self.lacks(i, self.high(g)));
        self.lemma_lacks(i, self.low(g));
        self.lemma_lacks(i, self.high(g));
        assert(meets(self.cards, g, g));
        let zero = T::s_zero();
        lemma_units(zero);
        lemma_undo(zero, zero);
        lemma_units(T::s_of(2));
    }

    /// Of two other opponents one has no hand that shares a card with a hand of the third.
    proof fn lemma_one_avoids(&self, c: int, i: int, k: int, g: int)
        requires
            self.no_three_connect(),
            0 <= c < self.reach.len(),
            0 <= i < self.reach.len(),
            0 <= k < self.reach.len(),
            c != i,
            c != k,
            i != k,
            0 <= g < self.nh,
            self.reach[c][g] != T::s_zero(),
        ensures
            self.avoids(i, g) || self.avoids(k, g),
    {
        if !self.avoids(i, g) {
            let y = choose|y: int|
                0 <= y < self.nh && meets(self.cards, g, y) && #[trigger] self.reach[i][y]
                    != T::s_zero();
            assert forall|z: int|
                0 <= z < self.nh && meets(self.cards, g, z) implies #[trigger] self.reach[k][z]
                == T::s_zero() by {
                assert(self.reach[c][g] != T::s_zero() && self.reach[i][y] != T::s_zero());
            }
        }
    }

    /// The three are different opponents.
    spec fn are_three(&self, i: int, j: int, k: int) -> bool {
        &&& 0 <= i < self.reach.len()
        &&& 0 <= j < self.reach.len()
        &&& 0 <= k < self.reach.len()
        &&& i != j
        &&& i != k
        &&& j != k
    }

    proof fn lemma_no_path(&self, c: int, i: int, k: int, g: int)
        requires
            is_exact::<T>(),
            self.is_dealt(),
            self.no_three_connect(),
            self.are_three(c, i, k),
            0 <= g < self.nh,
        ensures
            self.path_values(c, i, k)[g] == T::s_zero(),
            forall|e: int|
                self.reach[c][g] * self.touching(i, g) * (#[trigger] self.entry(k, self.low(g), e)
                    + self.entry(k, self.high(g), e)) == T::s_zero(),
    {
        let (r, x, y) = (self.reach[c][g], self.touching(i, g), self.touching(k, g));
        if r != T::s_zero() {
            self.lemma_one_avoids(c, i, k, g);
            if self.avoids(i, g) {
                self.lemma_avoids(i, g);
            } else {
                self.lemma_avoids(k, g);
            }
        }
        lemma_none(r, x, y);
        assert forall|e: int|
            self.reach[c][g] * self.touching(i, g) * (#[trigger] self.entry(k, self.low(g), e)
                + self.entry(k, self.high(g), e)) == T::s_zero() by {
            let w = self.entry(k, self.low(g), e) + self.entry(k, self.high(g), e);
            if r != T::s_zero() && x != T::s_zero() {
                assert(self.avoids(k, g));
                assert(self.lacks_pair(k, self.low(g), e));
                assert(self.lacks_pair(k, self.high(g), e));
                self.lemma_lacks_pair(k, self.low(g), e);
                self.lemma_lacks_pair(k, self.high(g), e);
                lemma_units(T::s_zero());
            }
            lemma_none(r, x, w);
        }
    }

    proof fn lemma_no_path_end(&self, c: int, i: int, k: int, e: int, n: nat)
        requires
            is_exact::<T>(),
            self.is_dealt(),
            self.no_three_connect(),
            self.are_three(c, i, k),
            n <= self.nh,
        ensures
            self.path_end(c, i, k, e, n) == T::s_zero(),
        decreases n,
    {
        if n > 0 {
            self.lemma_no_path_end(c, i, k, e, (n - 1) as nat);
            let g: int = n - 1;
            self.lemma_no_path(c, i, k, g);
            assert(self.reach[c][g] * self.touching(i, g) * (self.entry(k, self.low(g), e)
                + self.entry(k, self.high(g), e)) == T::s_zero());
            lemma_units(T::s_zero());
        }
    }

    proof fn lemma_no_path_free(&self, c: int, i: int, k: int, h: int)
        requires
            is_exact::<T>(),
            self.is_dealt(),
            self.no_three_connect(),
            self.are_three(c, i, k),
        ensures
            self.path_free(c, i, k, h) == T::s_zero(),
    {
        let n = self.nh as nat;
        let (h1, h2) = (self.low(h), self.high(h));
        let v = self.path_values(c, i, k);
        let zero = T::s_zero();
        assert forall|g: int| 0 <= g < n implies #[trigger] v[g] == T::s_zero() by {
            self.lemma_no_path(c, i, k, g);
        }
        lemma_nothing_there(self.cards, v, nonzero(self.reach[c]), h1, n);
        lemma_nothing_there(self.cards, v, nonzero(self.reach[c]), h2, n);
        self.lemma_no_path_end(c, i, k, h1, n);
        self.lemma_no_path_end(c, i, k, h2, n);
        self.lemma_no_path_end(c, k, i, h1, n);
        self.lemma_no_path_end(c, k, i, h2, n);
        lemma_units(zero);
        lemma_undo(zero, zero);
    }

    /// Three hands that all hold one card of each other cannot come together.
    proof fn lemma_one_lacks(
        &self,
        i: int,
        j: int,
        k: int,
        p: spec_fn(int) -> bool,
        q: spec_fn(int) -> bool,
        r: spec_fn(int) -> bool,
    )
        requires
            self.no_three_connect(),
            self.are_three(i, j, k),
            forall|x: int, y: int, z: int|
                #[trigger] p(x) && #[trigger] q(y) && #[trigger] r(z) ==> meets(self.cards, x, y)
                    && meets(self.cards, x, z),
        ensures
            self.has_none(i, p) || self.has_none(j, q) || self.has_none(k, r),
    {
        if !self.has_none(i, p) && !self.has_none(j, q) {
            let x = choose|x: int|
                0 <= x < self.nh && p(x) && #[trigger] self.reach[i][x] != T::s_zero();
            let y = choose|y: int|
                0 <= y < self.nh && q(y) && #[trigger] self.reach[j][y] != T::s_zero();
            assert forall|z: int| 0 <= z < self.nh && r(z) implies #[trigger] self.reach[k][z]
                == T::s_zero() by {
                assert(p(x) && q(y));
                assert(self.reach[i][x] != T::s_zero() && self.reach[j][y] != T::s_zero());
            }
        }
    }

    /// Opponent `i` has none of the hands that `p` tells.
    spec fn has_none(&self, i: int, p: spec_fn(int) -> bool) -> bool {
        forall|g: int|
            0 <= g < self.nh && p(g) ==> #[trigger] self.reach[i][g] == T::s_zero()
    }

    /// Entries and cards over one common card.
    proof fn lemma_no_common(&self, i: int, j: int, k: int, a: int, b: int)
        requires
            is_exact::<T>(),
            self.is_dealt(),
            self.no_three_connect(),
            self.are_three(i, j, k),
        ensures
            self.star_at(i, j, k, a) == T::s_zero(),
            self.entry(i, a, b) * self.with_card(j, a) * self.entry(k, a, b) == T::s_zero(),
            self.entry(i, b, a) * self.entry(j, b, a) * self.with_card(k, a) == T::s_zero(),
            self.with_card(i, a) * self.entry(j, a, b) * self.entry(k, a, b) == T::s_zero(),
    {
        let p = |g: int| holds_card(self.cards, g, a);
        self.lemma_one_lacks(i, j, k, p, p, p);
        if self.has_none(i, p) {
            assert(self.lacks(i, a) && self.lacks_pair(i, a, b) && self.lacks_pair(i, b, a));
            self.lemma_lacks(i, a);
            self.lemma_lacks_pair(i, a, b);
            self.lemma_lacks_pair(i, b, a);
        } else if self.has_none(j, p) {
            assert(self.lacks(j, a) && self.lacks_pair(j, a, b) && self.lacks_pair(j, b, a));
            self.lemma_lacks(j, a);
            self.lemma_lacks_pair(j, a, b);
            self.lemma_lacks_pair(j, b, a);
        } else {
            assert(self.lacks(k, a) && self.lacks_pair(k, a, b));
            self.lemma_lacks(k, a);
            self.lemma_lacks_pair(k, a, b);
        }
        lemma_none(self.with_card(i, a), self.with_card(j, a), self.with_card(k, a));
        lemma_none(self.entry(i, a, b), self.with_card(j, a), self.entry(k, a, b));
        lemma_none(self.entry(i, b, a), self.entry(j, b, a), self.with_card(k, a));
        lemma_none(self.with_card(i, a), self.entry(j, a, b), self.entry(k, a, b));
    }

    proof fn lemma_no_ring_term(&self, i: int, j: int, k: int, c1: int, c2: int, c3: int)
        requires
            is_exact::<T>(),
            self.is_dealt(),
            self.no_three_connect(),
            self.are_three(i, j, k),
        ensures
            self.entry(i, c1, c3) * self.entry(j, c1, c2) * self.entry(k, c2, c3) == T::s_zero(),
    {
        let p = |g: int| is_pair(self.cards, g, c1, c2);
        let q = |g: int| is_pair(self.cards, g, c1, c3);
        let r = |g: int| is_pair(self.cards, g, c2, c3);
        self.lemma_one_lacks(j, i, k, p, q, r);
        if self.has_none(j, p) {
            assert(self.lacks_pair(j, c1, c2));
            self.lemma_lacks_pair(j, c1, c2);
        } else if self.has_none(i, q) {
            assert(self.lacks_pair(i, c1, c3));
            self.lemma_lacks_pair(i, c1, c3);
        } else {
            assert(self.lacks_pair(k, c2, c3));
            self.lemma_lacks_pair(k, c2, c3);
        }
        lemma_none(self.entry(i, c1, c3), self.entry(j, c1, c2), self.entry(k, c2, c3));
    }

    proof fn lemma_no_ring_third(&self, i: int, j: int, k: int, c1: int, c2: int, acc: T, n: nat)
        requires
            is_exact::<T>(),
            self.is_dealt(),
            self.no_three_connect(),
            self.are_three(i, j, k),
        ensures
            self.ring_third(i, j, k, c1, c2, acc, n) == acc,
        decreases n,
    {
        if n > 0 {
            self.lemma_no_ring_third(i, j, k, c1, c2, acc, (n - 1) as nat);
            self.lemma_no_ring_term(i, j, k, c1, c2, n - 1);
            lemma_units(acc);
        }
    }

    proof fn lemma_no_ring_second(&self, i: int, j: int, k: int, c1: int, acc: T, n: nat)
        requires
            is_exact::<T>(),
            self.is_dealt(),
            self.no_three_connect(),
            self.are_three(i, j, k),
        ensures
            self.ring_second(i, j, k, c1, acc, n) == acc,
        decreases n,
    {
        if n > 0 {
            self.lemma_no_ring_second(i, j, k, c1, acc, (n - 1) as nat);
            self.lemma_no_ring_third(i, j, k, c1, n - 1, acc, 52);
        }
    }

    proof fn lemma_no_ring(&self, i: int, j: int, k: int, n: nat)
        requires
            is_exact::<T>(),
            self.is_dealt(),
            self.no_three_connect(),
            self.are_three(i, j, k),
        ensures
            self.ring(i, j, k, n) == T::s_zero(),
        decreases n,
    {
        if n > 0 {
            self.lemma_no_ring(i, j, k, (n - 1) as nat);
            self.lemma_no_ring_second(i, j, k, n - 1, T::s_zero(), 52);
        }
    }

    proof fn lemma_no_twins_second(&self, i: int, j: int, k: int, a: int, acc: T, n: nat)
        requires
            is_exact::<T>(),
            self.is_dealt(),
            self.no_three_connect(),
            self.are_three(i, j, k),
        ensures
            self.twins_second(i, j, k, a, acc, n) == acc,
        decreases n,
    {
        if n > 0 {
            self.lemma_no_twins_second(i, j, k, a, acc, (n - 1) as nat);
            self.lemma_no_common(i, j, k, a, n - 1);
            lemma_units(acc);
        }
    }

    proof fn lemma_no_twins(&self, i: int, j: int, k: int, n: nat)
        requires
            is_exact::<T>(),
            self.is_dealt(),
            self.no_three_connect(),
            self.are_three(i, j, k),
        ensures
            self.twins(i, j, k, n) == T::s_zero(),
        decreases n,
    {
        if n > 0 {
            self.lemma_no_twins(i, j, k, (n - 1) as nat);
            self.lemma_no_twins_second(i, j, k, n - 1, T::s_zero(), 52);
        }
    }

    proof fn lemma_no_stars(&self, i: int, j: int, k: int, n: nat)
        requires
            is_exact::<T>(),
            self.is_dealt(),
            self.no_three_connect(),
            self.are_three(i, j, k),
        ensures
            self.stars(i, j, k, n) == T::s_zero(),
        decreases n,
    {
        if n == 0 {
            self.lemma_no_twins(i, j, k, 52);
        } else {
            self.lemma_no_stars(i, j, k, (n - 1) as nat);
            self.lemma_no_common(i, j, k, n - 1, 0);
            lemma_units(T::s_zero());
        }
    }

    /// Two equal hands, and the third around them.
    proof fn lemma_no_double(&self, i: int, j: int, k: int, g: int)
        requires
            is_exact::<T>(),
            self.is_dealt(),
            self.no_three_connect(),
            self.are_three(i, j, k),
            0 <= g < self.nh,
        ensures
            self.reach[i][g] * self.reach[j][g] * self.around(k, g) == T::s_zero(),
            self.reach[i][g] * self.reach[j][g] * self.reach[k][g] == T::s_zero(),
    {
        let (x, y) = (self.reach[i][g], self.reach[j][g]);
        if x != T::s_zero() && y != T::s_zero() {
            assert(meets(self.cards, g, g));
            assert forall|z: int|
                0 <= z < self.nh && meets(self.cards, g, z) implies #[trigger] self.reach[k][z]
                == T::s_zero() by {
                assert(self.reach[i][g] != T::s_zero() && self.reach[j][g] != T::s_zero());
            }
            assert(self.avoids(k, g));
            self.lemma_avoids(k, g);
        }
        lemma_none(x, y, self.around(k, g));
        lemma_none(x, y, self.reach[k][g]);
    }

    proof fn lemma_no_values(&self, v: Seq<T>, h: int)
        requires
            is_exact::<T>(),
            self.is_dealt(),
            v.len() == self.nh,
            forall|g: int| 0 <= g < self.nh ==> #[trigger] v[g] == T::s_zero(),
        ensures
            self.values_free(v, h) == T::s_zero(),
    {
        let n = self.nh as nat;
        lemma_nothing_there(self.cards, v, everyone(self.nh), self.low(h), n);
        lemma_nothing_there(self.cards, v, everyone(self.nh), self.high(h), n);
        lemma_units(T::s_zero());
        lemma_undo(T::s_zero(), T::s_zero());
    }

    /// Where no three connect, a cluster of three adds nothing.
    proof fn lemma_no_cluster(&self, i: int, j: int, k: int, h: int)
        requires
            is_exact::<T>(),
            self.is_dealt(),
            self.no_three_connect(),
            self.are_three(i, j, k),
        ensures
            self.cluster(i, j, k, h) == T::s_zero(),
    {
        let zero = T::s_zero();
        lemma_units(zero);
        lemma_undo(zero, zero);
        lemma_units(T::s_of(5));
        self.lemma_no_path_free(i, j, k, h);
        self.lemma_no_path_free(j, i, k, h);
        self.lemma_no_path_free(k, i, j, h);
        self.lemma_no_ring(i, j, k, 52);
        self.lemma_no_stars(i, j, k, 52);
        self.lemma_no_common(i, j, k, self.low(h), 0);
        self.lemma_no_common(i, j, k, self.high(h), 0);
        let v = self.doubles(i, j, k);
        let w = self.triples(i, j, k);
        assert forall|g: int| 0 <= g < self.nh implies #[trigger] v[g] == zero && w[g] == zero by {
            self.lemma_no_double(i, k, j, g);
            self.lemma_no_double(i, j, k, g);
            self.lemma_no_double(j, k, i, g);
        }
        assert forall|g: int| 0 <= g < self.nh implies #[trigger] w[g] == zero by {
            assert(v[g] == zero);
        }
        self.lemma_no_values(v, h);
        self.lemma_no_values(w, h);
    }

    /// Nor do the sums of the cluster.
    proof fn lemma_no_cluster_sum(&self, i: int, j: int, k: int, h: int)
        requires
            is_exact::<T>(),
            self.is_dealt(),
            self.no_three_connect(),
            self.are_three(i, j, k),
        ensures
            self.cluster_sum(i, j, k, h) == T::s_zero(),
    {
        let cards = self.cards;
        self.lemma_no_three_where(
            i,
            j,
            k,
            h,
            |x: int, y: int, z: int| meets(cards, x, y) && meets(cards, x, z),
        );
        self.lemma_no_three_where(
            i,
            j,
            k,
            h,
            |x: int, y: int, z: int| meets(cards, x, y) && meets(cards, y, z),
        );
        self.lemma_no_three_where(
            i,
            j,
            k,
            h,
            |x: int, y: int, z: int| meets(cards, x, z) && meets(cards, y, z),
        );
        self.lemma_no_three_where(
            i,
            j,
            k,
            h,
            |x: int, y: int, z: int|
                meets(cards, x, y) && meets(cards, x, z) && meets(cards, y, z),
        );
        lemma_units(T::s_zero());
        lemma_undo(T::s_zero(), T::s_zero());
    }

    proof fn lemma_no_three_where(
        &self,
        i: int,
        j: int,
        k: int,
        h: int,
        p: spec_fn(int, int, int) -> bool,
    )
        requires
            is_exact::<T>(),
            self.is_dealt(),
            self.no_three_connect(),
            self.are_three(i, j, k),
            forall|x: int, y: int, z: int| #[trigger]
                p(x, y, z) ==> {
                    let (xy, xz) = (meets(self.cards, x, y), meets(self.cards, x, z));
                    let yz = meets(self.cards, y, z);
                    xy && xz || xy && yz || xz && yz
                },
        ensures
            sum3(self.three_where(i, j, k, h, p), self.nh as nat) == T::s_zero(),
    {
        let f = self.three_where(i, j, k, h, p);
        let n = self.nh as nat;
        assert forall|x: int, y: int, z: int|
            0 <= x < n && 0 <= y < n && 0 <= z < n implies #[trigger] f(x, y, z) == T::s_zero() by {
            let (u, v, w) = (
                self.apart_from(i, h)(x),
                self.apart_from(j, h)(y),
                self.apart_from(k, h)(z),
            );
            lemma_units(u * v * w);
            if p(x, y, z) {
                let (a, b, c) = (self.reach[i][x], self.reach[j][y], self.reach[k][z]);
                assert(a == T::s_zero() || b == T::s_zero() || c == T::s_zero()) by {
                    let cards = self.cards;
                    assert(meets(cards, x, y) == meets(cards, y, x));
                    assert(meets(cards, x, z) == meets(cards, z, x));
                    assert(meets(cards, y, z) == meets(cards, z, y));
                    if a != T::s_zero() && b != T::s_zero() && c != T::s_zero() {
                        assert(!(meets(cards, x, y) && meets(cards, x, z)));
                        assert(!(meets(cards, y, x) && meets(cards, y, z)));
                        assert(!(meets(cards, z, x) && meets(cards, z, y)));
                    }
                }
                lemma_units(one_if::<T>(!meets(self.cards, h, x)));
                lemma_units(one_if::<T>(!meets(self.cards, h, y)));
                lemma_units(one_if::<T>(!meets(self.cards, h, z)));
                lemma_none(u, v, w);
                lemma_units(T::s_zero());
            }
        }
        lemma_sum3_zero(f, n);
    }

    /// Where numbers are exact and no three opponents can be connected by shared cards, the
    /// mass of four opponents is what they have with all hands that avoid hand `h` and each
    /// other; less than nothing counts as nothing.
    pub proof fn law_four_opponents_are_exact(&self, h: int)
        requires
            is_exact::<T>(),
            T::s_of(-1) == T::s_zero() - T::s_one(),
            self.is_dealt(),
            self.reach.len() == 4,
            0 <= h < self.nh,
            self.no_three_connect(),
        ensures
            self.mass_of_four(h) == sum4(self.all_apart(h), self.nh as nat).s_larger(T::s_zero()),
    {
        assert forall|a: int, b: int, c: int, d: int|
            0 <= a < self.nh && 0 <= b < self.nh && 0 <= c < self.nh && 0 <= d < self.nh
                && self.reach[0][a] != T::s_zero() && self.reach[1][b] != T::s_zero()
                && self.reach[2][c] != T::s_zero() && self.reach[3][d]
                != T::s_zero() implies #[trigger] fall_apart(self.cards, a, b, c, d) by {
            let cards = self.cards;
            assert(!(meets(cards, a, b) && meets(cards, a, c)));
            assert(!(meets(cards, a, b) && meets(cards, a, d)));
            assert(!(meets(cards, a, c) && meets(cards, a, d)));
            assert(!(meets(cards, b, a) && meets(cards, b, c)));
            assert(!(meets(cards, b, a) && meets(cards, b, d)));
            assert(!(meets(cards, b, c) && meets(cards, b, d)));
            assert(!(meets(cards, c, a) && meets(cards, c, b)));
            assert(!(meets(cards, c, a) && meets(cards, c, d)));
            assert(!(meets(cards, c, b) && meets(cards, c, d)));
            assert(!(meets(cards, d, a) && meets(cards, d, b)));
            assert(!(meets(cards, d, a) && meets(cards, d, c)));
            assert(!(meets(cards, d, b) && meets(cards, d, c)));
        }
        self.lemma_no_cluster(0, 1, 2, h);
        self.lemma_no_cluster(0, 1, 3, h);
        self.lemma_no_cluster(0, 2, 3, h);
        self.lemma_no_cluster(1, 2, 3, h);
        self.lemma_no_cluster_sum(0, 1, 2, h);
        self.lemma_no_cluster_sum(0, 1, 3, h);
        self.lemma_no_cluster_sum(0, 2, 3, h);
        self.lemma_no_cluster_sum(1, 2, 3, h);
        self.lemma_four_opponents(h);
    }

    /// In particular there is no mass where two opponents always share a card and no three
    /// can be connected.
    pub proof fn law_two_who_always_meet_leave_nothing(&self, i: int, j: int, h: int)
        requires
            is_exact::<T>(),
            T::s_of(-1) == T::s_zero() - T::s_one(),
            self.is_dealt(),
            self.reach.len() == 4,
            0 <= h < self.nh,
            0 <= i < j < 4,
            self.no_three_connect(),
            forall|x: int, y: int|
                0 <= x < self.nh && 0 <= y < self.nh && #[trigger] self.reach[i][x] != T::s_zero()
                    && #[trigger] self.reach[j][y] != T::s_zero() ==> meets(self.cards, x, y),
        ensures
            self.mass_of_four(h) == T::s_zero().s_larger(T::s_zero()),
    {
        let f = self.all_apart(h);
        let n = self.nh as nat;
        self.law_four_opponents_are_exact(h);
        assert forall|a: int, b: int, c: int, d: int|
            0 <= a < n && 0 <= b < n && 0 <= c < n && 0 <= d < n implies #[trigger] f(a, b, c, d)
            == T::s_zero() by {
            let t = self.together(h, a, b, c, d);
            lemma_units(t);
            lemma_units(T::s_zero());
            let x = if i == 0 {
                a
            } else if i == 1 {
                b
            } else {
                c
            };
            let y = if j == 1 {
                b
            } else if j == 2 {
                c
            } else {
                d
            };
            if self.reach[i][x] == T::s_zero() || self.reach[j][y] == T::s_zero() {
                self.lemma_together_zero(h, a, b, c, d);
                lemma_units(one_if::<T>(true));
            } else {
                assert(meets(self.cards, x, y));
            }
        }
        lemma_sum4_zero(f, n);
    }
}

} // verus!
