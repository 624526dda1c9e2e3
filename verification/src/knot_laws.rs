//! Clusters of three opponents beside a hand that nobody can share a card with.
use vstd::prelude::*;

use crate::cluster_laws::{
    at_card, card_sums, cards_at, holds_card, lemma_by_card, lemma_cards_first, meets, one_if,
    over_cards, values_at, values_with,
};
use crate::cluster_mass::{by_card, everyone, is_pair, nonzero, total, Crowd};
use crate::exact::{
    is_exact, lemma_differences, lemma_move, lemma_nothing, lemma_orders, lemma_pairs, lemma_spread,
    lemma_sum2_add, lemma_sum_add, lemma_sum_one, lemma_sum_product, lemma_sum_times,
    lemma_sum_zero, lemma_undo, lemma_units, row_of, row_sums, sum2, without, Exact,
};
use crate::gain_laws::lemma_sum_apart;
use crate::many_sums::{
    in3, lemma_sum2_ext, lemma_sum2_times, lemma_sum2_turn, lemma_sum3_add, lemma_sum3_ext,
    lemma_sum3_turn_first, lemma_sum3_turn_last, lemma_sum3_zero, sum3, sum4,
};
use crate::opponent_order::{lemma_ring, ring_terms};
use crate::scalar::{lemma_sum_ext, sum_upto, Scalar};

verus! {

/// Two and five are counted.
pub open spec fn counts_to_five<T: Scalar>() -> bool {
    let one = T::s_one();
    &&& T::s_of(-1) == T::s_zero() - one
    &&& T::s_of(2) == one + one
    &&& T::s_of(5) == one + one + one + one + one
}

/// A sum of which two terms at most are something.
proof fn lemma_two_terms<T: Scalar>(f: spec_fn(int) -> T, x: int, y: int, n: nat)
    requires
        is_exact::<T>(),
        0 <= x < n,
        0 <= y < n,
        x != y,
        forall|k: int| 0 <= k < n && k != x && k != y ==> #[trigger] f(k) == T::s_zero(),
    ensures
        sum_upto(f, n) == f(x) + f(y),
{
    lemma_sum_apart(f, x, y, n);
    lemma_sum_zero(without(f, x, y), n);
    lemma_units(f(x));
}

/// A masked sum whose masked terms are nothing.
proof fn lemma_masked<T: Scalar>(v: Seq<T>, live: Seq<bool>, f: spec_fn(int) -> T, n: nat)
    requires
        is_exact::<T>(),
        forall|g: int| 0 <= g < n ==> #[trigger] f(g) == v[g],
        forall|g: int| 0 <= g < n && !live[g] ==> #[trigger] v[g] == T::s_zero(),
    ensures
        total(v, live, n) == sum_upto(f, n),
    decreases n,
{
    if n > 0 {
        lemma_masked(v, live, f, (n - 1) as nat);
        let g: int = n - 1;
        assert(f(g) == v[g]);
        lemma_units(total(v, live, (n - 1) as nat));
    }
}

/// No values on the hands with a card.
proof fn lemma_none_with<T: Scalar>(cards: Seq<u8>, v: Seq<T>, live: Seq<bool>, c: int, n: nat)
    requires
        is_exact::<T>(),
        forall|g: int| 0 <= g < n && holds_card(cards, g, c) ==> #[trigger] v[g] == T::s_zero(),
    ensures
        by_card(cards, v, live, c, n) == T::s_zero(),
    decreases n,
{
    if n > 0 {
        lemma_none_with(cards, v, live, c, (n - 1) as nat);
        let g: int = n - 1;
        if holds_card(cards, g, c) {
            assert(v[g] == T::s_zero());
        }
        lemma_units(T::s_zero());
    }
}

/// Three sums multiplied.
proof fn lemma_product_of_three<T: Scalar>(
    f: spec_fn(int) -> T,
    g: spec_fn(int) -> T,
    k: spec_fn(int) -> T,
    all: spec_fn(int, int, int) -> T,
    n: nat,
)
    requires
        is_exact::<T>(),
        forall|x: int, y: int, z: int|
            0 <= x < n && 0 <= y < n && 0 <= z < n ==> #[trigger] all(x, y, z) == f(x) * g(y) * k(
                z,
            ),
    ensures
        sum3(all, n) == sum_upto(f, n) * sum_upto(g, n) * sum_upto(k, n),
{
    let s = sum_upto(k, n);
    let p = |x: int, y: int| f(x) * g(y);
    assert forall|x: int, y: int| 0 <= x < n && 0 <= y < n implies #[trigger] in3(all, n)(x, y) == s
        * p(x, y) by {
        lemma_sum_times(p(x, y), k, |z: int| all(x, y, z), n);
        lemma_orders(p(x, y), s, s);
    }
    lemma_sum2_times(s, p, in3(all, n), n);
    lemma_sum_product(f, g, p, n, n);
    lemma_orders(s, sum_upto(f, n) * sum_upto(g, n), s);
}

/// Sums of three indices, added up over a fourth.
proof fn lemma_sum3_pile<T: Scalar>(fs: spec_fn(int) -> spec_fn(int, int, int) -> T, m: nat, n: nat)
    requires
        is_exact::<T>(),
    ensures
        sum_upto(|c: int| sum3(fs(c), n), m) == sum3(
            |x: int, y: int, z: int| sum_upto(|c: int| fs(c)(x, y, z), m),
            n,
        ),
    decreases m,
{
    let all = |x: int, y: int, z: int| sum_upto(|c: int| fs(c)(x, y, z), m);
    if m == 0 {
        lemma_sum3_zero(all, n);
    } else {
        let k = (m - 1) as nat;
        lemma_sum3_pile(fs, k, n);
        lemma_sum3_add(
            |x: int, y: int, z: int| sum_upto(|c: int| fs(c)(x, y, z), k),
            fs(m - 1),
            all,
            n,
        );
    }
}

/// Three hands, each two of which share one of three different cards.
pub open spec fn ringed(cards: Seq<u8>, x: int, z: int, c1: int, c2: int) -> bool {
    exists|c3: int|
        0 <= c3 < 52 && c3 != c1 && c3 != c2 && #[trigger] is_pair(cards, x, c1, c3) && is_pair(
            cards,
            z,
            c2,
            c3,
        )
}

impl<T: Scalar> Crowd<T> {
    /// No opponent has a hand that shares a card with hand `h`.
    pub open spec fn nobody_meets(&self, h: int) -> bool {
        forall|i: int, g: int|
            0 <= i < self.reach.len() && 0 <= g < self.nh && meets(self.cards, h, g)
                ==> #[trigger] self.reach[i][g] == T::s_zero()
    }

    /// What opponent `i` has with the hands that share a card with hand `g`.
    spec fn meeting(&self, i: int, g: int) -> spec_fn(int) -> T {
        |k: int| one_if::<T>(meets(self.cards, g, k)) * self.reach[i][k]
    }

    proof fn lemma_touching(&self, i: int, g: int)
        requires
            is_exact::<T>(),
            self.is_dealt(),
            0 <= i < self.reach.len(),
            0 <= g < self.nh,
        ensures
            self.touching(i, g) == sum_upto(self.meeting(i, g), self.nh as nat),
    {
        let v = self.reach[i];
        let n = self.nh as nat;
        let (a, b) = (self.low(g), self.high(g));
        lemma_by_card(self.cards, v, a, n);
        lemma_by_card(self.cards, v, b, n);
        let wa = values_with(self.cards, v, a);
        let wb = values_with(self.cards, v, b);
        let own = values_at(self.cards, v, a, b);
        let m = self.meeting(i, g);
        assert forall|k: int| 0 <= k < n && k != g implies #[trigger] own(k) == T::s_zero() by {
            assert(!is_pair(self.cards, k, self.cards[2 * g] as int, self.cards[2 * g + 1] as int));
            lemma_units(v[k]);
        }
        lemma_sum_one(own, g, n);
        lemma_units(v[g]);
        let l = |k: int| wa(k) + wb(k);
        lemma_sum_add(wa, wb, l, n);
        assert forall|k: int| 0 <= k < n implies #[trigger] l(k) == m(k) + own(k) by {
            let x = v[k];
            lemma_units(x);
            assert(self.cards[2 * k] != self.cards[2 * k + 1]);
            assert(self.cards[2 * g] != self.cards[2 * g + 1]);
            lemma_units(T::s_zero());
            lemma_units(x + x);
        }
        lemma_sum_add(m, own, l, n);
        lemma_move(sum_upto(l, n), sum_upto(m, n), v[g]);
    }

    /// Beside a hand that nobody shares a card with, all reach counts.
    proof fn lemma_all_counts(&self, i: int, h: int, g: int)
        requires
            is_exact::<T>(),
            self.nobody_meets(h),
            0 <= i < self.reach.len(),
            0 <= g < self.nh,
        ensures
            self.apart_from(i, h)(g) == self.reach[i][g],
    {
        lemma_units(self.reach[i][g]);
        if meets(self.cards, h, g) {
            assert(self.reach[i][g] == T::s_zero());
        }
    }

    /// The chains over opponent `c`.
    proof fn lemma_path(&self, c: int, i: int, k: int, h: int)
        requires
            is_exact::<T>(),
            self.is_dealt(),
            self.nobody_meets(h),
            0 <= c < self.reach.len(),
            0 <= i < self.reach.len(),
            0 <= k < self.reach.len(),
            0 <= h < self.nh,
        ensures
            self.path_free(c, i, k, h) == self.over_first(c, i, k, h),
    {
        let n = self.nh as nat;
        let (h1, h2) = (self.low(h), self.high(h));
        let v = self.path_values(c, i, k);
        let live = nonzero(self.reach[c]);
        let f = |g: int| v[g];
        assert forall|g: int| 0 <= g < n && self.reach[c][g] == T::s_zero() implies #[trigger] v[g]
            == T::s_zero() by {
            lemma_units(self.touching(i, g));
            lemma_units(self.touching(k, g));
        }
        assert forall|g: int| 0 <= g < n && !live[g] implies #[trigger] v[g] == T::s_zero() by {
            lemma_nothing(self.reach[c][g]);
        }
        lemma_masked(v, live, f, n);
        assert forall|g: int|
            0 <= g < n && (holds_card(self.cards, g, h1) || holds_card(
                self.cards,
                g,
                h2,
            )) implies #[trigger] v[g] == T::s_zero() by {
            assert(meets(self.cards, h, g));
            assert(self.reach[c][g] == T::s_zero());
        }
        lemma_none_with(self.cards, v, live, h1, n);
        lemma_none_with(self.cards, v, live, h2, n);
        self.lemma_no_end(c, i, k, h, h1, n);
        self.lemma_no_end(c, i, k, h, h2, n);
        self.lemma_no_end(c, k, i, h, h1, n);
        self.lemma_no_end(c, k, i, h, h2, n);
        let zero = T::s_zero();
        lemma_units(zero);
        let s = sum_upto(f, n);
        lemma_undo(s, zero);
        lemma_units(s);
        lemma_orders(s - zero, zero, zero);
        assert(s - zero == s);
        // The sum over all chains.
        let p = |x: int, y: int, z: int| meets(self.cards, x, y) && meets(self.cards, x, z);
        let all = self.three_where(c, i, k, h, p);
        assert forall|x: int| 0 <= x < n implies #[trigger] row_sums(in3(all, n), n)(x) == f(x) by {
            let r = self.reach[c][x];
            let (u, w) = (self.meeting(i, x), self.meeting(k, x));
            let (su, sw) = (sum_upto(u, n), sum_upto(w, n));
            self.lemma_touching(i, x);
            self.lemma_touching(k, x);
            assert forall|y: int| 0 <= y < n implies #[trigger] row_of(in3(all, n), x)(y) == (r
                * sw) * u(y) by {
                let e = |z: int| all(x, y, z);
                assert forall|z: int| 0 <= z < n implies #[trigger] e(z) == (r * u(y)) * w(z) by {
                    self.lemma_all_counts(c, h, x);
                    self.lemma_all_counts(i, h, y);
                    self.lemma_all_counts(k, h, z);
                    let (b, d) = (self.reach[i][y], self.reach[k][z]);
                    lemma_units(b);
                    lemma_units(d);
                    lemma_units(r);
                    lemma_units(r * b);
                    lemma_units(r * b * d);
                    lemma_units(T::s_zero());
                }
                lemma_sum_times(r * u(y), w, e, n);
                lemma_orders(r, u(y), sw);
            }
            lemma_sum_times(r * sw, u, row_of(in3(all, n), x), n);
            lemma_orders(r, sw, su);
        }
        lemma_sum_ext(row_sums(in3(all, n), n), f, n);
    }

    /// Chains whose end holds a card of hand `h`.
    proof fn lemma_no_end(&self, c: int, i: int, k: int, h: int, e: int, n: nat)
        requires
            is_exact::<T>(),
            self.is_dealt(),
            self.nobody_meets(h),
            0 <= k < self.reach.len(),
            0 <= h < self.nh,
            e == self.low(h) || e == self.high(h),
            n <= self.nh,
        ensures
            self.path_end(c, i, k, e, n) == T::s_zero(),
        decreases n,
    {
        if n > 0 {
            self.lemma_no_end(c, i, k, h, e, (n - 1) as nat);
            let g: int = n - 1;
            self.lemma_no_pair(k, h, self.low(g), e);
            self.lemma_no_pair(k, h, self.high(g), e);
            lemma_units(T::s_zero());
            lemma_units(self.reach[c][g] * self.touching(i, g));
        }
    }

    proof fn lemma_no_pair(&self, k: int, h: int, c: int, e: int)
        requires
            is_exact::<T>(),
            self.is_dealt(),
            self.nobody_meets(h),
            0 <= k < self.reach.len(),
            0 <= h < self.nh,
            e == self.low(h) || e == self.high(h),
        ensures
            self.entry(k, c, e) == T::s_zero(),
    {
        let n = self.nh as nat;
        let f = values_at(self.cards, self.reach[k], c, e);
        self.lemma_look(k, c, e);
        assert forall|g: int| 0 <= g < n implies #[trigger] f(g) == T::s_zero() by {
            lemma_units(self.reach[k][g]);
            lemma_units(T::s_zero());
            if is_pair(self.cards, g, c, e) {
                assert(meets(self.cards, h, g));
                assert(self.reach[k][g] == T::s_zero());
            }
        }
        lemma_sum_zero(f, n);
    }

    /// Nobody has a card of hand `h`.
    proof fn lemma_no_card(&self, k: int, h: int, e: int)
        requires
            is_exact::<T>(),
            self.is_dealt(),
            self.nobody_meets(h),
            0 <= k < self.reach.len(),
            0 <= h < self.nh,
            e == self.low(h) || e == self.high(h),
        ensures
            self.with_card(k, e) == T::s_zero(),
    {
        let n = self.nh as nat;
        let f = values_with(self.cards, self.reach[k], e);
        lemma_by_card(self.cards, self.reach[k], e, n);
        assert forall|g: int| 0 <= g < n implies #[trigger] f(g) == T::s_zero() by {
            lemma_units(self.reach[k][g]);
            lemma_units(T::s_zero());
            if holds_card(self.cards, g, e) {
                assert(meets(self.cards, h, g));
                assert(self.reach[k][g] == T::s_zero());
            }
        }
        lemma_sum_zero(f, n);
    }

    /// The reach of two with the same hand, if it is the hand of `a` and `b`.
    spec fn joint_at(&self, i: int, k: int, a: int, b: int) -> spec_fn(int) -> T {
        |g: int| one_if::<T>(is_pair(self.cards, g, a, b)) * (self.reach[i][g] * self.reach[k][g])
    }

    proof fn lemma_joint_entry(&self, i: int, k: int, a: int, b: int)
        requires
            is_exact::<T>(),
            self.is_dealt(),
            0 <= i < self.reach.len(),
            0 <= k < self.reach.len(),
        ensures
            self.entry(i, a, b) * self.entry(k, a, b) == sum_upto(
                self.joint_at(i, k, a, b),
                self.nh as nat,
            ),
    {
        let n = self.nh as nat;
        let (f, g) = (
            values_at(self.cards, self.reach[i], a, b),
            values_at(self.cards, self.reach[k], a, b),
        );
        let p = self.joint_at(i, k, a, b);
        self.lemma_look(i, a, b);
        self.lemma_look(k, a, b);
        if exists|x: int| 0 <= x < n && #[trigger] is_pair(self.cards, x, a, b) {
            let x = choose|x: int| 0 <= x < n && #[trigger] is_pair(self.cards, x, a, b);
            assert forall|y: int| 0 <= y < n && y != x implies #[trigger] f(y) == T::s_zero() && g(
                y,
            ) == T::s_zero() && p(y) == T::s_zero() by {
                self.lemma_other_pair(x, y, a, b);
                lemma_units(self.reach[i][y]);
                lemma_units(self.reach[k][y]);
                lemma_units(self.reach[i][y] * self.reach[k][y]);
            }
            assert forall|y: int| 0 <= y < n && y != x implies #[trigger] g(y) == T::s_zero() by {
                assert(f(y) == T::s_zero());
            }
            assert forall|y: int| 0 <= y < n && y != x implies #[trigger] p(y) == T::s_zero() by {
                assert(f(y) == T::s_zero());
            }
            lemma_sum_one(f, x, n);
            lemma_sum_one(g, x, n);
            lemma_sum_one(p, x, n);
            lemma_units(self.reach[i][x]);
            lemma_units(self.reach[k][x]);
            lemma_units(self.reach[i][x] * self.reach[k][x]);
        } else {
            assert forall|y: int| 0 <= y < n implies #[trigger] f(y) == T::s_zero() by {
                lemma_units(self.reach[i][y]);
            }
            assert forall|y: int| 0 <= y < n implies #[trigger] p(y) == T::s_zero() by {
                lemma_units(self.reach[i][y] * self.reach[k][y]);
            }
            lemma_sum_zero(f, n);
            lemma_sum_zero(p, n);
            lemma_units(sum_upto(g, n));
        }
    }

    proof fn lemma_other_pair(&self, x: int, y: int, a: int, b: int)
        requires
            self.is_dealt(),
            0 <= x < self.nh,
            0 <= y < self.nh,
            x != y,
            is_pair(self.cards, x, a, b),
        ensures
            !is_pair(self.cards, y, a, b),
    {
        assert(!is_pair(self.cards, y, self.cards[2 * x] as int, self.cards[2 * x + 1] as int));
    }

    /// The reach of two with the same hand, if it holds card `a`.
    spec fn joint_with(&self, i: int, k: int, a: int) -> spec_fn(int) -> T {
        |g: int| one_if::<T>(holds_card(self.cards, g, a)) * (self.reach[i][g] * self.reach[k][g])
    }

    /// The same read off the entries, by the other card.
    spec fn joint_entries(&self, i: int, k: int, a: int) -> spec_fn(int) -> T {
        |b: int| self.entry(i, a, b) * self.entry(k, a, b)
    }

    proof fn lemma_joint_card(&self, i: int, k: int, a: int)
        requires
            is_exact::<T>(),
            self.is_dealt(),
            0 <= i < self.reach.len(),
            0 <= k < self.reach.len(),
        ensures
            sum_upto(self.joint_entries(i, k, a), 52) == sum_upto(
                self.joint_with(i, k, a),
                self.nh as nat,
            ),
    {
        let n = self.nh as nat;
        let f = |b: int, g: int| self.joint_at(i, k, a, b)(g);
        let t = |g: int, b: int| self.joint_at(i, k, a, b)(g);
        let e = self.joint_entries(i, k, a);
        assert forall|b: int| 0 <= b < 52 implies #[trigger] e(b) == row_sums(f, n)(b) by {
            self.lemma_joint_entry(i, k, a, b);
            lemma_sum_ext(self.joint_at(i, k, a, b), row_of(f, b), n);
        }
        lemma_sum_ext(e, row_sums(f, n), 52);
        lemma_sum2_turn(f, t, 52, n);
        let w = self.joint_with(i, k, a);
        assert forall|g: int| 0 <= g < n implies #[trigger] row_sums(t, 52)(g) == w(g) by {
            let q = row_of(t, g);
            let x = self.reach[i][g] * self.reach[k][g];
            lemma_units(x);
            let (l, m) = (self.low(g), self.high(g));
            assert(self.cards[2 * g] < 52 && self.cards[2 * g + 1] < 52);
            assert(self.cards[2 * g] != self.cards[2 * g + 1]);
            if a == l {
                lemma_sum_one(q, m, 52);
            } else if a == m {
                lemma_sum_one(q, l, 52);
            } else {
                lemma_sum_zero(q, 52);
            }
        }
        lemma_sum_ext(row_sums(t, 52), w, n);
    }

    /// Values of cards, times the reach of two with the same hand that holds them.
    spec fn joint_worth(&self, i: int, k: int, z: spec_fn(int) -> T) -> spec_fn(int) -> T {
        |a: int| z(a) * sum_upto(self.joint_entries(i, k, a), 52)
    }

    /// The same, hand by hand.
    spec fn hand_worth(&self, i: int, k: int, z: spec_fn(int) -> T) -> spec_fn(int) -> T {
        |g: int| self.reach[i][g] * self.reach[k][g] * (z(self.low(g)) + z(self.high(g)))
    }

    proof fn lemma_joint_worth(&self, i: int, k: int, z: spec_fn(int) -> T)
        requires
            is_exact::<T>(),
            self.is_dealt(),
            0 <= i < self.reach.len(),
            0 <= k < self.reach.len(),
        ensures
            sum_upto(self.joint_worth(i, k, z), 52) == sum_upto(
                self.hand_worth(i, k, z),
                self.nh as nat,
            ),
    {
        let n = self.nh as nat;
        let f = |a: int, g: int| z(a) * self.joint_with(i, k, a)(g);
        let t = |g: int, a: int| z(a) * self.joint_with(i, k, a)(g);
        let e = self.joint_worth(i, k, z);
        assert forall|a: int| 0 <= a < 52 implies #[trigger] e(a) == row_sums(f, n)(a) by {
            self.lemma_joint_card(i, k, a);
            lemma_sum_times(z(a), self.joint_with(i, k, a), row_of(f, a), n);
        }
        lemma_sum_ext(e, row_sums(f, n), 52);
        lemma_sum2_turn(f, t, 52, n);
        let w = self.hand_worth(i, k, z);
        assert forall|g: int| 0 <= g < n implies #[trigger] row_sums(t, 52)(g) == w(g) by {
            let q = row_of(t, g);
            let x = self.reach[i][g] * self.reach[k][g];
            let (l, m) = (self.low(g), self.high(g));
            assert(self.cards[2 * g] < 52 && self.cards[2 * g + 1] < 52);
            assert(self.cards[2 * g] != self.cards[2 * g + 1]);
            lemma_units(x);
            assert forall|a: int| 0 <= a < 52 && a != l && a != m implies #[trigger] q(a)
                == T::s_zero() by {
                lemma_units(z(a));
            }
            lemma_two_terms(q, l, m, 52);
            lemma_spread(x, z(l), z(m));
            lemma_orders(z(l), x, x);
            lemma_orders(z(m), x, x);
        }
        lemma_sum_ext(row_sums(t, 52), w, n);
    }
}

impl<T: Scalar> Crowd<T> {
    /// The reach of opponent `i` by card.
    spec fn by_each_card(&self, i: int) -> spec_fn(int) -> T {
        |a: int| self.with_card(i, a)
    }

    /// What twins have at card `a`: one sum per pair of opponents.
    spec fn twins_at(&self, i: int, j: int, k: int) -> spec_fn(int) -> T {
        |a: int|
            self.joint_worth(i, k, self.by_each_card(j))(a) + self.joint_worth(
                i,
                j,
                self.by_each_card(k),
            )(a) + self.joint_worth(j, k, self.by_each_card(i))(a)
    }

    proof fn lemma_twins_second(&self, i: int, j: int, k: int, a: int, acc: T, n: nat)
        requires
            is_exact::<T>(),
            self.is_dealt(),
            0 <= i < self.reach.len(),
            0 <= j < self.reach.len(),
            0 <= k < self.reach.len(),
        ensures
            self.twins_second(i, j, k, a, acc, n) == acc + (self.with_card(j, a) * sum_upto(
                self.joint_entries(i, k, a),
                n,
            ) + self.with_card(k, a) * sum_upto(self.joint_entries(i, j, a), n) + self.with_card(i, a)
                * sum_upto(self.joint_entries(j, k, a), n)),
        decreases n,
    {
        let (p, q, r) = (
            self.joint_entries(i, k, a),
            self.joint_entries(i, j, a),
            self.joint_entries(j, k, a),
        );
        let (u, v, w) = (self.with_card(i, a), self.with_card(j, a), self.with_card(k, a));
        lemma_units(u);
        lemma_units(v);
        lemma_units(w);
        lemma_units(acc);
        lemma_units(T::s_zero());
        if n > 0 {
            let m = (n - 1) as nat;
            let b: int = n - 1;
            self.lemma_twins_second(i, j, k, a, acc, m);
            let (x, y, z) = (self.entry(i, a, b), self.entry(j, a, b), self.entry(k, a, b));
            self.lemma_look(i, a, b);
            self.lemma_look(j, a, b);
            self.lemma_look(k, a, b);
            self.lemma_look(i, b, a);
            self.lemma_look(j, b, a);
            lemma_spread(v, sum_upto(p, m), p(b));
            lemma_spread(w, sum_upto(q, m), q(b));
            lemma_spread(u, sum_upto(r, m), r(b));
            let (s1, s2, s3) = (v * sum_upto(p, m), w * sum_upto(q, m), u * sum_upto(r, m));
            let (t1, t2, t3) = (v * p(b), w * q(b), u * r(b));
            // The three terms that `b` adds.
            lemma_orders(x, v, z);
            lemma_orders(v, x, z);
            lemma_orders(x, y, w);
            lemma_orders(w, x * y, w);
            lemma_orders(u, y, z);
            assert(x * v * z == t1);
            assert(x * y * w == t2);
            assert(u * y * z == t3);
            let prev = acc + (s1 + s2 + s3);
            lemma_pairs(s1, t1, s2, t2);
            lemma_pairs(s1 + s2, t1 + t2, s3, t3);
            assert((s1 + t1) + (s2 + t2) + (s3 + t3) == (s1 + s2 + s3) + (t1 + t2 + t3));
            lemma_orders(acc, s1 + s2 + s3, t1 + t2 + t3);
            lemma_orders(prev, t1, t2);
            lemma_orders(prev, t1 + t2, t3);
            if a == b {
                lemma_units(prev);
                assert(t1 == T::s_zero() && t2 == T::s_zero() && t3 == T::s_zero());
            }
        }
    }

    proof fn lemma_twins(&self, i: int, j: int, k: int, n: nat)
        requires
            is_exact::<T>(),
            self.is_dealt(),
            0 <= i < self.reach.len(),
            0 <= j < self.reach.len(),
            0 <= k < self.reach.len(),
        ensures
            self.twins(i, j, k, n) == sum_upto(self.twins_at(i, j, k), n),
        decreases n,
    {
        if n > 0 {
            self.lemma_twins(i, j, k, (n - 1) as nat);
            self.lemma_twins_second(i, j, k, n - 1, self.twins(i, j, k, (n - 1) as nat), 52);
        }
    }

    /// Twins and doubles: all that the doubles have more is six times the triples.
    proof fn lemma_doubles(&self, i: int, j: int, k: int)
        requires
            is_exact::<T>(),
            counts_to_five::<T>(),
            self.is_dealt(),
            0 <= i < self.reach.len(),
            0 <= j < self.reach.len(),
            0 <= k < self.reach.len(),
        ensures
            ({
                let n = self.nh as nat;
                let t = sum_upto(|g: int| self.triples(i, j, k)[g], n);
                sum_upto(|g: int| self.doubles(i, j, k)[g], n) == self.twins(i, j, k, 52) + (t + t
                    + (t + t) + (t + t))
            }),
    {
        let n = self.nh as nat;
        let (zi, zj, zk) = (self.by_each_card(i), self.by_each_card(j), self.by_each_card(k));
        let (p, q, r) = (
            self.joint_worth(i, k, zj),
            self.joint_worth(i, j, zk),
            self.joint_worth(j, k, zi),
        );
        let pq = |a: int| p(a) + q(a);
        let all = self.twins_at(i, j, k);
        self.lemma_twins(i, j, k, 52);
        lemma_sum_add(p, q, pq, 52);
        lemma_sum_add(pq, r, all, 52);
        self.lemma_joint_worth(i, k, zj);
        self.lemma_joint_worth(i, j, zk);
        self.lemma_joint_worth(j, k, zi);
        let (x, y, z) = (
            self.hand_worth(i, k, zj),
            self.hand_worth(i, j, zk),
            self.hand_worth(j, k, zi),
        );
        let xy = |g: int| x(g) + y(g);
        let xyz = |g: int| xy(g) + z(g);
        lemma_sum_add(x, y, xy, n);
        lemma_sum_add(xy, z, xyz, n);
        let t = |g: int| self.triples(i, j, k)[g];
        let t2 = |g: int| t(g) + t(g);
        let t4 = |g: int| t2(g) + t2(g);
        let t6 = |g: int| t4(g) + t2(g);
        lemma_sum_add(t, t, t2, n);
        lemma_sum_add(t2, t2, t4, n);
        lemma_sum_add(t4, t2, t6, n);
        let d = |g: int| self.doubles(i, j, k)[g];
        assert forall|g: int| 0 <= g < n implies #[trigger] d(g) == xyz(g) + t6(g) by {
            let (ri, rj, rk) = (self.reach[i][g], self.reach[j][g], self.reach[k][g]);
            let (a, b) = (self.low(g), self.high(g));
            let (wi, wj, wk) = (zi(a) + zi(b), zj(a) + zj(b), zk(a) + zk(b));
            let two = T::s_of(2);
            let (ti, tj, tk) = (two * ri, two * rj, two * rk);
            let (u, v, w) = (ri * rk, ri * rj, rj * rk);
            lemma_spread(u, wj, tj);
            lemma_spread(v, wk, tk);
            lemma_spread(w, wi, ti);
            let c = ri * rj * rk;
            self.lemma_twice(u, rj);
            self.lemma_twice(v, rk);
            self.lemma_twice(w, ri);
            lemma_orders(ri, rk, rj);
            lemma_orders(ri, rj, rk);
            lemma_orders(rj, rk, ri);
            lemma_orders(rj * rk, ri, ri);
            assert(u * rj == c && v * rk == c && w * ri == c);
            let e = c + c;
            assert(t(g) == c && t2(g) == e && t4(g) == e + e && t6(g) == e + e + e);
            assert(d(g) == (u * wj + e) + (v * wk + e) + (w * wi + e));
            lemma_pairs(u * wj, e, v * wk, e);
            lemma_pairs(u * wj + v * wk, e + e, w * wi, e);
        }
        lemma_sum_add(xyz, t6, d, n);
        let s = sum_upto(t, n);
        assert(sum_upto(t6, n) == s + s + (s + s) + (s + s));
        assert(sum_upto(xyz, n) == self.twins(i, j, k, 52));
    }

    /// A product with twice a number.
    proof fn lemma_twice(&self, u: T, r: T)
        requires
            is_exact::<T>(),
            counts_to_five::<T>(),
        ensures
            u * (T::s_of(2) * r) == u * r + u * r,
    {
        lemma_spread(r, T::s_one(), T::s_one());
        lemma_units(r);
        lemma_spread(u, r, r);
    }

    /// What three opponents have with three hands.
    spec fn three_reach(&self, i: int, j: int, k: int, x: int, y: int, z: int) -> T {
        self.reach[i][x] * self.reach[j][y] * self.reach[k][z]
    }

    /// The same where `p` holds of the hands.
    spec fn reach_where(
        &self,
        i: int,
        j: int,
        k: int,
        p: spec_fn(int, int, int) -> bool,
    ) -> spec_fn(int, int, int) -> T {
        |x: int, y: int, z: int| one_if::<T>(p(x, y, z)) * self.three_reach(i, j, k, x, y, z)
    }

    /// Three hands that are all the same.
    proof fn lemma_triples(&self, i: int, j: int, k: int)
        requires
            is_exact::<T>(),
            self.is_dealt(),
        ensures
            sum_upto(|g: int| self.triples(i, j, k)[g], self.nh as nat) == sum3(
                self.reach_where(i, j, k, |x: int, y: int, z: int| x == y && x == z),
                self.nh as nat,
            ),
    {
        let n = self.nh as nat;
        let p = |x: int, y: int, z: int| x == y && x == z;
        let f = self.reach_where(i, j, k, p);
        let t = |g: int| self.triples(i, j, k)[g];
        assert forall|x: int| 0 <= x < n implies #[trigger] row_sums(in3(f, n), n)(x) == t(x) by {
            let q = row_of(in3(f, n), x);
            assert forall|y: int| 0 <= y < n && y != x implies #[trigger] q(y) == T::s_zero() by {
                let e = |z: int| f(x, y, z);
                assert forall|z: int| 0 <= z < n implies #[trigger] e(z) == T::s_zero() by {
                    lemma_units(self.three_reach(i, j, k, x, y, z));
                }
                lemma_sum_zero(e, n);
            }
            lemma_sum_one(q, x, n);
            let e = |z: int| f(x, x, z);
            assert forall|z: int| 0 <= z < n && z != x implies #[trigger] e(z) == T::s_zero() by {
                lemma_units(self.three_reach(i, j, k, x, x, z));
            }
            lemma_sum_one(e, x, n);
            lemma_units(self.three_reach(i, j, k, x, x, x));
        }
        lemma_sum_ext(row_sums(in3(f, n), n), t, n);
    }

    /// How many cards three hands have in common, counted in numbers.
    spec fn in_common(&self, x: int, y: int, z: int) -> T {
        sum_upto(
            |c: int|
                one_if::<T>(
                    holds_card(self.cards, x, c) && holds_card(self.cards, y, c) && holds_card(
                        self.cards,
                        z,
                        c,
                    ),
                ),
            52,
        )
    }

    /// The stars over all cards.
    proof fn lemma_stars(&self, i: int, j: int, k: int, n: nat)
        requires
            is_exact::<T>(),
        ensures
            self.stars(i, j, k, n) == self.twins(i, j, k, 52) + sum_upto(
                |c: int| self.star_at(i, j, k, c),
                n,
            ),
        decreases n,
    {
        let t = self.twins(i, j, k, 52);
        let f = |c: int| self.star_at(i, j, k, c);
        if n == 0 {
            lemma_units(t);
        } else {
            self.lemma_stars(i, j, k, (n - 1) as nat);
            lemma_orders(t, sum_upto(f, (n - 1) as nat), f(n - 1));
        }
    }

    /// The stars, hand by hand.
    proof fn lemma_star_hands(&self, i: int, j: int, k: int)
        requires
            is_exact::<T>(),
            self.is_dealt(),
            0 <= i < self.reach.len(),
            0 <= j < self.reach.len(),
            0 <= k < self.reach.len(),
        ensures
            sum_upto(|c: int| self.star_at(i, j, k, c), 52) == sum3(
                |x: int, y: int, z: int|
                    self.in_common(x, y, z) * self.three_reach(i, j, k, x, y, z),
                self.nh as nat,
            ),
    {
        let n = self.nh as nat;
        let cards = self.cards;
        let fs = |c: int|
            |x: int, y: int, z: int|
                values_with(cards, self.reach[i], c)(x) * values_with(cards, self.reach[j], c)(y)
                    * values_with(cards, self.reach[k], c)(z);
        let f = |c: int| self.star_at(i, j, k, c);
        let s = |c: int| sum3(fs(c), n);
        assert forall|c: int| 0 <= c < 52 implies #[trigger] f(c) == s(c) by {
            lemma_by_card(cards, self.reach[i], c, n);
            lemma_by_card(cards, self.reach[j], c, n);
            lemma_by_card(cards, self.reach[k], c, n);
            lemma_product_of_three(
                values_with(cards, self.reach[i], c),
                values_with(cards, self.reach[j], c),
                values_with(cards, self.reach[k], c),
                fs(c),
                n,
            );
        }
        lemma_sum_ext(f, s, 52);
        lemma_sum3_pile(fs, 52, n);
        let a = |x: int, y: int, z: int| sum_upto(|c: int| fs(c)(x, y, z), 52);
        let b = |x: int, y: int, z: int|
            self.in_common(x, y, z) * self.three_reach(i, j, k, x, y, z);
        assert forall|x: int, y: int, z: int|
            0 <= x < n && 0 <= y < n && 0 <= z < n implies #[trigger] a(x, y, z) == b(x, y, z) by {
            let r = self.three_reach(i, j, k, x, y, z);
            let p = |c: int| fs(c)(x, y, z);
            let q = |c: int|
                one_if::<T>(
                    holds_card(cards, x, c) && holds_card(cards, y, c) && holds_card(cards, z, c),
                );
            assert forall|c: int| 0 <= c < 52 implies #[trigger] p(c) == r * q(c) by {
                let (u, v, w) = (self.reach[i][x], self.reach[j][y], self.reach[k][z]);
                lemma_units(u);
                lemma_units(v);
                lemma_units(w);
                lemma_units(u * v);
                lemma_units(r);
                lemma_units(T::s_zero());
            }
            lemma_sum_times(r, q, p, 52);
            lemma_orders(r, self.in_common(x, y, z), r);
        }
        lemma_sum3_ext(a, b, n);
    }

    /// What the outer hands of a ring have, the middle one being of `c1` and `c2`.
    spec fn ring_ends(&self, i: int, k: int, c1: int, c2: int) -> spec_fn(int, int) -> T {
        |x: int, z: int|
            one_if::<T>(ringed(self.cards, x, z, c1, c2)) * (self.reach[i][x] * self.reach[k][z])
    }

    /// The same read off the entries, by the third card.
    spec fn ring_thirds(&self, i: int, k: int, c1: int, c2: int) -> spec_fn(int) -> T {
        |c3: int|
            one_if::<T>(c3 != c1 && c3 != c2) * (self.entry(i, c1, c3) * self.entry(k, c2, c3))
    }

    proof fn lemma_ring_ends(&self, i: int, k: int, c1: int, c2: int)
        requires
            is_exact::<T>(),
            self.is_dealt(),
            0 <= i < self.reach.len(),
            0 <= k < self.reach.len(),
        ensures
            sum_upto(self.ring_thirds(i, k, c1, c2), 52) == sum2(
                self.ring_ends(i, k, c1, c2),
                self.nh as nat,
                self.nh as nat,
            ),
    {
        let n = self.nh as nat;
        let cards = self.cards;
        let f = |x: int, z: int, c3: int|
            one_if::<T>(c3 != c1 && c3 != c2) * (values_at(cards, self.reach[i], c1, c3)(x)
                * values_at(cards, self.reach[k], c2, c3)(z));
        let e = self.ring_thirds(i, k, c1, c2);
        let s = card_sums(f, n, n);
        assert forall|c3: int| 0 <= c3 < 52 implies #[trigger] e(c3) == s(c3) by {
            self.lemma_look(i, c1, c3);
            self.lemma_look(k, c2, c3);
            let p = values_at(cards, self.reach[i], c1, c3);
            let q = values_at(cards, self.reach[k], c2, c3);
            let g = |x: int, z: int| p(x) * q(z);
            lemma_sum_product(p, q, g, n, n);
            lemma_sum2_times(one_if::<T>(c3 != c1 && c3 != c2), g, at_card(f, c3), n);
        }
        lemma_sum_ext(e, s, 52);
        lemma_cards_first(f, n, n, 52);
        let ends = self.ring_ends(i, k, c1, c2);
        assert forall|x: int, z: int| 0 <= x < n && 0 <= z < n implies #[trigger] over_cards(f, 52)(
            x,
            z,
        ) == ends(x, z) by {
            let r = self.reach[i][x] * self.reach[k][z];
            let g = cards_at(f, x, z);
            assert forall|c3: int| 0 <= c3 < 52 implies #[trigger] g(c3) == if c3 != c1 && c3 != c2
                && is_pair(cards, x, c1, c3) && is_pair(cards, z, c2, c3) {
                r
            } else {
                T::s_zero()
            } by {
                lemma_units(self.reach[i][x]);
                lemma_units(self.reach[k][z]);
                lemma_units(r);
                lemma_units(T::s_zero());
            }
            lemma_units(r);
            if ringed(cards, x, z, c1, c2) {
                let c3 = choose|c3: int|
                    0 <= c3 < 52 && c3 != c1 && c3 != c2 && #[trigger] is_pair(cards, x, c1, c3)
                        && is_pair(cards, z, c2, c3);
                assert(cards[2 * x] != cards[2 * x + 1]);
                assert(g(c3) == r);
                lemma_sum_one(g, c3, 52);
            } else {
                assert forall|c3: int| 0 <= c3 < 52 implies #[trigger] g(c3) == T::s_zero() by {
                    if c3 != c1 && c3 != c2 && is_pair(cards, x, c1, c3) && is_pair(
                        cards,
                        z,
                        c2,
                        c3,
                    ) {
                        assert(ringed(cards, x, z, c1, c2));
                    }
                }
                lemma_sum_zero(g, 52);
            }
        }
        lemma_sum2_ext(over_cards(f, 52), ends, n);
    }

    /// An opponent's entries times values of two cards.
    spec fn entry_worth(&self, j: int, f: spec_fn(int, int) -> T) -> spec_fn(int, int) -> T {
        |a: int, b: int| self.entry(j, a, b) * f(a, b)
    }

    /// The same, hand by hand.
    spec fn both_ways(&self, j: int, f: spec_fn(int, int) -> T) -> spec_fn(int) -> T {
        |y: int|
            self.reach[j][y] * (f(self.low(y), self.high(y)) + f(self.high(y), self.low(y)))
    }

    /// The same, hand by hand, for one of the two cards.
    spec fn one_way(&self, j: int, f: spec_fn(int, int) -> T, a: int) -> spec_fn(int) -> T {
        |y: int|
            self.reach[j][y] * if a == self.low(y) {
                f(a, self.high(y))
            } else if a == self.high(y) {
                f(a, self.low(y))
            } else {
                T::s_zero()
            }
    }

    proof fn lemma_entry_worth(&self, j: int, f: spec_fn(int, int) -> T)
        requires
            is_exact::<T>(),
            self.is_dealt(),
            0 <= j < self.reach.len(),
        ensures
            sum2(self.entry_worth(j, f), 52, 52) == sum_upto(self.both_ways(j, f), self.nh as nat),
    {
        let n = self.nh as nat;
        let w = self.entry_worth(j, f);
        let p = |a: int, y: int| self.one_way(j, f, a)(y);
        let q = |y: int, a: int| self.one_way(j, f, a)(y);
        assert forall|a: int| 0 <= a < 52 implies #[trigger] row_sums(w, 52)(a) == row_sums(p, n)(
            a,
        ) by {
            self.lemma_one_way(j, f, a);
            lemma_sum_ext(self.one_way(j, f, a), row_of(p, a), n);
        }
        lemma_sum_ext(row_sums(w, 52), row_sums(p, n), 52);
        lemma_sum2_turn(p, q, 52, n);
        let b = self.both_ways(j, f);
        assert forall|y: int| 0 <= y < n implies #[trigger] row_sums(q, 52)(y) == b(y) by {
            let g = row_of(q, y);
            let (l, m) = (self.low(y), self.high(y));
            assert(self.cards[2 * y] < 52 && self.cards[2 * y + 1] < 52);
            assert(self.cards[2 * y] != self.cards[2 * y + 1]);
            assert forall|a: int| 0 <= a < 52 && a != l && a != m implies #[trigger] g(a)
                == T::s_zero() by {
                lemma_units(self.reach[j][y]);
            }
            lemma_two_terms(g, l, m, 52);
            lemma_spread(self.reach[j][y], f(l, m), f(m, l));
        }
        lemma_sum_ext(row_sums(q, 52), b, n);
    }

    proof fn lemma_one_way(&self, j: int, f: spec_fn(int, int) -> T, a: int)
        requires
            is_exact::<T>(),
            self.is_dealt(),
            0 <= j < self.reach.len(),
        ensures
            sum_upto(row_of(self.entry_worth(j, f), a), 52) == sum_upto(
                self.one_way(j, f, a),
                self.nh as nat,
            ),
    {
        let n = self.nh as nat;
        let cards = self.cards;
        let w = row_of(self.entry_worth(j, f), a);
        let p = |b: int, y: int| f(a, b) * values_at(cards, self.reach[j], a, b)(y);
        let q = |y: int, b: int| f(a, b) * values_at(cards, self.reach[j], a, b)(y);
        assert forall|b: int| 0 <= b < 52 implies #[trigger] w(b) == row_sums(p, n)(b) by {
            self.lemma_look(j, a, b);
            lemma_sum_times(f(a, b), values_at(cards, self.reach[j], a, b), row_of(p, b), n);
            lemma_orders(self.entry(j, a, b), f(a, b), f(a, b));
        }
        lemma_sum_ext(w, row_sums(p, n), 52);
        lemma_sum2_turn(p, q, 52, n);
        let o = self.one_way(j, f, a);
        assert forall|y: int| 0 <= y < n implies #[trigger] row_sums(q, 52)(y) == o(y) by {
            let g = row_of(q, y);
            let r = self.reach[j][y];
            let (l, m) = (self.low(y), self.high(y));
            assert(cards[2 * y] < 52 && cards[2 * y + 1] < 52);
            assert(cards[2 * y] != cards[2 * y + 1]);
            lemma_units(r);
            assert forall|b: int|
                0 <= b < 52 && !is_pair(cards, y, a, b) implies #[trigger] g(b) == T::s_zero() by {
                lemma_units(f(a, b));
            }
            if a == l {
                lemma_sum_one(g, m, 52);
                lemma_orders(f(a, m), r, r);
            } else if a == m {
                lemma_sum_one(g, l, 52);
                lemma_orders(f(a, l), r, r);
            } else {
                lemma_sum_zero(g, 52);
            }
        }
        lemma_sum_ext(row_sums(q, 52), o, n);
    }

    /// Three hands on three cards, the second being in the middle.
    spec fn is_ring(&self) -> spec_fn(int, int, int) -> bool {
        |x: int, y: int, z: int|
            ringed(self.cards, x, z, self.low(y), self.high(y)) || ringed(
                self.cards,
                x,
                z,
                self.high(y),
                self.low(y),
            )
    }

    /// The rings, hand by hand.
    proof fn lemma_ring_hands(&self, i: int, j: int, k: int)
        requires
            is_exact::<T>(),
            self.is_dealt(),
            0 <= i < self.reach.len(),
            0 <= j < self.reach.len(),
            0 <= k < self.reach.len(),
        ensures
            self.ring(i, j, k, 52) == sum3(
                self.reach_where(i, j, k, self.is_ring()),
                self.nh as nat,
            ),
    {
        let n = self.nh as nat;
        let cards = self.cards;
        let f = |c1: int, c2: int| sum_upto(self.ring_thirds(i, k, c1, c2), 52);
        let terms = ring_terms(self, i, j, k);
        let w = self.entry_worth(j, f);
        lemma_ring(self, i, j, k, 52);
        assert forall|c1: int, c2: int| 0 <= c1 < 52 && 0 <= c2 < 52 implies #[trigger] in3(
            terms,
            52,
        )(c1, c2) == w(c1, c2) by {
            let y = self.entry(j, c1, c2);
            let q = self.ring_thirds(i, k, c1, c2);
            let p = |c3: int| terms(c1, c2, c3);
            self.lemma_look(j, c1, c2);
            assert forall|c3: int| 0 <= c3 < 52 implies #[trigger] p(c3) == y * q(c3) by {
                let (x, z) = (self.entry(i, c1, c3), self.entry(k, c2, c3));
                lemma_orders(x, y, z);
                lemma_orders(y, x, z);
                lemma_units(x * z);
                lemma_units(x * y * z);
                lemma_units(y);
                if c1 == c2 {
                    assert(y == T::s_zero());
                    lemma_units(q(c3));
                }
            }
            lemma_sum_times(y, q, p, 52);
        }
        lemma_sum2_ext(in3(terms, 52), w, 52);
        self.lemma_entry_worth(j, f);
        // The same over all hands, the middle one first.
        let target = self.reach_where(i, j, k, self.is_ring());
        let turned = |y: int, x: int, z: int| target(x, y, z);
        lemma_sum3_turn_first(target, turned, n);
        let b = self.both_ways(j, f);
        assert forall|y: int| 0 <= y < n implies #[trigger] row_sums(in3(turned, n), n)(y) == b(
            y,
        ) by {
            let r = self.reach[j][y];
            let (l, m) = (self.low(y), self.high(y));
            assert(cards[2 * y] != cards[2 * y + 1]);
            self.lemma_ring_ends(i, k, l, m);
            self.lemma_ring_ends(i, k, m, l);
            let (u, v) = (self.ring_ends(i, k, l, m), self.ring_ends(i, k, m, l));
            let uv = |x: int, z: int| u(x, z) + v(x, z);
            lemma_sum2_add(u, v, uv, n, n);
            let g = |x: int, z: int| turned(y, x, z);
            assert forall|x: int, z: int| 0 <= x < n && 0 <= z < n implies #[trigger] g(x, z) == r
                * uv(x, z) by {
                let s = self.reach[i][x] * self.reach[k][z];
                lemma_units(s);
                lemma_units(r);
                lemma_units(T::s_zero());
                self.lemma_one_ring(x, y, z);
                let t = self.three_reach(i, j, k, x, y, z);
                lemma_orders(self.reach[i][x], r, self.reach[k][z]);
                lemma_orders(r, self.reach[i][x], self.reach[k][z]);
                assert(t == r * s);
                lemma_units(t);
            }
            lemma_sum2_times(r, uv, g, n);
            assert forall|x: int| 0 <= x < n implies #[trigger] row_of(in3(turned, n), y)(x)
                == row_sums(g, n)(x) by {
                lemma_sum_ext(|z: int| turned(y, x, z), row_of(g, x), n);
            }
            lemma_sum_ext(row_of(in3(turned, n), y), row_sums(g, n), n);
        }
        lemma_sum_ext(row_sums(in3(turned, n), n), b, n);
    }

    /// A ring goes one way only.
    proof fn lemma_one_ring(&self, x: int, y: int, z: int)
        requires
            self.is_dealt(),
            0 <= x < self.nh,
            0 <= y < self.nh,
            0 <= z < self.nh,
        ensures
            !(ringed(self.cards, x, z, self.low(y), self.high(y)) && ringed(
                self.cards,
                x,
                z,
                self.high(y),
                self.low(y),
            )),
    {
        assert(self.cards[2 * y] != self.cards[2 * y + 1]);
        assert(self.cards[2 * x] != self.cards[2 * x + 1]);
        assert(self.cards[2 * z] != self.cards[2 * z + 1]);
    }

    /// Rings and common cards tell whether every two of three hands share a card.
    proof fn lemma_meeting_three(&self, x: int, y: int, z: int)
        requires
            is_exact::<T>(),
            self.is_dealt(),
            0 <= x < self.nh,
            0 <= y < self.nh,
            0 <= z < self.nh,
        ensures
            one_if::<T>(self.is_ring()(x, y, z)) + self.in_common(x, y, z) == one_if::<T>(
                meets(self.cards, x, y) && meets(self.cards, x, z) && meets(self.cards, y, z),
            ) + one_if::<T>(x == y && x == z),
    {
        let cards = self.cards;
        let f = |c: int|
            one_if::<T>(
                holds_card(cards, x, c) && holds_card(cards, y, c) && holds_card(cards, z, c),
            );
        let (a, b) = (self.low(x), self.high(x));
        assert(cards[2 * x] != cards[2 * x + 1] && cards[2 * y] != cards[2 * y + 1] && cards[2 * z]
            != cards[2 * z + 1]);
        assert(cards[2 * x] < 52 && cards[2 * x + 1] < 52 && cards[2 * y] < 52 && cards[2 * y + 1]
            < 52 && cards[2 * z] < 52 && cards[2 * z + 1] < 52);
        assert forall|c: int| 0 <= c < 52 && c != a && c != b implies #[trigger] f(c)
            == T::s_zero() by {}
        lemma_two_terms(f, a, b, 52);
        let common = self.in_common(x, y, z);
        assert(common == f(a) + f(b));
        let pa = holds_card(cards, y, a) && holds_card(cards, z, a);
        let pb = holds_card(cards, y, b) && holds_card(cards, z, b);
        let ring = self.is_ring()(x, y, z);
        let all = meets(cards, x, y) && meets(cards, x, z) && meets(cards, y, z);
        lemma_units(T::s_zero());
        lemma_units(T::s_one());
        lemma_units(T::s_one() + T::s_one());
        if x != y {
            assert(!is_pair(cards, x, cards[2 * y] as int, cards[2 * y + 1] as int));
        }
        if x != z {
            assert(!is_pair(cards, x, cards[2 * z] as int, cards[2 * z + 1] as int));
        }
        if y != z {
            assert(!is_pair(cards, y, cards[2 * z] as int, cards[2 * z + 1] as int));
        }
        if pa && pb {
            assert(x == y && x == z);
            assert(!ring);
        } else if pa || pb {
            assert(all);
            assert(!(x == y && x == z));
            assert(!ring) by {
                if ring {
                    let (l, m) = (self.low(y), self.high(y));
                    assert(ringed(cards, x, z, l, m) || ringed(cards, x, z, m, l));
                }
            }
        } else if all {
            self.lemma_is_ringed(x, y, z);
        } else {
            assert(!ring);
            assert(!(x == y && x == z));
        }
    }

    /// Three hands of which every two share a card, but not all the same one, form a ring.
    proof fn lemma_is_ringed(&self, x: int, y: int, z: int)
        requires
            self.is_dealt(),
            0 <= x < self.nh,
            0 <= y < self.nh,
            0 <= z < self.nh,
            meets(self.cards, x, y),
            meets(self.cards, x, z),
            meets(self.cards, y, z),
            forall|c: int|
                !(holds_card(self.cards, x, c) && #[trigger] holds_card(self.cards, y, c)
                    && holds_card(self.cards, z, c)),
        ensures
            self.is_ring()(x, y, z),
    {
        let cards = self.cards;
        let (l, m) = (self.low(y), self.high(y));
        let (a, b) = (self.low(x), self.high(x));
        assert(cards[2 * x] != cards[2 * x + 1] && cards[2 * y] != cards[2 * y + 1] && cards[2 * z]
            != cards[2 * z + 1]);
        assert(cards[2 * x] < 52 && cards[2 * x + 1] < 52);
        assert(holds_card(cards, y, l) && holds_card(cards, y, m));
        if holds_card(cards, x, l) {
            let c3 = if a == l {
                b
            } else {
                a
            };
            assert(is_pair(cards, x, l, c3));
            assert(is_pair(cards, z, m, c3));
            assert(ringed(cards, x, z, l, m));
        } else {
            let c3 = if a == m {
                b
            } else {
                a
            };
            assert(is_pair(cards, x, m, c3));
            assert(is_pair(cards, z, l, c3));
            assert(ringed(cards, x, z, m, l));
        }
    }

    /// Beside a hand that nobody shares a card with, a knot is the threes of which every two
    /// share a card.
    proof fn lemma_knot(&self, i: int, j: int, k: int, h: int)
        requires
            is_exact::<T>(),
            counts_to_five::<T>(),
            self.is_dealt(),
            self.nobody_meets(h),
            0 <= i < self.reach.len(),
            0 <= j < self.reach.len(),
            0 <= k < self.reach.len(),
            0 <= h < self.nh,
        ensures
            self.knot(i, j, k, h) == self.all_meeting(i, j, k, h),
    {
        let n = self.nh as nat;
        let cards = self.cards;
        let (h1, h2) = (self.low(h), self.high(h));
        let zero = T::s_zero();
        let v = self.doubles(i, j, k);
        let w = self.triples(i, j, k);
        let (dv, tv) = (|g: int| v[g], |g: int| w[g]);
        assert forall|g: int|
            0 <= g < n && (holds_card(cards, g, h1) || holds_card(cards, g, h2)) implies (
        #[trigger] v[g]) == zero && w[g] == zero by {
            assert(meets(cards, h, g));
            assert(self.reach[i][g] == zero && self.reach[j][g] == zero && self.reach[k][g] == zero);
            lemma_units(zero);
            lemma_units(self.around(i, g));
            lemma_units(self.around(j, g));
            lemma_units(self.around(k, g));
        }
        assert forall|g: int|
            0 <= g < n && (holds_card(cards, g, h1) || holds_card(cards, g, h2)) implies (
        #[trigger] w[g]) == zero by {
            assert(v[g] == zero);
        }
        let live = everyone(self.nh);
        lemma_masked(v, live, dv, n);
        lemma_masked(w, live, tv, n);
        lemma_none_with(cards, v, live, h1, n);
        lemma_none_with(cards, v, live, h2, n);
        lemma_none_with(cards, w, live, h1, n);
        lemma_none_with(cards, w, live, h2, n);
        let (d, t) = (sum_upto(dv, n), sum_upto(tv, n));
        self.lemma_minus_none(d);
        self.lemma_minus_none(t);
        assert(self.values_free(v, h) == d && self.values_free(w, h) == t);
        self.lemma_no_card(i, h, h1);
        self.lemma_no_card(i, h, h2);
        lemma_units(self.with_card(j, h1));
        lemma_units(self.with_card(j, h2));
        lemma_units(self.with_card(k, h1));
        lemma_units(self.with_card(k, h2));
        assert(self.star_at(i, j, k, h1) == zero && self.star_at(i, j, k, h2) == zero);
        self.lemma_doubles(i, j, k);
        self.lemma_stars(i, j, k, 52);
        let ring = self.ring(i, j, k, 52);
        let twins = self.twins(i, j, k, 52);
        let stars = sum_upto(|c: int| self.star_at(i, j, k, c), 52);
        self.lemma_minus_none(ring + (twins + stars));
        let six = t + t + (t + t) + (t + t);
        assert(d == twins + six);
        let whole = ring + (twins + stars) - d + T::s_of(5) * t;
        assert(self.knot(i, j, k, h) == whole);
        lemma_cancel_twins(ring, twins, stars, t);
        assert(whole == ring + stars - t);
        // Hand by hand.
        self.lemma_ring_hands(i, j, k);
        self.lemma_star_hands(i, j, k);
        self.lemma_triples(i, j, k);
        let p = |x: int, y: int, z: int|
            meets(cards, x, y) && meets(cards, x, z) && meets(cards, y, z);
        let same = |x: int, y: int, z: int| x == y && x == z;
        let fr = self.reach_where(i, j, k, self.is_ring());
        let fc = |x: int, y: int, z: int|
            self.in_common(x, y, z) * self.three_reach(i, j, k, x, y, z);
        let fm = self.reach_where(i, j, k, p);
        let fe = self.reach_where(i, j, k, same);
        let l = |x: int, y: int, z: int| fr(x, y, z) + fc(x, y, z);
        lemma_sum3_add(fr, fc, l, n);
        assert forall|x: int, y: int, z: int|
            0 <= x < n && 0 <= y < n && 0 <= z < n implies #[trigger] l(x, y, z) == fm(x, y, z)
            + fe(x, y, z) by {
            let r = self.three_reach(i, j, k, x, y, z);
            self.lemma_meeting_three(x, y, z);
            lemma_spread(r, one_if::<T>(self.is_ring()(x, y, z)), self.in_common(x, y, z));
            lemma_spread(r, one_if::<T>(p(x, y, z)), one_if::<T>(same(x, y, z)));
        }
        lemma_sum3_add(fm, fe, l, n);
        lemma_move(ring + stars, sum3(fm, n), t);
        let goal = self.three_where(i, j, k, h, p);
        assert forall|x: int, y: int, z: int|
            0 <= x < n && 0 <= y < n && 0 <= z < n implies #[trigger] goal(x, y, z) == fm(
            x,
            y,
            z,
        ) by {
            self.lemma_all_counts(i, h, x);
            self.lemma_all_counts(j, h, y);
            self.lemma_all_counts(k, h, z);
        }
        lemma_sum3_ext(goal, fm, n);
    }

    /// Nothing taken away twice.
    proof fn lemma_minus_none(&self, x: T)
        requires
            is_exact::<T>(),
        ensures
            x - T::s_zero() - T::s_zero() == x,
    {
        lemma_undo(x, T::s_zero());
        lemma_units(x);
    }

    /// Beside a hand that nobody shares a card with, a cluster of three adds what it should.
    proof fn lemma_cluster(&self, i: int, j: int, k: int, h: int)
        requires
            is_exact::<T>(),
            counts_to_five::<T>(),
            self.is_dealt(),
            self.nobody_meets(h),
            0 <= i < self.reach.len(),
            0 <= j < self.reach.len(),
            0 <= k < self.reach.len(),
            0 <= h < self.nh,
        ensures
            self.cluster(i, j, k, h) == self.cluster_sum(i, j, k, h),
    {
        let n = self.nh as nat;
        let cards = self.cards;
        self.lemma_path(i, j, k, h);
        self.lemma_path(j, i, k, h);
        self.lemma_path(k, i, j, h);
        self.lemma_knot(i, j, k, h);
        lemma_units(self.path_free(i, j, k, h));
        // Chains over the second, and over the third.
        let first = |x: int, y: int, z: int| meets(cards, x, y) && meets(cards, x, z);
        let second = |x: int, y: int, z: int| meets(cards, x, y) && meets(cards, y, z);
        let third = |x: int, y: int, z: int| meets(cards, x, z) && meets(cards, y, z);
        let f = self.three_where(i, j, k, h, second);
        let g = self.three_where(j, i, k, h, first);
        assert forall|x: int, y: int, z: int|
            0 <= x < n && 0 <= y < n && 0 <= z < n implies #[trigger] f(x, y, z) == g(
            y,
            x,
            z,
        ) by {
            assert(meets(cards, x, y) == meets(cards, y, x));
            lemma_orders(
                self.apart_from(i, h)(x),
                self.apart_from(j, h)(y),
                self.apart_from(k, h)(z),
            );
        }
        lemma_sum3_turn_first(f, g, n);
        let u = self.three_where(i, j, k, h, third);
        let v = |x: int, z: int, y: int| u(x, y, z);
        let w = self.three_where(k, i, j, h, first);
        lemma_sum3_turn_last(u, v, n);
        assert forall|x: int, z: int, y: int|
            0 <= x < n && 0 <= z < n && 0 <= y < n implies #[trigger] v(x, z, y) == w(
            z,
            x,
            y,
        ) by {
            assert(meets(cards, x, z) == meets(cards, z, x));
            assert(meets(cards, y, z) == meets(cards, z, y));
            let (a, b, c) = (
                self.apart_from(i, h)(x),
                self.apart_from(j, h)(y),
                self.apart_from(k, h)(z),
            );
            lemma_orders(a, b, c);
            lemma_orders(a, c, b);
            lemma_orders(c, a, b);
        }
        lemma_sum3_turn_first(v, w, n);
    }

    /// Where numbers are exact, nobody can share a card with hand `h` and no four hands that
    /// the opponents can hold are all connected by shared cards, the mass of four opponents
    /// is what they have with all hands that avoid each other; less than nothing counts as
    /// nothing.
    pub proof fn law_clusters_of_three_are_exact(&self, h: int)
        requires
            is_exact::<T>(),
            counts_to_five::<T>(),
            self.is_dealt(),
            self.reach.len() == 4,
            0 <= h < self.nh,
            self.nobody_meets(h),
            self.no_four_connect(),
        ensures
            self.mass_of_four(h) == sum4(self.all_apart(h), self.nh as nat).s_larger(T::s_zero()),
    {
        self.lemma_cluster(0, 1, 2, h);
        self.lemma_cluster(0, 1, 3, h);
        self.lemma_cluster(0, 2, 3, h);
        self.lemma_cluster(1, 2, 3, h);
        self.lemma_four_opponents(h);
    }
}

/// Twins and doubles cancel out but for one of the triples.
proof fn lemma_cancel_twins<T: Scalar>(ring: T, twins: T, stars: T, t: T)
    requires
        is_exact::<T>(),
        counts_to_five::<T>(),
    ensures
        ring + (twins + stars) - (twins + (t + t + (t + t) + (t + t))) + T::s_of(5) * t == ring
            + stars - t,
{
    let one = T::s_one();
    let two = t + t;
    let five = two + two + t;
    let six = two + two + two;
    lemma_spread(t, one + one + one + one, one);
    lemma_spread(t, one + one + one, one);
    lemma_spread(t, one + one, one);
    lemma_spread(t, one, one);
    lemma_units(t);
    assert(T::s_of(5) * t == t + t + t + t + t);
    lemma_orders(two, t, t);
    assert(T::s_of(5) * t == five);
    lemma_orders(two + two, t, t);
    assert(six == five + t);
    let x = ring + stars;
    assert(ring + (twins + stars) == x + twins) by {
        lemma_orders(ring, twins, stars);
        lemma_orders(ring, stars, twins);
    }
    lemma_differences(x + twins, twins, five + t);
    lemma_undo(x, twins);
    assert(x + twins - (twins + six) == x - six);
    lemma_orders(five, t, t);
    lemma_differences(x, t, five);
    lemma_orders(t, five, five);
    assert(x - six == x - t - five);
    lemma_undo(x - t, five);
}

} // verus!
