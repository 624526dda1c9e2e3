//! What the cluster masses are worth where numbers are exact.
use vstd::prelude::*;

use crate::bucketed_showdown::is_zero;
use crate::cluster_mass::{by_card, everyone, is_pair, last_pair, nonzero, total, Crowd};
use crate::exact::{
    is_exact, lemma_differences, lemma_move, lemma_nothing, lemma_orders, lemma_spread,
    lemma_sum2_add, lemma_sum_add, lemma_sum_one, lemma_sum_product, lemma_sum_zero, lemma_undo,
    lemma_units, only, plus, row_of, row_sums, sum2, times, without, Exact,
};
use crate::scalar::{lemma_sum_ext, sum_upto, Scalar};

verus! {

/// `f` with its last argument fixed.
pub open spec fn at_card<T>(f: spec_fn(int, int, int) -> T, c: int) -> spec_fn(int, int) -> T {
    |i: int, j: int| f(i, j, c)
}

/// `f` summed over the first `k` cards.
pub open spec fn over_cards<T: Scalar>(f: spec_fn(int, int, int) -> T, k: nat) -> spec_fn(int, int) -> T {
    |i: int, j: int| sum_upto(cards_at(f, i, j), k)
}

pub open spec fn cards_at<T>(f: spec_fn(int, int, int) -> T, i: int, j: int) -> spec_fn(int) -> T {
    |c: int| f(i, j, c)
}

pub open spec fn card_sums<T: Scalar>(f: spec_fn(int, int, int) -> T, n: nat, m: nat) -> spec_fn(int) -> T {
    |c: int| sum2(at_card(f, c), n, m)
}

/// Summing over the cards first or last makes no difference.
pub(crate) proof fn lemma_cards_first<T: Scalar>(f: spec_fn(int, int, int) -> T, n: nat, m: nat, k: nat)
    requires
        is_exact::<T>(),
    ensures
        sum_upto(card_sums(f, n, m), k) == sum2(over_cards(f, k), n, m),
    decreases k,
{
    if k == 0 {
        assert forall|i: int| 0 <= i < n implies #[trigger] row_sums(over_cards(f, 0), m)(i)
            == T::s_zero() by {
            lemma_sum_zero(row_of(over_cards(f, 0), i), m);
        }
        lemma_sum_zero(row_sums(over_cards(f, 0), m), n);
    } else {
        let c: int = k - 1;
        lemma_cards_first(f, n, m, (k - 1) as nat);
        lemma_sum2_add(over_cards(f, (k - 1) as nat), at_card(f, c), over_cards(f, k), n, m);
    }
}

/// Hand `g` holds card `c`.
pub open spec fn holds_card(cards: Seq<u8>, g: int, c: int) -> bool {
    cards[2 * g] == c || cards[2 * g + 1] == c
}

/// Hands `g` and `k` share a card.
pub open spec fn meets(cards: Seq<u8>, g: int, k: int) -> bool {
    holds_card(cards, k, cards[2 * g] as int) || holds_card(cards, k, cards[2 * g + 1] as int)
}

/// Two different cards per hand, and no two hands with the same cards.
pub open spec fn are_distinct_hands(cards: Seq<u8>, nh: int) -> bool {
    &&& forall|g: int| 0 <= g < nh ==> #[trigger] cards[2 * g] != cards[2 * g + 1]
    &&& forall|g: int, k: int|
        0 <= g < nh && 0 <= k < nh && g != k ==> !#[trigger] is_pair(
            cards,
            g,
            cards[2 * k] as int,
            cards[2 * k + 1] as int,
        )
}

/// One where it is so, else nothing.
pub open spec fn one_if<T: Scalar>(b: bool) -> T {
    if b {
        T::s_one()
    } else {
        T::s_zero()
    }
}

/// The values of `v`, by hand.
pub open spec fn values_of<T>(v: Seq<T>) -> spec_fn(int) -> T {
    |g: int| v[g]
}

/// The values of the hands that hold card `c`.
pub open spec fn values_with<T: Scalar>(cards: Seq<u8>, v: Seq<T>, c: int) -> spec_fn(
    int,
) -> T {
    |g: int| one_if::<T>(holds_card(cards, g, c)) * v[g]
}

/// The value of the hand of `c` and `d`.
pub open spec fn values_at<T: Scalar>(
    cards: Seq<u8>,
    v: Seq<T>,
    c: int,
    d: int,
) -> spec_fn(int) -> T {
    |g: int| one_if::<T>(is_pair(cards, g, c, d)) * v[g]
}

pub(crate) proof fn lemma_total<T: Scalar>(v: Seq<T>, n: nat)
    requires
        is_exact::<T>(),
        n <= v.len(),
    ensures
        total(v, nonzero(v), n) == sum_upto(values_of(v), n),
    decreases n,
{
    if n > 0 {
        lemma_total(v, (n - 1) as nat);
        assert(is_zero(v[n - 1]) || nonzero(v)[n - 1]);
        lemma_nothing(v[n - 1]);
        lemma_units(sum_upto(values_of(v), (n - 1) as nat));
    }
}

pub(crate) proof fn lemma_by_card<T: Scalar>(cards: Seq<u8>, v: Seq<T>, c: int, n: nat)
    requires
        is_exact::<T>(),
        are_distinct_hands(cards, v.len() as int),
        n <= v.len(),
    ensures
        by_card(cards, v, nonzero(v), c, n) == sum_upto(values_with(cards, v, c), n),
    decreases n,
{
    if n > 0 {
        lemma_by_card(cards, v, c, (n - 1) as nat);
        let g: int = n - 1;
        lemma_nothing(v[g]);
        lemma_units(sum_upto(values_with(cards, v, c), (n - 1) as nat));
        lemma_units(T::s_zero());
        assert(cards[2 * g] != cards[2 * g + 1]);
        assert(is_zero(v[g]) || nonzero(v)[g]);
        assert(values_with(cards, v, c)(g) == one_if::<T>(holds_card(cards, g, c)) * v[g]);
        lemma_units(v[g]);
    }
}

proof fn lemma_last_pair<T: Scalar>(
    cards: Seq<u8>,
    v: Seq<T>,
    c: int,
    d: int,
    n: nat,
)
    requires
        is_exact::<T>(),
        are_distinct_hands(cards, v.len() as int),
        n <= v.len(),
    ensures
        last_pair(cards, v, everyone(v.len() as int), c, d, n) == sum_upto(
            values_at(cards, v, c, d),
            n,
        ),
    decreases n,
{
    if n > 0 {
        let g: int = n - 1;
        let f = values_at(cards, v, c, d);
        assert(f(g) == one_if::<T>(is_pair(cards, g, c, d)) * v[g]);
        lemma_units(v[g]);
        if is_pair(cards, g, c, d) {
            assert forall|k: int| 0 <= k < g implies #[trigger] f(k) == T::s_zero() by {
                assert(!is_pair(cards, k, cards[2 * g] as int, cards[2 * g + 1] as int));
                lemma_units(v[k]);
            }
            lemma_sum_zero(f, g as nat);
        } else {
            lemma_last_pair(cards, v, c, d, (n - 1) as nat);
        }
        lemma_units(v[g]);
        lemma_units(sum_upto(f, g as nat));
    }
}

/// The values of the hands that share no card with hand `h`.
pub open spec fn values_apart<T: Scalar>(cards: Seq<u8>, v: Seq<T>, h: int) -> spec_fn(
    int,
) -> T {
    |g: int| one_if::<T>(!meets(cards, h, g)) * v[g]
}

/// All values, less those with one of hand `h`'s cards; `h` itself, which is taken away
/// twice, is given back.
proof fn lemma_values_apart<T: Scalar>(cards: Seq<u8>, v: Seq<T>, h: int)
    requires
        is_exact::<T>(),
        are_distinct_hands(cards, v.len() as int),
        0 <= h < v.len(),
    ensures
        total(v, nonzero(v), v.len()) - by_card(cards, v, nonzero(v), cards[2 * h] as int, v.len()) - by_card(cards, v, nonzero(v), cards[2 * h + 1] as int, v.len()) + v[h] == sum_upto(
            values_apart(cards, v, h),
            v.len(),
        ),
{
    let n = v.len();
    let (a, b) = (cards[2 * h] as int, cards[2 * h + 1] as int);
    lemma_total(v, n);
    lemma_by_card(cards, v, a, n);
    lemma_by_card(cards, v, b, n);
    let all = values_of(v);
    let wa = values_with(cards, v, a);
    let wb = values_with(cards, v, b);
    let own = values_at(cards, v, a, b);
    let free = values_apart(cards, v, h);
    assert forall|g: int| 0 <= g < n && g != h implies #[trigger] own(g) == T::s_zero() by {
        assert(!is_pair(cards, g, a, b));
        lemma_units(v[g]);
    }
    assert(own(h) == v[h]) by {
        lemma_units(v[h]);
    }
    lemma_sum_one(own, h, n);
    let l1 = |g: int| free(g) + wa(g);
    let l2 = |g: int| l1(g) + wb(g);
    let r1 = |g: int| all(g) + own(g);
    lemma_sum_add(free, wa, l1, n);
    lemma_sum_add(l1, wb, l2, n);
    lemma_sum_add(all, own, r1, n);
    assert forall|g: int| 0 <= g < n implies #[trigger] l2(g) == r1(g) by {
        let x = v[g];
        lemma_units(x);
        assert(cards[2 * g] != cards[2 * g + 1]);
        assert(cards[2 * h] != cards[2 * h + 1]);
        assert(l1(g) == free(g) + wa(g));
        lemma_units(T::s_zero());
        lemma_units(x + x);
    }
    lemma_sum_ext(l2, r1, n);
    let (x, y, z) = (sum_upto(free, n), sum_upto(wa, n), sum_upto(wb, n));
    let t = sum_upto(all, n);
    lemma_differences(t, y, v[h]);
    lemma_differences(t - y, z, v[h]);
    lemma_differences(t + v[h], y, z);
    lemma_move(t + v[h], x + y, z);
    lemma_move(x + y, x, y);
}

/// Two rests multiplied, with what they lack.
proof fn lemma_product_of_rests<T: Scalar>(p: T, q: T, r: T, p2: T, q2: T, r2: T)
    requires
        is_exact::<T>(),
    ensures
        (p - q - r) * (p2 - q2 - r2) + p * q2 + p * r2 + p2 * q + p2 * r == p * p2 + q * q2 + q * r2
            + r * q2 + r * r2,
{
    let (s, s2) = (q + r, q2 + r2);
    let (u, u2) = (p - s, p2 - s2);
    lemma_differences(p, q, r);
    lemma_differences(p2, q2, r2);
    lemma_undo(p, s);
    lemma_undo(p2, s2);
    assert(p == u + s && p2 == u2 + s2);
    // Left: the rests, and each whole times what the other lacks.
    lemma_spread(p, q2, r2);
    lemma_spread(p2, q, r);
    let m = u * u2;
    lemma_orders(m, p * q2, p * r2);
    lemma_orders(m + p * s2, p2 * q, p2 * r);
    assert(m + p * q2 + p * r2 + p2 * q + p2 * r == (m + p * s2) + p2 * s);
    // Right: the wholes, and what both lack.
    lemma_spread(s2, q, r);
    lemma_spread(q, q2, r2);
    lemma_spread(r, q2, r2);
    let w = p * p2;
    lemma_orders(w, q * q2, q * r2);
    lemma_orders(w + q * s2, r * q2, r * r2);
    lemma_orders(w, q * s2, r * s2);
    assert(w + q * q2 + q * r2 + r * q2 + r * r2 == w + s * s2);
    // Both sides over the rests.
    lemma_spread(s2, u, s);
    lemma_spread(s, u2, s2);
    lemma_spread(p, u2, s2);
    lemma_spread(u2, u, s);
    let (b, c, d) = (u * s2, s * s2, s * u2);
    lemma_orders(s2, s, s);
    lemma_orders(u2, s, s);
    assert(p * s2 == b + c);
    assert(p2 * s == d + c);
    assert(w == (m + d) + (b + c));
    lemma_orders(m, b + c, d + c);
    lemma_orders(b + c, d, c);
    lemma_orders(m, d, b + c);
    lemma_orders(m + (b + c), d, c);
    lemma_orders(m, b + c, d);
}

/// What is added on one side is taken away on the other.
proof fn lemma_balance<T: Scalar>(
    m: T,
    a: T,
    b: T,
    c: T,
    d: T,
    w: T,
    e: T,
    f: T,
    g: T,
    k: T,
)
    requires
        is_exact::<T>(),
        m + a + b + c + d == w + e + f + g + k,
    ensures
        w - a - b - c - d + e + f + g + k == m,
{
    lemma_take_four(w, a, b, c, d, e);
    lemma_take_four(w + e, a, b, c, d, f);
    lemma_take_four(w + e + f, a, b, c, d, g);
    lemma_take_four(w + e + f + g, a, b, c, d, k);
    let t = w + e + f + g + k;
    lemma_differences(t - a - b, c, d);
    lemma_differences(t - a, b, d);
    lemma_differences(t, a, d);
    lemma_differences(t - d - a, b, c);
    lemma_differences(t - d, a, c);
    lemma_differences(t - d - c, a, b);
    lemma_move(t, m + a + b + c, d);
    lemma_move(m + a + b + c, m + a + b, c);
    lemma_move(m + a + b, m + a, b);
    lemma_move(m + a, m, a);
}

proof fn lemma_take_four<T: Scalar>(w: T, a: T, b: T, c: T, d: T, e: T)
    requires
        is_exact::<T>(),
    ensures
        w - a - b - c - d + e == (w + e) - a - b - c - d,
{
    lemma_differences(w - a - b - c, d, e);
    lemma_differences(w - a - b, c, e);
    lemma_differences(w - a, b, e);
    lemma_differences(w, a, e);
}

impl<T: Scalar> Crowd<T> {
    /// The hands are different hands.
    pub open spec fn is_dealt(&self) -> bool {
        self.wf() && are_distinct_hands(self.cards, self.nh)
    }

    /// What opponent `i` has with hand `g`, if `g` and `h` share no card.
    pub open spec fn apart_from(&self, i: int, h: int) -> spec_fn(
        int,
    ) -> T {
        |g: int| one_if::<T>(!meets(self.cards, h, g)) * self.reach[i][g]
    }

    /// What two opponents have with hands `g` and `k` that share a card with one
    /// another, and none with `h`.
    pub open spec fn colliding(&self, i: int, j: int, h: int) -> spec_fn(
        int,
        int,
    ) -> T {
        |g: int, k: int|
            one_if::<T>(meets(self.cards, g, k)) * (self.apart_from(i, h)(g) * self.apart_from(
                j,
                h,
            )(k))
    }

    /// What two opponents have with hands `g` and `k` that share no card, with one
    /// another or with `h`.
    pub open spec fn compatible(&self, i: int, j: int, h: int) -> spec_fn(
        int,
        int,
    ) -> T {
        |g: int, k: int|
            one_if::<T>(!meets(self.cards, g, k)) * (self.apart_from(i, h)(g) * self.apart_from(
                j,
                h,
            )(k))
    }

    /// Where numbers are exact, an opponent's reach beside a hand is the reach with all
    /// hands that share no card with it.
    pub proof fn law_free_reach_is_exact(&self, i: int, h: int)
        requires
            is_exact::<T>(),
            self.is_dealt(),
            0 <= i < self.reach.len(),
            0 <= h < self.nh,
        ensures
            self.free(i, h) == sum_upto(self.apart_from(i, h), self.nh as nat),
    {
        lemma_values_apart(self.cards, self.reach[i], h);
    }

    /// What opponent `i` has with hand `g`, if `g` holds card `c` and shares none with
    /// `h`.
    pub open spec fn carded(&self, i: int, h: int, c: int) -> spec_fn(
        int,
    ) -> T {
        |g: int| one_if::<T>(holds_card(self.cards, g, c)) * self.apart_from(i, h)(g)
    }

    proof fn lemma_free_with(&self, i: int, h: int, c: int)
        requires
            is_exact::<T>(),
            self.is_dealt(),
            0 <= i < self.reach.len(),
            0 <= h < self.nh,
            c != self.low(h),
            c != self.high(h),
        ensures
            self.free_with(i, h, c) == sum_upto(self.carded(i, h, c), self.nh as nat),
    {
        let v = self.reach[i];
        let n = self.nh as nat;
        let (a, b) = (self.low(h), self.high(h));
        lemma_by_card(self.cards, v, c, n);
        lemma_last_pair(self.cards, v, c, a, n);
        lemma_last_pair(self.cards, v, c, b, n);
        let all = values_with(self.cards, v, c);
        let wa = values_at(self.cards, v, c, a);
        let wb = values_at(self.cards, v, c, b);
        let free = self.carded(i, h, c);
        let l1 = |g: int| free(g) + wa(g);
        let l2 = |g: int| l1(g) + wb(g);
        lemma_sum_add(free, wa, l1, n);
        lemma_sum_add(l1, wb, l2, n);
        assert forall|g: int| 0 <= g < n implies #[trigger] l2(g) == all(g) by {
            let x = v[g];
            lemma_units(x);
            assert(self.cards[2 * g] != self.cards[2 * g + 1]);
            assert(self.cards[2 * h] != self.cards[2 * h + 1]);
            assert(l1(g) == free(g) + wa(g));
            lemma_units(T::s_zero());
        }
        lemma_sum_ext(l2, all, n);
        let (x, y, z) = (sum_upto(free, n), sum_upto(wa, n), sum_upto(wb, n));
        let t = sum_upto(all, n);
        lemma_differences(t, y, z);
        lemma_move(t, x + y, z);
        lemma_move(x + y, x, y);
    }

    /// What two opponents have with hands that hold card `c`.
    pub open spec fn by_shared_card(&self, i: int, j: int, h: int) -> spec_fn(
        int,
        int,
        int,
    ) -> T {
        |g: int, k: int, c: int| self.carded(i, h, c)(g) * self.carded(j, h, c)(k)
    }

    proof fn lemma_common(&self, i: int, j: int, h: int, n: nat)
        requires
            is_exact::<T>(),
            self.is_dealt(),
            0 <= i < self.reach.len(),
            0 <= j < self.reach.len(),
            0 <= h < self.nh,
        ensures
            self.common(i, j, h, n) == sum_upto(
                card_sums(self.by_shared_card(i, j, h), self.nh as nat, self.nh as nat),
                n,
            ),
        decreases n,
    {
        if n > 0 {
            let c: int = n - 1;
            let nh = self.nh as nat;
            self.lemma_common(i, j, h, (n - 1) as nat);
            let f = self.carded(i, h, c);
            let g = self.carded(j, h, c);
            lemma_sum_product(f, g, at_card(self.by_shared_card(i, j, h), c), nh, nh);
            if c == self.low(h) || c == self.high(h) {
                assert forall|k: int| 0 <= k < nh implies #[trigger] f(k) == T::s_zero() by {
                    lemma_units(self.reach[i][k]);
                    lemma_units(T::s_zero());
                    lemma_units(T::s_one());
                    lemma_units(self.apart_from(i, h)(k));
                }
                lemma_sum_zero(f, nh);
                lemma_units(sum_upto(g, nh));
                lemma_units(self.common(i, j, h, (n - 1) as nat));
            } else {
                self.lemma_free_with(i, h, c);
                self.lemma_free_with(j, h, c);
            }
        }
    }

    /// How many cards hands `g` and `k` share.
    pub open spec fn shared_cards(&self, g: int, k: int) -> T {
        one_if::<T>(holds_card(self.cards, k, self.low(g))) + one_if::<T>(
            holds_card(self.cards, k, self.high(g)),
        )
    }

    proof fn lemma_shared_cards(&self, i: int, j: int, h: int, g: int, k: int)
        requires
            is_exact::<T>(),
            self.is_dealt(),
            0 <= g < self.nh,
            0 <= k < self.nh,
        ensures
            over_cards(self.by_shared_card(i, j, h), 52)(g, k) == self.shared_cards(g, k) * (
            self.apart_from(i, h)(g) * self.apart_from(j, h)(k)),
    {
        let (a, b) = (self.low(g), self.high(g));
        let x = self.apart_from(i, h)(g);
        let y = self.apart_from(j, h)(k);
        let f = cards_at(self.by_shared_card(i, j, h), g, k);
        assert(self.cards[2 * g] != self.cards[2 * g + 1]);
        assert(self.cards[2 * g] < 52 && self.cards[2 * g + 1] < 52);
        let fa = |c: int|
            if c == a {
                one_if::<T>(holds_card(self.cards, k, a)) * (x * y)
            } else {
                T::s_zero()
            };
        let fb = |c: int|
            if c == b {
                one_if::<T>(holds_card(self.cards, k, b)) * (x * y)
            } else {
                T::s_zero()
            };
        assert forall|c: int| 0 <= c < 52 implies #[trigger] f(c) == fa(c) + fb(c) by {
            assert(f(c) == (one_if::<T>(holds_card(self.cards, g, c)) * x) * (one_if::<T>(
                holds_card(self.cards, k, c),
            ) * y));
            lemma_units(x);
            lemma_units(y);
            lemma_units(x * y);
            lemma_units(T::s_zero());
        }
        lemma_sum_add(fa, fb, f, 52);
        lemma_sum_one(fa, a, 52);
        lemma_sum_one(fb, b, 52);
        lemma_spread(
            x * y,
            one_if::<T>(holds_card(self.cards, k, a)),
            one_if::<T>(holds_card(self.cards, k, b)),
        );
    }

    /// What two opponents have with the same hand.
    pub open spec fn same_hand(&self, i: int, j: int, h: int) -> spec_fn(
        int,
        int,
    ) -> T {
        |g: int, k: int|
            one_if::<T>(g == k) * (self.apart_from(i, h)(g) * self.apart_from(j, h)(k))
    }

    proof fn lemma_same_hand(&self, i: int, j: int, h: int)
        requires
            is_exact::<T>(),
            self.is_dealt(),
            0 <= i < self.reach.len(),
            0 <= j < self.reach.len(),
            0 <= h < self.nh,
        ensures
            self.shared_free(i, j, h, self.reach[i][h].s_times(self.reach[j][h])) == sum2(
                self.same_hand(i, j, h),
                self.nh as nat,
                self.nh as nat,
            ),
    {
        let v = self.joint(i, j);
        let n = self.nh as nat;
        let d = self.same_hand(i, j, h);
        lemma_values_apart(self.cards, v, h);
        assert forall|g: int| 0 <= g < n implies #[trigger] row_sums(d, n)(g) == values_apart(
            self.cards,
            v,
            h,
        )(g) by {
            let x = self.apart_from(i, h)(g);
            let r = row_of(d, g);
            assert forall|k: int| 0 <= k < n && k != g implies #[trigger] r(k) == T::s_zero() by {
                lemma_units(x * self.apart_from(j, h)(k));
            }
            lemma_sum_one(r, g, n);
            let (p, q) = (self.reach[i][g], self.reach[j][g]);
            assert(v[g] == p * q);
            lemma_units(p);
            lemma_units(q);
            lemma_units(T::s_zero());
            lemma_units(p * q);
        }
        lemma_sum_ext(row_sums(d, n), values_apart(self.cards, v, h), n);
    }

    /// Where numbers are exact, a clash is the reach of two opponents with all pairs of
    /// hands that share a card with one another, and none with hand `h`.
    pub proof fn law_clash_is_exact(&self, i: int, j: int, h: int)
        requires
            is_exact::<T>(),
            self.is_dealt(),
            0 <= i < self.reach.len(),
            0 <= j < self.reach.len(),
            0 <= h < self.nh,
        ensures
            self.clash(i, j, h) == sum2(
                self.colliding(i, j, h),
                self.nh as nat,
                self.nh as nat,
            ),
    {
        let n = self.nh as nat;
        let f = self.by_shared_card(i, j, h);
        let d = self.same_hand(i, j, h);
        let m = self.colliding(i, j, h);
        self.lemma_common(i, j, h, 52);
        lemma_cards_first(f, n, n, 52);
        self.lemma_same_hand(i, j, h);
        assert forall|g: int, k: int| 0 <= g < n && 0 <= k < n implies #[trigger] over_cards(f, 52)(
            g,
            k,
        ) == m(g, k) + d(g, k) by {
            self.lemma_shared_cards(i, j, h, g, k);
            let z = self.apart_from(i, h)(g) * self.apart_from(j, h)(k);
            assert(self.cards[2 * g] != self.cards[2 * g + 1]);
            assert(self.cards[2 * k] != self.cards[2 * k + 1]);
            if g != k {
                assert(!is_pair(self.cards, g, self.cards[2 * k] as int, self.cards[2 * k + 1] as int));
            }
            lemma_units(T::s_one());
            lemma_units(T::s_zero());
            assert(self.shared_cards(g, k) == one_if::<T>(meets(self.cards, g, k)) + one_if::<T>(
                g == k,
            ));
            lemma_spread(z, one_if::<T>(meets(self.cards, g, k)), one_if::<T>(g == k));
        }
        lemma_sum2_add(m, d, over_cards(f, 52), n, n);
        lemma_move(sum2(over_cards(f, 52), n, n), sum2(m, n, n), sum2(d, n, n));
    }

    /// Where numbers are exact, the pair mass of two opponents is the reach of all pairs
    /// of hands that share no card, with one another or with hand `h`; a negative reach
    /// counts as none.
    pub proof fn law_two_opponents_are_exact(&self, h: int)
        requires
            is_exact::<T>(),
            self.is_dealt(),
            self.reach.len() == 2,
            0 <= h < self.nh,
        ensures
            self.mass_left(self.clashes(h), h) == sum2(
                self.compatible(0, 1, h),
                self.nh as nat,
                self.nh as nat,
            ).s_larger(T::s_zero()),
    {
        let n = self.nh as nat;
        let x = self.apart_from(0, h);
        let y = self.apart_from(1, h);
        let all = |g: int, k: int| x(g) * y(k);
        self.law_free_reach_is_exact(0, h);
        self.law_free_reach_is_exact(1, h);
        self.law_clash_is_exact(0, 1, h);
        lemma_sum_product(x, y, all, n, n);
        assert forall|g: int, k: int| 0 <= g < n && 0 <= k < n implies #[trigger] all(g, k)
            == self.compatible(0, 1, h)(g, k) + self.colliding(0, 1, h)(g, k) by {
            let z = x(g) * y(k);
            lemma_units(z);
        }
        lemma_sum2_add(
            self.compatible(0, 1, h),
            self.colliding(0, 1, h),
            all,
            n,
            n,
        );
        reveal_with_fuel(Crowd::others, 3);
        reveal_with_fuel(Crowd::taken, 3);
        reveal_with_fuel(Crowd::taken_by, 3);
        let (p, q) = (self.free(0, h), self.free(1, h));
        let c = self.clash(0, 1, h);
        lemma_units(p);
        lemma_units(c);
        assert(self.others(-1, -1, h, 2) == p * q);
        assert(self.others(0, 1, h, 2) == T::s_one());
        assert(self.taken(self.clashes(h), h, 2) == c);
        lemma_move(p * q, sum2(self.compatible(0, 1, h), n, n), c);
    }

    /// Opponent `i`'s exact reach with each card.
    pub open spec fn cards_reach(&self, i: int) -> spec_fn(int) -> T {
        |c: int| self.with_card(i, c)
    }

    /// Opponent `i`'s exact reach with the hand of each card and `d`.
    pub open spec fn pairs_reach(&self, i: int, d: int) -> spec_fn(
        int,
    ) -> T {
        |c: int| self.look(i, c, d)
    }

    pub(crate) proof fn lemma_look(&self, i: int, c: int, d: int)
        requires
            is_exact::<T>(),
            self.is_dealt(),
            0 <= i < self.reach.len(),
        ensures
            self.look(i, c, d) == sum_upto(
                values_at(self.cards, self.reach[i], c, d),
                self.nh as nat,
            ),
            self.entry(i, c, d) == self.look(i, c, d),
            self.look(i, d, c) == self.look(i, c, d),
            c == d ==> self.look(i, c, d) == T::s_zero(),
    {
        let v = self.reach[i];
        let n = self.nh as nat;
        let f = values_at(self.cards, v, c, d);
        lemma_last_pair(self.cards, v, c, d, n);
        lemma_last_pair(self.cards, v, d, c, n);
        self.lemma_entry_upto(i, c, d, n);
        lemma_sum_ext(f, values_at(self.cards, v, d, c), n);
        if c == d {
            assert forall|g: int| 0 <= g < n implies #[trigger] f(g) == T::s_zero() by {
                assert(self.cards[2 * g] != self.cards[2 * g + 1]);
                lemma_units(v[g]);
            }
            lemma_sum_zero(f, n);
        }
    }

    proof fn lemma_entry_upto(&self, i: int, c: int, d: int, n: nat)
        requires
            is_exact::<T>(),
            self.is_dealt(),
            0 <= i < self.reach.len(),
            n <= self.nh,
        ensures
            last_pair(self.cards, self.reach[i], nonzero(self.reach[i]), c, d, n) == sum_upto(
                values_at(self.cards, self.reach[i], c, d),
                n,
            ),
        decreases n,
    {
        if n > 0 {
            let v = self.reach[i];
            let g: int = n - 1;
            let f = values_at(self.cards, v, c, d);
            self.lemma_entry_upto(i, c, d, (n - 1) as nat);
            assert(f(g) == one_if::<T>(is_pair(self.cards, g, c, d)) * v[g]);
            lemma_units(v[g]);
            assert(is_zero(v[g]) || nonzero(v)[g]);
            lemma_nothing(v[g]);
            lemma_units(one_if::<T>(is_pair(self.cards, g, c, d)));
            lemma_units(sum_upto(f, g as nat));
            if is_pair(self.cards, g, c, d) {
                assert forall|k: int| 0 <= k < g implies #[trigger] f(k) == T::s_zero() by {
                    assert(!is_pair(
                        self.cards,
                        k,
                        self.cards[2 * g] as int,
                        self.cards[2 * g + 1] as int,
                    ));
                    lemma_units(v[k]);
                }
                lemma_sum_zero(f, g as nat);
            }
        }
    }

    /// The exact reach with hand `h`, however it is looked up.
    proof fn lemma_own_look(&self, i: int, h: int)
        requires
            is_exact::<T>(),
            self.is_dealt(),
            0 <= i < self.reach.len(),
            0 <= h < self.nh,
        ensures
            self.look(i, self.low(h), self.high(h)) == self.reach[i][h],
    {
        let v = self.reach[i];
        let f = values_at(self.cards, v, self.low(h), self.high(h));
        self.lemma_look(i, self.low(h), self.high(h));
        assert forall|g: int| 0 <= g < self.nh && g != h implies #[trigger] f(g) == T::s_zero() by {
            assert(!is_pair(self.cards, g, self.low(h), self.high(h)));
            lemma_units(v[g]);
        }
        lemma_sum_one(f, h, self.nh as nat);
        lemma_units(v[h]);
    }

    proof fn lemma_common_all(&self, i: int, j: int, n: nat)
        requires
            is_exact::<T>(),
        ensures
            self.common_all(i, j, n) == sum_upto(
                times(self.cards_reach(i), self.cards_reach(j)),
                n,
            ),
        decreases n,
    {
        if n > 0 {
            self.lemma_common_all(i, j, (n - 1) as nat);
        }
    }

    proof fn lemma_linked(&self, i: int, j: int, d: int, e: int, n: nat)
        requires
            is_exact::<T>(),
            self.is_dealt(),
            0 <= i < self.reach.len(),
            0 <= j < self.reach.len(),
        ensures
            self.linked(i, j, d, e, n) == sum_upto(
                times(self.pairs_reach(i, d), self.pairs_reach(j, e)),
                n,
            ),
        decreases n,
    {
        if n > 0 {
            let c: int = n - 1;
            self.lemma_linked(i, j, d, e, (n - 1) as nat);
            self.lemma_look(i, c, d);
            self.lemma_look(j, c, e);
            lemma_units(self.look(j, c, e));
            lemma_nothing(self.entry(i, c, d));
            lemma_units(self.linked(i, j, d, e, (n - 1) as nat));
        }
    }

    /// The reach of `i` with each card, times that of `j` with the hand of the card and
    /// `d` among the first `n`.
    pub open spec fn crossed(&self, i: int, j: int, d: int, n: nat) -> spec_fn(
        int,
    ) -> T {
        |c: int|
            self.with_card(i, c) * sum_upto(values_at(self.cards, self.reach[j], c, d), n)
    }

    proof fn lemma_cross_upto(&self, i: int, j: int, d: int, n: nat)
        requires
            is_exact::<T>(),
            self.is_dealt(),
            0 <= i < self.reach.len(),
            0 <= j < self.reach.len(),
            n <= self.nh,
        ensures
            self.cross(i, j, d, n) == sum_upto(self.crossed(i, j, d, n), 52),
        decreases n,
    {
        let f = self.crossed(i, j, d, n);
        if n == 0 {
            assert forall|c: int| 0 <= c < 52 implies #[trigger] f(c) == T::s_zero() by {
                lemma_units(self.with_card(i, c));
            }
            lemma_sum_zero(f, 52);
        } else {
            let g: int = n - 1;
            let v = self.reach[j];
            let r = v[g];
            let p = self.cards_reach(i);
            let prev = self.crossed(i, j, d, (n - 1) as nat);
            let new = |c: int| p(c) * (one_if::<T>(is_pair(self.cards, g, c, d)) * r);
            self.lemma_cross_upto(i, j, d, (n - 1) as nat);
            assert forall|c: int| 0 <= c < 52 implies #[trigger] f(c) == prev(c) + new(c) by {
                let s = sum_upto(values_at(self.cards, v, c, d), (n - 1) as nat);
                let t = one_if::<T>(is_pair(self.cards, g, c, d)) * r;
                lemma_spread(p(c), s, t);
            }
            lemma_sum_add(prev, new, f, 52);
            lemma_nothing(r);
            lemma_units(sum_upto(prev, 52));
            lemma_units(r);
            assert(self.cards[2 * g] != self.cards[2 * g + 1]);
            assert(self.cards[2 * g] < 52 && self.cards[2 * g + 1] < 52);
            let (a, b) = (self.low(g), self.high(g));
            if b == d {
                assert forall|c: int| 0 <= c < 52 && c != a implies #[trigger] new(c) == T::s_zero() by {
                    lemma_units(p(c));
                }
                lemma_sum_one(new, a, 52);
            } else if a == d {
                assert forall|c: int| 0 <= c < 52 && c != b implies #[trigger] new(c) == T::s_zero() by {
                    lemma_units(p(c));
                }
                lemma_sum_one(new, b, 52);
            } else {
                assert forall|c: int| 0 <= c < 52 implies #[trigger] new(c) == T::s_zero() by {
                    lemma_units(p(c));
                }
                lemma_sum_zero(new, 52);
            }
            lemma_units(p(a));
            lemma_units(p(b));
        }
    }

    proof fn lemma_cross(&self, i: int, j: int, d: int)
        requires
            is_exact::<T>(),
            self.is_dealt(),
            0 <= i < self.reach.len(),
            0 <= j < self.reach.len(),
        ensures
            self.cross(i, j, d, self.nh as nat) == sum_upto(
                times(self.cards_reach(i), self.pairs_reach(j, d)),
                52,
            ),
    {
        let f = self.crossed(i, j, d, self.nh as nat);
        let g = times(self.cards_reach(i), self.pairs_reach(j, d));
        self.lemma_cross_upto(i, j, d, self.nh as nat);
        assert forall|c: int| 0 <= c < 52 implies #[trigger] f(c) == g(c) by {
            self.lemma_look(j, c, d);
        }
        lemma_sum_ext(f, g, 52);
    }

    /// The exact product behind a common card, whether `h` holds it or not.
    pub open spec fn met_at(&self, i: int, j: int, h: int) -> spec_fn(
        int,
    ) -> T {
        |c: int| self.free_with(i, h, c) * self.free_with(j, h, c)
    }

    proof fn lemma_common_met(&self, i: int, j: int, h: int, n: nat)
        requires
            is_exact::<T>(),
        ensures
            self.common(i, j, h, n) == sum_upto(
                without(self.met_at(i, j, h), self.low(h), self.high(h)),
                n,
            ),
        decreases n,
    {
        if n > 0 {
            self.lemma_common_met(i, j, h, (n - 1) as nat);
            lemma_units(self.common(i, j, h, (n - 1) as nat));
        }
    }

    /// Where numbers are exact, clashes from the tables are the clashes by hand.
    pub proof fn law_table_clashes_are_exact(&self, i: int, j: int, h: int)
        requires
            is_exact::<T>(),
            self.is_dealt(),
            0 <= i < self.reach.len(),
            0 <= j < self.reach.len(),
            0 <= h < self.nh,
        ensures
            self.clashes_by_tables(h)(i, j) == self.clashes(h)(i, j),
    {
        let (h1, h2) = (self.low(h), self.high(h));
        assert(self.cards[2 * h] != self.cards[2 * h + 1]);
        assert(self.cards[2 * h] < 52 && self.cards[2 * h + 1] < 52);
        let (a, a2) = (self.cards_reach(i), self.cards_reach(j));
        let (b, b2) = (self.pairs_reach(i, h1), self.pairs_reach(j, h1));
        let (c, c2) = (self.pairs_reach(i, h2), self.pairs_reach(j, h2));
        let met = self.met_at(i, j, h);
        self.lemma_common_all(i, j, 52);
        self.lemma_cross(i, j, h1);
        self.lemma_cross(i, j, h2);
        self.lemma_cross(j, i, h1);
        self.lemma_cross(j, i, h2);
        self.lemma_linked(i, j, h1, h1, 52);
        self.lemma_linked(i, j, h1, h2, 52);
        self.lemma_linked(i, j, h2, h1, 52);
        self.lemma_linked(i, j, h2, h2, 52);
        let l1 = plus(met, times(a, b2));
        let l2 = plus(l1, times(a, c2));
        let l3 = plus(l2, times(a2, b));
        let l4 = plus(l3, times(a2, c));
        let r1 = plus(times(a, a2), times(b, b2));
        let r2 = plus(r1, times(b, c2));
        let r3 = plus(r2, times(c, b2));
        let r4 = plus(r3, times(c, c2));
        lemma_sum_add(met, times(a, b2), l1, 52);
        lemma_sum_add(l1, times(a, c2), l2, 52);
        lemma_sum_add(l2, times(a2, b), l3, 52);
        lemma_sum_add(l3, times(a2, c), l4, 52);
        lemma_sum_add(times(a, a2), times(b, b2), r1, 52);
        lemma_sum_add(r1, times(b, c2), r2, 52);
        lemma_sum_add(r2, times(c, b2), r3, 52);
        lemma_sum_add(r3, times(c, c2), r4, 52);
        assert forall|k: int| 0 <= k < 52 implies #[trigger] l4(k) == r4(k) by {
            let (p, q, r) = (a(k), b(k), c(k));
            let (p2, q2, r2) = (a2(k), b2(k), c2(k));
            assert(met(k) == (p - q - r) * (p2 - q2 - r2));
            lemma_product_of_rests(p, q, r, p2, q2, r2);
        }
        lemma_sum_ext(l4, r4, 52);
        let rest = without(met, h1, h2);
        let at1 = only(met, h1);
        let at2 = only(met, h2);
        let m1 = plus(rest, at1);
        let m2 = plus(m1, at2);
        lemma_sum_add(rest, at1, m1, 52);
        lemma_sum_add(m1, at2, m2, 52);
        assert forall|k: int| 0 <= k < 52 implies #[trigger] m2(k) == met(k) by {
            lemma_units(met(k));
            lemma_units(T::s_zero());
            assert(m1(k) == rest(k) + at1(k));
        }
        lemma_sum_ext(m2, met, 52);
        lemma_sum_one(at1, h1, 52);
        lemma_sum_one(at2, h2, 52);
        self.lemma_common_met(i, j, h, 52);
        self.lemma_look(i, h1, h1);
        self.lemma_look(j, h1, h1);
        self.lemma_look(i, h2, h2);
        self.lemma_look(j, h2, h2);
        self.lemma_look(i, h1, h2);
        self.lemma_look(j, h1, h2);
        self.lemma_own_look(i, h);
        self.lemma_own_look(j, h);
        let all = sum_upto(met, 52);
        lemma_balance(
            all,
            sum_upto(times(a, b2), 52),
            sum_upto(times(a, c2), 52),
            sum_upto(times(a2, b), 52),
            sum_upto(times(a2, c), 52),
            sum_upto(times(a, a2), 52),
            sum_upto(times(b, b2), 52),
            sum_upto(times(b, c2), 52),
            sum_upto(times(c, b2), 52),
            sum_upto(times(c, c2), 52),
        );
        lemma_units(self.with_card(i, h1));
        lemma_units(self.with_card(j, h1));
        lemma_units(self.with_card(i, h2) - self.reach[i][h]);
        lemma_units(self.with_card(j, h2) - self.reach[j][h]);
        let x = self.common(i, j, h, 52);
        lemma_orders(x, met(h1), met(h2));
        lemma_move(all, x, met(h1) + met(h2));
    }

    proof fn lemma_same_taken_by(
        &self,
        f: spec_fn(int, int) -> T,
        g: spec_fn(int, int) -> T,
        h: int,
        i: int,
        x: T,
        y: T,
        m: int,
    )
        requires
            is_exact::<T>(),
            0 <= i < self.reach.len(),
            m <= self.reach.len(),
            x == y,
            forall|j: int| 0 <= j < self.reach.len() ==> (#[trigger] f(i, j)) == g(i, j),
        ensures
            self.taken_by(f, h, i, x, m) == self.taken_by(g, h, i, y, m),
        decreases m,
    {
        if m > i + 1 && m > 0 {
            self.lemma_same_taken_by(f, g, h, i, x, y, m - 1);
            let j: int = m - 1;
            assert(f(i, j) == g(i, j));
        }
    }

    proof fn lemma_same_taken(
        &self,
        f: spec_fn(int, int) -> T,
        g: spec_fn(int, int) -> T,
        h: int,
        n: nat,
    )
        requires
            is_exact::<T>(),
            n <= self.reach.len(),
            forall|i: int, j: int|
                0 <= i < self.reach.len() && 0 <= j < self.reach.len() ==> (#[trigger] f(i, j))
                    == g(i, j),
        ensures
            self.taken(f, h, n) == self.taken(g, h, n),
        decreases n,
    {
        if n > 0 {
            self.lemma_same_taken(f, g, h, (n - 1) as nat);
            self.lemma_same_taken_by(
                f,
                g,
                h,
                n - 1,
                self.taken(f, h, (n - 1) as nat),
                self.taken(g, h, (n - 1) as nat),
                self.reach.len() as int,
            );
        }
    }

    /// No pair mass is negative, by hand or by tables, where the larger of a number and
    /// zero is not.
    pub proof fn law_masses_are_not_negative(&self, h: int)
        requires
            forall|x: T| !(#[trigger] x.s_larger(T::s_zero())).s_below(T::s_zero()),
        ensures
            !self.mass_left(self.clashes(h), h).s_below(T::s_zero()),
            !self.mass_left(self.clashes_by_tables(h), h).s_below(T::s_zero()),
    {
    }

    /// Where numbers are exact, the fast pair mass is the pair mass, for any number of
    /// opponents.
    pub proof fn law_fast_pairs_agree(&self, h: int)
        requires
            is_exact::<T>(),
            self.is_dealt(),
            0 <= h < self.nh,
        ensures
            self.mass_left(self.clashes_by_tables(h), h) == self.mass_left(self.clashes(h), h),
    {
        let f = self.clashes_by_tables(h);
        let g = self.clashes(h);
        assert forall|i: int, j: int|
            0 <= i < self.reach.len() && 0 <= j < self.reach.len() implies (#[trigger] f(i, j))
            == g(i, j) by {
            self.law_table_clashes_are_exact(i, j, h);
        }
        self.lemma_same_taken(f, g, h, self.reach.len());
    }
}

} // verus!
