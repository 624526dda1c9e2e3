//! What the mass of four opponents is worth where numbers are exact.
use vstd::prelude::*;

use crate::cluster_laws::{meets, one_if, values_at};
use crate::cluster_mass::{is_pair, Crowd};
use crate::exact::{
    is_exact, lemma_orders, lemma_pairs, lemma_spread, lemma_spread_difference, lemma_sum_one,
    lemma_sum_product, lemma_sum_zero, lemma_undo, lemma_units, sum2, Exact,
};
use crate::layout::count_upto;
use crate::many_sums::{
    lemma_copies, lemma_piles, lemma_split_01, lemma_split_012, lemma_split_013, lemma_split_02,
    lemma_split_023, lemma_split_03, lemma_split_123, lemma_sum4_ext, pile, pile_sums, sum3, sum4,
};
use crate::scalar::{sum_upto, Scalar};

verus! {

/// The terms that stand on the left of the balance: the hands that are all apart, the
/// meeting pairs, and the meeting threes.
spec fn left(cards: Seq<u8>, k: int, a: int, b: int, c: int, d: int) -> bool {
    let (ab, ac, ad) = (meets(cards, a, b), meets(cards, a, c), meets(cards, a, d));
    let (bc, bd, cd) = (meets(cards, b, c), meets(cards, b, d), meets(cards, c, d));
    if k == 0 {
        !ab && !ac && !ad && !bc && !bd && !cd
    } else if k == 1 {
        ab
    } else if k == 2 {
        ac
    } else if k == 3 {
        ad
    } else if k == 4 {
        bc
    } else if k == 5 {
        bd
    } else if k == 6 {
        cd
    } else if k == 7 {
        ab && ac && bc
    } else if k == 8 {
        ab && ad && bd
    } else if k == 9 {
        ac && ad && cd
    } else {
        bc && bd && cd
    }
}

/// The terms on the right: all hands, two meeting pairs, and the chains of three.
spec fn right(cards: Seq<u8>, k: int, a: int, b: int, c: int, d: int) -> bool {
    let (ab, ac, ad) = (meets(cards, a, b), meets(cards, a, c), meets(cards, a, d));
    let (bc, bd, cd) = (meets(cards, b, c), meets(cards, b, d), meets(cards, c, d));
    if k == 0 {
        true
    } else if k == 1 {
        ab && cd
    } else if k == 2 {
        ac && bd
    } else if k == 3 {
        ad && bc
    } else if k == 4 {
        ab && ac
    } else if k == 5 {
        ab && bc
    } else if k == 6 {
        ac && bc
    } else if k == 7 {
        ab && ad
    } else if k == 8 {
        ab && bd
    } else if k == 9 {
        ad && bd
    } else if k == 10 {
        ac && ad
    } else if k == 11 {
        ac && cd
    } else if k == 12 {
        ad && cd
    } else if k == 13 {
        bc && bd
    } else if k == 14 {
        bc && cd
    } else {
        bd && cd
    }
}

/// The four hands fall into two groups without a card in common.
pub open spec fn fall_apart(cards: Seq<u8>, a: int, b: int, c: int, d: int) -> bool {
    let (ab, ac, ad) = (meets(cards, a, b), meets(cards, a, c), meets(cards, a, d));
    let (bc, bd, cd) = (meets(cards, b, c), meets(cards, b, d), meets(cards, c, d));
    ||| !ab && !ac && !ad
    ||| !ab && !bc && !bd
    ||| !ac && !bc && !cd
    ||| !ad && !bd && !cd
    ||| !ac && !ad && !bc && !bd
    ||| !ab && !ad && !bc && !cd
    ||| !ab && !ac && !bd && !cd
}

proof fn lemma_balance(cards: Seq<u8>, a: int, b: int, c: int, d: int)
    requires
        fall_apart(cards, a, b, c, d),
    ensures
        count_upto(|k: int| left(cards, k, a, b, c, d), 11) == count_upto(
            |k: int| right(cards, k, a, b, c, d),
            16,
        ),
{
    reveal_with_fuel(count_upto, 17);
}

/// Four factors in other orders.
proof fn lemma_four<T: Scalar>(x: T, y: T, z: T, w: T)
    requires
        is_exact::<T>(),
    ensures
        x * y * (z * w) == x * z * (y * w),
        x * y * (z * w) == x * w * (y * z),
        x * y * (z * w) == x * y * z * w,
        x * y * (z * w) == x * y * w * z,
        x * y * (z * w) == x * z * w * y,
        x * y * (z * w) == y * z * w * x,
{
    lemma_orders(x, y, z * w);
    lemma_orders(y, z, w);
    lemma_orders(x, z, y * w);
    lemma_orders(z, w, y);
    lemma_orders(x, w, y * z);
    lemma_orders(w, y, z);
    lemma_orders(x * y, z, w);
    lemma_orders(x * y, w, z);
    lemma_orders(x, y, z);
    lemma_orders(x, y, w);
    lemma_orders(x, z, w);
    lemma_orders(y * z, w, x);
    lemma_orders(y * z * w, x, x);
    lemma_orders(x, y, z * w);
    lemma_orders(y, z, w);
    lemma_orders(x * z, y, w);
    lemma_orders(x * z, w, y);
    lemma_orders(y * z, w, w);
}

/// A sum in two parts.
proof fn lemma_sum_parts<T: Scalar>(f: spec_fn(int) -> T, m: nat, n: nat)
    requires
        is_exact::<T>(),
    ensures
        sum_upto(f, m + n) == sum_upto(f, m) + sum_upto(|k: int| f(m + k), n),
    decreases n,
{
    let g = |k: int| f(m + k);
    let s = sum_upto(f, m);
    if n == 0 {
        lemma_units(s);
    } else {
        lemma_sum_parts(f, m, (n - 1) as nat);
        assert(g(n - 1) == f(m + n - 1));
        lemma_orders(s, sum_upto(g, (n - 1) as nat), g(n - 1));
    }
}

impl<T: Scalar> Crowd<T> {
    /// What four opponents have with four hands that avoid hand `h`.
    pub open spec fn together(&self, h: int, a: int, b: int, c: int, d: int) -> T {
        self.apart_from(0, h)(a) * self.apart_from(1, h)(b) * (self.apart_from(2, h)(c)
            * self.apart_from(3, h)(d))
    }

    /// The same for hands of which no two share a card, else nothing.
    pub open spec fn all_apart(&self, h: int) -> spec_fn(int, int, int, int) -> T {
        |a: int, b: int, c: int, d: int|
            one_if::<T>(
                !meets(self.cards, a, b) && !meets(self.cards, a, c) && !meets(self.cards, a, d)
                    && !meets(self.cards, b, c) && !meets(self.cards, b, d) && !meets(
                    self.cards,
                    c,
                    d,
                ),
            ) * self.together(h, a, b, c, d)
    }

    /// No four hands that the opponents can hold are all connected by shared cards.
    pub open spec fn no_four_connect(&self) -> bool {
        forall|a: int, b: int, c: int, d: int|
            0 <= a < self.nh && 0 <= b < self.nh && 0 <= c < self.nh && 0 <= d < self.nh
                && self.reach[0][a] != T::s_zero() && self.reach[1][b] != T::s_zero()
                && self.reach[2][c] != T::s_zero() && self.reach[3][d] != T::s_zero()
                ==> #[trigger] fall_apart(self.cards, a, b, c, d)
    }

    /// What three opponents have with three hands that avoid hand `h`, where `p` holds of
    /// the hands.
    pub open spec fn three_where(
        &self,
        i: int,
        j: int,
        k: int,
        h: int,
        p: spec_fn(int, int, int) -> bool,
    ) -> spec_fn(int, int, int) -> T {
        |x: int, y: int, z: int|
            one_if::<T>(p(x, y, z)) * (self.apart_from(i, h)(x) * self.apart_from(j, h)(y)
                * self.apart_from(k, h)(z))
    }

    /// Chains of three hands over the first: it shares a card with both others.
    pub open spec fn over_first(&self, i: int, j: int, k: int, h: int) -> T {
        sum3(
            self.three_where(
                i,
                j,
                k,
                h,
                |x: int, y: int, z: int| meets(self.cards, x, y) && meets(self.cards, x, z),
            ),
            self.nh as nat,
        )
    }

    /// Chains over the second.
    pub open spec fn over_second(&self, i: int, j: int, k: int, h: int) -> T {
        sum3(
            self.three_where(
                i,
                j,
                k,
                h,
                |x: int, y: int, z: int| meets(self.cards, x, y) && meets(self.cards, y, z),
            ),
            self.nh as nat,
        )
    }

    /// Chains over the third.
    pub open spec fn over_third(&self, i: int, j: int, k: int, h: int) -> T {
        sum3(
            self.three_where(
                i,
                j,
                k,
                h,
                |x: int, y: int, z: int| meets(self.cards, x, z) && meets(self.cards, y, z),
            ),
            self.nh as nat,
        )
    }

    /// Three hands of which every two share a card.
    pub open spec fn all_meeting(&self, i: int, j: int, k: int, h: int) -> T {
        sum3(
            self.three_where(
                i,
                j,
                k,
                h,
                |x: int, y: int, z: int|
                    meets(self.cards, x, y) && meets(self.cards, x, z) && meets(self.cards, y, z),
            ),
            self.nh as nat,
        )
    }

    /// What three opponents in one cluster add: all chains, less the threes of which every
    /// two share a card.
    pub open spec fn cluster_sum(&self, i: int, j: int, k: int, h: int) -> T {
        self.over_first(i, j, k, h) + self.over_second(i, j, k, h) + self.over_third(i, j, k, h)
            - self.all_meeting(i, j, k, h)
    }

    /// What the opponents have where `p` holds of the hands.
    spec fn four_where(&self, h: int, p: spec_fn(int, int, int, int) -> bool) -> spec_fn(
        int,
        int,
        int,
        int,
    ) -> T {
        |a: int, b: int, c: int, d: int|
            if p(a, b, c, d) {
                self.together(h, a, b, c, d)
            } else {
                T::s_zero()
            }
    }

    spec fn left_terms(&self, h: int) -> spec_fn(int) -> spec_fn(int, int, int, int) -> T {
        |k: int| self.four_where(h, |a: int, b: int, c: int, d: int| left(self.cards, k, a, b, c, d))
    }

    spec fn right_terms(&self, h: int) -> spec_fn(int) -> spec_fn(int, int, int, int) -> T {
        |k: int|
            self.four_where(h, |a: int, b: int, c: int, d: int| right(self.cards, k, a, b, c, d))
    }

    /// Left and right balance.
    proof fn lemma_terms_balance(&self, h: int)
        requires
            is_exact::<T>(),
            self.is_dealt(),
            self.reach.len() == 4,
            0 <= h < self.nh,
            self.no_four_connect(),
        ensures
            sum_upto(pile_sums(self.left_terms(h), self.nh as nat), 11) == sum_upto(
                pile_sums(self.right_terms(h), self.nh as nat),
                16,
            ),
    {
        let n = self.nh as nat;
        let (ls, rs) = (self.left_terms(h), self.right_terms(h));
        lemma_piles(ls, 11, n);
        lemma_piles(rs, 16, n);
        assert forall|a: int, b: int, c: int, d: int|
            0 <= a < n && 0 <= b < n && 0 <= c < n && 0 <= d < n implies #[trigger] pile(ls, 11)(
            a,
            b,
            c,
            d,
        ) == pile(rs, 16)(a, b, c, d) by {
            let x = self.together(h, a, b, c, d);
            let f = |k: int| ls(k)(a, b, c, d);
            let g = |k: int| rs(k)(a, b, c, d);
            let p = |k: int| left(self.cards, k, a, b, c, d);
            let q = |k: int| right(self.cards, k, a, b, c, d);
            lemma_copies(f, p, x, 11);
            lemma_copies(g, q, x, 16);
            if fall_apart(self.cards, a, b, c, d) {
                lemma_balance(self.cards, a, b, c, d);
            } else {
                self.lemma_together_zero(h, a, b, c, d);
                lemma_sum_zero(f, 11);
                lemma_sum_zero(g, 16);
            }
        }
        lemma_sum4_ext(pile(ls, 11), pile(rs, 16), n);
    }

    /// Hands that somebody cannot hold count for nothing.
    pub(crate) proof fn lemma_together_zero(&self, h: int, a: int, b: int, c: int, d: int)
        requires
            is_exact::<T>(),
            self.reach[0][a] == T::s_zero() || self.reach[1][b] == T::s_zero() || self.reach[2][c]
                == T::s_zero() || self.reach[3][d] == T::s_zero(),
        ensures
            self.together(h, a, b, c, d) == T::s_zero(),
    {
        let (x, y) = (self.apart_from(0, h)(a), self.apart_from(1, h)(b));
        let (z, w) = (self.apart_from(2, h)(c), self.apart_from(3, h)(d));
        lemma_units(one_if::<T>(!meets(self.cards, h, a)));
        lemma_units(one_if::<T>(!meets(self.cards, h, b)));
        lemma_units(one_if::<T>(!meets(self.cards, h, c)));
        lemma_units(one_if::<T>(!meets(self.cards, h, d)));
        lemma_units(x);
        lemma_units(y);
        lemma_units(z);
        lemma_units(w);
        lemma_units(x * y);
        lemma_units(z * w);
    }
}

impl<T: Scalar> Crowd<T> {
    /// What two opponents have with any two hands that avoid hand `h`.
    spec fn any_two(&self, i: int, j: int, h: int) -> spec_fn(int, int) -> T {
        |g: int, k: int| self.apart_from(i, h)(g) * self.apart_from(j, h)(k)
    }

    /// What opponents `i` and `j` have with hands that meet.
    pub(crate) closed spec fn met(&self, i: int, j: int, h: int) -> T {
        sum2(self.colliding(i, j, h), self.nh as nat, self.nh as nat)
    }

    proof fn lemma_any_two(&self, i: int, j: int, h: int)
        requires
            is_exact::<T>(),
            self.is_dealt(),
            0 <= i < self.reach.len(),
            0 <= j < self.reach.len(),
            0 <= h < self.nh,
        ensures
            sum2(self.any_two(i, j, h), self.nh as nat, self.nh as nat) == self.free(i, h)
                * self.free(j, h),
    {
        let n = self.nh as nat;
        self.law_free_reach_is_exact(i, h);
        self.law_free_reach_is_exact(j, h);
        lemma_sum_product(self.apart_from(i, h), self.apart_from(j, h), self.any_two(i, j, h), n, n);
    }

    /// The four factors in the orders that the sums need.
    proof fn lemma_factors(&self, h: int, a: int, b: int, c: int, d: int)
        requires
            is_exact::<T>(),
        ensures
            ({
                let (x, y) = (self.apart_from(0, h)(a), self.apart_from(1, h)(b));
                let (z, w) = (self.apart_from(2, h)(c), self.apart_from(3, h)(d));
                let t = self.together(h, a, b, c, d);
                &&& t == x * y * (z * w)
                &&& t == x * z * (y * w)
                &&& t == x * w * (y * z)
                &&& t == x * y * z * w
                &&& t == x * y * w * z
                &&& t == x * z * w * y
                &&& t == y * z * w * x
                &&& T::s_one() * (x * y) == x * y
                &&& T::s_one() * (x * z) == x * z
                &&& T::s_one() * (x * w) == x * w
                &&& T::s_one() * (y * z) == y * z
                &&& T::s_one() * (y * w) == y * w
                &&& T::s_one() * (z * w) == z * w
                &&& T::s_zero() * (x * y) == T::s_zero()
                &&& T::s_zero() * (x * z) == T::s_zero()
                &&& T::s_zero() * (x * w) == T::s_zero()
                &&& T::s_zero() * (y * z) == T::s_zero()
                &&& T::s_zero() * (y * w) == T::s_zero()
                &&& T::s_zero() * (z * w) == T::s_zero()
                &&& T::s_zero() * T::s_zero() == T::s_zero()
                &&& x * y * T::s_zero() == T::s_zero()
                &&& x * z * T::s_zero() == T::s_zero()
                &&& x * w * T::s_zero() == T::s_zero()
            }),
    {
        let (x, y) = (self.apart_from(0, h)(a), self.apart_from(1, h)(b));
        let (z, w) = (self.apart_from(2, h)(c), self.apart_from(3, h)(d));
        lemma_four(x, y, z, w);
        lemma_units(x * y);
        lemma_units(x * z);
        lemma_units(x * w);
        lemma_units(y * z);
        lemma_units(y * w);
        lemma_units(z * w);
        lemma_units(T::s_zero());
    }

    proof fn lemma_pair_01(&self, h: int)
        requires
            is_exact::<T>(),
            self.is_dealt(),
            self.reach.len() == 4,
            0 <= h < self.nh,
        ensures
            sum4(self.left_terms(h)(1), self.nh as nat) == self.met(0, 1, h) * (self.free(2, h)
                * self.free(3, h)),
    {
        let n = self.nh as nat;
        let f = self.left_terms(h)(1);
        let (x, y) = (self.colliding(0, 1, h), self.any_two(2, 3, h));
        assert forall|a: int, b: int, c: int, d: int|
            0 <= a < n && 0 <= b < n && 0 <= c < n && 0 <= d < n implies #[trigger] f(a, b, c, d)
            == x(a, b) * y(c, d) by {
            self.lemma_factors(h, a, b, c, d);
        }
        lemma_split_01(f, x, y, n);
        self.lemma_any_two(2, 3, h);
        lemma_orders(self.met(0, 1, h), self.free(2, h) * self.free(3, h), T::s_zero());
    }

    proof fn lemma_pair_02(&self, h: int)
        requires
            is_exact::<T>(),
            self.is_dealt(),
            self.reach.len() == 4,
            0 <= h < self.nh,
        ensures
            sum4(self.left_terms(h)(2), self.nh as nat) == self.met(0, 2, h) * (self.free(1, h)
                * self.free(3, h)),
    {
        let n = self.nh as nat;
        let f = self.left_terms(h)(2);
        let (x, y) = (self.colliding(0, 2, h), self.any_two(1, 3, h));
        assert forall|a: int, b: int, c: int, d: int|
            0 <= a < n && 0 <= b < n && 0 <= c < n && 0 <= d < n implies #[trigger] f(a, b, c, d)
            == x(a, c) * y(b, d) by {
            self.lemma_factors(h, a, b, c, d);
        }
        lemma_split_02(f, x, y, n);
        self.lemma_any_two(1, 3, h);
        lemma_orders(self.met(0, 2, h), self.free(1, h) * self.free(3, h), T::s_zero());
    }

    proof fn lemma_pair_03(&self, h: int)
        requires
            is_exact::<T>(),
            self.is_dealt(),
            self.reach.len() == 4,
            0 <= h < self.nh,
        ensures
            sum4(self.left_terms(h)(3), self.nh as nat) == self.met(0, 3, h) * (self.free(1, h)
                * self.free(2, h)),
    {
        let n = self.nh as nat;
        let f = self.left_terms(h)(3);
        let (x, y) = (self.colliding(0, 3, h), self.any_two(1, 2, h));
        assert forall|a: int, b: int, c: int, d: int|
            0 <= a < n && 0 <= b < n && 0 <= c < n && 0 <= d < n implies #[trigger] f(a, b, c, d)
            == x(a, d) * y(b, c) by {
            self.lemma_factors(h, a, b, c, d);
        }
        lemma_split_03(f, x, y, n);
        self.lemma_any_two(1, 2, h);
        lemma_orders(self.met(0, 3, h), self.free(1, h) * self.free(2, h), T::s_zero());
    }

    proof fn lemma_pair_12(&self, h: int)
        requires
            is_exact::<T>(),
            self.is_dealt(),
            self.reach.len() == 4,
            0 <= h < self.nh,
        ensures
            sum4(self.left_terms(h)(4), self.nh as nat) == self.met(1, 2, h) * (self.free(0, h)
                * self.free(3, h)),
    {
        let n = self.nh as nat;
        let f = self.left_terms(h)(4);
        let (x, y) = (self.any_two(0, 3, h), self.colliding(1, 2, h));
        assert forall|a: int, b: int, c: int, d: int|
            0 <= a < n && 0 <= b < n && 0 <= c < n && 0 <= d < n implies #[trigger] f(a, b, c, d)
            == x(a, d) * y(b, c) by {
            self.lemma_factors(h, a, b, c, d);
        }
        lemma_split_03(f, x, y, n);
        self.lemma_any_two(0, 3, h);
        lemma_orders(self.met(1, 2, h), self.free(0, h) * self.free(3, h), T::s_zero());
    }

    proof fn lemma_pair_13(&self, h: int)
        requires
            is_exact::<T>(),
            self.is_dealt(),
            self.reach.len() == 4,
            0 <= h < self.nh,
        ensures
            sum4(self.left_terms(h)(5), self.nh as nat) == self.met(1, 3, h) * (self.free(0, h)
                * self.free(2, h)),
    {
        let n = self.nh as nat;
        let f = self.left_terms(h)(5);
        let (x, y) = (self.any_two(0, 2, h), self.colliding(1, 3, h));
        assert forall|a: int, b: int, c: int, d: int|
            0 <= a < n && 0 <= b < n && 0 <= c < n && 0 <= d < n implies #[trigger] f(a, b, c, d)
            == x(a, c) * y(b, d) by {
            self.lemma_factors(h, a, b, c, d);
        }
        lemma_split_02(f, x, y, n);
        self.lemma_any_two(0, 2, h);
        lemma_orders(self.met(1, 3, h), self.free(0, h) * self.free(2, h), T::s_zero());
    }

    proof fn lemma_pair_23(&self, h: int)
        requires
            is_exact::<T>(),
            self.is_dealt(),
            self.reach.len() == 4,
            0 <= h < self.nh,
        ensures
            sum4(self.left_terms(h)(6), self.nh as nat) == self.met(2, 3, h) * (self.free(0, h)
                * self.free(1, h)),
    {
        let n = self.nh as nat;
        let f = self.left_terms(h)(6);
        let (x, y) = (self.any_two(0, 1, h), self.colliding(2, 3, h));
        assert forall|a: int, b: int, c: int, d: int|
            0 <= a < n && 0 <= b < n && 0 <= c < n && 0 <= d < n implies #[trigger] f(a, b, c, d)
            == x(a, b) * y(c, d) by {
            self.lemma_factors(h, a, b, c, d);
        }
        lemma_split_01(f, x, y, n);
        self.lemma_any_two(0, 1, h);
        lemma_orders(self.met(2, 3, h), self.free(0, h) * self.free(1, h), T::s_zero());
    }

    proof fn lemma_double_01(&self, h: int)
        requires
            is_exact::<T>(),
            self.is_dealt(),
            self.reach.len() == 4,
            0 <= h < self.nh,
        ensures
            sum4(self.right_terms(h)(1), self.nh as nat) == self.met(0, 1, h) * self.met(2, 3, h),
    {
        let n = self.nh as nat;
        let f = self.right_terms(h)(1);
        let (x, y) = (self.colliding(0, 1, h), self.colliding(2, 3, h));
        assert forall|a: int, b: int, c: int, d: int|
            0 <= a < n && 0 <= b < n && 0 <= c < n && 0 <= d < n implies #[trigger] f(a, b, c, d)
            == x(a, b) * y(c, d) by {
            self.lemma_factors(h, a, b, c, d);
        }
        lemma_split_01(f, x, y, n);
    }

    proof fn lemma_double_02(&self, h: int)
        requires
            is_exact::<T>(),
            self.is_dealt(),
            self.reach.len() == 4,
            0 <= h < self.nh,
        ensures
            sum4(self.right_terms(h)(2), self.nh as nat) == self.met(0, 2, h) * self.met(1, 3, h),
    {
        let n = self.nh as nat;
        let f = self.right_terms(h)(2);
        let (x, y) = (self.colliding(0, 2, h), self.colliding(1, 3, h));
        assert forall|a: int, b: int, c: int, d: int|
            0 <= a < n && 0 <= b < n && 0 <= c < n && 0 <= d < n implies #[trigger] f(a, b, c, d)
            == x(a, c) * y(b, d) by {
            self.lemma_factors(h, a, b, c, d);
        }
        lemma_split_02(f, x, y, n);
    }

    proof fn lemma_double_03(&self, h: int)
        requires
            is_exact::<T>(),
            self.is_dealt(),
            self.reach.len() == 4,
            0 <= h < self.nh,
        ensures
            sum4(self.right_terms(h)(3), self.nh as nat) == self.met(0, 3, h) * self.met(1, 2, h),
    {
        let n = self.nh as nat;
        let f = self.right_terms(h)(3);
        let (x, y) = (self.colliding(0, 3, h), self.colliding(1, 2, h));
        assert forall|a: int, b: int, c: int, d: int|
            0 <= a < n && 0 <= b < n && 0 <= c < n && 0 <= d < n implies #[trigger] f(a, b, c, d)
            == x(a, d) * y(b, c) by {
            self.lemma_factors(h, a, b, c, d);
        }
        lemma_split_03(f, x, y, n);
    }

    proof fn lemma_ends(&self, h: int)
        requires
            is_exact::<T>(),
            self.is_dealt(),
            self.reach.len() == 4,
            0 <= h < self.nh,
        ensures
            sum4(self.left_terms(h)(0), self.nh as nat) == sum4(self.all_apart(h), self.nh as nat),
            sum4(self.right_terms(h)(0), self.nh as nat) == self.free(0, h) * self.free(1, h) * (
            self.free(2, h) * self.free(3, h)),
    {
        let n = self.nh as nat;
        let f = self.left_terms(h)(0);
        let g = self.all_apart(h);
        assert forall|a: int, b: int, c: int, d: int|
            0 <= a < n && 0 <= b < n && 0 <= c < n && 0 <= d < n implies #[trigger] f(a, b, c, d)
            == g(a, b, c, d) by {
            lemma_units(self.together(h, a, b, c, d));
        }
        lemma_sum4_ext(f, g, n);
        lemma_split_01(self.right_terms(h)(0), self.any_two(0, 1, h), self.any_two(2, 3, h), n);
        self.lemma_any_two(0, 1, h);
        self.lemma_any_two(2, 3, h);
    }

    proof fn lemma_three_012(
        &self,
        h: int,
        f: spec_fn(int, int, int, int) -> T,
        p: spec_fn(int, int, int) -> bool,
    )
        requires
            is_exact::<T>(),
            self.is_dealt(),
            self.reach.len() == 4,
            0 <= h < self.nh,
            forall|a: int, b: int, c: int, d: int|
                #[trigger] f(a, b, c, d) == if p(a, b, c) {
                    self.together(h, a, b, c, d)
                } else {
                    T::s_zero()
                },
        ensures
            sum4(f, self.nh as nat) == sum3(self.three_where(0, 1, 2, h, p), self.nh as nat)
                * self.free(3, h),
    {
        let n = self.nh as nat;
        let x = self.three_where(0, 1, 2, h, p);
        let y = self.apart_from(3, h);
        assert forall|a: int, b: int, c: int, d: int|
            0 <= a < n && 0 <= b < n && 0 <= c < n && 0 <= d < n implies #[trigger] f(a, b, c, d)
            == x(a, b, c) * y(d) by {
            self.lemma_factors(h, a, b, c, d);
            lemma_units(
                self.apart_from(0, h)(a) * self.apart_from(1, h)(b) * self.apart_from(2, h)(
                    c,
                ),
            );
            lemma_units(y(d));
        }
        lemma_split_012(f, x, y, n);
        self.law_free_reach_is_exact(3, h);
    }

    proof fn lemma_threes_012(&self, h: int)
        requires
            is_exact::<T>(),
            self.is_dealt(),
            self.reach.len() == 4,
            0 <= h < self.nh,
        ensures
            sum4(self.left_terms(h)(7), self.nh as nat) == self.all_meeting(0, 1, 2, h) * self.free(3, h),
            sum4(self.right_terms(h)(4), self.nh as nat) == self.over_first(0, 1, 2, h) * self.free(3, h),
            sum4(self.right_terms(h)(5), self.nh as nat) == self.over_second(0, 1, 2, h) * self.free(3, h),
            sum4(self.right_terms(h)(6), self.nh as nat) == self.over_third(0, 1, 2, h) * self.free(3, h),
    {
        self.lemma_three_012(
            h,
            self.left_terms(h)(7),
            |x: int, y: int, z: int| meets(self.cards, x, y) && meets(self.cards, x, z) && meets(self.cards, y, z),
        );
        self.lemma_three_012(
            h,
            self.right_terms(h)(4),
            |x: int, y: int, z: int| meets(self.cards, x, y) && meets(self.cards, x, z),
        );
        self.lemma_three_012(
            h,
            self.right_terms(h)(5),
            |x: int, y: int, z: int| meets(self.cards, x, y) && meets(self.cards, y, z),
        );
        self.lemma_three_012(
            h,
            self.right_terms(h)(6),
            |x: int, y: int, z: int| meets(self.cards, x, z) && meets(self.cards, y, z),
        );
    }

    proof fn lemma_three_013(
        &self,
        h: int,
        f: spec_fn(int, int, int, int) -> T,
        p: spec_fn(int, int, int) -> bool,
    )
        requires
            is_exact::<T>(),
            self.is_dealt(),
            self.reach.len() == 4,
            0 <= h < self.nh,
            forall|a: int, b: int, c: int, d: int|
                #[trigger] f(a, b, c, d) == if p(a, b, d) {
                    self.together(h, a, b, c, d)
                } else {
                    T::s_zero()
                },
        ensures
            sum4(f, self.nh as nat) == sum3(self.three_where(0, 1, 3, h, p), self.nh as nat)
                * self.free(2, h),
    {
        let n = self.nh as nat;
        let x = self.three_where(0, 1, 3, h, p);
        let y = self.apart_from(2, h);
        assert forall|a: int, b: int, c: int, d: int|
            0 <= a < n && 0 <= b < n && 0 <= c < n && 0 <= d < n implies #[trigger] f(a, b, c, d)
            == x(a, b, d) * y(c) by {
            self.lemma_factors(h, a, b, c, d);
            lemma_units(
                self.apart_from(0, h)(a) * self.apart_from(1, h)(b) * self.apart_from(3, h)(
                    d,
                ),
            );
            lemma_units(y(c));
        }
        lemma_split_013(f, x, y, n);
        self.law_free_reach_is_exact(2, h);
    }

    proof fn lemma_threes_013(&self, h: int)
        requires
            is_exact::<T>(),
            self.is_dealt(),
            self.reach.len() == 4,
            0 <= h < self.nh,
        ensures
            sum4(self.left_terms(h)(8), self.nh as nat) == self.all_meeting(0, 1, 3, h) * self.free(2, h),
            sum4(self.right_terms(h)(7), self.nh as nat) == self.over_first(0, 1, 3, h) * self.free(2, h),
            sum4(self.right_terms(h)(8), self.nh as nat) == self.over_second(0, 1, 3, h) * self.free(2, h),
            sum4(self.right_terms(h)(9), self.nh as nat) == self.over_third(0, 1, 3, h) * self.free(2, h),
    {
        self.lemma_three_013(
            h,
            self.left_terms(h)(8),
            |x: int, y: int, z: int| meets(self.cards, x, y) && meets(self.cards, x, z) && meets(self.cards, y, z),
        );
        self.lemma_three_013(
            h,
            self.right_terms(h)(7),
            |x: int, y: int, z: int| meets(self.cards, x, y) && meets(self.cards, x, z),
        );
        self.lemma_three_013(
            h,
            self.right_terms(h)(8),
            |x: int, y: int, z: int| meets(self.cards, x, y) && meets(self.cards, y, z),
        );
        self.lemma_three_013(
            h,
            self.right_terms(h)(9),
            |x: int, y: int, z: int| meets(self.cards, x, z) && meets(self.cards, y, z),
        );
    }

    proof fn lemma_three_023(
        &self,
        h: int,
        f: spec_fn(int, int, int, int) -> T,
        p: spec_fn(int, int, int) -> bool,
    )
        requires
            is_exact::<T>(),
            self.is_dealt(),
            self.reach.len() == 4,
            0 <= h < self.nh,
            forall|a: int, b: int, c: int, d: int|
                #[trigger] f(a, b, c, d) == if p(a, c, d) {
                    self.together(h, a, b, c, d)
                } else {
                    T::s_zero()
                },
        ensures
            sum4(f, self.nh as nat) == sum3(self.three_where(0, 2, 3, h, p), self.nh as nat)
                * self.free(1, h),
    {
        let n = self.nh as nat;
        let x = self.three_where(0, 2, 3, h, p);
        let y = self.apart_from(1, h);
        assert forall|a: int, b: int, c: int, d: int|
            0 <= a < n && 0 <= b < n && 0 <= c < n && 0 <= d < n implies #[trigger] f(a, b, c, d)
            == x(a, c, d) * y(b) by {
            self.lemma_factors(h, a, b, c, d);
            lemma_units(
                self.apart_from(0, h)(a) * self.apart_from(2, h)(c) * self.apart_from(3, h)(
                    d,
                ),
            );
            lemma_units(y(b));
        }
        lemma_split_023(f, x, y, n);
        self.law_free_reach_is_exact(1, h);
    }

    proof fn lemma_threes_023(&self, h: int)
        requires
            is_exact::<T>(),
            self.is_dealt(),
            self.reach.len() == 4,
            0 <= h < self.nh,
        ensures
            sum4(self.left_terms(h)(9), self.nh as nat) == self.all_meeting(0, 2, 3, h) * self.free(1, h),
            sum4(self.right_terms(h)(10), self.nh as nat) == self.over_first(0, 2, 3, h) * self.free(1, h),
            sum4(self.right_terms(h)(11), self.nh as nat) == self.over_second(0, 2, 3, h) * self.free(1, h),
            sum4(self.right_terms(h)(12), self.nh as nat) == self.over_third(0, 2, 3, h) * self.free(1, h),
    {
        self.lemma_three_023(
            h,
            self.left_terms(h)(9),
            |x: int, y: int, z: int| meets(self.cards, x, y) && meets(self.cards, x, z) && meets(self.cards, y, z),
        );
        self.lemma_three_023(
            h,
            self.right_terms(h)(10),
            |x: int, y: int, z: int| meets(self.cards, x, y) && meets(self.cards, x, z),
        );
        self.lemma_three_023(
            h,
            self.right_terms(h)(11),
            |x: int, y: int, z: int| meets(self.cards, x, y) && meets(self.cards, y, z),
        );
        self.lemma_three_023(
            h,
            self.right_terms(h)(12),
            |x: int, y: int, z: int| meets(self.cards, x, z) && meets(self.cards, y, z),
        );
    }

    proof fn lemma_three_123(
        &self,
        h: int,
        f: spec_fn(int, int, int, int) -> T,
        p: spec_fn(int, int, int) -> bool,
    )
        requires
            is_exact::<T>(),
            self.is_dealt(),
            self.reach.len() == 4,
            0 <= h < self.nh,
            forall|a: int, b: int, c: int, d: int|
                #[trigger] f(a, b, c, d) == if p(b, c, d) {
                    self.together(h, a, b, c, d)
                } else {
                    T::s_zero()
                },
        ensures
            sum4(f, self.nh as nat) == sum3(self.three_where(1, 2, 3, h, p), self.nh as nat)
                * self.free(0, h),
    {
        let n = self.nh as nat;
        let x = self.three_where(1, 2, 3, h, p);
        let y = self.apart_from(0, h);
        assert forall|a: int, b: int, c: int, d: int|
            0 <= a < n && 0 <= b < n && 0 <= c < n && 0 <= d < n implies #[trigger] f(a, b, c, d)
            == x(b, c, d) * y(a) by {
            self.lemma_factors(h, a, b, c, d);
            lemma_units(
                self.apart_from(1, h)(b) * self.apart_from(2, h)(c) * self.apart_from(3, h)(
                    d,
                ),
            );
            lemma_units(y(a));
        }
        lemma_split_123(f, x, y, n);
        self.law_free_reach_is_exact(0, h);
    }

    proof fn lemma_threes_123(&self, h: int)
        requires
            is_exact::<T>(),
            self.is_dealt(),
            self.reach.len() == 4,
            0 <= h < self.nh,
        ensures
            sum4(self.left_terms(h)(10), self.nh as nat) == self.all_meeting(1, 2, 3, h) * self.free(0, h),
            sum4(self.right_terms(h)(13), self.nh as nat) == self.over_first(1, 2, 3, h) * self.free(0, h),
            sum4(self.right_terms(h)(14), self.nh as nat) == self.over_second(1, 2, 3, h) * self.free(0, h),
            sum4(self.right_terms(h)(15), self.nh as nat) == self.over_third(1, 2, 3, h) * self.free(0, h),
    {
        self.lemma_three_123(
            h,
            self.left_terms(h)(10),
            |x: int, y: int, z: int| meets(self.cards, x, y) && meets(self.cards, x, z) && meets(self.cards, y, z),
        );
        self.lemma_three_123(
            h,
            self.right_terms(h)(13),
            |x: int, y: int, z: int| meets(self.cards, x, y) && meets(self.cards, x, z),
        );
        self.lemma_three_123(
            h,
            self.right_terms(h)(14),
            |x: int, y: int, z: int| meets(self.cards, x, y) && meets(self.cards, y, z),
        );
        self.lemma_three_123(
            h,
            self.right_terms(h)(15),
            |x: int, y: int, z: int| meets(self.cards, x, z) && meets(self.cards, y, z),
        );
    }
}

/// A number that is taken away on one side and added on the other.
proof fn lemma_cancel<T: Scalar>(x: T, y: T, p: T)
    requires
        is_exact::<T>(),
    ensures
        (x - p) + (y + p) == x + y,
{
    lemma_undo(x, p);
    lemma_orders(x - p, p, y);
    lemma_orders(y, p, p);
}

/// Less than nothing, times another.
pub(crate) proof fn lemma_negative<T: Scalar>(x: T, y: T)
    requires
        is_exact::<T>(),
    ensures
        (T::s_zero() - x) * y == T::s_zero() - x * y,
{
    lemma_spread_difference(y, T::s_zero(), x);
    lemma_units(y);
}

/// Sums of four and four, term by term.
proof fn lemma_fours<T: Scalar>(a: T, b: T, c: T, d: T, x: T, y: T, z: T, w: T)
    requires
        is_exact::<T>(),
    ensures
        (a + b + c + d) + (T::s_zero() + x + y + z + w) == T::s_zero() + (a + x) + (b + y) + (c + z)
            + (d + w),
{
    lemma_units(x);
    lemma_units(a + x);
    lemma_pairs(a + b + c, d, x + y + z, w);
    lemma_pairs(a + b, c, x + y, z);
    lemma_pairs(a, b, x, y);
}

/// Three terms of a list, added up.
spec fn chunk<T: Scalar>(f: spec_fn(int) -> T, from: nat) -> T {
    sum_upto(|e: int| f(from + e), 3)
}

proof fn lemma_four_chunks<T: Scalar>(f: spec_fn(int) -> T)
    requires
        is_exact::<T>(),
    ensures
        sum_upto(f, 12) == T::s_zero() + chunk(f, 0) + chunk(f, 3) + chunk(f, 6) + chunk(f, 9),
{
    lemma_sum_parts(f, 9, 3);
    lemma_sum_parts(f, 6, 3);
    lemma_sum_parts(f, 3, 3);
    lemma_sum_parts(f, 0, 3);
}

proof fn lemma_four_terms<T: Scalar>(f: spec_fn(int) -> T)
    ensures
        sum_upto(f, 4) == T::s_zero() + f(0) + f(1) + f(2) + f(3),
{
    reveal_with_fuel(sum_upto, 5);
}

/// What a cluster adds, and what it takes away, times what is outside.
proof fn lemma_rest<T: Scalar>(p: T, q: T, r: T, k: T, s: T)
    requires
        is_exact::<T>(),
    ensures
        (p + q + r - k) * s + k * s == T::s_zero() + p * s + q * s + r * s,
{
    lemma_spread(s, p + q + r - k, k);
    lemma_undo(p + q + r, k);
    lemma_spread(s, p + q, r);
    lemma_spread(s, p, q);
    lemma_units(p * s);
}

impl<T: Scalar> Crowd<T> {
    pub(crate) proof fn lemma_met(&self, i: int, j: int, h: int)
        requires
            is_exact::<T>(),
            self.is_dealt(),
            0 <= i < self.reach.len(),
            0 <= j < self.reach.len(),
            0 <= h < self.nh,
        ensures
            self.clashes_by_hand(h)(i, j) == self.met(i, j, h),
            self.met(i, j, h) == sum2(self.colliding(i, j, h), self.nh as nat, self.nh as nat),
    {
        self.lemma_own(i, h);
        self.lemma_own(j, h);
        self.law_table_clashes_are_exact(i, j, h);
        self.law_clash_is_exact(i, j, h);
    }

    /// The reach with the cards of a hand is the reach with the hand.
    proof fn lemma_own(&self, i: int, h: int)
        requires
            is_exact::<T>(),
            self.is_dealt(),
            0 <= i < self.reach.len(),
            0 <= h < self.nh,
        ensures
            self.look(i, self.low(h), self.high(h)) == self.reach[i][h],
    {
        let (c, d) = (self.low(h), self.high(h));
        let n = self.nh as nat;
        let f = values_at(self.cards, self.reach[i], c, d);
        self.lemma_look(i, c, d);
        assert forall|g: int| 0 <= g < n && g != h implies #[trigger] f(g) == T::s_zero() by {
            assert(!is_pair(self.cards, g, self.cards[2 * h] as int, self.cards[2 * h + 1] as int));
            lemma_units(self.reach[i][g]);
        }
        lemma_sum_one(f, h, n);
        lemma_units(self.reach[i][h]);
    }

    /// The meeting pairs, times what is outside.
    spec fn pair_terms(&self, h: int) -> spec_fn(int) -> T {
        |k: int| pile_sums(self.left_terms(h), self.nh as nat)(1 + k)
    }

    /// The pairs of the mass and the meeting pairs cancel out.
    proof fn lemma_pairs_cancel(&self, h: int)
        requires
            is_exact::<T>(),
            T::s_of(-1) == T::s_zero() - T::s_one(),
            self.is_dealt(),
            self.reach.len() == 4,
            0 <= h < self.nh,
        ensures
            ({
                let (s0, s1) = (self.free(0, h), self.free(1, h));
                let (s2, s3) = (self.free(2, h), self.free(3, h));
                let c = self.clashes_by_hand(h);
                T::s_of(-1) * c(0, 1) * s2 * s3 - c(0, 2) * s1 * s3 - c(0, 3) * s1 * s2 - c(1, 2) * s0
                    * s3 - c(1, 3) * s0 * s2 - c(2, 3) * s0 * s1 + sum_upto(self.pair_terms(h), 6)
                    == T::s_zero()
            }),
    {
        let (s0, s1) = (self.free(0, h), self.free(1, h));
        let (s2, s3) = (self.free(2, h), self.free(3, h));
        let c = self.clashes_by_hand(h);
        self.lemma_met(0, 1, h);
        self.lemma_met(0, 2, h);
        self.lemma_met(0, 3, h);
        self.lemma_met(1, 2, h);
        self.lemma_met(1, 3, h);
        self.lemma_met(2, 3, h);
        self.lemma_pair_01(h);
        self.lemma_pair_02(h);
        self.lemma_pair_03(h);
        self.lemma_pair_12(h);
        self.lemma_pair_13(h);
        self.lemma_pair_23(h);
        let f = self.pair_terms(h);
        let (p1, p2, p3) = (c(0, 1) * s2 * s3, c(0, 2) * s1 * s3, c(0, 3) * s1 * s2);
        let (p4, p5, p6) = (c(1, 2) * s0 * s3, c(1, 3) * s0 * s2, c(2, 3) * s0 * s1);
        lemma_orders(c(0, 1), s2, s3);
        lemma_orders(c(0, 2), s1, s3);
        lemma_orders(c(0, 3), s1, s2);
        lemma_orders(c(1, 2), s0, s3);
        lemma_orders(c(1, 3), s0, s2);
        lemma_orders(c(2, 3), s0, s1);
        assert(f(0) == p1);
        assert(f(1) == p2);
        assert(f(2) == p3);
        assert(f(3) == p4);
        assert(f(4) == p5);
        assert(f(5) == p6);
        let zero = T::s_zero();
        lemma_negative(T::s_one(), c(0, 1));
        lemma_units(c(0, 1));
        lemma_negative(c(0, 1), s2);
        lemma_negative(c(0, 1) * s2, s3);
        let n1 = T::s_of(-1) * c(0, 1) * s2 * s3;
        assert(n1 == zero - p1);
        reveal_with_fuel(sum_upto, 7);
        let q = zero + p1;
        assert(sum_upto(f, 6) == q + p2 + p3 + p4 + p5 + p6);
        lemma_cancel(n1 - p2 - p3 - p4 - p5, q + p2 + p3 + p4 + p5, p6);
        lemma_cancel(n1 - p2 - p3 - p4, q + p2 + p3 + p4, p5);
        lemma_cancel(n1 - p2 - p3, q + p2 + p3, p4);
        lemma_cancel(n1 - p2, q + p2, p3);
        lemma_cancel(n1, q, p2);
        lemma_cancel(zero, zero, p1);
        lemma_units(zero);
    }

    /// The threes of which every two share a card, times what is outside.
    spec fn knot_terms(&self, h: int) -> spec_fn(int) -> T {
        |k: int| pile_sums(self.left_terms(h), self.nh as nat)(7 + k)
    }

    /// The chains of three, times what is outside.
    spec fn chain_terms(&self, h: int) -> spec_fn(int) -> T {
        |k: int| pile_sums(self.right_terms(h), self.nh as nat)(4 + k)
    }

    /// What the clusters add, times what is outside.
    spec fn cluster_terms(&self, h: int) -> T {
        self.cluster_sum(0, 1, 2, h) * self.free(3, h) + self.cluster_sum(0, 1, 3, h) * self.free(2, h)
            + self.cluster_sum(0, 2, 3, h) * self.free(1, h) + self.cluster_sum(1, 2, 3, h)
            * self.free(0, h)
    }

    /// What the terms of the threes are.
    proof fn lemma_three_terms(&self, h: int)
        requires
            is_exact::<T>(),
            self.is_dealt(),
            self.reach.len() == 4,
            0 <= h < self.nh,
        ensures
            self.knot_terms(h)(0) == self.all_meeting(0, 1, 2, h) * self.free(3, h),
            self.chain_terms(h)(0) == self.over_first(0, 1, 2, h) * self.free(3, h),
            self.chain_terms(h)(1) == self.over_second(0, 1, 2, h) * self.free(3, h),
            self.chain_terms(h)(2) == self.over_third(0, 1, 2, h) * self.free(3, h),
            self.knot_terms(h)(1) == self.all_meeting(0, 1, 3, h) * self.free(2, h),
            self.chain_terms(h)(3) == self.over_first(0, 1, 3, h) * self.free(2, h),
            self.chain_terms(h)(4) == self.over_second(0, 1, 3, h) * self.free(2, h),
            self.chain_terms(h)(5) == self.over_third(0, 1, 3, h) * self.free(2, h),
            self.knot_terms(h)(2) == self.all_meeting(0, 2, 3, h) * self.free(1, h),
            self.chain_terms(h)(6) == self.over_first(0, 2, 3, h) * self.free(1, h),
            self.chain_terms(h)(7) == self.over_second(0, 2, 3, h) * self.free(1, h),
            self.chain_terms(h)(8) == self.over_third(0, 2, 3, h) * self.free(1, h),
            self.knot_terms(h)(3) == self.all_meeting(1, 2, 3, h) * self.free(0, h),
            self.chain_terms(h)(9) == self.over_first(1, 2, 3, h) * self.free(0, h),
            self.chain_terms(h)(10) == self.over_second(1, 2, 3, h) * self.free(0, h),
            self.chain_terms(h)(11) == self.over_third(1, 2, 3, h) * self.free(0, h),
    {
        self.lemma_threes_012(h);
        self.lemma_threes_013(h);
        self.lemma_threes_023(h);
        self.lemma_threes_123(h);
    }

    proof fn lemma_clusters_balance(&self, h: int)
        requires
            is_exact::<T>(),
            self.is_dealt(),
            self.reach.len() == 4,
            0 <= h < self.nh,
        ensures
            self.cluster_terms(h) + sum_upto(self.knot_terms(h), 4) == sum_upto(
                self.chain_terms(h),
                12,
            ),
    {
        let (s0, s1) = (self.free(0, h), self.free(1, h));
        let (s2, s3) = (self.free(2, h), self.free(3, h));
        let k = self.knot_terms(h);
        let f = self.chain_terms(h);
        self.lemma_three_terms(h);
        lemma_four_terms(k);
        lemma_four_chunks(f);
        self.lemma_three_rest(h, 0, 0, 1, 2, s3);
        self.lemma_three_rest(h, 3, 0, 1, 3, s2);
        self.lemma_three_rest(h, 6, 0, 2, 3, s1);
        self.lemma_three_rest(h, 9, 1, 2, 3, s0);
        lemma_fours(
            self.cluster_sum(0, 1, 2, h) * s3,
            self.cluster_sum(0, 1, 3, h) * s2,
            self.cluster_sum(0, 2, 3, h) * s1,
            self.cluster_sum(1, 2, 3, h) * s0,
            k(0),
            k(1),
            k(2),
            k(3),
        );
    }

    /// One cluster, with what it takes away, is its three kinds of chains.
    proof fn lemma_three_rest(&self, h: int, from: nat, i: int, j: int, k: int, s: T)
        requires
            is_exact::<T>(),
            self.chain_terms(h)(from as int) == self.over_first(i, j, k, h) * s,
            self.chain_terms(h)(from + 1int) == self.over_second(i, j, k, h) * s,
            self.chain_terms(h)(from + 2int) == self.over_third(i, j, k, h) * s,
        ensures
            self.cluster_sum(i, j, k, h) * s + self.all_meeting(i, j, k, h) * s == chunk(
                self.chain_terms(h),
                from,
            ),
    {
        let f = self.chain_terms(h);
        let g = |e: int| f(from + e);
        assert(g(0) == f(from as int) && g(1) == f(from + 1int) && g(2) == f(from + 2int));
        lemma_rest(
            self.over_first(i, j, k, h),
            self.over_second(i, j, k, h),
            self.over_third(i, j, k, h),
            self.all_meeting(i, j, k, h),
            s,
        );
        assert(sum_upto(g, 3) == T::s_zero() + g(0) + g(1) + g(2)) by {
            reveal_with_fuel(sum_upto, 4);
        }
    }

    /// Where numbers are exact, no four hands connect and the clusters of three are what
    /// they should be, the mass of four opponents is what they have with all hands that
    /// avoid hand `h` and each other; less than nothing counts as nothing.
    pub(crate) proof fn lemma_four_opponents(&self, h: int)
        requires
            is_exact::<T>(),
            T::s_of(-1) == T::s_zero() - T::s_one(),
            self.is_dealt(),
            self.reach.len() == 4,
            0 <= h < self.nh,
            self.no_four_connect(),
            self.cluster(0, 1, 2, h) == self.cluster_sum(0, 1, 2, h),
            self.cluster(0, 1, 3, h) == self.cluster_sum(0, 1, 3, h),
            self.cluster(0, 2, 3, h) == self.cluster_sum(0, 2, 3, h),
            self.cluster(1, 2, 3, h) == self.cluster_sum(1, 2, 3, h),
        ensures
            self.mass_of_four(h) == sum4(self.all_apart(h), self.nh as nat).s_larger(T::s_zero()),
    {
        let n = self.nh as nat;
        let (s0, s1) = (self.free(0, h), self.free(1, h));
        let (s2, s3) = (self.free(2, h), self.free(3, h));
        let c = self.clashes_by_hand(h);
        let zero = T::s_zero();
        self.lemma_terms_balance(h);
        self.lemma_ends(h);
        self.lemma_pairs_cancel(h);
        self.lemma_clusters_balance(h);
        let l = pile_sums(self.left_terms(h), n);
        let r = pile_sums(self.right_terms(h), n);
        let goal = sum4(self.all_apart(h), n);
        let sp = sum_upto(self.pair_terms(h), 6);
        let sk = sum_upto(self.knot_terms(h), 4);
        let sc = sum_upto(self.chain_terms(h), 12);
        // The left side, in parts.
        lemma_sum_parts(l, 7, 4);
        lemma_sum_parts(l, 1, 6);
        assert((|k: int| l(7nat + k)) =~= self.knot_terms(h));
        assert((|k: int| l(1nat + k)) =~= self.pair_terms(h));
        assert(sum_upto(l, 1) == zero + l(0)) by {
            reveal_with_fuel(sum_upto, 2);
        }
        lemma_units(goal);
        assert(sum_upto(l, 11) == goal + sp + sk);
        // The right side, in parts.
        lemma_sum_parts(r, 4, 12);
        assert((|k: int| r(4nat + k)) =~= self.chain_terms(h));
        let apart = s0 * s1 * s2 * s3;
        lemma_orders(s0 * s1, s2, s3);
        self.lemma_double_01(h);
        self.lemma_double_02(h);
        self.lemma_double_03(h);
        self.lemma_met(0, 1, h);
        self.lemma_met(0, 2, h);
        self.lemma_met(0, 3, h);
        self.lemma_met(1, 2, h);
        self.lemma_met(1, 3, h);
        self.lemma_met(2, 3, h);
        let (d1, d2, d3) = (c(0, 1) * c(2, 3), c(0, 2) * c(1, 3), c(0, 3) * c(1, 2));
        assert(r(0) == apart && r(1) == d1 && r(2) == d2 && r(3) == d3);
        assert(sum_upto(r, 4) == zero + apart + d1 + d2 + d3) by {
            reveal_with_fuel(sum_upto, 5);
        }
        let double = d1 + d2 + d3;
        lemma_units(apart);
        lemma_orders(apart, d1, d2);
        lemma_orders(apart, d1 + d2, d3);
        assert(sum_upto(r, 16) == apart + double + sc);
        // The mass, with the same added.
        let pairs = T::s_of(-1) * c(0, 1) * s2 * s3 - c(0, 2) * s1 * s3 - c(0, 3) * s1 * s2 - c(1, 2)
            * s0 * s3 - c(1, 3) * s0 * s2 - c(2, 3) * s0 * s1;
        let threes = self.cluster_terms(h);
        let mass = apart + pairs + double + threes;
        assert(pairs + sp == zero);
        lemma_pairs(apart + pairs + double, threes, sp, sk);
        lemma_orders(apart + pairs, double, sp);
        lemma_orders(apart, pairs, sp);
        assert(apart + pairs + double + sp == apart + double);
        assert(mass + (sp + sk) == apart + double + sc);
        lemma_orders(goal, sp, sk);
        assert(goal + (sp + sk) == mass + (sp + sk));
        lemma_undo(goal, sp + sk);
        lemma_undo(mass, sp + sk);
        assert(mass == goal);
    }
}

} // verus!
