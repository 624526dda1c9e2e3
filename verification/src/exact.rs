//! Numbers whose arithmetic is exact, and sums of them.
use vstd::prelude::*;

use crate::bucketed_showdown::is_zero;
use crate::scalar::{sum_upto, Scalar};

verus! {

/// The arithmetic of numbers, written with operators.
pub trait Exact: Scalar {
    spec fn spec_add(self, rhs: Self) -> Self;

    spec fn spec_sub(self, rhs: Self) -> Self;

    spec fn spec_mul(self, rhs: Self) -> Self;
}

impl<T: Scalar> Exact for T {
    open spec fn spec_add(self, rhs: T) -> T {
        self.s_plus(rhs)
    }

    open spec fn spec_sub(self, rhs: T) -> T {
        self.s_minus(rhs)
    }

    open spec fn spec_mul(self, rhs: T) -> T {
        self.s_times(rhs)
    }
}

/// Sums do not depend on the order in which they are formed.
#[verifier::opaque]
pub open spec fn has_sums<T: Scalar>() -> bool {
    &&& forall|x: T, y: T| #[trigger] x.s_plus(y) == y.s_plus(x)
    &&& forall|x: T, y: T, z: T| #[trigger] x.s_plus(y).s_plus(z) == x.s_plus(y.s_plus(z))
}

/// Products do not depend on the order in which they are formed.
#[verifier::opaque]
pub open spec fn has_products<T: Scalar>() -> bool {
    &&& forall|x: T, y: T| #[trigger] x.s_times(y) == y.s_times(x)
    &&& forall|x: T, y: T, z: T| #[trigger] x.s_times(y).s_times(z) == x.s_times(y.s_times(z))
}

/// Products distribute over sums.
#[verifier::opaque]
pub open spec fn has_spread<T: Scalar>() -> bool {
    forall|x: T, y: T, z: T| #[trigger]
        x.s_times(y.s_plus(z)) == x.s_times(y).s_plus(x.s_times(z))
}

/// Zero and one are neutral, and what is taken for zero is zero.
#[verifier::opaque]
pub open spec fn has_neutrals<T: Scalar>() -> bool {
    &&& forall|x: T| #[trigger] x.s_plus(T::s_zero()) == x
    &&& forall|x: T| #[trigger] x.s_times(T::s_one()) == x
    &&& forall|x: T| #[trigger] is_zero(x) ==> x == T::s_zero()
}

/// A difference undoes a sum.
#[verifier::opaque]
pub open spec fn has_differences<T: Scalar>() -> bool {
    &&& forall|x: T, y: T| #[trigger] x.s_minus(y).s_plus(y) == x
    &&& forall|x: T, y: T| #[trigger] x.s_plus(y).s_minus(y) == x
}

/// Sums, differences and products keep the laws of arithmetic. Those of whole numbers do,
/// and so do those modulo a power of two.
pub open spec fn is_exact<T: Scalar>() -> bool {
    &&& has_sums::<T>()
    &&& has_products::<T>()
    &&& has_spread::<T>()
    &&& has_neutrals::<T>()
    &&& has_differences::<T>()
}

/// Sums and products in any order.
pub proof fn lemma_orders<T: Scalar>(a: T, b: T, c: T)
    requires
        is_exact::<T>(),
    ensures
        a + b == b + a,
        a + b + c == a + (b + c),
        a + b + c == a + c + b,
        a + (b + c) == b + (a + c),
        a * b == b * a,
        a * b * c == a * (b * c),
        a * (b * c) == b * (a * c),
        a * b * c == a * c * b,
{
    assert(a.s_plus(b) == b.s_plus(a) && b.s_plus(c) == c.s_plus(b)) by {
        reveal(has_sums);
    }
    assert(a.s_plus(b).s_plus(c) == a.s_plus(b.s_plus(c)) && a.s_plus(c).s_plus(b) == a.s_plus(
        c.s_plus(b),
    ) && b.s_plus(a).s_plus(c) == b.s_plus(a.s_plus(c))) by {
        reveal(has_sums);
    }
    assert(a.s_times(b) == b.s_times(a) && b.s_times(c) == c.s_times(b)) by {
        reveal(has_products);
    }
    assert(a.s_times(b).s_times(c) == a.s_times(b.s_times(c)) && a.s_times(c).s_times(b)
        == a.s_times(c.s_times(b)) && b.s_times(a).s_times(c) == b.s_times(a.s_times(c))) by {
        reveal(has_products);
    }
}

/// Products of sums.
pub proof fn lemma_spread<T: Scalar>(c: T, x: T, y: T)
    requires
        is_exact::<T>(),
    ensures
        c * (x + y) == c * x + c * y,
        (x + y) * c == x * c + y * c,
{
    assert(c.s_times(x.s_plus(y)) == c.s_times(x).s_plus(c.s_times(y))) by {
        reveal(has_spread);
    }
    lemma_orders(c, x, y);
    lemma_orders(c, y, x);
    lemma_orders(c, x + y, x);
}

/// Differences undo sums.
pub proof fn lemma_undo<T: Scalar>(a: T, b: T)
    requires
        is_exact::<T>(),
    ensures
        (a - b) + b == a,
        (a + b) - b == a,
        a - b == a + (T::s_zero() - b),
{
    let n = T::s_zero().s_minus(b);
    assert(a.s_minus(b).s_plus(b) == a && a.s_plus(b).s_minus(b) == a && n.s_plus(b)
        == T::s_zero() && a.s_plus(n).s_plus(b).s_minus(b) == a.s_plus(n)) by {
        reveal(has_differences);
    }
    lemma_orders(a, n, b);
    assert(a.s_plus(T::s_zero()) == a) by {
        reveal(has_neutrals);
    }
}

/// Nothing and one.
pub proof fn lemma_units<T: Scalar>(x: T)
    requires
        is_exact::<T>(),
    ensures
        x + T::s_zero() == x,
        T::s_zero() + x == x,
        x * T::s_one() == x,
        T::s_one() * x == x,
        x * T::s_zero() == T::s_zero(),
        T::s_zero() * x == T::s_zero(),
        x - T::s_zero() == x,
        x - x == T::s_zero(),
{
    let zero = T::s_zero();
    let y = x.s_times(zero);
    assert(x.s_plus(zero) == x && x.s_times(T::s_one()) == x && zero.s_plus(zero) == zero
        && y.s_plus(zero) == y) by {
        reveal(has_neutrals);
    }
    lemma_orders(x, zero, zero);
    lemma_orders(x, T::s_one(), zero);
    lemma_orders(y, zero, zero);
    lemma_spread(x, zero, zero);
    lemma_undo(y, y);
    lemma_undo(zero, y);
    lemma_undo(x, zero);
    lemma_undo(zero, x);
}

/// What is taken for zero is zero.
pub proof fn lemma_nothing<T: Scalar>(x: T)
    requires
        is_exact::<T>(),
    ensures
        is_zero(x) ==> x == T::s_zero(),
{
    reveal(has_neutrals);
}

/// Two sums of two.
pub proof fn lemma_pairs<T: Scalar>(a: T, b: T, c: T, d: T)
    requires
        is_exact::<T>(),
    ensures
        (a + b) + (c + d) == (a + c) + (b + d),
{
    lemma_orders(a, b, c + d);
    lemma_orders(b, c, d);
    lemma_orders(a, c, b + d);
}

/// A product of a sum of three.
pub proof fn lemma_spread3<T: Scalar>(c: T, x: T, y: T, z: T)
    requires
        is_exact::<T>(),
    ensures
        c * (x + y + z) == c * x + c * y + c * z,
        (x + y + z) * c == x * c + y * c + z * c,
{
    lemma_spread(c, x + y, z);
    lemma_spread(c, x, y);
}

/// What stands on the other side of a sum.
pub proof fn lemma_move<T: Scalar>(a: T, x: T, b: T)
    requires
        is_exact::<T>(),
        a == x + b,
    ensures
        a - b == x,
{
    lemma_undo(x, b);
}

/// Differences in any order.
pub proof fn lemma_differences<T: Scalar>(x: T, a: T, b: T)
    requires
        is_exact::<T>(),
    ensures
        (x - a) + b == (x + b) - a,
        (x - a) - b == (x - b) - a,
        (x - a) - b == x - (a + b),
{
    lemma_undo(x, a);
    lemma_undo(x, b);
    lemma_orders(x - a, b, a);
    lemma_move(x + b, (x - a) + b, a);
    let y = (x - a) - b;
    lemma_undo(x - a, b);
    lemma_orders(y, b, a);
    lemma_orders(y, a, b);
    lemma_move(x, y + a, b);
    lemma_move(x - b, y, a);
    lemma_move(x, y, a + b);
}

/// A product of a difference.
pub proof fn lemma_spread_difference<T: Scalar>(c: T, x: T, y: T)
    requires
        is_exact::<T>(),
    ensures
        c * (x - y) == c * x - c * y,
        (x - y) * c == x * c - y * c,
{
    lemma_spread(c, x - y, y);
    lemma_undo(x, y);
    lemma_undo(c * (x - y), c * y);
    lemma_orders(c, x, y);
    lemma_orders(c, y, x);
    lemma_orders(c, x - y, x);
}

/// The terms of the first `n` times `m` places, added up row by row.
pub open spec fn sum2<T: Scalar>(f: spec_fn(int, int) -> T, n: nat, m: nat) -> T {
    sum_upto(row_sums(f, m), n)
}

pub open spec fn row_sums<T: Scalar>(f: spec_fn(int, int) -> T, m: nat) -> spec_fn(int) -> T {
    |i: int| sum_upto(row_of(f, i), m)
}

pub open spec fn row_of<T>(f: spec_fn(int, int) -> T, i: int) -> spec_fn(int) -> T {
    |j: int| f(i, j)
}

/// A sum of sums.
pub proof fn lemma_sum_add<T: Scalar>(
    f: spec_fn(int) -> T,
    g: spec_fn(int) -> T,
    h: spec_fn(int) -> T,
    n: nat,
)
    requires
        is_exact::<T>(),
        forall|i: int| 0 <= i < n ==> #[trigger] h(i) == f(i) + g(i),
    ensures
        sum_upto(h, n) == sum_upto(f, n) + sum_upto(g, n),
    decreases n,
{
    if n > 0 {
        let m = (n - 1) as nat;
        lemma_sum_add(f, g, h, m);
        let k: int = n - 1;
        assert(h(k) == f(k) + g(k));
        lemma_pairs(sum_upto(f, m), sum_upto(g, m), f(k), g(k));
    } else {
        lemma_units(T::s_zero());
    }
}

/// A multiple of a sum.
pub proof fn lemma_sum_times<T: Scalar>(
    c: T,
    f: spec_fn(int) -> T,
    h: spec_fn(int) -> T,
    n: nat,
)
    requires
        is_exact::<T>(),
        forall|i: int| 0 <= i < n ==> #[trigger] h(i) == c * f(i),
    ensures
        sum_upto(h, n) == c * sum_upto(f, n),
    decreases n,
{
    if n > 0 {
        let m = (n - 1) as nat;
        lemma_sum_times(c, f, h, m);
        let k: int = n - 1;
        assert(h(k) == c * f(k));
        lemma_spread(c, sum_upto(f, m), f(k));
    } else {
        lemma_units(c);
    }
}

/// Terms that are all nothing.
pub proof fn lemma_sum_zero<T: Scalar>(f: spec_fn(int) -> T, n: nat)
    requires
        is_exact::<T>(),
        forall|i: int| 0 <= i < n ==> #[trigger] f(i) == T::s_zero(),
    ensures
        sum_upto(f, n) == T::s_zero(),
    decreases n,
{
    if n > 0 {
        lemma_sum_zero(f, (n - 1) as nat);
        let k: int = n - 1;
        assert(f(k) == T::s_zero());
        lemma_units(T::s_zero());
    }
}

/// A sum with one term.
pub proof fn lemma_sum_one<T: Scalar>(f: spec_fn(int) -> T, k: int, n: nat)
    requires
        is_exact::<T>(),
        0 <= k < n,
        forall|i: int| 0 <= i < n && i != k ==> #[trigger] f(i) == T::s_zero(),
    ensures
        sum_upto(f, n) == f(k),
    decreases n,
{
    if k == n - 1 {
        lemma_sum_zero(f, (n - 1) as nat);
        lemma_units(f(k));
    } else {
        lemma_sum_one(f, k, (n - 1) as nat);
        let l: int = n - 1;
        assert(f(l) == T::s_zero());
        lemma_units(f(k));
    }
}

/// A sum of sums over places.
pub proof fn lemma_sum2_add<T: Scalar>(
    f: spec_fn(int, int) -> T,
    g: spec_fn(int, int) -> T,
    h: spec_fn(int, int) -> T,
    n: nat,
    m: nat,
)
    requires
        is_exact::<T>(),
        forall|i: int, j: int| 0 <= i < n && 0 <= j < m ==> #[trigger] h(i, j) == f(i, j) + g(i, j),
    ensures
        sum2(h, n, m) == sum2(f, n, m) + sum2(g, n, m),
{
    assert forall|i: int| 0 <= i < n implies #[trigger] row_sums(h, m)(i) == row_sums(f, m)(i)
        + row_sums(g, m)(i) by {
        assert forall|j: int| 0 <= j < m implies #[trigger] row_of(h, i)(j) == row_of(f, i)(j)
            + row_of(g, i)(j) by {
            assert(h(i, j) == f(i, j) + g(i, j));
        }
        lemma_sum_add(row_of(f, i), row_of(g, i), row_of(h, i), m);
    }
    lemma_sum_add(row_sums(f, m), row_sums(g, m), row_sums(h, m), n);
}

/// A product of sums is the sum of the products.
pub proof fn lemma_sum_product<T: Scalar>(
    f: spec_fn(int) -> T,
    g: spec_fn(int) -> T,
    h: spec_fn(int, int) -> T,
    n: nat,
    m: nat,
)
    requires
        is_exact::<T>(),
        forall|i: int, j: int| 0 <= i < n && 0 <= j < m ==> #[trigger] h(i, j) == f(i) * g(j),
    ensures
        sum2(h, n, m) == sum_upto(f, n) * sum_upto(g, m),
{
    let s = sum_upto(g, m);
    assert forall|i: int| 0 <= i < n implies #[trigger] row_sums(h, m)(i) == s * f(i) by {
        assert forall|j: int| 0 <= j < m implies #[trigger] row_of(h, i)(j) == f(i) * g(j) by {
            assert(h(i, j) == f(i) * g(j));
        }
        lemma_sum_times(f(i), g, row_of(h, i), m);
        lemma_orders(f(i), s, s);
    }
    lemma_sum_times(s, f, row_sums(h, m), n);
    lemma_orders(s, sum_upto(f, n), s);
}

/// Both terms, added.
pub open spec fn plus<T: Scalar>(f: spec_fn(int) -> T, g: spec_fn(int) -> T) -> spec_fn(int) -> T {
    |i: int| f(i) + g(i)
}

/// Both terms, multiplied.
pub open spec fn times<T: Scalar>(f: spec_fn(int) -> T, g: spec_fn(int) -> T) -> spec_fn(int) -> T {
    |i: int| f(i) * g(i)
}

/// The term at `k` alone.
pub open spec fn only<T: Scalar>(f: spec_fn(int) -> T, k: int) -> spec_fn(int) -> T {
    |i: int|
        if i == k {
            f(i)
        } else {
            T::s_zero()
        }
}

/// All terms but those at `k` and `l`.
pub open spec fn without<T: Scalar>(f: spec_fn(int) -> T, k: int, l: int) -> spec_fn(int) -> T {
    |i: int|
        if i == k || i == l {
            T::s_zero()
        } else {
            f(i)
        }
}

} // verus!
