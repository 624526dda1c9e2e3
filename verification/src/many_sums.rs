//! Sums over three and four indices.
use vstd::prelude::*;

use crate::exact::{
    is_exact, lemma_orders, lemma_sum2_add, lemma_sum_add, lemma_sum_product, lemma_sum_times,
    lemma_sum_zero, lemma_units, row_of, row_sums, sum2, Exact,
};
use crate::layout::count_upto;
use crate::scalar::{lemma_sum_ext, sum_upto, Scalar};

verus! {

/// The last of three indices summed over the first `n`.
pub open spec fn in3<T: Scalar>(f: spec_fn(int, int, int) -> T, n: nat) -> spec_fn(int, int) -> T {
    |a: int, b: int| sum_upto(|c: int| f(a, b, c), n)
}

/// The last of four indices summed over the first `n`.
pub open spec fn in4<T: Scalar>(f: spec_fn(int, int, int, int) -> T, n: nat) -> spec_fn(
    int,
    int,
    int,
) -> T {
    |a: int, b: int, c: int| sum_upto(|d: int| f(a, b, c, d), n)
}

/// The terms of all places with three indices under `n`, added up.
pub open spec fn sum3<T: Scalar>(f: spec_fn(int, int, int) -> T, n: nat) -> T {
    sum2(in3(f, n), n, n)
}

/// The terms of all places with four indices under `n`, added up.
pub open spec fn sum4<T: Scalar>(f: spec_fn(int, int, int, int) -> T, n: nat) -> T {
    sum3(in4(f, n), n)
}

pub(crate) proof fn lemma_sum2_ext<T: Scalar>(
    f: spec_fn(int, int) -> T,
    g: spec_fn(int, int) -> T,
    n: nat,
)
    requires
        forall|a: int, b: int| 0 <= a < n && 0 <= b < n ==> #[trigger] f(a, b) == g(a, b),
    ensures
        sum2(f, n, n) == sum2(g, n, n),
{
    assert forall|a: int| 0 <= a < n implies #[trigger] row_sums(f, n)(a) == row_sums(g, n)(a) by {
        assert forall|b: int| 0 <= b < n implies #[trigger] row_of(f, a)(b) == row_of(g, a)(b) by {
            assert(f(a, b) == g(a, b));
        }
        lemma_sum_ext(row_of(f, a), row_of(g, a), n);
    }
    lemma_sum_ext(row_sums(f, n), row_sums(g, n), n);
}

pub(crate) proof fn lemma_sum2_times<T: Scalar>(
    c: T,
    f: spec_fn(int, int) -> T,
    h: spec_fn(int, int) -> T,
    n: nat,
)
    requires
        is_exact::<T>(),
        forall|a: int, b: int| 0 <= a < n && 0 <= b < n ==> #[trigger] h(a, b) == c * f(a, b),
    ensures
        sum2(h, n, n) == c * sum2(f, n, n),
{
    assert forall|a: int| 0 <= a < n implies #[trigger] row_sums(h, n)(a) == c * row_sums(f, n)(
        a,
    ) by {
        assert forall|b: int| 0 <= b < n implies #[trigger] row_of(h, a)(b) == c * row_of(f, a)(
            b,
        ) by {
            assert(h(a, b) == c * f(a, b));
        }
        lemma_sum_times(c, row_of(f, a), row_of(h, a), n);
    }
    lemma_sum_times(c, row_sums(f, n), row_sums(h, n), n);
}

/// The two indices of a sum may change places.
pub(crate) proof fn lemma_sum2_turn<T: Scalar>(
    f: spec_fn(int, int) -> T,
    g: spec_fn(int, int) -> T,
    n: nat,
    m: nat,
)
    requires
        is_exact::<T>(),
        forall|a: int, b: int| 0 <= a < n && 0 <= b < m ==> #[trigger] f(a, b) == g(b, a),
    ensures
        sum2(f, n, m) == sum2(g, m, n),
    decreases n,
{
    if n == 0 {
        assert forall|b: int| 0 <= b < m implies #[trigger] row_sums(g, n)(b) == T::s_zero() by {}
        lemma_sum_zero(row_sums(g, n), m);
    } else {
        let k = (n - 1) as nat;
        let last: int = n - 1;
        lemma_sum2_turn(f, g, k, m);
        let col = |b: int| g(b, last);
        assert forall|b: int| 0 <= b < m implies #[trigger] row_sums(g, n)(b) == row_sums(g, k)(b)
            + col(b) by {
            assert(row_of(g, b)(last) == g(b, last));
        }
        lemma_sum_add(row_sums(g, k), col, row_sums(g, n), m);
        assert forall|b: int| 0 <= b < m implies #[trigger] row_of(f, last)(b) == col(b) by {
            assert(f(last, b) == g(b, last));
        }
        lemma_sum_ext(row_of(f, last), col, m);
        assert(row_sums(f, m)(last) == sum_upto(row_of(f, last), m));
    }
}

pub(crate) proof fn lemma_sum3_ext<T: Scalar>(
    f: spec_fn(int, int, int) -> T,
    g: spec_fn(int, int, int) -> T,
    n: nat,
)
    requires
        forall|a: int, b: int, c: int|
            0 <= a < n && 0 <= b < n && 0 <= c < n ==> #[trigger] f(a, b, c) == g(a, b, c),
    ensures
        sum3(f, n) == sum3(g, n),
{
    assert forall|a: int, b: int| 0 <= a < n && 0 <= b < n implies #[trigger] in3(f, n)(a, b)
        == in3(g, n)(a, b) by {
        lemma_sum_ext(|c: int| f(a, b, c), |c: int| g(a, b, c), n);
    }
    lemma_sum2_ext(in3(f, n), in3(g, n), n);
}

pub(crate) proof fn lemma_sum4_ext<T: Scalar>(
    f: spec_fn(int, int, int, int) -> T,
    g: spec_fn(int, int, int, int) -> T,
    n: nat,
)
    requires
        forall|a: int, b: int, c: int, d: int|
            0 <= a < n && 0 <= b < n && 0 <= c < n && 0 <= d < n ==> #[trigger] f(a, b, c, d) == g(
                a,
                b,
                c,
                d,
            ),
    ensures
        sum4(f, n) == sum4(g, n),
{
    assert forall|a: int, b: int, c: int|
        0 <= a < n && 0 <= b < n && 0 <= c < n implies #[trigger] in4(f, n)(a, b, c) == in4(g, n)(
        a,
        b,
        c,
    ) by {
        lemma_sum_ext(|d: int| f(a, b, c, d), |d: int| g(a, b, c, d), n);
    }
    lemma_sum3_ext(in4(f, n), in4(g, n), n);
}

pub(crate) proof fn lemma_sum3_add<T: Scalar>(
    f: spec_fn(int, int, int) -> T,
    g: spec_fn(int, int, int) -> T,
    h: spec_fn(int, int, int) -> T,
    n: nat,
)
    requires
        is_exact::<T>(),
        forall|a: int, b: int, c: int|
            0 <= a < n && 0 <= b < n && 0 <= c < n ==> #[trigger] h(a, b, c) == f(a, b, c) + g(
                a,
                b,
                c,
            ),
    ensures
        sum3(h, n) == sum3(f, n) + sum3(g, n),
{
    assert forall|a: int, b: int| 0 <= a < n && 0 <= b < n implies #[trigger] in3(h, n)(a, b)
        == in3(f, n)(a, b) + in3(g, n)(a, b) by {
        lemma_sum_add(|c: int| f(a, b, c), |c: int| g(a, b, c), |c: int| h(a, b, c), n);
    }
    lemma_sum2_add(in3(f, n), in3(g, n), in3(h, n), n, n);
}

pub(crate) proof fn lemma_sum4_add<T: Scalar>(
    f: spec_fn(int, int, int, int) -> T,
    g: spec_fn(int, int, int, int) -> T,
    h: spec_fn(int, int, int, int) -> T,
    n: nat,
)
    requires
        is_exact::<T>(),
        forall|a: int, b: int, c: int, d: int|
            0 <= a < n && 0 <= b < n && 0 <= c < n && 0 <= d < n ==> #[trigger] h(a, b, c, d) == f(
                a,
                b,
                c,
                d,
            ) + g(a, b, c, d),
    ensures
        sum4(h, n) == sum4(f, n) + sum4(g, n),
{
    assert forall|a: int, b: int, c: int|
        0 <= a < n && 0 <= b < n && 0 <= c < n implies #[trigger] in4(h, n)(a, b, c) == in4(f, n)(
        a,
        b,
        c,
    ) + in4(g, n)(a, b, c) by {
        lemma_sum_add(
            |d: int| f(a, b, c, d),
            |d: int| g(a, b, c, d),
            |d: int| h(a, b, c, d),
            n,
        );
    }
    lemma_sum3_add(in4(f, n), in4(g, n), in4(h, n), n);
}

pub(crate) proof fn lemma_sum3_zero<T: Scalar>(f: spec_fn(int, int, int) -> T, n: nat)
    requires
        is_exact::<T>(),
        forall|a: int, b: int, c: int|
            0 <= a < n && 0 <= b < n && 0 <= c < n ==> #[trigger] f(a, b, c) == T::s_zero(),
    ensures
        sum3(f, n) == T::s_zero(),
{
    assert forall|a: int, b: int| 0 <= a < n && 0 <= b < n implies #[trigger] in3(f, n)(a, b)
        == T::s_zero() by {
        lemma_sum_zero(|c: int| f(a, b, c), n);
    }
    assert forall|a: int| 0 <= a < n implies #[trigger] row_sums(in3(f, n), n)(a)
        == T::s_zero() by {
        lemma_sum_zero(row_of(in3(f, n), a), n);
    }
    lemma_sum_zero(row_sums(in3(f, n), n), n);
}

pub(crate) proof fn lemma_sum4_zero<T: Scalar>(f: spec_fn(int, int, int, int) -> T, n: nat)
    requires
        is_exact::<T>(),
        forall|a: int, b: int, c: int, d: int|
            0 <= a < n && 0 <= b < n && 0 <= c < n && 0 <= d < n ==> #[trigger] f(a, b, c, d)
                == T::s_zero(),
    ensures
        sum4(f, n) == T::s_zero(),
{
    assert forall|a: int, b: int, c: int|
        0 <= a < n && 0 <= b < n && 0 <= c < n implies #[trigger] in4(f, n)(a, b, c)
        == T::s_zero() by {
        lemma_sum_zero(|d: int| f(a, b, c, d), n);
    }
    lemma_sum3_zero(in4(f, n), n);
}

/// A list of terms at one place, added up.
pub open spec fn pile<T: Scalar>(
    fs: spec_fn(int) -> spec_fn(int, int, int, int) -> T,
    m: nat,
) -> spec_fn(int, int, int, int) -> T {
    |a: int, b: int, c: int, d: int| sum_upto(|k: int| fs(k)(a, b, c, d), m)
}

/// A list of terms, each added up.
pub open spec fn pile_sums<T: Scalar>(
    fs: spec_fn(int) -> spec_fn(int, int, int, int) -> T,
    n: nat,
) -> spec_fn(int) -> T {
    |k: int| sum4(fs(k), n)
}

/// The sum of a list of terms is the sum of their sums.
pub(crate) proof fn lemma_piles<T: Scalar>(
    fs: spec_fn(int) -> spec_fn(int, int, int, int) -> T,
    m: nat,
    n: nat,
)
    requires
        is_exact::<T>(),
    ensures
        sum4(pile(fs, m), n) == sum_upto(pile_sums(fs, n), m),
    decreases m,
{
    if m == 0 {
        lemma_sum4_zero(pile(fs, m), n);
    } else {
        let k = (m - 1) as nat;
        lemma_piles(fs, k, n);
        lemma_sum4_add(pile(fs, k), fs(m - 1), pile(fs, m), n);
    }
}

/// `x`, so often as `b` holds among the first `m`.
pub open spec fn copies<T: Scalar>(x: T, m: nat) -> T {
    sum_upto(|k: int| x, m)
}

/// As many copies as places that count.
pub(crate) proof fn lemma_copies<T: Scalar>(
    f: spec_fn(int) -> T,
    b: spec_fn(int) -> bool,
    x: T,
    m: nat,
)
    requires
        is_exact::<T>(),
        forall|k: int|
            0 <= k < m ==> #[trigger] f(k) == if b(k) {
                x
            } else {
                T::s_zero()
            },
    ensures
        sum_upto(f, m) == copies(x, count_upto(b, m)),
    decreases m,
{
    if m > 0 {
        let k = (m - 1) as nat;
        lemma_copies(f, b, x, k);
        let last: int = m - 1;
        assert(f(last) == if b(last) {
            x
        } else {
            T::s_zero()
        });
        lemma_units(sum_upto(f, k));
        let n = count_upto(b, k);
        assert(copies(x, n + 1) == copies(x, n) + x);
    }
}

/// A term of the first two indices times one of the last two.
pub(crate) proof fn lemma_split_01<T: Scalar>(
    f: spec_fn(int, int, int, int) -> T,
    x: spec_fn(int, int) -> T,
    y: spec_fn(int, int) -> T,
    n: nat,
)
    requires
        is_exact::<T>(),
        forall|a: int, b: int, c: int, d: int|
            0 <= a < n && 0 <= b < n && 0 <= c < n && 0 <= d < n ==> #[trigger] f(a, b, c, d) == x(
                a,
                b,
            ) * y(c, d),
    ensures
        sum4(f, n) == sum2(x, n, n) * sum2(y, n, n),
{
    let ys = row_sums(y, n);
    let s = sum2(y, n, n);
    assert forall|a: int, b: int| 0 <= a < n && 0 <= b < n implies #[trigger] in3(in4(f, n), n)(
        a,
        b,
    ) == s * x(a, b) by {
        assert forall|c: int| 0 <= c < n implies #[trigger] in4(f, n)(a, b, c) == x(a, b) * ys(
            c,
        ) by {
            assert forall|d: int| 0 <= d < n implies (#[trigger] row_of(y, c)(d)) == y(c, d) by {}
            lemma_sum_times(x(a, b), row_of(y, c), |d: int| f(a, b, c, d), n);
        }
        lemma_sum_times(x(a, b), ys, |c: int| in4(f, n)(a, b, c), n);
        lemma_orders(x(a, b), s, s);
    }
    lemma_sum2_times(s, x, in3(in4(f, n), n), n);
    lemma_orders(s, sum2(x, n, n), s);
}

/// A term of the first and the third index times one of the others.
pub(crate) proof fn lemma_split_02<T: Scalar>(
    f: spec_fn(int, int, int, int) -> T,
    x: spec_fn(int, int) -> T,
    y: spec_fn(int, int) -> T,
    n: nat,
)
    requires
        is_exact::<T>(),
        forall|a: int, b: int, c: int, d: int|
            0 <= a < n && 0 <= b < n && 0 <= c < n && 0 <= d < n ==> #[trigger] f(a, b, c, d) == x(
                a,
                c,
            ) * y(b, d),
    ensures
        sum4(f, n) == sum2(x, n, n) * sum2(y, n, n),
{
    let (xs, ys) = (row_sums(x, n), row_sums(y, n));
    assert forall|a: int, b: int| 0 <= a < n && 0 <= b < n implies #[trigger] in3(in4(f, n), n)(
        a,
        b,
    ) == xs(a) * ys(b) by {
        assert forall|c: int| 0 <= c < n implies #[trigger] in4(f, n)(a, b, c) == ys(b) * row_of(
            x,
            a,
        )(c) by {
            lemma_sum_times(x(a, c), row_of(y, b), |d: int| f(a, b, c, d), n);
            lemma_orders(x(a, c), ys(b), ys(b));
        }
        lemma_sum_times(ys(b), row_of(x, a), |c: int| in4(f, n)(a, b, c), n);
        lemma_orders(ys(b), xs(a), xs(a));
    }
    lemma_sum_product(xs, ys, in3(in4(f, n), n), n, n);
}

/// A term of the first and the last index times one of the others.
pub(crate) proof fn lemma_split_03<T: Scalar>(
    f: spec_fn(int, int, int, int) -> T,
    x: spec_fn(int, int) -> T,
    y: spec_fn(int, int) -> T,
    n: nat,
)
    requires
        is_exact::<T>(),
        forall|a: int, b: int, c: int, d: int|
            0 <= a < n && 0 <= b < n && 0 <= c < n && 0 <= d < n ==> #[trigger] f(a, b, c, d) == x(
                a,
                d,
            ) * y(b, c),
    ensures
        sum4(f, n) == sum2(x, n, n) * sum2(y, n, n),
{
    let (xs, ys) = (row_sums(x, n), row_sums(y, n));
    assert forall|a: int, b: int| 0 <= a < n && 0 <= b < n implies #[trigger] in3(in4(f, n), n)(
        a,
        b,
    ) == xs(a) * ys(b) by {
        assert forall|c: int| 0 <= c < n implies #[trigger] in4(f, n)(a, b, c) == xs(a) * row_of(
            y,
            b,
        )(c) by {
            let p = |d: int| f(a, b, c, d);
            assert forall|d: int| 0 <= d < n implies #[trigger] p(d) == y(b, c) * row_of(x, a)(
                d,
            ) by {
                lemma_orders(x(a, d), y(b, c), y(b, c));
            }
            lemma_sum_times(y(b, c), row_of(x, a), |d: int| f(a, b, c, d), n);
            lemma_orders(y(b, c), xs(a), xs(a));
        }
        lemma_sum_times(xs(a), row_of(y, b), |c: int| in4(f, n)(a, b, c), n);
    }
    lemma_sum_product(xs, ys, in3(in4(f, n), n), n, n);
}

/// A term of the first three indices times one of the last.
pub(crate) proof fn lemma_split_012<T: Scalar>(
    f: spec_fn(int, int, int, int) -> T,
    x: spec_fn(int, int, int) -> T,
    y: spec_fn(int) -> T,
    n: nat,
)
    requires
        is_exact::<T>(),
        forall|a: int, b: int, c: int, d: int|
            0 <= a < n && 0 <= b < n && 0 <= c < n && 0 <= d < n ==> #[trigger] f(a, b, c, d) == x(
                a,
                b,
                c,
            ) * y(d),
    ensures
        sum4(f, n) == sum3(x, n) * sum_upto(y, n),
{
    let s = sum_upto(y, n);
    assert forall|a: int, b: int| 0 <= a < n && 0 <= b < n implies #[trigger] in3(in4(f, n), n)(
        a,
        b,
    ) == s * in3(x, n)(a, b) by {
        assert forall|c: int| 0 <= c < n implies #[trigger] in4(f, n)(a, b, c) == s * x(
            a,
            b,
            c,
        ) by {
            lemma_sum_times(x(a, b, c), y, |d: int| f(a, b, c, d), n);
            lemma_orders(x(a, b, c), s, s);
        }
        lemma_sum_times(s, |c: int| x(a, b, c), |c: int| in4(f, n)(a, b, c), n);
    }
    lemma_sum2_times(s, in3(x, n), in3(in4(f, n), n), n);
    lemma_orders(s, sum3(x, n), s);
}

/// A term of all indices but the third, times one of the third.
pub(crate) proof fn lemma_split_013<T: Scalar>(
    f: spec_fn(int, int, int, int) -> T,
    x: spec_fn(int, int, int) -> T,
    y: spec_fn(int) -> T,
    n: nat,
)
    requires
        is_exact::<T>(),
        forall|a: int, b: int, c: int, d: int|
            0 <= a < n && 0 <= b < n && 0 <= c < n && 0 <= d < n ==> #[trigger] f(a, b, c, d) == x(
                a,
                b,
                d,
            ) * y(c),
    ensures
        sum4(f, n) == sum3(x, n) * sum_upto(y, n),
{
    let s = sum_upto(y, n);
    assert forall|a: int, b: int| 0 <= a < n && 0 <= b < n implies #[trigger] in3(in4(f, n), n)(
        a,
        b,
    ) == s * in3(x, n)(a, b) by {
        let t = in3(x, n)(a, b);
        assert forall|c: int| 0 <= c < n implies #[trigger] in4(f, n)(a, b, c) == t * y(c) by {
            let p = |d: int| f(a, b, c, d);
            let q = |d: int| x(a, b, d);
            assert forall|d: int| 0 <= d < n implies #[trigger] p(d) == y(c) * q(d) by {
                lemma_orders(x(a, b, d), y(c), y(c));
            }
            lemma_sum_times(y(c), |d: int| x(a, b, d), |d: int| f(a, b, c, d), n);
            lemma_orders(y(c), t, t);
        }
        lemma_sum_times(t, y, |c: int| in4(f, n)(a, b, c), n);
        lemma_orders(s, t, t);
    }
    lemma_sum2_times(s, in3(x, n), in3(in4(f, n), n), n);
    lemma_orders(s, sum3(x, n), s);
}

/// A term of all indices but the second, times one of the second.
pub(crate) proof fn lemma_split_023<T: Scalar>(
    f: spec_fn(int, int, int, int) -> T,
    x: spec_fn(int, int, int) -> T,
    y: spec_fn(int) -> T,
    n: nat,
)
    requires
        is_exact::<T>(),
        forall|a: int, b: int, c: int, d: int|
            0 <= a < n && 0 <= b < n && 0 <= c < n && 0 <= d < n ==> #[trigger] f(a, b, c, d) == x(
                a,
                c,
                d,
            ) * y(b),
    ensures
        sum4(f, n) == sum3(x, n) * sum_upto(y, n),
{
    let z = in3(x, n);
    let zs = row_sums(z, n);
    assert forall|a: int, b: int| 0 <= a < n && 0 <= b < n implies #[trigger] in3(in4(f, n), n)(
        a,
        b,
    ) == zs(a) * y(b) by {
        assert forall|c: int| 0 <= c < n implies #[trigger] in4(f, n)(a, b, c) == y(b) * row_of(
            z,
            a,
        )(c) by {
            let p = |d: int| f(a, b, c, d);
            let q = |d: int| x(a, c, d);
            assert forall|d: int| 0 <= d < n implies #[trigger] p(d) == y(b) * q(d) by {
                lemma_orders(x(a, c, d), y(b), y(b));
            }
            lemma_sum_times(y(b), |d: int| x(a, c, d), |d: int| f(a, b, c, d), n);
        }
        lemma_sum_times(y(b), row_of(z, a), |c: int| in4(f, n)(a, b, c), n);
        lemma_orders(y(b), zs(a), zs(a));
    }
    lemma_sum_product(zs, y, in3(in4(f, n), n), n, n);
}

/// A term of all indices but the first, times one of the first.
pub(crate) proof fn lemma_split_123<T: Scalar>(
    f: spec_fn(int, int, int, int) -> T,
    x: spec_fn(int, int, int) -> T,
    y: spec_fn(int) -> T,
    n: nat,
)
    requires
        is_exact::<T>(),
        forall|a: int, b: int, c: int, d: int|
            0 <= a < n && 0 <= b < n && 0 <= c < n && 0 <= d < n ==> #[trigger] f(a, b, c, d) == x(
                b,
                c,
                d,
            ) * y(a),
    ensures
        sum4(f, n) == sum3(x, n) * sum_upto(y, n),
{
    let z = in3(x, n);
    let zs = row_sums(z, n);
    assert forall|a: int, b: int| 0 <= a < n && 0 <= b < n implies #[trigger] in3(in4(f, n), n)(
        a,
        b,
    ) == y(a) * zs(b) by {
        assert forall|c: int| 0 <= c < n implies #[trigger] in4(f, n)(a, b, c) == y(a) * row_of(
            z,
            b,
        )(c) by {
            let p = |d: int| f(a, b, c, d);
            let q = |d: int| x(b, c, d);
            assert forall|d: int| 0 <= d < n implies #[trigger] p(d) == y(a) * q(d) by {
                lemma_orders(x(b, c, d), y(a), y(a));
            }
            lemma_sum_times(y(a), |d: int| x(b, c, d), |d: int| f(a, b, c, d), n);
        }
        lemma_sum_times(y(a), row_of(z, b), |c: int| in4(f, n)(a, b, c), n);
    }
    lemma_sum_product(y, zs, in3(in4(f, n), n), n, n);
    lemma_orders(sum_upto(y, n), sum3(x, n), sum3(x, n));
}

/// The first two of three indices may change places.
pub(crate) proof fn lemma_sum3_turn_first<T: Scalar>(
    f: spec_fn(int, int, int) -> T,
    g: spec_fn(int, int, int) -> T,
    n: nat,
)
    requires
        is_exact::<T>(),
        forall|a: int, b: int, c: int|
            0 <= a < n && 0 <= b < n && 0 <= c < n ==> #[trigger] f(a, b, c) == g(b, a, c),
    ensures
        sum3(f, n) == sum3(g, n),
{
    assert forall|a: int, b: int| 0 <= a < n && 0 <= b < n implies #[trigger] in3(f, n)(a, b)
        == in3(g, n)(b, a) by {
        lemma_sum_ext(|c: int| f(a, b, c), |c: int| g(b, a, c), n);
    }
    lemma_sum2_turn(in3(f, n), in3(g, n), n, n);
}

/// The last two of three indices may change places.
pub(crate) proof fn lemma_sum3_turn_last<T: Scalar>(
    f: spec_fn(int, int, int) -> T,
    g: spec_fn(int, int, int) -> T,
    n: nat,
)
    requires
        is_exact::<T>(),
        forall|a: int, b: int, c: int|
            0 <= a < n && 0 <= b < n && 0 <= c < n ==> #[trigger] f(a, b, c) == g(a, c, b),
    ensures
        sum3(f, n) == sum3(g, n),
{
    assert forall|a: int| 0 <= a < n implies #[trigger] row_sums(in3(f, n), n)(a) == row_sums(
        in3(g, n),
        n,
    )(a) by {
        let p = |b: int, c: int| f(a, b, c);
        let q = |b: int, c: int| g(a, b, c);
        assert forall|b: int, c: int| 0 <= b < n && 0 <= c < n implies #[trigger] p(b, c) == q(
            c,
            b,
        ) by {
            assert(f(a, b, c) == g(a, c, b));
        }
        lemma_sum2_turn(p, q, n, n);
        assert forall|b: int| 0 <= b < n implies #[trigger] row_of(in3(f, n), a)(b) == row_sums(
            p,
            n,
        )(b) by {
            lemma_sum_ext(|c: int| f(a, b, c), row_of(p, b), n);
        }
        assert forall|b: int| 0 <= b < n implies #[trigger] row_of(in3(g, n), a)(b) == row_sums(
            q,
            n,
        )(b) by {
            lemma_sum_ext(|c: int| g(a, b, c), row_of(q, b), n);
        }
        lemma_sum_ext(row_of(in3(f, n), a), row_sums(p, n), n);
        lemma_sum_ext(row_of(in3(g, n), a), row_sums(q, n), n);
    }
    lemma_sum_ext(row_sums(in3(f, n), n), row_sums(in3(g, n), n), n);
}

} // verus!
