//! Whole chips, modulo two to the sixty-four, have exact arithmetic.
use vstd::prelude::*;

use crate::buckets::has_units;
use crate::exact::{has_differences, has_neutrals, has_products, has_spread, has_sums, is_exact};
use crate::harmonic_laws::are_weights;
use crate::one_variant::has_whole_shares;
use crate::scalar::Scalar;
use crate::sure_showdowns::has_sure_odds;

verus! {

/// Two to the sixty-four.
pub open spec fn wrap() -> int {
    0x1_0000_0000_0000_0000
}

/// Numbers that differ by a multiple of the modulus are the same.
proof fn lemma_same_chips(a: i64, b: i64, k: int)
    requires
        a == b + k * wrap(),
    ensures
        a == b,
{
}

/// A sum, up to a multiple of the modulus.
proof fn lemma_sum_wraps(x: i64, y: i64) -> (k: int)
    ensures
        x.s_plus(y) == x + y - k * wrap(),
{
    if x + y > i64::MAX {
        1
    } else if x + y < i64::MIN {
        -1
    } else {
        0
    }
}

/// A difference, up to a multiple of the modulus.
proof fn lemma_difference_wraps(x: i64, y: i64) -> (k: int)
    ensures
        x.s_minus(y) == x - y - k * wrap(),
{
    if x - y > i64::MAX {
        1
    } else if x - y < i64::MIN {
        -1
    } else {
        0
    }
}

/// A product, up to a multiple of the modulus.
proof fn lemma_product_wraps(x: i64, y: i64) -> (k: int)
    ensures
        x.s_times(y) == x * y - k * wrap(),
{
    let p = x * y;
    let q = p / wrap();
    let r = p % wrap();
    assert(p == q * wrap() + r) by (nonlinear_arith)
        requires
            q == p / wrap(),
            r == p % wrap(),
            wrap() == 0x1_0000_0000_0000_0000,
    ;
    assert(0 <= r < wrap());
    if r > i64::MAX {
        q + 1
    } else {
        q
    }
}

proof fn lemma_products(x: i64, y: i64, z: i64)
    ensures
        x.s_times(y) == y.s_times(x),
        x.s_times(y).s_times(z) == x.s_times(y.s_times(z)),
{
    let w = wrap();
    assert(x * y == y * x) by (nonlinear_arith);
    let (xy, yz) = (x.s_times(y), y.s_times(z));
    let k1 = lemma_product_wraps(x, y);
    let k2 = lemma_product_wraps(xy, z);
    let k3 = lemma_product_wraps(y, z);
    let k4 = lemma_product_wraps(x, yz);
    assert(xy * z == x * y * z - k1 * z * w) by (nonlinear_arith)
        requires
            xy == x * y - k1 * w,
    ;
    assert(x * yz == x * y * z - x * k3 * w) by (nonlinear_arith)
        requires
            yz == y * z - k3 * w,
    ;
    let k = x * k3 + k4 - k1 * z - k2;
    assert(k * w == x * k3 * w + k4 * w - k1 * z * w - k2 * w) by (nonlinear_arith)
        requires
            k == x * k3 + k4 - k1 * z - k2,
    ;
    lemma_same_chips(xy.s_times(z), x.s_times(yz), k);
}

proof fn lemma_spreads(x: i64, y: i64, z: i64)
    ensures
        x.s_times(y.s_plus(z)) == x.s_times(y).s_plus(x.s_times(z)),
{
    let w = wrap();
    let s = y.s_plus(z);
    let (xy, xz) = (x.s_times(y), x.s_times(z));
    let k1 = lemma_sum_wraps(y, z);
    let k2 = lemma_product_wraps(x, s);
    let k3 = lemma_product_wraps(x, y);
    let k4 = lemma_product_wraps(x, z);
    let k5 = lemma_sum_wraps(xy, xz);
    assert(x * s == x * y + x * z - x * k1 * w) by (nonlinear_arith)
        requires
            s == y + z - k1 * w,
    ;
    let k = k3 + k4 + k5 - x * k1 - k2;
    assert(k * w == k3 * w + k4 * w + k5 * w - x * k1 * w - k2 * w) by (nonlinear_arith)
        requires
            k == k3 + k4 + k5 - x * k1 - k2,
    ;
    lemma_same_chips(x.s_times(s), xy.s_plus(xz), k);
}

/// Sums, differences and products of whole chips keep the laws of arithmetic.
pub proof fn law_whole_chips_are_exact()
    ensures
        is_exact::<i64>(),
{
    assert(has_sums::<i64>()) by {
        reveal(has_sums);
        assert forall|x: i64, y: i64, z: i64| #[trigger] x.s_plus(y).s_plus(z) == x.s_plus(
            y.s_plus(z),
        ) by {
            let k1 = lemma_sum_wraps(x, y);
            let k2 = lemma_sum_wraps(x.s_plus(y), z);
            let k3 = lemma_sum_wraps(y, z);
            let k4 = lemma_sum_wraps(x, y.s_plus(z));
            lemma_same_chips(x.s_plus(y).s_plus(z), x.s_plus(y.s_plus(z)), k3 + k4 - k1 - k2);
        }
    }
    assert(has_products::<i64>()) by {
        reveal(has_products);
        assert forall|x: i64, y: i64| #[trigger] x.s_times(y) == y.s_times(x) by {
            lemma_products(x, y, 0);
        }
        assert forall|x: i64, y: i64, z: i64| #[trigger] x.s_times(y).s_times(z) == x.s_times(
            y.s_times(z),
        ) by {
            lemma_products(x, y, z);
        }
    }
    assert(has_spread::<i64>()) by {
        reveal(has_spread);
        assert forall|x: i64, y: i64, z: i64| #[trigger] x.s_times(y.s_plus(z)) == x.s_times(
            y,
        ).s_plus(x.s_times(z)) by {
            lemma_spreads(x, y, z);
        }
    }
    assert(has_neutrals::<i64>()) by {
        reveal(has_neutrals);
        assert forall|x: i64| #[trigger] x.s_times(i64::s_one()) == x by {
            let k = lemma_product_wraps(x, 1);
            assert(x * 1 == x);
            lemma_same_chips(x.s_times(1), x, -k);
        }
    }
    assert(has_differences::<i64>()) by {
        reveal(has_differences);
        assert forall|x: i64, y: i64| #[trigger] x.s_minus(y).s_plus(y) == x by {
            let k1 = lemma_difference_wraps(x, y);
            let k2 = lemma_sum_wraps(x.s_minus(y), y);
            lemma_same_chips(x.s_minus(y).s_plus(y), x, -k1 - k2);
        }
        assert forall|x: i64, y: i64| #[trigger] x.s_plus(y).s_minus(y) == x by {
            let k1 = lemma_sum_wraps(x, y);
            let k2 = lemma_difference_wraps(x.s_plus(y), y);
            lemma_same_chips(x.s_plus(y).s_minus(y), x, -k1 - k2);
        }
    }
}

/// Among whole chips zero and one are neutral, and chips go into as many once.
pub proof fn law_whole_chips_have_units()
    ensures
        has_units::<i64>(),
        has_whole_shares::<i64>(),
        has_sure_odds::<i64>(),
{
    assert forall|x: i64| #[trigger] i64::s_one().s_times(x) == x by {
        let k = lemma_product_wraps(1, x);
        lemma_same_chips(1i64.s_times(x), x, -k);
    }
    assert forall|x: i64| #[trigger] x.s_times(i64::s_one()) == x by {
        let k = lemma_product_wraps(x, 1);
        assert(x * 1 == x);
        lemma_same_chips(x.s_times(1), x, -k);
    }
    assert forall|t: i64| i64::s_zero().s_below(t) implies #[trigger] t.s_over(t)
        == i64::s_one() by {
        assert(t as int / t as int == 1) by (nonlinear_arith)
            requires
                0 < t,
        ;
    }
}

/// None and one.
pub open spec fn none_or_one() -> spec_fn(i64) -> bool {
    |x: i64| x == 0 || x == 1
}

/// Whole chips can be weights: none or one.
pub proof fn law_whole_weights()
    ensures
        are_weights::<i64>(none_or_one()),
{
    let unit = none_or_one();
    assert forall|x: i64, y: i64| unit(x) && unit(y) implies unit(#[trigger] x.s_times(y)) by {
        let k = lemma_product_wraps(x, y);
        assert(x * y == if x == 1 {
            y as int
        } else {
            0
        }) by (nonlinear_arith)
            requires
                x == 0 || x == 1,
        ;
        lemma_same_chips(
            x.s_times(y),
            if x == 1 {
                y
            } else {
                0
            },
            -k,
        );
    }
}

} // verus!
