//! The number type the solvers compute with.
use vstd::prelude::*;

verus! {

/// Arithmetic of the value, regret and strategy buffers.
///
/// Each operation is a function of its arguments; nothing more is asked of it.
/// In particular no law of addition or multiplication is used, so the contracts
/// written over these operations also fix the order in which sums are formed. A type
/// that does not say what an operation computes is only known to compute it.
pub trait Scalar: Sized + Copy {
    /// The additive start value of every sum.
    open spec fn s_zero() -> Self {
        arbitrary()
    }

    /// Full probability.
    open spec fn s_one() -> Self {
        arbitrary()
    }

    /// The number nearest to an integer.
    open spec fn s_of(n: int) -> Self {
        arbitrary()
    }

    open spec fn s_plus(self, rhs: Self) -> Self {
        arbitrary()
    }

    open spec fn s_minus(self, rhs: Self) -> Self {
        arbitrary()
    }

    open spec fn s_times(self, rhs: Self) -> Self {
        arbitrary()
    }

    open spec fn s_over(self, rhs: Self) -> Self {
        arbitrary()
    }

    /// `self < rhs`.
    open spec fn s_below(self, rhs: Self) -> bool {
        arbitrary()
    }

    /// `self <= rhs`.
    open spec fn s_at_most(self, rhs: Self) -> bool {
        arbitrary()
    }

    /// `self == rhs` as numbers.
    open spec fn s_same(self, rhs: Self) -> bool {
        arbitrary()
    }

    /// The larger of two numbers.
    open spec fn s_larger(self, rhs: Self) -> Self {
        arbitrary()
    }

    /// The square root.
    open spec fn s_root(self) -> Self {
        arbitrary()
    }

    /// `self` to the power `rhs`.
    open spec fn s_power(self, rhs: Self) -> Self {
        arbitrary()
    }

    /// The exponential function.
    open spec fn s_exp(self) -> Self {
        arbitrary()
    }

    /// A start value for maxima.
    open spec fn s_lowest() -> Self {
        arbitrary()
    }

    /// A start value for minima.
    open spec fn s_highest() -> Self {
        arbitrary()
    }

    /// Ten to the power `n`, or the highest number there is where that is too large.
    open spec fn s_ten_to(n: nat) -> Self {
        arbitrary()
    }

    /// The number that a double word stands for.
    open spec fn s_of_bits(bits: u64) -> Self {
        arbitrary()
    }

    fn zero() -> (r: Self)
        ensures
            r == Self::s_zero(),
    ;

    fn one() -> (r: Self)
        ensures
            r == Self::s_one(),
    ;

    fn of_usize(n: usize) -> (r: Self)
        ensures
            r == Self::s_of(n as int),
    ;

    fn of_i32(n: i32) -> (r: Self)
        ensures
            r == Self::s_of(n as int),
    ;

    fn of_i64(n: i64) -> (r: Self)
        ensures
            r == Self::s_of(n as int),
    ;

    fn plus(self, rhs: Self) -> (r: Self)
        ensures
            r == self.s_plus(rhs),
    ;

    fn minus(self, rhs: Self) -> (r: Self)
        ensures
            r == self.s_minus(rhs),
    ;

    fn times(self, rhs: Self) -> (r: Self)
        ensures
            r == self.s_times(rhs),
    ;

    fn over(self, rhs: Self) -> (r: Self)
        ensures
            r == self.s_over(rhs),
    ;

    fn below(self, rhs: Self) -> (r: bool)
        ensures
            r == self.s_below(rhs),
    ;

    fn at_most(self, rhs: Self) -> (r: bool)
        ensures
            r == self.s_at_most(rhs),
    ;

    fn same(self, rhs: Self) -> (r: bool)
        ensures
            r == self.s_same(rhs),
    ;

    fn larger(self, rhs: Self) -> (r: Self)
        ensures
            r == self.s_larger(rhs),
    ;

    fn root(self) -> (r: Self)
        ensures
            r == self.s_root(),
    ;

    fn power(self, rhs: Self) -> (r: Self)
        ensures
            r == self.s_power(rhs),
    ;

    fn exp(self) -> (r: Self)
        ensures
            r == self.s_exp(),
    ;

    fn lowest() -> (r: Self)
        ensures
            r == Self::s_lowest(),
    ;

    fn highest() -> (r: Self)
        ensures
            r == Self::s_highest(),
    ;

    fn ten_to(n: u32) -> (r: Self)
        ensures
            r == Self::s_ten_to(n as nat),
    ;

    fn of_bits(bits: u64) -> (r: Self)
        ensures
            r == Self::s_of_bits(bits),
    ;
}

/// `r` is the square root of `n`, rounded down; zero where `n` is negative.
pub open spec fn is_root(n: int, r: int) -> bool {
    if n < 0 {
        r == 0
    } else {
        0 <= r && r * r <= n < (r + 1) * (r + 1)
    }
}

/// `b` times itself, `n` times over, modulo two to the sixty-four.
pub open spec fn wrapped_power(b: i64, n: nat) -> i64
    decreases n,
{
    if n == 0 {
        1
    } else {
        wrapped_power(b, (n - 1) as nat).wrapping_mul(b)
    }
}

/// There is one square root.
proof fn lemma_one_root(n: int, r: int, q: int)
    requires
        is_root(n, r),
        is_root(n, q),
    ensures
        r == q,
{
    if n >= 0 {
        assert(r == q) by (nonlinear_arith)
            requires
                0 <= r,
                0 <= q,
                r * r <= n < (r + 1) * (r + 1),
                q * q <= n < (q + 1) * (q + 1),
        ;
    }
}

/// The square of `r` is at most `n`.
fn has_square(r: i64, n: i64) -> (b: bool)
    requires
        0 <= r <= 3_037_000_500,
    ensures
        b == (r * r <= n),
{
    assert(0 <= r * r <= 0x7fff_ffff_ffff_ffff_ffffint) by (nonlinear_arith)
        requires
            0 <= r <= 3_037_000_500,
    ;
    (r as i128) * (r as i128) <= n as i128
}

/// Whole chips, modulo two to the sixty-four; a quotient is rounded toward
/// minus infinity for a positive divisor, and zero where the divisor is zero.
/// Roots are rounded down, powers with a negative exponent are zero, and the
/// exponential is rounded down and cut off at one.
impl Scalar for i64 {
    open spec fn s_zero() -> i64 {
        0
    }

    open spec fn s_one() -> i64 {
        1
    }

    open spec fn s_of(n: int) -> i64 {
        n as i64
    }

    open spec fn s_plus(self, rhs: i64) -> i64 {
        self.wrapping_add(rhs)
    }

    open spec fn s_minus(self, rhs: i64) -> i64 {
        self.wrapping_sub(rhs)
    }

    open spec fn s_times(self, rhs: i64) -> i64 {
        self.wrapping_mul(rhs)
    }

    open spec fn s_over(self, rhs: i64) -> i64 {
        match self.checked_div_euclid(rhs) {
            Some(q) => q,
            None => 0,
        }
    }

    open spec fn s_below(self, rhs: i64) -> bool {
        self < rhs
    }

    open spec fn s_at_most(self, rhs: i64) -> bool {
        self <= rhs
    }

    open spec fn s_same(self, rhs: i64) -> bool {
        self == rhs
    }

    open spec fn s_larger(self, rhs: i64) -> i64 {
        if self < rhs {
            rhs
        } else {
            self
        }
    }

    open spec fn s_root(self) -> i64 {
        choose|r: i64| is_root(self as int, r as int)
    }

    open spec fn s_power(self, rhs: i64) -> i64 {
        if rhs < 0 {
            0
        } else {
            wrapped_power(self, rhs as nat)
        }
    }

    open spec fn s_exp(self) -> i64 {
        if self < 0 {
            0
        } else {
            1
        }
    }

    open spec fn s_lowest() -> i64 {
        i64::MIN
    }

    open spec fn s_highest() -> i64 {
        i64::MAX
    }

    open spec fn s_ten_to(n: nat) -> i64 {
        if n > 18 {
            i64::MAX
        } else {
            wrapped_power(10, n)
        }
    }

    open spec fn s_of_bits(bits: u64) -> i64 {
        bits as i64
    }

    fn zero() -> (r: i64) {
        0
    }

    fn one() -> (r: i64) {
        1
    }

    fn of_usize(n: usize) -> (r: i64) {
        n as i64
    }

    fn of_i32(n: i32) -> (r: i64) {
        n as i64
    }

    fn of_i64(n: i64) -> (r: i64) {
        n
    }

    fn plus(self, rhs: i64) -> (r: i64) {
        self.wrapping_add(rhs)
    }

    fn minus(self, rhs: i64) -> (r: i64) {
        self.wrapping_sub(rhs)
    }

    fn times(self, rhs: i64) -> (r: i64) {
        self.wrapping_mul(rhs)
    }

    fn over(self, rhs: i64) -> (r: i64) {
        match self.checked_div_euclid(rhs) {
            Some(q) => q,
            None => 0,
        }
    }

    fn below(self, rhs: i64) -> (r: bool) {
        self < rhs
    }

    fn at_most(self, rhs: i64) -> (r: bool) {
        self <= rhs
    }

    fn same(self, rhs: i64) -> (r: bool) {
        self == rhs
    }

    fn larger(self, rhs: i64) -> (r: i64) {
        if self < rhs {
            rhs
        } else {
            self
        }
    }

    fn root(self) -> (r: i64) {
        let mut r: i64 = 0;
        if self >= 0 {
            while r < 3_037_000_499 && has_square(r + 1, self)
                invariant
                    0 <= r <= 3_037_000_499,
                    self >= 0,
                    r * r <= self,
                decreases 3_037_000_499 - r,
            {
                r += 1;
            }
        }
        proof {
            if r == 3_037_000_499 {
                assert(3_037_000_500int * 3_037_000_500int > 9_223_372_036_854_775_807int)
                    by (nonlinear_arith);
            }
            assert(is_root(self as int, r as int));
            let q: i64 = choose|q: i64| is_root(self as int, q as int);
            lemma_one_root(self as int, r as int, q as int);
        }
        r
    }

    fn power(self, rhs: i64) -> (r: i64) {
        if rhs < 0 {
            return 0;
        }
        let mut r: i64 = 1;
        let mut n: i64 = 0;
        while n < rhs
            invariant
                0 <= n <= rhs,
                r == wrapped_power(self, n as nat),
            decreases rhs - n,
        {
            r = r.wrapping_mul(self);
            n += 1;
        }
        r
    }

    fn exp(self) -> (r: i64) {
        if self < 0 {
            0
        } else {
            1
        }
    }

    fn lowest() -> (r: i64) {
        i64::MIN
    }

    fn highest() -> (r: i64) {
        i64::MAX
    }

    fn ten_to(n: u32) -> (r: i64) {
        if n > 18 {
            return i64::MAX;
        }
        let ten: i64 = 10;
        ten.power(n as i64)
    }

    fn of_bits(bits: u64) -> (r: i64) {
        bits as i64
    }
}

/// Regrets at or under this threshold count as zero in regret matching: a
/// hundred-thousandth.
pub open spec fn s_match_eps<T: Scalar>() -> T {
    T::s_one().s_over(T::s_ten_to(5))
}

/// The threshold of regret matching.
pub fn match_eps<T: Scalar>() -> (r: T)
    ensures
        r == s_match_eps::<T>(),
{
    T::one().over(T::ten_to(5))
}

/// Cumulative regrets are never stored under this value: minus ten to the thirty.
pub open spec fn s_regret_floor<T: Scalar>() -> T {
    T::s_zero().s_minus(T::s_ten_to(30))
}

/// The least cumulative regret.
pub fn regret_floor<T: Scalar>() -> (r: T)
    ensures
        r == s_regret_floor::<T>(),
{
    T::zero().minus(T::ten_to(30))
}

/// Bets whose pot fractions differ by less than this count as the same size: a
/// thousandth.
pub open spec fn s_fraction_tolerance<T: Scalar>() -> T {
    T::s_one().s_over(T::s_ten_to(3))
}

/// The tolerance between pot fractions.
pub fn fraction_tolerance<T: Scalar>() -> (r: T)
    ensures
        r == s_fraction_tolerance::<T>(),
{
    T::one().over(T::ten_to(3))
}

/// Numbers with a wider companion type for long sums.
pub trait Widen: Scalar {
    type Wide: Scalar;

    open spec fn s_widen(self) -> Self::Wide {
        arbitrary()
    }

    open spec fn s_narrow(w: Self::Wide) -> Self {
        arbitrary()
    }

    fn widen(self) -> (r: Self::Wide)
        ensures
            r == self.s_widen(),
    ;

    fn narrow(w: Self::Wide) -> (r: Self)
        ensures
            r == Self::s_narrow(w),
    ;
}

impl Widen for i64 {
    type Wide = i64;

    open spec fn s_widen(self) -> i64 {
        self
    }

    open spec fn s_narrow(w: i64) -> i64 {
        w
    }

    fn widen(self) -> (r: i64) {
        self
    }

    fn narrow(w: i64) -> (r: i64) {
        w
    }
}

/// `f(0) + f(1) + .. + f(n - 1)`, formed from the left, starting at zero.
pub open spec fn sum_upto<T: Scalar>(f: spec_fn(int) -> T, n: nat) -> T
    decreases n,
{
    if n == 0 {
        T::s_zero()
    } else {
        sum_upto(f, (n - 1) as nat).s_plus(f(n - 1))
    }
}

/// A sum depends on its first `n` terms only.
pub proof fn lemma_sum_ext<T: Scalar>(f: spec_fn(int) -> T, g: spec_fn(int) -> T, n: nat)
    requires
        forall|i: int| 0 <= i < n ==> #[trigger] f(i) == g(i),
    ensures
        sum_upto(f, n) == sum_upto(g, n),
    decreases n,
{
    if n > 0 {
        lemma_sum_ext(f, g, (n - 1) as nat);
    }
}

/// A buffer of `n` copies of one value.
pub fn filled<T: Copy>(x: T, n: usize) -> (v: Vec<T>)
    ensures
        v@ == Seq::new(n as nat, |i: int| x),
{
    let mut v: Vec<T> = Vec::new();
    let mut i: usize = 0;
    while i < n
        invariant
            i <= n,
            v@ == Seq::new(i as nat, |j: int| x),
        decreases n - i,
    {
        v.push(x);
        i += 1;
        assert(v@ =~= Seq::new(i as nat, |j: int| x));
    }
    v
}

} // verus!
