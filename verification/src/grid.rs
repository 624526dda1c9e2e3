//! Tables of actions by hands, kept flat, row by row.
use vstd::prelude::*;

use crate::layout::{at, lemma_at_bound};

verus! {

/// `n` rows of `w` entries, entry `j` of row `i` being `f(i, j)`.
pub open spec fn grid<T>(n: int, w: int, f: spec_fn(int, int) -> T) -> Seq<T> {
    Seq::new((n * w) as nat, |x: int| f(x / w, x % w))
}

/// `buf` with `vals` written over it from `from` on.
pub open spec fn put<T>(buf: Seq<T>, from: int, vals: Seq<T>) -> Seq<T> {
    Seq::new(
        buf.len(),
        |x: int|
            if from <= x < from + vals.len() {
                vals[x - from]
            } else {
                buf[x]
            },
    )
}

/// The `n` rows of `w` entries that stand in `buf` from `from` on.
pub open spec fn cut<T>(buf: Seq<T>, from: int, n: int, w: int) -> Seq<T> {
    buf.subrange(from, from + n * w)
}

/// Row and column of entry `at(w, i, j)`.
pub proof fn lemma_place(w: int, i: int, j: int)
    requires
        0 <= i,
        0 <= j < w,
    ensures
        at(w, i, j) / w == i,
        at(w, i, j) % w == j,
{
    assert((i * w + j) / w == i && (i * w + j) % w == j) by (nonlinear_arith)
        requires
            0 <= i,
            0 <= j < w,
    ;
}

/// Entry `at(w, i, j)` of a table.
pub proof fn lemma_grid<T>(n: int, w: int, f: spec_fn(int, int) -> T, i: int, j: int)
    requires
        0 <= i < n,
        0 <= j < w,
    ensures
        grid(n, w, f).len() == n * w,
        0 <= at(w, i, j) < n * w,
        grid(n, w, f)[at(w, i, j)] == f(i, j),
{
    lemma_at_bound(w, n, i, j);
    lemma_place(w, i, j);
}

/// Every entry of `n` rows stands in a row and a column.
pub proof fn lemma_entry(n: int, w: int, x: int)
    requires
        0 <= x < n * w,
        0 <= w,
    ensures
        0 <= x / w < n,
        0 <= x % w < w,
        x == at(w, x / w, x % w),
{
    assert(0 <= x / w < n && 0 <= x % w < w && x == (x / w) * w + x % w) by (nonlinear_arith)
        requires
            0 <= x < n * w,
            0 <= w,
    ;
}

/// What agrees with `f` at every place is its table.
pub proof fn lemma_is_grid<T>(s: Seq<T>, n: int, w: int, f: spec_fn(int, int) -> T)
    requires
        0 <= n,
        0 <= w,
        s.len() == n * w,
        forall|i: int, j: int|
            0 <= i < n && 0 <= j < w ==> #[trigger] s[at(w, i, j)] == f(i, j),
    ensures
        s == grid(n, w, f),
{
    assert forall|x: int| 0 <= x < s.len() implies s[x] == grid(n, w, f)[x] by {
        lemma_entry(n, w, x);
        assert(s[at(w, x / w, x % w)] == f(x / w, x % w));
    }
    assert(s =~= grid(n, w, f));
}

/// A copy of `n` entries of `buf` from `from` on.
pub fn cut_of<T: Copy>(buf: &[T], from: usize, n: usize) -> (out: Vec<T>)
    requires
        from + n <= buf@.len(),
    ensures
        out@ == buf@.subrange(from as int, from + n),
{
    let len: usize = buf.len();
    let mut out: Vec<T> = Vec::new();
    let mut k: usize = 0;
    while k < n
        invariant
            k <= n,
            len == buf@.len(),
            from + n <= len,
            out@ == buf@.subrange(from as int, from + k),
        decreases n - k,
    {
        out.push(buf[from + k]);
        k += 1;
        assert(out@ =~= buf@.subrange(from as int, from + k));
    }
    out
}

/// Writes `vals` over `buf` from `from` on.
pub fn put_into<T: Copy>(buf: &mut Vec<T>, from: usize, vals: &[T])
    requires
        from + vals@.len() <= old(buf)@.len(),
    ensures
        final(buf)@ == put(old(buf)@, from as int, vals@),
{
    let len: usize = buf.len();
    let n: usize = vals.len();
    let ghost was = buf@;
    let mut k: usize = 0;
    while k < n
        invariant
            k <= n,
            n == vals@.len(),
            len == buf@.len(),
            was.len() == len,
            from + n <= len,
            buf@ == put(was, from as int, vals@.take(k as int)),
        decreases n - k,
    {
        buf[from + k] = vals[k];
        k += 1;
        assert(buf@ =~= put(was, from as int, vals@.take(k as int)));
    }
    assert(vals@.take(n as int) =~= vals@);
    proof {
        if n == 0 {
            assert(buf@ =~= put(was, from as int, vals@));
        }
    }
}

} // verus!
