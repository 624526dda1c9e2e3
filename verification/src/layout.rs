//! Index arithmetic of the flat buffers.
//!
//! A buffer of rows of `w` entries keeps entry `j` of row `i` at `i * w + j`.
//! Strategy and regret buffers use this twice: the rows are (infoset, action)
//! slots, [`MAX_NA_POSTFLOP`] of them per infoset, and an entry is a hand.
use vstd::prelude::*;

use crate::tree::MAX_NA_POSTFLOP;

verus! {

/// Entry `j` of row `i` in rows of `w` entries.
pub open spec fn at(w: int, i: int, j: int) -> int {
    i * w + j
}

/// The row of action `a` of infoset `local`.
pub open spec fn slot(local: int, a: int) -> int {
    local * MAX_NA_POSTFLOP + a
}

/// Hand `h` under action `a` of infoset `local`, for rows of `w` hands.
pub open spec fn cell(w: int, local: int, a: int, h: int) -> int {
    at(w, slot(local, a), h)
}

/// Entries of the first `n` rows lie under `n * w`.
pub proof fn lemma_at_bound(w: int, n: int, i: int, j: int)
    requires
        0 <= i < n,
        0 <= j < w,
    ensures
        0 <= i * w <= at(w, i, j) < n * w,
        i * w + w <= n * w,
{
    assert(0 <= i * w && i * w + w <= n * w) by (nonlinear_arith)
        requires
            0 <= i < n,
            0 < w,
    ;
}

/// Entries of different rows, or at different places, are different.
pub proof fn lemma_at_inj(w: int, i: int, j: int, k: int, l: int)
    requires
        0 <= j < w,
        0 <= l < w,
        at(w, i, j) == at(w, k, l),
    ensures
        i == k,
        j == l,
{
    assert(i == k) by (nonlinear_arith)
        requires
            0 <= j < w,
            0 <= l < w,
            i * w + j == k * w + l,
    ;
}

/// Cells of the first `n` infosets lie under `n * (MAX_NA_POSTFLOP * w)`.
pub proof fn lemma_cell_bound(w: int, n: int, local: int, a: int, h: int)
    requires
        0 <= local < n,
        0 <= a < MAX_NA_POSTFLOP,
        0 <= h < w,
    ensures
        0 <= cell(w, local, a, h) < n * MAX_NA_POSTFLOP * w,
        0 <= slot(local, a) < n * MAX_NA_POSTFLOP,
        0 <= slot(local, a) * w <= cell(w, local, a, h),
{
    lemma_at_bound(w, n * MAX_NA_POSTFLOP, slot(local, a), h);
}

/// How many of `0..n` satisfy `p`.
pub open spec fn count_upto(p: spec_fn(int) -> bool, n: nat) -> nat
    decreases n,
{
    if n == 0 {
        0
    } else {
        count_upto(p, (n - 1) as nat) + if p(n - 1) {
            1nat
        } else {
            0nat
        }
    }
}

pub proof fn lemma_count_bound(p: spec_fn(int) -> bool, n: nat)
    ensures
        count_upto(p, n) <= n,
    decreases n,
{
    if n > 0 {
        lemma_count_bound(p, (n - 1) as nat);
    }
}

/// An index that may be absent, as a mathematical integer.
pub open spec fn opt_int(o: Option<usize>) -> Option<int> {
    match o {
        Some(i) => Some(i as int),
        None => None,
    }
}

/// Row `s` of a buffer of rows of `w` entries.
pub open spec fn row<T>(buf: Seq<T>, w: int, s: int) -> Seq<T> {
    buf.subrange(s * w, s * w + w)
}

/// A row of `w` copies of one value.
pub open spec fn flat<T>(x: T, w: int) -> Seq<T> {
    Seq::new(w as nat, |i: int| x)
}

/// Row `s` is the only one that `new` may have changed in `old_buf`.
pub open spec fn only_row<T>(old_buf: Seq<T>, new: Seq<T>, w: int, s: int) -> bool {
    &&& new.len() == old_buf.len()
    &&& forall|i: int|
        0 <= i < new.len() && !(s * w <= i < s * w + w) ==> #[trigger] new[i] == old_buf[i]
}

/// A row other than the changed one stays.
pub proof fn lemma_other_row<T>(old_buf: Seq<T>, new: Seq<T>, w: int, s: int, t: int)
    requires
        only_row(old_buf, new, w, s),
        s != t,
        0 <= w,
        0 <= t * w,
        t * w + w <= new.len(),
    ensures
        row(new, w, t) == row(old_buf, w, t),
{
    if s < t {
        assert(s * w + w <= t * w) by (nonlinear_arith)
            requires
                s < t,
                0 <= w,
        ;
    } else {
        assert(t * w + w <= s * w) by (nonlinear_arith)
            requires
                t < s,
                0 <= w,
        ;
    }
    assert(row(new, w, t) =~= row(old_buf, w, t));
}

/// Rows `0..n` of a buffer of `n * w` entries lie inside it.
pub proof fn lemma_row_inside(w: int, n: int, s: int)
    requires
        0 <= s < n,
        0 <= w,
    ensures
        0 <= s * w,
        s * w + w <= n * w,
{
    assert(0 <= s * w && s * w + w <= n * w) by (nonlinear_arith)
        requires
            0 <= s < n,
            0 <= w,
    ;
}

/// Every row of a buffer of one value is a row of it.
pub proof fn lemma_flat_row<T>(x: T, w: int, n: int, s: int)
    requires
        0 <= s < n,
        0 <= w,
    ensures
        row(flat(x, n * w), w, s) == flat(x, w),
{
    lemma_row_inside(w, n, s);
    assert(row(flat(x, n * w), w, s) =~= flat(x, w));
}

/// Copies `n` entries of `src` from `s0` over those of `dst` from `d0`.
pub fn copy_run<T: Copy>(src: &[T], s0: usize, dst: &mut Vec<T>, d0: usize, n: usize)
    requires
        s0 + n <= src@.len(),
        d0 + n <= old(dst)@.len(),
    ensures
        final(dst)@.len() == old(dst)@.len(),
        final(dst)@.subrange(d0 as int, d0 + n) == src@.subrange(s0 as int, s0 + n),
        forall|i: int|
            0 <= i < final(dst)@.len() && !(d0 <= i < d0 + n) ==> #[trigger] final(dst)@[i] == old(dst)@[i],
{
    let mut k: usize = 0;
    let ghost before = dst@;
    while k < n
        invariant
            k <= n,
            s0 + n <= src@.len(),
            d0 + n <= before.len(),
            dst@.len() == before.len(),
            dst.len() <= usize::MAX,
            src.len() <= usize::MAX,
            forall|j: int| d0 <= j < d0 + k ==> #[trigger] dst@[j] == src@[s0 + (j - d0)],
            forall|i: int|
                0 <= i < dst@.len() && !(d0 <= i < d0 + k) ==> #[trigger] dst@[i] == before[i],
        decreases n - k,
    {
        let v = src[s0 + k];
        dst[d0 + k] = v;
        k += 1;
    }
    assert(dst@.subrange(d0 as int, d0 + n) =~= src@.subrange(s0 as int, s0 + n));
}

/// Overwrites row `s` of a buffer of `n` rows of `w` entries.
pub fn put_row<T: Copy>(buf: &mut Vec<T>, w: usize, n: usize, s: usize, vals: &Vec<T>)
    requires
        s < n,
        old(buf)@.len() == n * w,
        vals@.len() == w,
    ensures
        only_row(old(buf)@, final(buf)@, w as int, s as int),
        row(final(buf)@, w as int, s as int) == vals@,
{
    proof {
        lemma_row_inside(w as int, n as int, s as int);
    }
    let len: usize = buf.len();
    copy_run(vals.as_slice(), 0, buf, s * w, w);
    assert(vals@.subrange(0, w as int) =~= vals@);
}

/// A copy of row `s` of a buffer of `n` rows of `w` entries.
pub fn get_row<T: Copy>(buf: &Vec<T>, w: usize, n: usize, s: usize) -> (out: Vec<T>)
    requires
        s < n,
        buf@.len() == n * w,
    ensures
        out@ == row(buf@, w as int, s as int),
        out@.len() == w,
{
    proof {
        lemma_row_inside(w as int, n as int, s as int);
    }
    let len: usize = buf.len();
    let start: usize = s * w;
    let mut out: Vec<T> = Vec::new();
    let mut k: usize = 0;
    while k < w
        invariant
            k <= w,
            start + w <= buf@.len(),
            len == buf@.len(),
            start == s * w,
            out@ == buf@.subrange(start as int, start + k),
        decreases w - k,
    {
        out.push(buf[start + k]);
        k += 1;
        assert(out@ =~= buf@.subrange(start as int, start + k));
    }
    out
}

/// Two buffers of rows that agree in every row are equal.
pub proof fn lemma_rows_ext<T>(a: Seq<T>, b: Seq<T>, w: int, n: int)
    requires
        0 <= w,
        0 <= n,
        a.len() == n * w,
        b.len() == n * w,
        forall|s: int| 0 <= s < n ==> #[trigger] row(a, w, s) == row(b, w, s),
    ensures
        a == b,
{
    assert forall|k: int| 0 <= k < a.len() implies a[k] == b[k] by {
        let s = k / w;
        let j = k % w;
        assert(0 <= s < n && 0 <= j < w && k == s * w + j) by (nonlinear_arith)
            requires
                0 <= k < n * w,
                0 <= w,
                s == k / w,
                j == k % w,
        ;
        lemma_row_inside(w, n, s);
        assert(row(a, w, s)[j] == a[k]);
        assert(row(b, w, s)[j] == b[k]);
    }
    assert(a =~= b);
}

/// A row of a row is a row of the whole.
pub proof fn lemma_row_of_row<T>(buf: Seq<T>, w: int, n: int, m: int, o: int, g: int)
    requires
        0 <= w,
        0 <= o < m,
        0 <= g < n,
        buf.len() == m * n * w,
    ensures
        row(row(buf, n * w, o), w, g) == row(buf, w, at(n, o, g)),
        row(buf, n * w, o).len() == n * w,
        at(n, o, g) * w + w <= buf.len(),
        0 <= at(n, o, g) * w,
{
    assert(0 <= n * w) by (nonlinear_arith)
        requires
            0 <= n,
            0 <= w,
    ;
    assert(m * n * w == m * (n * w)) by (nonlinear_arith);
    lemma_row_inside(n * w, m, o);
    lemma_row_inside(w, n, g);
    assert(o * (n * w) + g * w == at(n, o, g) * w) by (nonlinear_arith)
        requires
            at(n, o, g) == o * n + g,
    ;
    assert(row(row(buf, n * w, o), w, g) =~= row(buf, w, at(n, o, g)));
}

/// Copies a row.
pub fn row_copy<T: Copy>(src: &Vec<T>) -> (out: Vec<T>)
    ensures
        out@ == src@,
{
    let mut out: Vec<T> = Vec::new();
    let mut k: usize = 0;
    while k < src.len()
        invariant
            k <= src@.len(),
            out@ == src@.take(k as int),
        decreases src@.len() - k,
    {
        out.push(src[k]);
        k += 1;
        assert(out@ =~= src@.take(k as int));
    }
    assert(out@ =~= src@);
    out
}

} // verus!
