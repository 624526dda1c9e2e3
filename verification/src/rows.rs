//! Operations on some rows of a buffer.
use vstd::prelude::*;

use crate::layout::{flat, get_row, lemma_other_row, lemma_row_inside, only_row, put_row, row};
use crate::scalar::{filled, Scalar};

verus! {

/// The marked rows of `new` are as `f` says, all others as in `was`.
pub open spec fn rows_set<T>(
    was: Seq<T>,
    new: Seq<T>,
    w: int,
    n: int,
    marks: Seq<u32>,
    f: spec_fn(int) -> Seq<T>,
) -> bool {
    &&& new.len() == was.len()
    &&& forall|i: int|
        0 <= i < n ==> #[trigger] row(new, w, i) == if marks.contains(i as u32) {
            f(i)
        } else {
            row(was, w, i)
        }
}

/// Rows of zeros.
pub open spec fn zero_row<T: Scalar>(w: int) -> spec_fn(int) -> Seq<T> {
    |i: int| flat(T::s_zero(), w)
}

/// Rows of another buffer.
pub open spec fn same_row<T>(src: Seq<T>, w: int) -> spec_fn(int) -> Seq<T> {
    |i: int| row(src, w, i)
}

/// A row plus another one, weighted entry by entry.
pub open spec fn plus_weighted<T: Scalar>(a: Seq<T>, weights: Seq<T>, b: Seq<T>) -> Seq<T> {
    Seq::new(a.len(), |h: int| a[h].s_plus(weights[h].s_times(b[h])))
}

/// Rows of one buffer plus those of another, weighted entry by entry.
pub open spec fn sum_row<T: Scalar>(dst: Seq<T>, weights: Seq<T>, src: Seq<T>, w: int) -> spec_fn(
    int,
) -> Seq<T> {
    |i: int| plus_weighted(row(dst, w, i), weights, row(src, w, i))
}

/// Marks are rows of the buffer, each named once.
pub open spec fn are_marks(marks: Seq<u32>, n: int) -> bool {
    &&& marks.no_duplicates()
    &&& forall|k: int| 0 <= k < marks.len() ==> (#[trigger] marks[k]) < n
}

proof fn lemma_next_mark(marks: Seq<u32>, k: int, i: u32)
    requires
        0 <= k < marks.len(),
        marks.no_duplicates(),
    ensures
        marks.take(k + 1).contains(i) == (marks.take(k).contains(i) || marks[k] == i),
        !marks.take(k).contains(marks[k]),
{
    let short = marks.take(k);
    let long = marks.take(k + 1);
    if long.contains(i) {
        let j = choose|j: int| 0 <= j < long.len() && long[j] == i;
        if j < k {
            assert(short[j] == i);
        }
    }
    if short.contains(i) {
        let j = choose|j: int| 0 <= j < short.len() && short[j] == i;
        assert(long[j] == i);
    }
    assert(long[k] == marks[k]);
}

/// Writing the next marked row.
pub proof fn lemma_row_put<T>(
    start: Seq<T>,
    was: Seq<T>,
    new: Seq<T>,
    w: int,
    n: int,
    marks: Seq<u32>,
    k: int,
    f: spec_fn(int) -> Seq<T>,
)
    requires
        are_marks(marks, n),
        0 <= k < marks.len(),
        0 <= w,
        start.len() == n * w,
        n <= u32::MAX,
        rows_set(start, was, w, n, marks.take(k), f),
        only_row(was, new, w, marks[k] as int),
        row(new, w, marks[k] as int) == f(marks[k] as int),
    ensures
        rows_set(start, new, w, n, marks.take(k + 1), f),
{
    assert forall|i: int| 0 <= i < n implies #[trigger] row(new, w, i) == if marks.take(
        k + 1,
    ).contains(i as u32) {
        f(i)
    } else {
        row(start, w, i)
    } by {
        lemma_next_mark(marks, k, i as u32);
        if i != marks[k] {
            lemma_row_inside(w, n, i);
            lemma_other_row(was, new, w, marks[k] as int, i);
            assert(row(was, w, i) == if marks.take(k).contains(i as u32) {
                f(i)
            } else {
                row(start, w, i)
            });
        }
    }
}

/// Nothing marked, nothing changed.
pub proof fn lemma_no_marks<T>(buf: Seq<T>, w: int, n: int, marks: Seq<u32>, f: spec_fn(int) -> Seq<T>)
    ensures
        rows_set(buf, buf, w, n, marks.take(0), f),
{
    assert(marks.take(0) =~= Seq::<u32>::empty());
}

/// Sets the marked rows to zero.
pub fn zero_rows<T: Scalar>(marks: &Vec<u32>, w: usize, n: usize, buf: &mut Vec<T>)
    requires
        are_marks(marks@, n as int),
        n <= u32::MAX,
        old(buf)@.len() == n * w,
    ensures
        rows_set(old(buf)@, final(buf)@, w as int, n as int, marks@, zero_row::<T>(w as int)),
{
    let ghost start = buf@;
    let zeros = filled(T::zero(), w);
    let mut k: usize = 0;
    proof {
        lemma_no_marks(buf@, w as int, n as int, marks@, zero_row::<T>(w as int));
    }
    while k < marks.len()
        invariant
            k <= marks@.len(),
            are_marks(marks@, n as int),
            n <= u32::MAX,
            start.len() == n * w,
            zeros@ == flat(T::s_zero(), w as int),
            rows_set(start, buf@, w as int, n as int, marks@.take(k as int), zero_row::<T>(w as int)),
        decreases marks@.len() - k,
    {
        let ghost was = buf@;
        let i: usize = marks[k] as usize;
        assert(marks@[k as int] < n);
        put_row(buf, w, n, i, &zeros);
        proof {
            lemma_row_put(
                start,
                was,
                buf@,
                w as int,
                n as int,
                marks@,
                k as int,
                zero_row::<T>(w as int),
            );
        }
        k += 1;
    }
    assert(marks@.take(k as int) =~= marks@);
}

/// Copies the marked rows of `src`.
pub fn copy_rows<T: Copy>(marks: &Vec<u32>, w: usize, n: usize, src: &Vec<T>, buf: &mut Vec<T>)
    requires
        are_marks(marks@, n as int),
        n <= u32::MAX,
        src@.len() == n * w,
        old(buf)@.len() == n * w,
    ensures
        rows_set(old(buf)@, final(buf)@, w as int, n as int, marks@, same_row(src@, w as int)),
{
    let ghost start = buf@;
    let mut k: usize = 0;
    proof {
        lemma_no_marks(buf@, w as int, n as int, marks@, same_row(src@, w as int));
    }
    while k < marks.len()
        invariant
            k <= marks@.len(),
            are_marks(marks@, n as int),
            n <= u32::MAX,
            start.len() == n * w,
            src@.len() == n * w,
            rows_set(start, buf@, w as int, n as int, marks@.take(k as int), same_row(src@, w as int)),
        decreases marks@.len() - k,
    {
        let ghost was = buf@;
        let i: usize = marks[k] as usize;
        assert(marks@[k as int] < n);
        let vals = get_row(src, w, n, i);
        put_row(buf, w, n, i, &vals);
        proof {
            lemma_row_put(
                start,
                was,
                buf@,
                w as int,
                n as int,
                marks@,
                k as int,
                same_row(src@, w as int),
            );
        }
        k += 1;
    }
    assert(marks@.take(k as int) =~= marks@);
}

/// Adds the marked rows of `src`, weighted entry by entry.
pub fn add_rows<T: Scalar>(
    marks: &Vec<u32>,
    w: usize,
    n: usize,
    weights: &Vec<T>,
    src: &Vec<T>,
    buf: &mut Vec<T>,
)
    requires
        are_marks(marks@, n as int),
        n <= u32::MAX,
        weights@.len() == w,
        src@.len() == n * w,
        old(buf)@.len() == n * w,
    ensures
        rows_set(
            old(buf)@,
            final(buf)@,
            w as int,
            n as int,
            marks@,
            sum_row(old(buf)@, weights@, src@, w as int),
        ),
{
    let ghost start = buf@;
    let ghost f = sum_row(start, weights@, src@, w as int);
    let mut k: usize = 0;
    proof {
        lemma_no_marks(buf@, w as int, n as int, marks@, f);
    }
    while k < marks.len()
        invariant
            k <= marks@.len(),
            are_marks(marks@, n as int),
            n <= u32::MAX,
            start.len() == n * w,
            weights@.len() == w,
            src@.len() == n * w,
            f == sum_row(start, weights@, src@, w as int),
            rows_set(start, buf@, w as int, n as int, marks@.take(k as int), f),
        decreases marks@.len() - k,
    {
        let ghost was = buf@;
        let i: usize = marks[k] as usize;
        assert(marks@[k as int] < n);
        let a = get_row(buf, w, n, i);
        let b = get_row(src, w, n, i);
        proof {
            lemma_next_mark(marks@, k as int, i as u32);
            assert(row(was, w as int, i as int) == row(start, w as int, i as int));
        }
        let vals = weighted_sum(&a, weights, &b);
        put_row(buf, w, n, i, &vals);
        proof {
            lemma_row_put(start, was, buf@, w as int, n as int, marks@, k as int, f);
        }
        k += 1;
    }
    assert(marks@.take(k as int) =~= marks@);
}

/// Computes [`plus_weighted`].
pub fn weighted_sum<T: Scalar>(a: &Vec<T>, weights: &Vec<T>, b: &Vec<T>) -> (out: Vec<T>)
    requires
        weights@.len() == a@.len(),
        b@.len() == a@.len(),
    ensures
        out@ == plus_weighted(a@, weights@, b@),
{
    let mut out: Vec<T> = Vec::new();
    let mut h: usize = 0;
    while h < a.len()
        invariant
            h <= a@.len(),
            weights@.len() == a@.len(),
            b@.len() == a@.len(),
            out@.len() == h,
            forall|k: int| 0 <= k < h ==> #[trigger] out@[k] == plus_weighted(a@, weights@, b@)[k],
        decreases a@.len() - h,
    {
        out.push(a[h].plus(weights[h].times(b[h])));
        h += 1;
    }
    assert(out@ =~= plus_weighted(a@, weights@, b@));
    out
}

/// Two rows added entry by entry.
pub open spec fn plus_row<T: Scalar>(a: Seq<T>, b: Seq<T>) -> Seq<T> {
    Seq::new(a.len(), |h: int| a[h].s_plus(b[h]))
}

/// Computes [`plus_row`].
pub fn row_sum<T: Scalar>(a: &Vec<T>, b: &Vec<T>) -> (out: Vec<T>)
    requires
        b@.len() == a@.len(),
    ensures
        out@ == plus_row(a@, b@),
{
    let mut out: Vec<T> = Vec::new();
    let mut h: usize = 0;
    while h < a.len()
        invariant
            h <= a@.len(),
            b@.len() == a@.len(),
            out@.len() == h,
            forall|k: int| 0 <= k < h ==> #[trigger] out@[k] == plus_row(a@, b@)[k],
        decreases a@.len() - h,
    {
        out.push(a[h].plus(b[h]));
        h += 1;
    }
    assert(out@ =~= plus_row(a@, b@));
    out
}

/// A row divided by a count.
pub open spec fn over_count<T: Scalar>(a: Seq<T>, n: int) -> Seq<T> {
    Seq::new(a.len(), |h: int| a[h].s_over(T::s_of(n)))
}

/// Computes [`over_count`].
pub fn row_over<T: Scalar>(a: &Vec<T>, n: usize) -> (out: Vec<T>)
    ensures
        out@ == over_count(a@, n as int),
{
    let mut out: Vec<T> = Vec::new();
    let c = T::of_usize(n);
    let mut h: usize = 0;
    while h < a.len()
        invariant
            h <= a@.len(),
            c == T::s_of(n as int),
            out@.len() == h,
            forall|k: int| 0 <= k < h ==> #[trigger] out@[k] == over_count(a@, n as int)[k],
        decreases a@.len() - h,
    {
        out.push(a[h].over(c));
        h += 1;
    }
    assert(out@ =~= over_count(a@, n as int));
    out
}

} // verus!
