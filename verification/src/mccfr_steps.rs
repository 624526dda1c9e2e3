//! What a walk of [`CpuMccfr`](crate::mccfr::CpuMccfr) does at a single node.
use vstd::prelude::*;

use crate::best_response::across;
use crate::grid::{grid, lemma_is_grid, put};
use crate::layout::{at, lemma_at_bound};
use crate::scalar::{regret_floor, s_regret_floor, sum_upto, Scalar};
use crate::terminal::views;

verus! {

/// A row of hands, each times its probability of action `a`.
pub open spec fn after<T: Scalar>(raw: Seq<T>, s: Seq<T>, a: int) -> Seq<T> {
    Seq::new(raw.len(), |h: int| raw[h].s_times(s[at(raw.len() as int, a, h)]))
}

/// Action values of hand `h`, each times its probability.
pub open spec fn weighted<T: Scalar>(s: Seq<T>, nh: int, vs: Seq<Seq<T>>, h: int) -> spec_fn(
    int,
) -> T {
    |a: int| s[at(nh, a, h)].s_times(vs[a][h])
}

/// The value of a node from those of its actions: the strategy's mix for its owner, the
/// sum for anyone else.
pub open spec fn averaged<T: Scalar>(own: bool, s: Seq<T>, nh: int, vs: Seq<Seq<T>>) -> Seq<T> {
    Seq::new(
        nh as nat,
        |h: int|
            if own {
                sum_upto(weighted(s, nh, vs, h), vs.len())
            } else {
                sum_upto(across(vs, h), vs.len())
            },
    )
}

/// How much better each action is than the mix, times the weight.
pub open spec fn gains<T: Scalar>(weight: T, nh: int, vs: Seq<Seq<T>>, avg: Seq<T>) -> Seq<T> {
    grid(
        vs.len() as int,
        nh,
        |a: int, h: int| weight.s_times(vs[a][h].s_minus(avg[h])),
    )
}

/// How often each action is played, times the weight.
pub open spec fn plays<T: Scalar>(weight: T, na: int, mine: Seq<T>, s: Seq<T>) -> Seq<T> {
    grid(
        na,
        mine.len() as int,
        |a: int, h: int|
            weight.s_times(mine[h]).s_times(s[at(mine.len() as int, a, h)]),
    )
}

/// The action values, flat.
pub open spec fn stacked<T>(nh: int, vs: Seq<Seq<T>>) -> Seq<T> {
    grid(vs.len() as int, nh, |a: int, h: int| vs[a][h])
}

/// Not under the regret floor.
pub open spec fn floored<T: Scalar>(x: T) -> T {
    if x.s_below(s_regret_floor::<T>()) {
        s_regret_floor::<T>()
    } else {
        x
    }
}

/// `buf` plus `vals` from `from` on.
pub open spec fn added<T: Scalar>(buf: Seq<T>, from: int, vals: Seq<T>) -> Seq<T> {
    put(buf, from, Seq::new(vals.len(), |x: int| buf[from + x].s_plus(vals[x])))
}

/// The same for regrets.
pub open spec fn added_floored<T: Scalar>(buf: Seq<T>, from: int, vals: Seq<T>) -> Seq<T> {
    put(buf, from, Seq::new(vals.len(), |x: int| floored(buf[from + x].s_plus(vals[x]))))
}

/// The same after a discount, which depends on the regret's sign.
pub open spec fn added_discounted<T: Scalar>(
    buf: Seq<T>,
    from: int,
    vals: Seq<T>,
    pos: T,
    neg: T,
) -> Seq<T> {
    put(
        buf,
        from,
        Seq::new(
            vals.len(),
            |x: int|
                {
                    let r = buf[from + x];
                    floored(
                        r.s_times(
                            if T::s_zero().s_below(r) {
                                pos
                            } else {
                                neg
                            },
                        ).s_plus(vals[x]),
                    )
                },
        ),
    )
}

/// `buf` plus `vals` from `from` on, after a discount.
pub open spec fn added_scaled<T: Scalar>(buf: Seq<T>, from: int, vals: Seq<T>, kept: T) -> Seq<T> {
    put(buf, from, Seq::new(vals.len(), |x: int| buf[from + x].s_times(kept).s_plus(vals[x])))
}

/// Computes [`averaged`].
pub fn average<T: Scalar>(own: bool, s: &Vec<T>, nh: usize, vs: &Vec<Vec<T>>) -> (out: Vec<T>)
    requires
        forall|a: int| 0 <= a < vs@.len() ==> (#[trigger] vs@[a])@.len() == nh,
        own ==> s@.len() == vs@.len() * nh,
    ensures
        out@ == averaged(own, s@, nh as int, views(vs@)),
{
    let ghost vv = views(vs@);
    let total: usize = s.len();
    let na: usize = vs.len();
    let mut out: Vec<T> = Vec::new();
    let mut h: usize = 0;
    while h < nh
        invariant
            h <= nh,
            na == vs@.len(),
            vv == views(vs@),
            total == s@.len(),
            forall|a: int| 0 <= a < na ==> (#[trigger] vs@[a])@.len() == nh,
            own ==> s@.len() == na * nh,
            out@.len() == h,
            forall|k: int|
                0 <= k < h ==> #[trigger] out@[k] == averaged(own, s@, nh as int, vv)[k],
        decreases nh - h,
    {
        let mut x: T = T::zero();
        let mut a: usize = 0;
        while a < na
            invariant
                a <= na,
                h < nh,
                na == vs@.len(),
                vv == views(vs@),
                total == s@.len(),
                forall|c: int| 0 <= c < na ==> (#[trigger] vs@[c])@.len() == nh,
                own ==> s@.len() == na * nh,
                x == if own {
                    sum_upto(weighted(s@, nh as int, vv, h as int), a as nat)
                } else {
                    sum_upto(across(vv, h as int), a as nat)
                },
            decreases na - a,
        {
            let y = vs[a][h];
            assert(vv[a as int][h as int] == y);
            if own {
                proof {
                    lemma_at_bound(nh as int, na as int, a as int, h as int);
                }
                x = x.plus(s[a * nh + h].times(y));
            } else {
                x = x.plus(y);
            }
            a += 1;
        }
        out.push(x);
        h += 1;
    }
    assert(out@ =~= averaged(own, s@, nh as int, vv));
    out
}

/// Computes [`gains`].
pub fn gains_of<T: Scalar>(weight: T, nh: usize, vs: &Vec<Vec<T>>, avg: &Vec<T>) -> (out: Vec<T>)
    requires
        forall|a: int| 0 <= a < vs@.len() ==> (#[trigger] vs@[a])@.len() == nh,
        avg@.len() == nh,
    ensures
        out@ == gains(weight, nh as int, views(vs@), avg@),
        out@.len() == vs@.len() * nh,
{
    let ghost vv = views(vs@);
    let ghost f = |a: int, h: int| weight.s_times(vv[a][h].s_minus(avg@[h]));
    let na: usize = vs.len();
    let mut out: Vec<T> = Vec::new();
    let mut a: usize = 0;
    while a < na
        invariant
            a <= na,
            na == vs@.len(),
            vv == views(vs@),
            f == (|a: int, h: int| weight.s_times(vv[a][h].s_minus(avg@[h]))),
            forall|c: int| 0 <= c < na ==> (#[trigger] vs@[c])@.len() == nh,
            avg@.len() == nh,
            out@.len() == a * nh,
            forall|b: int, g: int|
                0 <= b < a && 0 <= g < nh ==> #[trigger] out@[at(nh as int, b, g)] == f(b, g),
        decreases na - a,
    {
        let ghost was = out@;
        let mut h: usize = 0;
        while h < nh
            invariant
                h <= nh,
                a < na,
                na == vs@.len(),
                vv == views(vs@),
                f == (|a: int, h: int| weight.s_times(vv[a][h].s_minus(avg@[h]))),
                forall|c: int| 0 <= c < na ==> (#[trigger] vs@[c])@.len() == nh,
                avg@.len() == nh,
                was.len() == a * nh,
                out@.len() == a * nh + h,
                out@.take(a * nh) == was,
                forall|g: int| 0 <= g < h ==> #[trigger] out@[a * nh + g] == f(a as int, g),
            decreases nh - h,
        {
            assert(vv[a as int][h as int] == vs@[a as int]@[h as int]);
            let ghost pre = out@;
            out.push(weight.times(vs[a][h].minus(avg[h])));
            assert(out@.take(a * nh) =~= pre.take(a * nh));
            h += 1;
        }
        proof {
            assert((a + 1) * nh == a * nh + nh) by (nonlinear_arith);
            assert forall|b: int, g: int| 0 <= b < a + 1 && 0 <= g < nh implies #[trigger] out@[at(
                nh as int,
                b,
                g,
            )] == f(b, g) by {
                if b < a {
                    lemma_at_bound(nh as int, a as int, b, g);
                    assert(was[at(nh as int, b, g)] == f(b, g));
                    assert(out@.take(a * nh)[at(nh as int, b, g)] == out@[at(nh as int, b, g)]);
                } else {
                    assert(out@[a * nh + g] == f(a as int, g));
                }
            }
        }
        a += 1;
    }
    proof {
        lemma_is_grid(out@, na as int, nh as int, f);
        assert(f =~= |a: int, h: int| weight.s_times(vv[a][h].s_minus(avg@[h])));
    }
    out
}

/// Computes [`plays`].
pub fn plays_of<T: Scalar>(weight: T, na: usize, mine: &Vec<T>, s: &Vec<T>) -> (out: Vec<T>)
    requires
        s@.len() == na * mine@.len(),
    ensures
        out@ == plays(weight, na as int, mine@, s@),
        out@.len() == na * mine@.len(),
{
    let nh: usize = mine.len();
    let total: usize = s.len();
    let ghost f = |a: int, h: int|
        weight.s_times(mine@[h]).s_times(s@[at(mine@.len() as int, a, h)]);
    let mut out: Vec<T> = Vec::new();
    let mut a: usize = 0;
    while a < na
        invariant
            a <= na,
            nh == mine@.len(),
            total == s@.len(),
            s@.len() == na * nh,
            f == (|a: int, h: int|
                weight.s_times(mine@[h]).s_times(s@[at(mine@.len() as int, a, h)])),
            out@.len() == a * nh,
            forall|b: int, g: int|
                0 <= b < a && 0 <= g < nh ==> #[trigger] out@[at(nh as int, b, g)] == f(b, g),
        decreases na - a,
    {
        let ghost was = out@;
        let mut h: usize = 0;
        while h < nh
            invariant
                h <= nh,
                a < na,
                nh == mine@.len(),
                total == s@.len(),
                s@.len() == na * nh,
                f == (|a: int, h: int|
                    weight.s_times(mine@[h]).s_times(s@[at(mine@.len() as int, a, h)])),
                was.len() == a * nh,
                out@.len() == a * nh + h,
                out@.take(a * nh) == was,
                forall|g: int| 0 <= g < h ==> #[trigger] out@[a * nh + g] == f(a as int, g),
            decreases nh - h,
        {
            proof {
                lemma_at_bound(nh as int, na as int, a as int, h as int);
            }
            let ghost pre = out@;
            out.push(weight.times(mine[h]).times(s[a * nh + h]));
            assert(out@.take(a * nh) =~= pre.take(a * nh));
            h += 1;
        }
        proof {
            assert((a + 1) * nh == a * nh + nh) by (nonlinear_arith);
            assert forall|b: int, g: int| 0 <= b < a + 1 && 0 <= g < nh implies #[trigger] out@[at(
                nh as int,
                b,
                g,
            )] == f(b, g) by {
                if b < a {
                    lemma_at_bound(nh as int, a as int, b, g);
                    assert(was[at(nh as int, b, g)] == f(b, g));
                    assert(out@.take(a * nh)[at(nh as int, b, g)] == out@[at(nh as int, b, g)]);
                } else {
                    assert(out@[a * nh + g] == f(a as int, g));
                }
            }
        }
        a += 1;
    }
    proof {
        lemma_is_grid(out@, na as int, nh as int, f);
        assert(f =~= |a: int, h: int|
            weight.s_times(mine@[h]).s_times(s@[at(mine@.len() as int, a, h)]));
    }
    out
}

/// Computes [`stacked`].
pub fn stack<T: Copy>(nh: usize, vs: &Vec<Vec<T>>) -> (out: Vec<T>)
    requires
        forall|a: int| 0 <= a < vs@.len() ==> (#[trigger] vs@[a])@.len() == nh,
    ensures
        out@ == stacked(nh as int, views(vs@)),
        out@.len() == vs@.len() * nh,
{
    let ghost vv = views(vs@);
    let ghost f = |a: int, h: int| vv[a][h];
    let na: usize = vs.len();
    let mut out: Vec<T> = Vec::new();
    let mut a: usize = 0;
    while a < na
        invariant
            a <= na,
            na == vs@.len(),
            vv == views(vs@),
            f == (|a: int, h: int| vv[a][h]),
            forall|c: int| 0 <= c < na ==> (#[trigger] vs@[c])@.len() == nh,
            out@.len() == a * nh,
            forall|b: int, g: int|
                0 <= b < a && 0 <= g < nh ==> #[trigger] out@[at(nh as int, b, g)] == f(b, g),
        decreases na - a,
    {
        let ghost was = out@;
        let mut h: usize = 0;
        while h < nh
            invariant
                h <= nh,
                a < na,
                na == vs@.len(),
                vv == views(vs@),
                f == (|a: int, h: int| vv[a][h]),
                forall|c: int| 0 <= c < na ==> (#[trigger] vs@[c])@.len() == nh,
                was.len() == a * nh,
                out@.len() == a * nh + h,
                out@.take(a * nh) == was,
                forall|g: int| 0 <= g < h ==> #[trigger] out@[a * nh + g] == f(a as int, g),
            decreases nh - h,
        {
            assert(vv[a as int][h as int] == vs@[a as int]@[h as int]);
            let ghost pre = out@;
            out.push(vs[a][h]);
            assert(out@.take(a * nh) =~= pre.take(a * nh));
            h += 1;
        }
        proof {
            assert((a + 1) * nh == a * nh + nh) by (nonlinear_arith);
            assert forall|b: int, g: int| 0 <= b < a + 1 && 0 <= g < nh implies #[trigger] out@[at(
                nh as int,
                b,
                g,
            )] == f(b, g) by {
                if b < a {
                    lemma_at_bound(nh as int, a as int, b, g);
                    assert(was[at(nh as int, b, g)] == f(b, g));
                    assert(out@.take(a * nh)[at(nh as int, b, g)] == out@[at(nh as int, b, g)]);
                } else {
                    assert(out@[a * nh + g] == f(a as int, g));
                }
            }
        }
        a += 1;
    }
    proof {
        lemma_is_grid(out@, na as int, nh as int, f);
        assert(f =~= |a: int, h: int| vv[a][h]);
    }
    out
}

/// `x`, or the regret floor if that is higher.
pub fn lifted<T: Scalar>(x: T) -> (y: T)
    ensures
        y == floored(x),
{
    let floor = regret_floor::<T>();
    if x.below(floor) {
        floor
    } else {
        x
    }
}

/// Computes [`added`].
pub fn add_into<T: Scalar>(buf: &mut Vec<T>, from: usize, vals: &Vec<T>)
    requires
        from + vals@.len() <= old(buf)@.len(),
    ensures
        final(buf)@ == added(old(buf)@, from as int, vals@),
{
    let n: usize = vals.len();
    let len: usize = buf.len();
    let ghost was = buf@;
    let ghost new = Seq::new(vals@.len(), |x: int| was[from + x].s_plus(vals@[x]));
    let mut k: usize = 0;
    while k < n
        invariant
            k <= n,
            n == vals@.len(),
            len == was.len(),
            buf@.len() == len,
            from + n <= len,
            new == Seq::new(vals@.len(), |x: int| was[from + x].s_plus(vals@[x])),
            buf@ == put(was, from as int, new.take(k as int)),
        decreases n - k,
    {
        let y = buf[from + k].plus(vals[k]);
        buf[from + k] = y;
        k += 1;
        assert(buf@ =~= put(was, from as int, new.take(k as int)));
    }
    assert(new.take(n as int) =~= new);
    assert(n == 0 ==> buf@ =~= put(was, from as int, new));
}

/// Computes [`added_floored`].
pub fn add_floored<T: Scalar>(buf: &mut Vec<T>, from: usize, vals: &Vec<T>)
    requires
        from + vals@.len() <= old(buf)@.len(),
    ensures
        final(buf)@ == added_floored(old(buf)@, from as int, vals@),
{
    let n: usize = vals.len();
    let len: usize = buf.len();
    let ghost was = buf@;
    let ghost new = Seq::new(vals@.len(), |x: int| floored(was[from + x].s_plus(vals@[x])));
    let mut k: usize = 0;
    while k < n
        invariant
            k <= n,
            n == vals@.len(),
            len == was.len(),
            buf@.len() == len,
            from + n <= len,
            new == Seq::new(vals@.len(), |x: int| floored(was[from + x].s_plus(vals@[x]))),
            buf@ == put(was, from as int, new.take(k as int)),
        decreases n - k,
    {
        let y = lifted(buf[from + k].plus(vals[k]));
        buf[from + k] = y;
        k += 1;
        assert(buf@ =~= put(was, from as int, new.take(k as int)));
    }
    assert(new.take(n as int) =~= new);
    assert(n == 0 ==> buf@ =~= put(was, from as int, new));
}

/// Computes [`added_discounted`].
pub fn add_discounted<T: Scalar>(buf: &mut Vec<T>, from: usize, vals: &Vec<T>, pos: T, neg: T)
    requires
        from + vals@.len() <= old(buf)@.len(),
    ensures
        final(buf)@ == added_discounted(old(buf)@, from as int, vals@, pos, neg),
{
    let n: usize = vals.len();
    let len: usize = buf.len();
    let ghost was = buf@;
    let ghost new = Seq::new(
        vals@.len(),
        |x: int|
            {
                let r = was[from + x];
                floored(
                    r.s_times(
                        if T::s_zero().s_below(r) {
                            pos
                        } else {
                            neg
                        },
                    ).s_plus(vals@[x]),
                )
            },
    );
    let ghost all = added_discounted(was, from as int, vals@, pos, neg);
    assert(all =~= put(was, from as int, new));
    let mut k: usize = 0;
    while k < n
        invariant
            k <= n,
            n == vals@.len(),
            len == was.len(),
            buf@.len() == len,
            from + n <= len,
            all == added_discounted(was, from as int, vals@, pos, neg),
            forall|x: int|
                0 <= x < len ==> #[trigger] buf@[x] == if from <= x < from + k {
                    all[x]
                } else {
                    was[x]
                },
        decreases n - k,
    {
        let r = buf[from + k];
        let kept = if T::zero().below(r) {
            pos
        } else {
            neg
        };
        let y = lifted(r.times(kept).plus(vals[k]));
        buf[from + k] = y;
        assert(y == all[from + k]);
        k += 1;
    }
    assert(buf@ =~= all);
}

/// Computes [`added_scaled`].
pub fn add_scaled<T: Scalar>(buf: &mut Vec<T>, from: usize, vals: &Vec<T>, kept: T)
    requires
        from + vals@.len() <= old(buf)@.len(),
    ensures
        final(buf)@ == added_scaled(old(buf)@, from as int, vals@, kept),
{
    let n: usize = vals.len();
    let len: usize = buf.len();
    let ghost was = buf@;
    let ghost all = added_scaled(was, from as int, vals@, kept);
    let mut k: usize = 0;
    while k < n
        invariant
            k <= n,
            n == vals@.len(),
            len == was.len(),
            buf@.len() == len,
            from + n <= len,
            all == added_scaled(was, from as int, vals@, kept),
            forall|x: int|
                0 <= x < len ==> #[trigger] buf@[x] == if from <= x < from + k {
                    all[x]
                } else {
                    was[x]
                },
        decreases n - k,
    {
        let y = buf[from + k].times(kept).plus(vals[k]);
        buf[from + k] = y;
        assert(y == all[from + k]);
        k += 1;
    }
    assert(buf@ =~= all);
}

/// Two rows, added up.
pub open spec fn row_sum<T: Scalar>(v: Seq<T>, w: Seq<T>) -> Seq<T> {
    Seq::new(v.len(), |h: int| v[h].s_plus(w[h]))
}

/// Computes [`row_sum`].
pub fn add_rows_of<T: Scalar>(v: &mut Vec<T>, w: &Vec<T>)
    requires
        old(v)@.len() == w@.len(),
    ensures
        final(v)@ == row_sum(old(v)@, w@),
{
    let n: usize = v.len();
    let ghost was = v@;
    let mut h: usize = 0;
    while h < n
        invariant
            h <= n,
            n == was.len(),
            n == w@.len(),
            v@.len() == n,
            forall|x: int|
                0 <= x < n ==> #[trigger] v@[x] == if x < h {
                    row_sum(was, w@)[x]
                } else {
                    was[x]
                },
        decreases n - h,
    {
        let y = v[h].plus(w[h]);
        v[h] = y;
        h += 1;
    }
    assert(v@ =~= row_sum(was, w@));
}

/// A row with its first entries multiplied.
pub open spec fn row_scaled<T: Scalar>(v: Seq<T>, by: Seq<T>) -> Seq<T> {
    Seq::new(
        v.len(),
        |h: int|
            if h < by.len() {
                v[h].s_times(by[h])
            } else {
                v[h]
            },
    )
}

/// Computes [`row_scaled`].
pub fn scale_row<T: Scalar>(v: &Vec<T>, by: &Vec<T>) -> (out: Vec<T>)
    ensures
        out@ == row_scaled(v@, by@),
{
    let mut out: Vec<T> = Vec::new();
    let mut h: usize = 0;
    while h < v.len()
        invariant
            h <= v@.len(),
            out@.len() == h,
            forall|x: int| 0 <= x < h ==> #[trigger] out@[x] == row_scaled(v@, by@)[x],
        decreases v@.len() - h,
    {
        if h < by.len() {
            out.push(v[h].times(by[h]));
        } else {
            out.push(v[h]);
        }
        h += 1;
    }
    assert(out@ =~= row_scaled(v@, by@));
    out
}

/// All rows with their first entries multiplied.
pub open spec fn rows_scaled<T: Scalar>(rows: Seq<Seq<T>>, by: Seq<T>) -> Seq<Seq<T>> {
    Seq::new(rows.len(), |p: int| row_scaled(rows[p], by))
}

/// Computes [`rows_scaled`].
pub fn scale_rows<T: Scalar>(rows: &Vec<Vec<T>>, by: &Vec<T>) -> (out: Vec<Vec<T>>)
    ensures
        views(out@) == rows_scaled(views(rows@), by@),
{
    let mut out: Vec<Vec<T>> = Vec::new();
    let mut p: usize = 0;
    while p < rows.len()
        invariant
            p <= rows@.len(),
            out@.len() == p,
            forall|x: int| 0 <= x < p ==> (#[trigger] out@[x])@ == row_scaled(rows@[x]@, by@),
        decreases rows@.len() - p,
    {
        out.push(scale_row(&rows[p], by));
        p += 1;
    }
    assert(views(out@) =~= rows_scaled(views(rows@), by@));
    out
}

} // verus!
