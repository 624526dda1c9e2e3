//! Entering notes into the ledger: none is lost.
use vstd::prelude::*;

use crate::exact::{is_exact, lemma_orders, lemma_units, Exact};
use crate::mccfr::Ledger;
use crate::mccfr_par::{entered, entered_one, sel_after, Entry};
use crate::scalar::{sum_upto, Scalar};

verus! {

proof fn lemma_front<T: Scalar>(
    l: Ledger<T>,
    es: Seq<Entry<T>>,
    fs: Seq<Entry<T>>,
    disc: (T, T, T),
    sel: Seq<T>,
    n: nat,
)
    requires
        n <= es.len(),
    ensures
        entered(l, es + fs, disc, n) == entered(l, es, disc, n),
        sel_after(sel, es + fs, n) == sel_after(sel, es, n),
    decreases n,
{
    if n > 0 {
        lemma_front(l, es, fs, disc, sel, (n - 1) as nat);
        assert((es + fs)[n - 1] == es[n - 1]);
    }
}

proof fn lemma_back<T: Scalar>(
    l: Ledger<T>,
    es: Seq<Entry<T>>,
    fs: Seq<Entry<T>>,
    disc: (T, T, T),
    sel: Seq<T>,
    n: nat,
)
    requires
        n <= fs.len(),
    ensures
        entered(l, es + fs, disc, es.len() + n) == entered(
            entered(l, es, disc, es.len()),
            fs,
            disc,
            n,
        ),
        sel_after(sel, es + fs, es.len() + n) == sel_after(
            sel_after(sel, es, es.len()),
            fs,
            n,
        ),
    decreases n,
{
    if n == 0 {
        lemma_front(l, es, fs, disc, sel, es.len());
    } else {
        lemma_back(l, es, fs, disc, sel, (n - 1) as nat);
        assert((es + fs)[es.len() + n - 1] == fs[n - 1]);
        assert((es.len() + n - 1) as nat == es.len() + (n - 1) as nat);
    }
}

/// Notes entered one after the other are all entered: some first and the others after that
/// is the same as all at once.
pub proof fn law_notes_accumulate<T: Scalar>(
    l: Ledger<T>,
    es: Seq<Entry<T>>,
    fs: Seq<Entry<T>>,
    disc: (T, T, T),
    sel: Seq<T>,
)
    ensures
        entered(l, es + fs, disc, (es + fs).len()) == entered(
            entered(l, es, disc, es.len()),
            fs,
            disc,
            fs.len(),
        ),
        sel_after(sel, es + fs, (es + fs).len()) == sel_after(
            sel_after(sel, es, es.len()),
            fs,
            fs.len(),
        ),
{
    lemma_back(l, es, fs, disc, sel, fs.len());
}

/// What values that start at `from` have at place `x`.
pub open spec fn part_at<T: Scalar>(from: int, vals: Seq<T>, x: int) -> T {
    if from <= x < from + vals.len() {
        vals[x - from]
    } else {
        T::s_zero()
    }
}

/// What each note saw at place `x`.
pub open spec fn seen_parts<T: Scalar>(es: Seq<Entry<T>>, x: int) -> spec_fn(int) -> T {
    |k: int|
        if es[k].selection {
            T::s_zero()
        } else {
            part_at(es[k].from, es[k].seen, x)
        }
}

/// How often each note of a decision plays what stands at place `x`.
pub open spec fn taken_parts<T: Scalar>(es: Seq<Entry<T>>, x: int) -> spec_fn(int) -> T {
    |k: int|
        if es[k].selection {
            T::s_zero()
        } else {
            part_at(es[k].from, es[k].taken, x)
        }
}

/// How often each note of a choice takes what stands at place `x`.
pub open spec fn choice_parts<T: Scalar>(es: Seq<Entry<T>>, x: int) -> spec_fn(int) -> T {
    |k: int|
        if es[k].selection {
            part_at(es[k].from, es[k].taken, x)
        } else {
            T::s_zero()
        }
}

/// Every note lies inside the ledger.
pub open spec fn notes_fit<T: Scalar>(l: Ledger<T>, es: Seq<Entry<T>>) -> bool {
    forall|k: int|
        0 <= k < es.len() ==> {
            let e = #[trigger] es[k];
            &&& 0 <= e.from
            &&& e.selection ==> e.from + e.taken.len() <= l.sel_cum.len()
            &&& !e.selection ==> e.from + e.taken.len() <= l.cum.len()
            &&& !e.selection ==> e.from + e.seen.len() <= l.seen.len()
        }
}

/// Without a discount, the ledger ends with what it had and what all the notes add, place by
/// place.
pub proof fn law_all_notes_are_entered<T: Scalar>(
    l: Ledger<T>,
    es: Seq<Entry<T>>,
    disc: (T, T, T),
    x: int,
    n: nat,
)
    requires
        is_exact::<T>(),
        disc.2 == T::s_one(),
        notes_fit(l, es),
        n <= es.len(),
    ensures
        ({
            let after = entered(l, es, disc, n);
            &&& after.seen.len() == l.seen.len()
            &&& after.cum.len() == l.cum.len()
            &&& after.sel_cum.len() == l.sel_cum.len()
            &&& 0 <= x < l.seen.len() ==> after.seen[x] == l.seen[x] + sum_upto(
                seen_parts(es, x),
                n,
            )
            &&& 0 <= x < l.cum.len() ==> after.cum[x] == l.cum[x] + sum_upto(taken_parts(es, x), n)
            &&& 0 <= x < l.sel_cum.len() ==> after.sel_cum[x] == l.sel_cum[x] + sum_upto(
                choice_parts(es, x),
                n,
            )
        }),
    decreases n,
{
    let (f, g, h) = (seen_parts(es, x), taken_parts(es, x), choice_parts(es, x));
    if n == 0 {
        lemma_units(l.seen[x]);
        lemma_units(l.cum[x]);
        lemma_units(l.sel_cum[x]);
    } else {
        let m = (n - 1) as nat;
        law_all_notes_are_entered(l, es, disc, x, m);
        let prev = entered(l, es, disc, m);
        let e = es[n - 1];
        let now = entered_one(prev, e, disc);
        assert(now == entered(l, es, disc, n));
        lemma_units(prev.seen[x]);
        lemma_units(prev.cum[x]);
        lemma_units(prev.sel_cum[x]);
        lemma_orders(l.seen[x], sum_upto(f, m), f(n - 1));
        lemma_orders(l.cum[x], sum_upto(g, m), g(n - 1));
        lemma_orders(l.sel_cum[x], sum_upto(h, m), h(n - 1));
        assert(0 <= x < l.seen.len() ==> now.seen[x] == prev.seen[x] + f(n - 1));
        assert(0 <= x < l.cum.len() ==> now.cum[x] == prev.cum[x] + g(n - 1));
        assert(0 <= x < l.sel_cum.len() ==> now.sel_cum[x] == prev.sel_cum[x] + h(n - 1));
    }
}

} // verus!
