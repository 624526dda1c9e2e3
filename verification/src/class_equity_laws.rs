//! What sampled equities add up to.
use vstd::prelude::*;
use vstd::seq_lib::{to_multiset_build, to_multiset_contains, to_multiset_insert};

use crate::cluster_laws::one_if;
use crate::exact::{
    is_exact, lemma_orders, lemma_pairs, lemma_spread, lemma_units, row_of, row_sums, sum2, Exact,
};
use crate::exploit_laws::quotients_return;
use crate::preflop_allin_equity::{
    blocked, cards_left, class_equity, class_hands, drawn, first_state, matched_all, matched_row,
    sampled, stirred, taken_out, Evaluator, Sums,
};
use crate::scalar::{sum_upto, Scalar, Widen};

verus! {

/// Whole numbers count by ones, from zero up.
#[verifier::opaque]
pub open spec fn counts_by_ones<W: Scalar>() -> bool {
    &&& W::s_of(0) == W::s_zero()
    &&& forall|n: int| n > 0 ==> #[trigger] W::s_of(n) == W::s_of(n - 1).s_plus(W::s_one())
    &&& forall|n: int| n > 0 ==> W::s_zero().s_below(#[trigger] W::s_of(n))
}

proof fn lemma_next<W: Scalar>(n: int)
    requires
        counts_by_ones::<W>(),
    ensures
        W::s_of(0) == W::s_zero(),
        n > 0 ==> W::s_of(n) == W::s_of(n - 1) + W::s_one(),
        n > 0 ==> W::s_zero().s_below(W::s_of(n)),
{
    reveal(counts_by_ones);
}

/// Two halves are one.
proof fn lemma_halves<W: Scalar>()
    requires
        is_exact::<W>(),
        counts_by_ones::<W>(),
        quotients_return::<W>(),
    ensures
        ({
            let half = W::s_one().s_over(W::s_of(2));
            half + half == W::s_one()
        }),
{
    let one = W::s_one();
    let half = one.s_over(W::s_of(2));
    lemma_next::<W>(1);
    lemma_next::<W>(2);
    lemma_units(one);
    lemma_units(half);
    lemma_spread(half, one, one);
    assert(half * W::s_of(2) == one) by {
        reveal(quotients_return);
    }
}

/// Each sample is shared out between the two hands: from the same state, what the one gets
/// and what the other gets make up the number of samples.
pub proof fn law_samples_are_shared_out<
    W: Scalar,
    H: Copy,
    A: Fn(H, u8) -> H,
    K: Fn(H) -> u16,
>(e: &Evaluator<H, A, K>, deck: Seq<u8>, h: H, o: H, r: u64, n: nat)
    requires
        is_exact::<W>(),
        counts_by_ones::<W>(),
        quotients_return::<W>(),
    ensures
        sampled::<W, H, A, K>(e, deck, h, o, r, n).0 + sampled::<W, H, A, K>(
            e,
            deck,
            o,
            h,
            r,
            n,
        ).0 == W::s_of(n as int),
        sampled::<W, H, A, K>(e, deck, h, o, r, n).1 == sampled::<W, H, A, K>(
            e,
            deck,
            o,
            h,
            r,
            n,
        ).1,
    decreases n,
{
    lemma_next::<W>(n as int);
    if n == 0 {
        lemma_units(W::s_zero());
    } else {
        let m = (n - 1) as nat;
        law_samples_are_shared_out::<W, H, A, K>(e, deck, h, o, r, m);
        let p = sampled::<W, H, A, K>(e, deck, h, o, r, m).0;
        let q = sampled::<W, H, A, K>(e, deck, o, h, r, m).0;
        let one = W::s_one();
        let half = one.s_over(W::s_of(2));
        lemma_halves::<W>();
        lemma_orders(p, q, one);
        lemma_orders(p, one, q);
        lemma_pairs(p, half, q, half);
        assert(W::s_of(m as int) == p + q);
    }
}

/// A sequence is the rest and what was taken out of it.
proof fn lemma_take(s: Seq<u8>, k: int)
    requires
        0 <= k < s.len(),
    ensures
        s.to_multiset() == s.remove(k).to_multiset().insert(s[k]),
{
    to_multiset_insert(s.remove(k), k, s[k]);
    assert(s.remove(k).insert(k, s[k]) =~= s);
}

proof fn lemma_taken_out(s: Seq<u8>, i: int)
    requires
        0 <= i < s.len(),
    ensures
        s.to_multiset() == taken_out(s, i).to_multiset().insert(s[i]),
{
    let last: int = s.len() - 1;
    lemma_take(s, last);
    let rest = s.remove(last);
    let out = taken_out(s, i);
    if i == last {
        assert(out =~= rest);
    } else {
        lemma_take(rest, i);
        lemma_take(out, i);
        assert(out.remove(i) =~= rest.remove(i));
        let both = rest.remove(i).to_multiset();
        assert(both.insert(s[i]).insert(s[last]) =~= both.insert(s[last]).insert(s[i]));
    }
}

/// Cards are dealt out of the pool: those dealt and those left are the cards of the pool.
pub proof fn law_dealt_cards_leave_the_pool(pool: Seq<u8>, r: u64, n: nat)
    requires
        n <= pool.len(),
    ensures
        drawn(pool, r, n).0.len() == n,
        pool.to_multiset() == drawn(pool, r, n).0.to_multiset().add(
            drawn(pool, r, n).1.to_multiset(),
        ),
    decreases n,
{
    if n == 0 {
        let none = drawn(pool, r, n).0;
        assert forall|c: u8| #[trigger] none.to_multiset().count(c) == 0 by {
            to_multiset_contains(none, c);
        }
        assert(pool.to_multiset() =~= drawn(pool, r, n).0.to_multiset().add(pool.to_multiset()));
    } else {
        let m = (n - 1) as nat;
        law_dealt_cards_leave_the_pool(pool, r, m);
        let (board, rest, q) = drawn(pool, r, m);
        let q2 = stirred(q);
        assert(rest.len() == pool.len() - m) by {
            lemma_left(pool, r, m);
        }
        let i = q2 as int % rest.len() as int;
        assert(0 <= i < rest.len()) by (nonlinear_arith)
            requires
                rest.len() > 0,
                i == q2 as int % rest.len() as int,
        ;
        lemma_taken_out(rest, i);
        to_multiset_build(board, rest[i]);
        let (a, b) = (board.to_multiset(), taken_out(rest, i).to_multiset());
        assert(a.add(b.insert(rest[i])) =~= a.insert(rest[i]).add(b));
    }
}

proof fn lemma_left(pool: Seq<u8>, r: u64, n: nat)
    requires
        n <= pool.len(),
    ensures
        drawn(pool, r, n).1.len() == pool.len() - n,
    decreases n,
{
    if n > 0 {
        lemma_left(pool, r, (n - 1) as nat);
        let (board, rest, q) = drawn(pool, r, (n - 1) as nat);
        let q2 = stirred(q);
        assert(0 <= q2 as int % rest.len() as int) by (nonlinear_arith)
            requires
                rest.len() as int > 0,
        ;
    }
}

/// Five cards that can be dealt from the deck.
pub open spec fn is_board(deck: Seq<u8>, board: Seq<u8>) -> bool {
    &&& board.len() == 5
    &&& forall|c: u8| #[trigger]
        board.to_multiset().count(c) <= deck.to_multiset().count(c)
}

/// Hand `h` beats hand `o` on every board of the deck.
pub open spec fn always_beats<H: Copy, A: Fn(H, u8) -> H, K: Fn(H) -> u16>(
    e: &Evaluator<H, A, K>,
    deck: Seq<u8>,
    h: H,
    o: H,
) -> bool {
    forall|board: Seq<u8>| #[trigger]
        is_board(deck, board) ==> e.rank_of(e.with_all(h, board, 5)) > e.rank_of(
            e.with_all(o, board, 5),
        )
}

/// A hand that beats the other on every board gets every sample.
pub proof fn law_a_sure_winner_gets_every_sample<
    W: Scalar,
    H: Copy,
    A: Fn(H, u8) -> H,
    K: Fn(H) -> u16,
>(e: &Evaluator<H, A, K>, deck: Seq<u8>, h: H, o: H, r: u64, n: nat)
    requires
        counts_by_ones::<W>(),
        deck.len() >= 5,
        always_beats(e, deck, h, o),
    ensures
        sampled::<W, H, A, K>(e, deck, h, o, r, n).0 == W::s_of(n as int),
    decreases n,
{
    lemma_next::<W>(n as int);
    if n > 0 {
        let m = (n - 1) as nat;
        law_a_sure_winner_gets_every_sample::<W, H, A, K>(e, deck, h, o, r, m);
        let q = sampled::<W, H, A, K>(e, deck, h, o, r, m).1;
        let board = drawn(deck, q, 5).0;
        law_dealt_cards_leave_the_pool(deck, q, 5);
        assert(is_board(deck, board));
    }
}

/// What the samples of one matchup give the first hand, from state `r`.
pub open spec fn matchup<W: Scalar, H: Copy, A: Fn(H, u8) -> H, K: Fn(H) -> u16>(
    e: &Evaluator<H, A, K>,
    h: [u8; 2],
    o: [u8; 2],
    samples: nat,
    r: u64,
) -> W {
    sampled::<W, H, A, K>(
        e,
        cards_left(h, o, 52),
        e.pair(h[0], h[1]),
        e.pair(o[0], o[1]),
        r,
        samples,
    ).0
}

/// Every two hands that share no card share out the samples as `f` says.
pub open spec fn shares_as<W: Scalar, H: Copy, A: Fn(H, u8) -> H, K: Fn(H) -> u16>(
    e: &Evaluator<H, A, K>,
    heroes: Seq<[u8; 2]>,
    opps: Seq<[u8; 2]>,
    samples: nat,
    f: spec_fn(int, int) -> W,
) -> bool {
    forall|i: int, j: int, r: u64|
        0 <= i < heroes.len() && 0 <= j < opps.len() && !blocked(heroes[i], opps[j])
            ==> #[trigger] matchup::<W, H, A, K>(e, heroes[i], opps[j], samples, r) == f(i, j)
            * W::s_of(samples as int)
}

/// One for every two hands that share no card.
pub open spec fn open_matchups<W: Scalar>(heroes: Seq<[u8; 2]>, opps: Seq<[u8; 2]>) -> spec_fn(
    int,
    int,
) -> W {
    |i: int, j: int| one_if::<W>(!blocked(heroes[i], opps[j]))
}

/// The values of `f` for every two hands that share no card.
pub open spec fn open_shares<W: Scalar>(
    heroes: Seq<[u8; 2]>,
    opps: Seq<[u8; 2]>,
    f: spec_fn(int, int) -> W,
) -> spec_fn(int, int) -> W {
    |i: int, j: int| one_if::<W>(!blocked(heroes[i], opps[j])) * f(i, j)
}

proof fn lemma_row<W: Scalar, H: Copy, A: Fn(H, u8) -> H, K: Fn(H) -> u16>(
    e: &Evaluator<H, A, K>,
    heroes: Seq<[u8; 2]>,
    opps: Seq<[u8; 2]>,
    samples: nat,
    f: spec_fn(int, int) -> W,
    i: int,
    s: Sums<W>,
    n: nat,
)
    requires
        is_exact::<W>(),
        counts_by_ones::<W>(),
        quotients_return::<W>(),
        samples > 0,
        shares_as(e, heroes, opps, samples, f),
        0 <= i < heroes.len(),
        n <= opps.len(),
        s.count >= 0,
    ensures
        ({
            let t = matched_row(e, heroes[i], opps, samples, s, n);
            &&& t.count >= s.count
            &&& t.sum == s.sum + sum_upto(row_of(open_shares(heroes, opps, f), i), n)
            &&& W::s_of(t.count) == W::s_of(s.count) + sum_upto(
                row_of(open_matchups::<W>(heroes, opps), i),
                n,
            )
            &&& forall|j: int|
                0 <= j < n && !blocked(heroes[i], #[trigger] opps[j]) ==> t.count > s.count
        }),
    decreases n,
{
    let (p, q) = (
        row_of(open_shares(heroes, opps, f), i),
        row_of(open_matchups::<W>(heroes, opps), i),
    );
    if n == 0 {
        lemma_units(s.sum);
        lemma_units(W::s_of(s.count));
    } else {
        let m = (n - 1) as nat;
        let j: int = n - 1;
        lemma_row(e, heroes, opps, samples, f, i, s, m);
        let t = matched_row(e, heroes[i], opps, samples, s, m);
        lemma_units(f(i, j));
        lemma_orders(s.sum, sum_upto(p, m), p(j));
        lemma_orders(W::s_of(s.count), sum_upto(q, m), q(j));
        if blocked(heroes[i], opps[j]) {
            lemma_units(t.sum);
            lemma_units(W::s_of(t.count));
        } else {
            lemma_next::<W>(samples as int);
            lemma_next::<W>(t.count + 1);
            let w = matchup::<W, H, A, K>(e, heroes[i], opps[j], samples, t.state);
            assert(w == f(i, j) * W::s_of(samples as int));
            assert(w.s_over(W::s_of(samples as int)) == f(i, j)) by {
                reveal(quotients_return);
            }
        }
    }
}

proof fn lemma_rows<W: Scalar, H: Copy, A: Fn(H, u8) -> H, K: Fn(H) -> u16>(
    e: &Evaluator<H, A, K>,
    heroes: Seq<[u8; 2]>,
    opps: Seq<[u8; 2]>,
    samples: nat,
    f: spec_fn(int, int) -> W,
    s: Sums<W>,
    n: nat,
)
    requires
        is_exact::<W>(),
        counts_by_ones::<W>(),
        quotients_return::<W>(),
        samples > 0,
        shares_as(e, heroes, opps, samples, f),
        n <= heroes.len(),
        s.count >= 0,
    ensures
        ({
            let t = matched_all(e, heroes, opps, samples, s, n);
            &&& t.count >= s.count
            &&& t.sum == s.sum + sum2(open_shares(heroes, opps, f), n, opps.len())
            &&& W::s_of(t.count) == W::s_of(s.count) + sum2(
                open_matchups::<W>(heroes, opps),
                n,
                opps.len(),
            )
            &&& forall|i: int, j: int|
                0 <= i < n && 0 <= j < opps.len() && !blocked(
                    #[trigger] heroes[i],
                    #[trigger] opps[j],
                ) ==> t.count > s.count
        }),
    decreases n,
{
    let m = opps.len();
    let (p, q) = (
        row_sums(open_shares(heroes, opps, f), m),
        row_sums(open_matchups::<W>(heroes, opps), m),
    );
    if n == 0 {
        lemma_units(s.sum);
        lemma_units(W::s_of(s.count));
    } else {
        let k = (n - 1) as nat;
        lemma_rows(e, heroes, opps, samples, f, s, k);
        let t = matched_all(e, heroes, opps, samples, s, k);
        lemma_row(e, heroes, opps, samples, f, n - 1, t, m);
        lemma_orders(s.sum, sum_upto(p, k), p(n - 1));
        lemma_orders(W::s_of(s.count), sum_upto(q, k), q(n - 1));
    }
}

/// The equity of a class against another is the mean over every two of their hands that
/// share no card: where the shares do not depend on the state, it is all of them added up,
/// over their number.
pub proof fn law_class_equity_is_a_mean<T: Widen, H: Copy, A: Fn(H, u8) -> H, K: Fn(H) -> u16>(
    e: &Evaluator<H, A, K>,
    hc: usize,
    oc: usize,
    samples: usize,
    seed: u64,
    f: spec_fn(int, int) -> T::Wide,
    i: int,
    j: int,
)
    requires
        is_exact::<T::Wide>(),
        counts_by_ones::<T::Wide>(),
        quotients_return::<T::Wide>(),
        samples > 0,
        shares_as(e, class_hands(hc as int), class_hands(oc as int), samples as nat, f),
        0 <= i < class_hands(hc as int).len(),
        0 <= j < class_hands(oc as int).len(),
        !blocked(class_hands(hc as int)[i], class_hands(oc as int)[j]),
    ensures
        ({
            let heroes = class_hands(hc as int);
            let opps = class_hands(oc as int);
            class_equity::<T, H, A, K>(e, hc, oc, samples, seed) == T::s_narrow(
                sum2(open_shares(heroes, opps, f), heroes.len(), opps.len()).s_over(
                    sum2(open_matchups::<T::Wide>(heroes, opps), heroes.len(), opps.len()),
                ),
            )
        }),
{
    let heroes = class_hands(hc as int);
    let opps = class_hands(oc as int);
    let s = Sums { sum: T::Wide::s_zero(), count: 0, state: first_state(hc, oc, seed) };
    lemma_rows(e, heroes, opps, samples as nat, f, s, heroes.len());
    lemma_next::<T::Wide>(0);
    let t = matched_all(e, heroes, opps, samples as nat, s, heroes.len());
    assert(blocked(heroes[i], opps[j]) || t.count > 0);
    lemma_units(sum2(open_shares(heroes, opps, f), heroes.len(), opps.len()));
    lemma_units(sum2(open_matchups::<T::Wide>(heroes, opps), heroes.len(), opps.len()));
}

} // verus!
