//! Equity of two hands that are all in before the flop: nothing is decided any more,
//! five cards of board are dealt.
use vstd::prelude::*;

use crate::answers::{answer_one, answer_two, answers_one, answers_two, ask_one, ask_two};
use crate::card::NUM_POSSIBLE_HANDS;
use crate::deck::{hand_of, high_card, low_card};
use crate::grid::{grid, lemma_grid, lemma_is_grid};
use crate::layout::{at, count_upto, lemma_count_bound};
use crate::mccfr_steps::stack;
use crate::parallel::par_map;
use crate::preflop_class::{
    class_combos, class_of, class_size, in_class, lemma_listed_len, listed, NUM_PREFLOP_CLASSES,
    PreflopClass,
};
use crate::scalar::{filled, Scalar, Widen};
use crate::terminal::views;

verus! {

/// Ranks hands of cards: from `empty`, cards are added one by one, and the hand is
/// ranked when it is complete. A higher rank wins.
pub struct Evaluator<H, A, K> {
    pub empty: H,
    pub add: A,
    pub rank: K,
}

impl<H: Copy, A: Fn(H, u8) -> H, K: Fn(H) -> u16> Evaluator<H, A, K> {
    pub open spec fn wf(&self) -> bool {
        answers_two(&self.add) && answers_one(&self.rank)
    }

    /// The hand `h` and one more card.
    pub open spec fn with(&self, h: H, c: u8) -> H {
        answer_two(&self.add, h, c)
    }

    pub open spec fn rank_of(&self, h: H) -> u16 {
        answer_one(&self.rank, h)
    }

    /// The hand `h` and the first `n` cards of a list.
    pub open spec fn with_all(&self, h: H, cards: Seq<u8>, n: nat) -> H
        decreases n,
    {
        if n == 0 {
            h
        } else {
            self.with(self.with_all(h, cards, (n - 1) as nat), cards[n - 1])
        }
    }

    /// The hand of two cards.
    pub open spec fn pair(&self, a: u8, b: u8) -> H {
        self.with(self.with(self.empty, a), b)
    }

    pub(crate) fn add_card(&self, h: H, c: u8) -> (g: H)
        requires
            self.wf(),
        ensures
            g == self.with(h, c),
    {
        ask_two(&self.add, h, c)
    }

    pub(crate) fn evaluate(&self, h: H) -> (r: u16)
        requires
            self.wf(),
        ensures
            r == self.rank_of(h),
    {
        ask_one(&self.rank, h)
    }
}

/// Boards won and tied by hero, and all boards.
#[derive(Clone, Copy)]
pub struct Runouts {
    pub win: int,
    pub tie: int,
    pub total: int,
}

/// One board.
pub open spec fn runout(hero: u16, opp: u16) -> Runouts {
    Runouts {
        win: if hero > opp {
            1
        } else {
            0
        },
        tie: if hero == opp {
            1
        } else {
            0
        },
        total: 1,
    }
}

pub open spec fn both(a: Runouts, b: Runouts) -> Runouts {
    Runouts { win: a.win + b.win, tie: a.tie + b.tie, total: a.total + b.total }
}

/// All ways to complete two hands by `left` cards of the deck from place `from` on.
pub open spec fn runouts<H: Copy, A: Fn(H, u8) -> H, K: Fn(H) -> u16>(
    e: &Evaluator<H, A, K>,
    deck: Seq<u8>,
    from: int,
    left: nat,
    h: H,
    o: H,
) -> Runouts
    decreases deck.len() - from,
{
    if left == 0 {
        runout(e.rank_of(h), e.rank_of(o))
    } else if from < 0 || from >= deck.len() {
        Runouts { win: 0, tie: 0, total: 0 }
    } else {
        both(
            runouts(
                e,
                deck,
                from + 1,
                (left - 1) as nat,
                e.with(h, deck[from]),
                e.with(o, deck[from]),
            ),
            runouts(e, deck, from + 1, left, h, o),
        )
    }
}

/// Two to the `n`.
pub open spec fn doubled(n: nat) -> int
    decreases n,
{
    if n == 0 {
        1
    } else {
        2 * doubled((n - 1) as nat)
    }
}

proof fn lemma_doubled(n: nat, m: nat)
    requires
        n <= m,
    ensures
        1 <= doubled(n) <= doubled(m),
    decreases m,
{
    if m > 0 {
        if n < m {
            lemma_doubled(n, (m - 1) as nat);
        } else {
            lemma_doubled((n - 1) as nat, (m - 1) as nat);
        }
    }
}

proof fn lemma_runouts_bound<H: Copy, A: Fn(H, u8) -> H, K: Fn(H) -> u16>(
    e: &Evaluator<H, A, K>,
    deck: Seq<u8>,
    from: int,
    left: nat,
    h: H,
    o: H,
)
    requires
        0 <= from <= deck.len(),
    ensures
        ({
            let r = runouts(e, deck, from, left, h, o);
            &&& 0 <= r.win
            &&& 0 <= r.tie
            &&& r.win + r.tie <= r.total <= doubled((deck.len() - from) as nat)
        }),
    decreases deck.len() - from,
{
    lemma_doubled(0, (deck.len() - from) as nat);
    if left > 0 && from < deck.len() {
        lemma_runouts_bound(
            e,
            deck,
            from + 1,
            (left - 1) as nat,
            e.with(h, deck[from]),
            e.with(o, deck[from]),
        );
        lemma_runouts_bound(e, deck, from + 1, left, h, o);
    }
}

proof fn lemma_deck_total()
    ensures
        doubled(52) == 0x10_0000_0000_0000,
{
    assert(doubled(13) == 8192) by {
        reveal_with_fuel(doubled, 14);
    }
    assert(doubled(26) == 67108864) by {
        reveal_with_fuel(doubled, 14);
    }
    assert(doubled(39) == 549755813888) by {
        reveal_with_fuel(doubled, 14);
    }
    reveal_with_fuel(doubled, 14);
}

/// Counts [`runouts`].
#[verifier::rlimit(30)]
fn count_runouts<H: Copy, A: Fn(H, u8) -> H, K: Fn(H) -> u16>(
    e: &Evaluator<H, A, K>,
    deck: &Vec<u8>,
    from: usize,
    left: usize,
    h: H,
    o: H,
) -> (r: (u64, u64, u64))
    requires
        e.wf(),
        from <= deck@.len() <= 52,
    ensures
        ({
            let want = runouts(e, deck@, from as int, left as nat, h, o);
            &&& r.0 == want.win
            &&& r.1 == want.tie
            &&& r.2 == want.total
            &&& want.win + want.tie <= want.total <= 0x10_0000_0000_0000
        }),
    decreases left,
{
    proof {
        lemma_runouts_bound(e, deck@, from as int, left as nat, h, o);
        lemma_doubled((deck@.len() - from) as nat, 52);
        lemma_deck_total();
    }
    if left == 0 {
        let hr: u16 = e.evaluate(h);
        let or: u16 = e.evaluate(o);
        return (
            if hr > or {
                1
            } else {
                0
            },
            if hr == or {
                1
            } else {
                0
            },
            1,
        );
    }
    let ghost want = runouts(e, deck@, from as int, left as nat, h, o);
    let mut win: u64 = 0;
    let mut tie: u64 = 0;
    let mut total: u64 = 0;
    let mut i: usize = from;
    while i < deck.len()
        invariant
            from <= i <= deck@.len() <= 52,
            left > 0,
            e.wf(),
            want.total <= 0x10_0000_0000_0000,
            want.win + want.tie <= want.total,
            ({
                let rest = runouts(e, deck@, i as int, left as nat, h, o);
                &&& win + rest.win == want.win
                &&& tie + rest.tie == want.tie
                &&& total + rest.total == want.total
            }),
        decreases deck@.len() - i,
    {
        proof {
            lemma_runouts_bound(e, deck@, i + 1, left as nat, h, o);
            lemma_runouts_bound(
                e,
                deck@,
                i + 1,
                (left - 1) as nat,
                e.with(h, deck@[i as int]),
                e.with(o, deck@[i as int]),
            );
        }
        let c: u8 = deck[i];
        let (w, t, n) = count_runouts(
            e,
            deck,
            i + 1,
            left - 1,
            e.add_card(h, c),
            e.add_card(o, c),
        );
        win = win + w;
        tie = tie + t;
        total = total + n;
        i += 1;
    }
    (win, tie, total)
}

/// Won boards and half of the tied ones, as part of all boards.
pub open spec fn equity_of<T: Widen>(r: Runouts) -> T {
    let half = T::Wide::s_one().s_over(T::Wide::s_of(2));
    T::s_narrow(T::Wide::s_of(r.win).s_plus(half.s_times(T::Wide::s_of(r.tie)))).s_over(
        T::s_of(r.total),
    )
}

/// The cards are different ones of the deck.
pub open spec fn are_apart(hero: [u8; 2], opp: [u8; 2]) -> bool {
    &&& hero[0] < 52 && hero[1] < 52 && opp[0] < 52 && opp[1] < 52
    &&& hero[0] != hero[1] && opp[0] != opp[1]
    &&& hero[0] != opp[0] && hero[0] != opp[1] && hero[1] != opp[0] && hero[1] != opp[1]
}

/// Hero's equity against one hand, over all boards.
pub fn hu_equity_exact<T: Widen, H: Copy, A: Fn(H, u8) -> H, K: Fn(H) -> u16>(
    e: &Evaluator<H, A, K>,
    hero: [u8; 2],
    opp: [u8; 2],
) -> (x: T)
    requires
        e.wf(),
        are_apart(hero, opp),
    ensures
        x == equity_of::<T>(
            runouts(
                e,
                cards_left(hero, opp, 52),
                0,
                5,
                e.pair(hero[0], hero[1]),
                e.pair(opp[0], opp[1]),
            ),
        ),
{
    let deck = deck_without(hero, opp);
    let h = e.add_card(e.add_card(e.empty, hero[0]), hero[1]);
    let o = e.add_card(e.add_card(e.empty, opp[0]), opp[1]);
    let (win, tie, total) = count_runouts(e, &deck, 0, 5, h, o);
    let half = T::Wide::one().over(T::Wide::of_i64(2));
    T::narrow(T::Wide::of_i64(win as i64).plus(half.times(T::Wide::of_i64(tie as i64)))).over(
        T::of_i64(total as i64),
    )
}

/// The first `n` cards of the deck without those of two hands.
pub open spec fn cards_left(hero: [u8; 2], opp: [u8; 2], n: nat) -> Seq<u8>
    decreases n,
{
    if n == 0 {
        Seq::empty()
    } else {
        let prev = cards_left(hero, opp, (n - 1) as nat);
        let c = (n - 1) as u8;
        if c == hero[0] || c == hero[1] || c == opp[0] || c == opp[1] {
            prev
        } else {
            prev.push(c)
        }
    }
}

/// The deck without the cards of two hands.
fn deck_without(hero: [u8; 2], opp: [u8; 2]) -> (deck: Vec<u8>)
    ensures
        deck@ == cards_left(hero, opp, 52),
        deck@.len() <= 52,
{
    let mut deck: Vec<u8> = Vec::new();
    let mut c: u8 = 0;
    while c < 52
        invariant
            c <= 52,
            deck@.len() <= c,
            deck@ == cards_left(hero, opp, c as nat),
        decreases 52 - c,
    {
        if !(c == hero[0] || c == hero[1] || c == opp[0] || c == opp[1]) {
            deck.push(c);
        }
        c += 1;
        assert((c - 1) as nat == c - 1);
    }
    deck
}

/// Two hands' equities add up: every board is won by one of them or tied, and what hero
/// wins is what the other loses.
pub proof fn law_equities_add_up<H: Copy, A: Fn(H, u8) -> H, K: Fn(H) -> u16>(
    e: &Evaluator<H, A, K>,
    deck: Seq<u8>,
    from: int,
    left: nat,
    h: H,
    o: H,
)
    requires
        0 <= from <= deck.len(),
    ensures
        ({
            let a = runouts(e, deck, from, left, h, o);
            let b = runouts(e, deck, from, left, o, h);
            &&& a.total == b.total
            &&& a.tie == b.tie
            &&& a.win + a.tie + b.win == a.total
        }),
    decreases deck.len() - from,
{
    if left > 0 && from < deck.len() {
        law_equities_add_up(
            e,
            deck,
            from + 1,
            (left - 1) as nat,
            e.with(h, deck[from]),
            e.with(o, deck[from]),
        );
        law_equities_add_up(e, deck, from + 1, left, h, o);
    }
}

/// Number of boards: all ways to choose `left` cards.
pub open spec fn ways(n: nat, left: nat) -> int
    decreases n,
{
    if left == 0 {
        1
    } else if n == 0 {
        0
    } else {
        ways((n - 1) as nat, (left - 1) as nat) + ways((n - 1) as nat, left)
    }
}

/// Every choice of cards that are left in the deck is counted once.
pub proof fn law_all_boards_are_counted<H: Copy, A: Fn(H, u8) -> H, K: Fn(H) -> u16>(
    e: &Evaluator<H, A, K>,
    deck: Seq<u8>,
    from: int,
    left: nat,
    h: H,
    o: H,
)
    requires
        0 <= from <= deck.len(),
    ensures
        runouts(e, deck, from, left, h, o).total == ways((deck.len() - from) as nat, left),
    decreases deck.len() - from,
{
    if left > 0 && from < deck.len() {
        law_all_boards_are_counted(
            e,
            deck,
            from + 1,
            (left - 1) as nat,
            e.with(h, deck[from]),
            e.with(o, deck[from]),
        );
        law_all_boards_are_counted(e, deck, from + 1, left, h, o);
    }
}

/// The next state of the generator.
pub open spec fn stirred(r: u64) -> u64 {
    let a = r ^ (r << 13);
    let b = a ^ (a >> 7);
    b ^ (b << 17)
}

fn stir(r: u64) -> (q: u64)
    ensures
        q == stirred(r),
{
    let a: u64 = r ^ (r << 13);
    let b: u64 = a ^ (a >> 7);
    b ^ (b << 17)
}

/// The state that a pair of classes starts from.
pub open spec fn first_state(hc: usize, oc: usize, seed: u64) -> u64 {
    (seed ^ ((hc as u64) << 32)) ^ (oc as u64).wrapping_mul(0x9E37_79B9_7F4A_7C15)
}

/// `pool` without its `i`-th card; the last card takes its place.
pub open spec fn taken_out(pool: Seq<u8>, i: int) -> Seq<u8> {
    pool.update(i, pool.last()).drop_last()
}

/// `n` cards drawn from the pool, what is left of it, and the generator's state.
pub open spec fn drawn(pool: Seq<u8>, r: u64, n: nat) -> (Seq<u8>, Seq<u8>, u64)
    decreases n,
{
    if n == 0 {
        (Seq::empty(), pool, r)
    } else {
        let (board, rest, q) = drawn(pool, r, (n - 1) as nat);
        let q2 = stirred(q);
        let i = q2 as int % rest.len() as int;
        (board.push(rest[i]), taken_out(rest, i), q2)
    }
}

proof fn lemma_drawn_len(pool: Seq<u8>, r: u64, n: nat)
    requires
        n <= pool.len(),
    ensures
        drawn(pool, r, n).0.len() == n,
        drawn(pool, r, n).1.len() == pool.len() - n,
    decreases n,
{
    if n > 0 {
        lemma_drawn_len(pool, r, (n - 1) as nat);
        let (board, rest, q) = drawn(pool, r, (n - 1) as nat);
        let q2 = stirred(q);
        assert(0 <= q2 as int % rest.len() as int) by (nonlinear_arith)
            requires
                rest.len() as int > 0,
        ;
    }
}

/// Draws five cards of board.
fn draw_board(deck: &Vec<u8>, r: u64) -> (out: (Vec<u8>, u64))
    requires
        5 <= deck@.len() <= 52,
    ensures
        out.0@ == drawn(deck@, r, 5).0,
        out.1 == drawn(deck@, r, 5).2,
        out.0@.len() == 5,
{
    let mut pool: Vec<u8> = Vec::new();
    let mut i: usize = 0;
    while i < deck.len()
        invariant
            i <= deck@.len(),
            pool@ == deck@.take(i as int),
        decreases deck@.len() - i,
    {
        pool.push(deck[i]);
        i += 1;
        assert(pool@ =~= deck@.take(i as int));
    }
    assert(pool@ =~= deck@);
    let mut board: Vec<u8> = Vec::new();
    let mut q: u64 = r;
    let mut k: usize = 0;
    while k < 5
        invariant
            k <= 5,
            5 <= deck@.len() <= 52,
            pool@.len() == deck@.len() - k,
            board@.len() == k,
            (board@, pool@, q) == drawn(deck@, r, k as nat),
        decreases 5 - k,
    {
        q = stir(q);
        let len: usize = pool.len();
        let at: usize = (q % (len as u64)) as usize;
        let last: u8 = pool[len - 1];
        let card: u8 = pool[at];
        let ghost before = pool@;
        pool[at] = last;
        let _ = pool.pop();
        assert(pool@ =~= taken_out(before, at as int));
        board.push(card);
        k += 1;
        assert((k - 1) as nat == k - 1);
    }
    (board, q)
}

/// Boards won, ties half, over `n` sampled boards, and the generator's state.
pub open spec fn sampled<W: Scalar, H: Copy, A: Fn(H, u8) -> H, K: Fn(H) -> u16>(
    e: &Evaluator<H, A, K>,
    deck: Seq<u8>,
    h: H,
    o: H,
    r: u64,
    n: nat,
) -> (W, u64)
    decreases n,
{
    if n == 0 {
        (W::s_zero(), r)
    } else {
        let (w, q) = sampled::<W, H, A, K>(e, deck, h, o, r, (n - 1) as nat);
        let (board, _, q2) = drawn(deck, q, 5);
        let hr = e.rank_of(e.with_all(h, board, 5));
        let or = e.rank_of(e.with_all(o, board, 5));
        (
            if hr > or {
                w.s_plus(W::s_one())
            } else if hr == or {
                w.s_plus(W::s_one().s_over(W::s_of(2)))
            } else {
                w
            },
            q2,
        )
    }
}

/// Adds five cards to a hand.
fn complete<H: Copy, A: Fn(H, u8) -> H, K: Fn(H) -> u16>(
    e: &Evaluator<H, A, K>,
    h: H,
    board: &Vec<u8>,
) -> (g: H)
    requires
        e.wf(),
        board@.len() == 5,
    ensures
        g == e.with_all(h, board@, 5),
{
    let mut g: H = h;
    let mut k: usize = 0;
    while k < 5
        invariant
            k <= 5,
            e.wf(),
            board@.len() == 5,
            g == e.with_all(h, board@, k as nat),
        decreases 5 - k,
    {
        g = e.add_card(g, board[k]);
        k += 1;
        assert((k - 1) as nat == k - 1);
    }
    g
}

/// Computes [`sampled`].
fn sample<W: Scalar, H: Copy, A: Fn(H, u8) -> H, K: Fn(H) -> u16>(
    e: &Evaluator<H, A, K>,
    deck: &Vec<u8>,
    h: H,
    o: H,
    r: u64,
    n: usize,
) -> (out: (W, u64))
    requires
        e.wf(),
        5 <= deck@.len() <= 52,
    ensures
        out == sampled::<W, H, A, K>(e, deck@, h, o, r, n as nat),
{
    let half = W::one().over(W::of_usize(2));
    let mut w: W = W::zero();
    let mut q: u64 = r;
    let mut k: usize = 0;
    while k < n
        invariant
            k <= n,
            e.wf(),
            5 <= deck@.len() <= 52,
            half == W::s_one().s_over(W::s_of(2)),
            (w, q) == sampled::<W, H, A, K>(e, deck@, h, o, r, k as nat),
        decreases n - k,
    {
        let (board, q2) = draw_board(deck, q);
        let hr: u16 = e.evaluate(complete(e, h, &board));
        let or: u16 = e.evaluate(complete(e, o, &board));
        if hr > or {
            w = w.plus(W::one());
        } else if hr == or {
            w = w.plus(half);
        }
        q = q2;
        k += 1;
        assert((k - 1) as nat == k - 1);
    }
    (w, q)
}

/// Equities so far: their sum, how many, and the generator's state.
pub struct Sums<W> {
    pub sum: W,
    pub count: int,
    pub state: u64,
}

/// The cards of hand `i`.
pub open spec fn cards_of(i: int) -> [u8; 2] {
    [low_card(i) as u8, high_card(i) as u8]
}

/// Two hands with a card in common.
pub open spec fn blocked(h: [u8; 2], o: [u8; 2]) -> bool {
    h[0] == o[0] || h[0] == o[1] || h[1] == o[0] || h[1] == o[1]
}

/// One more match: hero with cards `h`, the other with cards `o`.
pub open spec fn matched<W: Scalar, H: Copy, A: Fn(H, u8) -> H, K: Fn(H) -> u16>(
    e: &Evaluator<H, A, K>,
    h: [u8; 2],
    o: [u8; 2],
    samples: nat,
    s: Sums<W>,
) -> Sums<W> {
    if blocked(h, o) {
        s
    } else {
        let (w, q) = sampled::<W, H, A, K>(
            e,
            cards_left(h, o, 52),
            e.pair(h[0], h[1]),
            e.pair(o[0], o[1]),
            s.state,
            samples,
        );
        Sums {
            sum: s.sum.s_plus(w.s_over(W::s_of(samples as int))),
            count: s.count + 1,
            state: q,
        }
    }
}

/// Hero's cards against the first `n` hands of a list.
pub open spec fn matched_row<W: Scalar, H: Copy, A: Fn(H, u8) -> H, K: Fn(H) -> u16>(
    e: &Evaluator<H, A, K>,
    h: [u8; 2],
    opps: Seq<[u8; 2]>,
    samples: nat,
    s: Sums<W>,
    n: nat,
) -> Sums<W>
    decreases n,
{
    if n == 0 {
        s
    } else {
        matched(
            e,
            h,
            opps[n - 1],
            samples,
            matched_row(e, h, opps, samples, s, (n - 1) as nat),
        )
    }
}

/// The first `n` hands of one list against all of another.
pub open spec fn matched_all<W: Scalar, H: Copy, A: Fn(H, u8) -> H, K: Fn(H) -> u16>(
    e: &Evaluator<H, A, K>,
    heroes: Seq<[u8; 2]>,
    opps: Seq<[u8; 2]>,
    samples: nat,
    s: Sums<W>,
    n: nat,
) -> Sums<W>
    decreases n,
{
    if n == 0 {
        s
    } else {
        matched_row(
            e,
            heroes[n - 1],
            opps,
            samples,
            matched_all(e, heroes, opps, samples, s, (n - 1) as nat),
            opps.len(),
        )
    }
}

/// `combos` are the hands of a class, in order.
pub open spec fn are_class_combos(cls: int, combos: Seq<[u8; 2]>) -> bool {
    let all = listed(cls, NUM_POSSIBLE_HANDS as nat);
    &&& combos.len() == all.len()
    &&& forall|k: int|
        0 <= k < combos.len() ==> (#[trigger] combos[k])[0] == low_card(all[k]) && combos[k][1]
            == high_card(all[k])
}

/// The average of the equities, or a half where there are none.
pub open spec fn mean_equity<T: Widen>(s: Sums<T::Wide>) -> T {
    if s.count == 0 {
        T::s_one().s_over(T::s_of(2))
    } else {
        T::s_narrow(s.sum.s_over(T::Wide::s_of(s.count)))
    }
}

/// The equity of class `hc` against class `oc`, averaged over all pairs of hands without
/// a common card, each over the given number of sampled boards.
pub open spec fn class_equity<T: Widen, H: Copy, A: Fn(H, u8) -> H, K: Fn(H) -> u16>(
    e: &Evaluator<H, A, K>,
    hc: usize,
    oc: usize,
    samples: usize,
    seed: u64,
) -> T {
    let heroes = class_hands(hc as int);
    let opps = class_hands(oc as int);
    mean_equity::<T>(
        matched_all(
            e,
            heroes,
            opps,
            samples as nat,
            Sums { sum: T::Wide::s_zero(), count: 0, state: first_state(hc, oc, seed) },
            heroes.len(),
        ),
    )
}

/// The hands of a class, in order, as pairs of cards.
pub open spec fn class_hands(cls: int) -> Seq<[u8; 2]> {
    let all = listed(cls, NUM_POSSIBLE_HANDS as nat);
    Seq::new(all.len(), |k: int| cards_of(all[k]))
}

proof fn lemma_class_hands(cls: int, combos: Seq<[u8; 2]>)
    requires
        are_class_combos(cls, combos),
    ensures
        combos == class_hands(cls),
{
    let all = listed(cls, NUM_POSSIBLE_HANDS as nat);
    assert forall|k: int| 0 <= k < combos.len() implies combos[k] == class_hands(cls)[k] by {
        let c = combos[k];
        let d = cards_of(all[k]);
        assert(c[0] == low_card(all[k]) && c[1] == high_card(all[k]));
        assert(c@ =~= d@);
        assert(c =~= d);
    }
    assert(combos =~= class_hands(cls));
}

proof fn lemma_cards_left(hero: [u8; 2], opp: [u8; 2], n: nat)
    requires
        n <= 52,
    ensures
        n - 4 <= cards_left(hero, opp, n).len() <= n,
    decreases n,
{
    lemma_cards_left_by(hero, opp, n);
}

/// How many of two hands' cards are under `n`.
spec fn dead_under(hero: [u8; 2], opp: [u8; 2], n: int) -> int {
    (if hero[0] < n {
        1int
    } else {
        0
    }) + (if hero[1] < n {
        1int
    } else {
        0
    }) + (if opp[0] < n {
        1int
    } else {
        0
    }) + (if opp[1] < n {
        1int
    } else {
        0
    })
}

proof fn lemma_cards_left_by(hero: [u8; 2], opp: [u8; 2], n: nat)
    requires
        n <= 52,
    ensures
        n - dead_under(hero, opp, n as int) <= cards_left(hero, opp, n).len() <= n,
    decreases n,
{
    if n > 0 {
        lemma_cards_left_by(hero, opp, (n - 1) as nat);
    }
}

/// The equity of one preflop class against another, over sampled boards; the same seed
/// gives the same equity.
#[verifier::rlimit(30)]
pub fn class_hu_equity_mc<T: Widen, H: Copy, A: Fn(H, u8) -> H, K: Fn(H) -> u16>(
    e: &Evaluator<H, A, K>,
    hc: usize,
    oc: usize,
    samples: usize,
    seed: u64,
) -> (x: T)
    requires
        e.wf(),
    ensures
        x == class_equity::<T, H, A, K>(e, hc, oc, samples, seed),
{
    let heroes = class_combos(hc);
    let opps = class_combos(oc);
    proof {
        lemma_class_hands(hc as int, heroes@);
        lemma_class_hands(oc as int, opps@);
    }
    let start: u64 = (seed ^ ((hc as u64) << 32)) ^ (oc as u64).wrapping_mul(
        0x9E37_79B9_7F4A_7C15,
    );
    let ghost s0 = Sums { sum: T::Wide::s_zero(), count: 0, state: start };
    let mut sum: T::Wide = T::Wide::zero();
    let mut count: u64 = 0;
    let mut state: u64 = start;
    let mut i: usize = 0;
    proof {
        lemma_few_combos(hc as int);
        lemma_few_combos(oc as int);
    }
    while i < heroes.len()
        invariant
            i <= heroes@.len() <= 1326,
            opps@.len() <= 1326,
            e.wf(),
            count <= i * 1326,
            (Sums { sum, count: count as int, state }) == matched_all(
                e,
                heroes@,
                opps@,
                samples as nat,
                s0,
                i as nat,
            ),
        decreases heroes@.len() - i,
    {
        let h: [u8; 2] = heroes[i];
        let ghost s1 = Sums { sum, count: count as int, state };
        let ghost count0 = count;
        let mut j: usize = 0;
        while j < opps.len()
            invariant
                i < heroes@.len() <= 1326,
                j <= opps@.len() <= 1326,
                e.wf(),
                count0 <= i * 1326,
                count <= count0 + j,
                (Sums { sum, count: count as int, state }) == matched_row(
                    e,
                    h,
                    opps@,
                    samples as nat,
                    s1,
                    j as nat,
                ),
            decreases opps@.len() - j,
        {
            let o: [u8; 2] = opps[j];
            if !(h[0] == o[0] || h[0] == o[1] || h[1] == o[0] || h[1] == o[1]) {
                let deck = deck_without(h, o);
                proof {
                    lemma_cards_left(h, o, 52);
                }
                let hh = e.add_card(e.add_card(e.empty, h[0]), h[1]);
                let oh = e.add_card(e.add_card(e.empty, o[0]), o[1]);
                let (w, q) = sample::<T::Wide, H, A, K>(e, &deck, hh, oh, state, samples);
                sum = sum.plus(w.over(T::Wide::of_usize(samples)));
                count = count + 1;
                state = q;
            }
            j += 1;
            assert((j - 1) as nat == j - 1);
        }
        i += 1;
        assert((i - 1) as nat == i - 1);
    }
    if count == 0 {
        T::one().over(T::of_usize(2))
    } else {
        T::narrow(sum.over(T::Wide::of_i64(count as i64)))
    }
}

proof fn lemma_few_combos(cls: int)
    ensures
        listed(cls, NUM_POSSIBLE_HANDS as nat).len() <= 1326,
{
    lemma_listed_len(cls, NUM_POSSIBLE_HANDS as nat);
    lemma_count_bound(in_class(cls), NUM_POSSIBLE_HANDS as nat);
}

/// `n` ones, added up.
pub open spec fn ones<T: Scalar>(n: nat) -> T
    decreases n,
{
    if n == 0 {
        T::s_zero()
    } else {
        ones::<T>((n - 1) as nat).s_plus(T::s_one())
    }
}

/// Number of hands of each preflop class.
pub fn class_combo_counts<T: Scalar>() -> (counts: Vec<T>)
    ensures
        counts@.len() == NUM_PREFLOP_CLASSES,
        forall|c: int|
            0 <= c < NUM_PREFLOP_CLASSES ==> #[trigger] counts@[c] == ones::<T>(
                class_size(c) as nat,
            ),
{
    let mut counts: Vec<T> = filled(T::zero(), NUM_PREFLOP_CLASSES);
    let mut i: usize = 0;
    while i < NUM_POSSIBLE_HANDS
        invariant
            i <= NUM_POSSIBLE_HANDS,
            counts@.len() == NUM_PREFLOP_CLASSES,
            forall|c: int|
                0 <= c < NUM_PREFLOP_CLASSES ==> #[trigger] counts@[c] == ones::<T>(
                    count_upto(in_class(c), i as nat),
                ),
        decreases NUM_POSSIBLE_HANDS - i,
    {
        let (a, b) = hand_of(i);
        let k: usize = PreflopClass::from_combo(a, b).index();
        let ghost was = counts@;
        let x = counts[k].plus(T::one());
        counts[k] = x;
        i += 1;
        proof {
            assert((i - 1) as nat == i - 1);
            assert forall|c: int| 0 <= c < NUM_PREFLOP_CLASSES implies #[trigger] counts@[c]
                == ones::<T>(count_upto(in_class(c), i as nat)) by {
                assert(was[c] == ones::<T>(count_upto(in_class(c), (i - 1) as nat)));
                let f = in_class(c);
                assert(f(i - 1) == (class_of(i - 1) == c));
                let n = count_upto(f, (i - 1) as nat);
                if c == k {
                    assert(count_upto(f, i as nat) == n + 1);
                    assert((n + 1 - 1) as nat == n);
                }
            }
        }
    }
    counts
}

/// Equities of all classes against all classes, row by row.
pub open spec fn class_equities<T: Widen, H: Copy, A: Fn(H, u8) -> H, K: Fn(H) -> u16>(
    e: &Evaluator<H, A, K>,
    samples: usize,
    seed: u64,
) -> Seq<T> {
    grid(
        NUM_PREFLOP_CLASSES as int,
        NUM_PREFLOP_CLASSES as int,
        |hc: int, oc: int|
            class_equity::<T, H, A, K>(e, hc as usize, oc as usize, samples, seed),
    )
}

/// The equities of one class against all.
fn class_row<T: Widen, H: Copy, A: Fn(H, u8) -> H, K: Fn(H) -> u16>(
    e: &Evaluator<H, A, K>,
    hc: usize,
    samples: usize,
    seed: u64,
) -> (row: Vec<T>)
    requires
        e.wf(),
    ensures
        is_class_row(e, hc, samples, seed, &row),
{
    let mut row: Vec<T> = Vec::new();
    let mut oc: usize = 0;
    while oc < NUM_PREFLOP_CLASSES
        invariant
            oc <= NUM_PREFLOP_CLASSES,
            e.wf(),
            row@.len() == oc,
            forall|c: int|
                0 <= c < oc ==> #[trigger] row@[c] == class_equity::<T, H, A, K>(
                    e,
                    hc,
                    c as usize,
                    samples,
                    seed,
                ),
        decreases NUM_PREFLOP_CLASSES - oc,
    {
        row.push(class_hu_equity_mc(e, hc, oc, samples, seed));
        oc += 1;
    }
    row
}

/// `row` holds the equities of class `hc` against all.
pub open spec fn is_class_row<T: Widen, H: Copy, A: Fn(H, u8) -> H, K: Fn(H) -> u16>(
    e: &Evaluator<H, A, K>,
    hc: usize,
    samples: usize,
    seed: u64,
    row: &Vec<T>,
) -> bool {
    &&& row@.len() == NUM_PREFLOP_CLASSES
    &&& forall|c: int|
        0 <= c < NUM_PREFLOP_CLASSES ==> #[trigger] row@[c] == class_equity::<T, H, A, K>(
            e,
            hc,
            c as usize,
            samples,
            seed,
        )
}

/// Puts the rows of the table one after the other.
fn stack_rows<T: Widen, H: Copy, A: Fn(H, u8) -> H, K: Fn(H) -> u16>(
    e: &Evaluator<H, A, K>,
    samples: usize,
    seed: u64,
    rows: &Vec<Vec<T>>,
) -> (t: Vec<T>)
    requires
        rows@.len() == NUM_PREFLOP_CLASSES,
        forall|hc: int|
            0 <= hc < NUM_PREFLOP_CLASSES ==> is_class_row(
                e,
                hc as usize,
                samples,
                seed,
                &#[trigger] rows@[hc],
            ),
    ensures
        t@ == class_equities::<T, H, A, K>(e, samples, seed),
{
    let n: usize = NUM_PREFLOP_CLASSES;
    assert forall|hc: int| 0 <= hc < rows@.len() implies (#[trigger] rows@[hc])@.len() == n by {
        assert(is_class_row(e, hc as usize, samples, seed, &rows@[hc]));
    }
    let t = stack(n, rows);
    proof {
        let f = |hc: int, oc: int|
            class_equity::<T, H, A, K>(e, hc as usize, oc as usize, samples, seed);
        assert forall|i: int, j: int| 0 <= i < n && 0 <= j < n implies #[trigger] t@[at(
            n as int,
            i,
            j,
        )] == f(i, j) by {
            lemma_grid(
                n as int,
                n as int,
                |a: int, h: int| views(rows@)[a][h],
                i,
                j,
            );
            assert(is_class_row(e, i as usize, samples, seed, &rows@[i]));
            assert(rows@[i]@[j] == f(i, j));
        }
        lemma_is_grid(t@, n as int, n as int, f);
    }
    t
}

/// The table of all classes against all classes.
pub fn class_hu_equity_table<T: Widen, H: Copy, A: Fn(H, u8) -> H, K: Fn(H) -> u16>(
    e: &Evaluator<H, A, K>,
    samples: usize,
    seed: u64,
) -> (t: Vec<T>)
    requires
        e.wf(),
    ensures
        t@ == class_equities::<T, H, A, K>(e, samples, seed),
{
    let mut rows: Vec<Vec<T>> = Vec::new();
    let mut hc: usize = 0;
    while hc < NUM_PREFLOP_CLASSES
        invariant
            hc <= NUM_PREFLOP_CLASSES,
            e.wf(),
            rows@.len() == hc,
            forall|c: int|
                0 <= c < hc ==> is_class_row(
                    e,
                    c as usize,
                    samples,
                    seed,
                    &#[trigger] rows@[c],
                ),
        decreases NUM_PREFLOP_CLASSES - hc,
    {
        rows.push(class_row(e, hc, samples, seed));
        hc += 1;
    }
    stack_rows(e, samples, seed, &rows)
}

/// The same table, its rows computed on threads of their own.
pub fn class_hu_equity_table_par<
    T: Widen + Send,
    H: Copy + Sync,
    A: Fn(H, u8) -> H + Sync,
    K: Fn(H) -> u16 + Sync,
>(e: &Evaluator<H, A, K>, samples: usize, seed: u64) -> (t: Vec<T>)
    requires
        e.wf(),
    ensures
        t@ == class_equities::<T, H, A, K>(e, samples, seed),
{
    let one_row = |hc: usize| -> (row: Vec<T>)
        requires
            hc < NUM_PREFLOP_CLASSES,
        ensures
            is_class_row(e, hc, samples, seed, &row),
        { class_row(e, hc, samples, seed) };
    let rows = par_map(NUM_PREFLOP_CLASSES, one_row);
    proof {
        assert forall|hc: int| 0 <= hc < NUM_PREFLOP_CLASSES implies is_class_row(
            e,
            hc as usize,
            samples,
            seed,
            &#[trigger] rows@[hc],
        ) by {
            assert(call_ensures(one_row, (hc as usize,), rows@[hc]));
        }
    }
    stack_rows(e, samples, seed, &rows)
}

/// The lowest byte first.
pub open spec fn little_endian(x: u32) -> Seq<u8> {
    seq![
        (x % 256) as u8,
        (x / 256 % 256) as u8,
        (x / 65536 % 256) as u8,
        (x / 16777216) as u8,
    ]
}

/// The number of four bytes, the lowest first.
pub open spec fn from_little_endian(b: Seq<u8>, at: int) -> int {
    b[at] + 256 * b[at + 1] + 65536 * b[at + 2] + 16777216 * b[at + 3]
}

/// Reads an equity table, as bit patterns of its entries, from the bytes of a file; none
/// if the size is wrong.
pub fn table_bits(bytes: &[u8]) -> (t: Option<Vec<u32>>)
    ensures
        t is Some == (bytes@.len() == NUM_PREFLOP_CLASSES * NUM_PREFLOP_CLASSES * 4),
        t matches Some(v) ==> {
            &&& v@.len() == NUM_PREFLOP_CLASSES * NUM_PREFLOP_CLASSES
            &&& forall|i: int|
                0 <= i < v@.len() ==> #[trigger] v@[i] == from_little_endian(bytes@, 4 * i)
        },
{
    let n: usize = NUM_PREFLOP_CLASSES * NUM_PREFLOP_CLASSES;
    if bytes.len() != n * 4 {
        return None;
    }
    let mut v: Vec<u32> = Vec::new();
    let mut i: usize = 0;
    while i < n
        invariant
            i <= n,
            n == 28561,
            bytes@.len() == n * 4,
            v@.len() == i,
            forall|k: int| 0 <= k < i ==> #[trigger] v@[k] == from_little_endian(bytes@, 4 * k),
        decreases n - i,
    {
        v.push(
            bytes[4 * i] as u32 + 256 * (bytes[4 * i + 1] as u32) + 65536 * (bytes[4 * i
                + 2] as u32) + 16777216 * (bytes[4 * i + 3] as u32),
        );
        i += 1;
    }
    Some(v)
}

/// The bytes of an equity table's file.
pub fn table_bytes(bits: &Vec<u32>) -> (bytes: Vec<u8>)
    requires
        bits@.len() <= NUM_PREFLOP_CLASSES * NUM_PREFLOP_CLASSES,
    ensures
        bytes@.len() == 4 * bits@.len(),
        forall|i: int|
            0 <= i < bits@.len() ==> #[trigger] bytes@.subrange(4 * i, 4 * i + 4)
                == little_endian(bits@[i]),
{
    let mut bytes: Vec<u8> = Vec::new();
    let mut i: usize = 0;
    while i < bits.len()
        invariant
            i <= bits@.len() <= 28561,
            bytes@.len() == 4 * i,
            forall|k: int|
                0 <= k < i ==> #[trigger] bytes@.subrange(4 * k, 4 * k + 4) == little_endian(
                    bits@[k],
                ),
        decreases bits@.len() - i,
    {
        let x: u32 = bits[i];
        let ghost was = bytes@;
        bytes.push((x % 256) as u8);
        bytes.push((x / 256 % 256) as u8);
        bytes.push((x / 65536 % 256) as u8);
        bytes.push((x / 16777216) as u8);
        i += 1;
        proof {
            assert forall|k: int| 0 <= k < i implies #[trigger] bytes@.subrange(4 * k, 4 * k + 4)
                == little_endian(bits@[k]) by {
                if k < i - 1 {
                    assert(bytes@.subrange(4 * k, 4 * k + 4) =~= was.subrange(4 * k, 4 * k + 4));
                } else {
                    assert(bytes@.subrange(4 * k, 4 * k + 4) =~= little_endian(bits@[k]));
                }
            }
        }
    }
    bytes
}

/// A table that was written to a file is read back as it was.
pub proof fn law_table_survives_its_file(bits: Seq<u32>, bytes: Seq<u8>, i: int)
    requires
        bytes.len() == 4 * bits.len(),
        forall|k: int|
            0 <= k < bits.len() ==> #[trigger] bytes.subrange(4 * k, 4 * k + 4) == little_endian(
                bits[k],
            ),
        0 <= i < bits.len(),
    ensures
        from_little_endian(bytes, 4 * i) == bits[i],
{
    let part = bytes.subrange(4 * i, 4 * i + 4);
    let le = little_endian(bits[i]);
    assert(part == le);
    assert(part[0] == bytes[4 * i] && part[1] == bytes[4 * i + 1] && part[2] == bytes[4 * i + 2]
        && part[3] == bytes[4 * i + 3]);
}

} // verus!
