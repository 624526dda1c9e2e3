//! The joint reach of several opponents whose hands share no card, approximated by
//! clusters of colliding hands.
use vstd::prelude::*;

use crate::bucketed_showdown::is_zero;
use crate::layout::{at, lemma_at_bound};
use crate::scalar::{filled, Scalar};
use crate::terminal::copied;

verus! {

/// The values of the first `n` hands that count, added up.
pub open spec fn total<T: Scalar>(v: Seq<T>, live: Seq<bool>, n: nat) -> T
    decreases n,
{
    if n == 0 {
        T::s_zero()
    } else {
        let prev = total(v, live, (n - 1) as nat);
        if live[n - 1] {
            prev.s_plus(v[n - 1])
        } else {
            prev
        }
    }
}

/// The values of those of the first `n` hands that count and hold card `c`, added
/// up.
pub open spec fn by_card<T: Scalar>(
    cards: Seq<u8>,
    v: Seq<T>,
    live: Seq<bool>,
    c: int,
    n: nat,
) -> T
    decreases n,
{
    if n == 0 {
        T::s_zero()
    } else {
        let prev = by_card(cards, v, live, c, (n - 1) as nat);
        let g = n - 1;
        if !live[g] {
            prev
        } else {
            let x = if cards[2 * g] == c {
                prev.s_plus(v[g])
            } else {
                prev
            };
            if cards[2 * g + 1] == c {
                x.s_plus(v[g])
            } else {
                x
            }
        }
    }
}

/// Hand `g` is made of the cards `c` and `d`.
pub open spec fn is_pair(cards: Seq<u8>, g: int, c: int, d: int) -> bool {
    (cards[2 * g] == c && cards[2 * g + 1] == d) || (cards[2 * g] == d && cards[2 * g + 1] == c)
}

/// The value of the last of the first `n` hands that counts and is made of `c` and
/// `d`; zero where there is none.
pub open spec fn last_pair<T: Scalar>(
    cards: Seq<u8>,
    v: Seq<T>,
    live: Seq<bool>,
    c: int,
    d: int,
    n: nat,
) -> T
    decreases n,
{
    if n == 0 {
        T::s_zero()
    } else if live[n - 1] && is_pair(cards, n - 1, c, d) {
        v[n - 1]
    } else {
        last_pair(cards, v, live, c, d, (n - 1) as nat)
    }
}

/// The hands whose value is not zero.
pub open spec fn nonzero<T: Scalar>(v: Seq<T>) -> Seq<bool> {
    Seq::new(v.len(), |g: int| !is_zero(v[g]))
}

/// All hands.
pub open spec fn everyone(nh: int) -> Seq<bool> {
    Seq::new(nh as nat, |g: int| true)
}

/// Two cards of the deck per hand.
pub open spec fn are_hands(cards: Seq<u8>, nh: int) -> bool {
    &&& cards.len() == 2 * nh
    &&& forall|i: int| 0 <= i < cards.len() ==> (#[trigger] cards[i]) < 52
}

fn sum_live<T: Scalar>(v: &Vec<T>, live: &Vec<bool>) -> (s: T)
    requires
        live@.len() == v@.len(),
    ensures
        s == total(v@, live@, v@.len()),
{
    let mut s: T = T::zero();
    let mut g: usize = 0;
    while g < v.len()
        invariant
            g <= v@.len(),
            live@.len() == v@.len(),
            s == total(v@, live@, g as nat),
        decreases v@.len() - g,
    {
        if live[g] {
            s = s.plus(v[g]);
        }
        g += 1;
    }
    s
}

fn card_table<T: Scalar>(cards: &[u8], v: &Vec<T>, live: &Vec<bool>) -> (t: Vec<T>)
    requires
        live@.len() == v@.len(),
        are_hands(cards@, v@.len() as int),
    ensures
        t@.len() == 52,
        forall|c: int|
            0 <= c < 52 ==> #[trigger] t@[c] == by_card(cards@, v@, live@, c, v@.len()),
{
    let total: usize = cards.len();
    let mut t: Vec<T> = filled(T::zero(), 52);
    let mut g: usize = 0;
    while g < v.len()
        invariant
            g <= v@.len(),
            total == cards@.len(),
            live@.len() == v@.len(),
            are_hands(cards@, v@.len() as int),
            t@.len() == 52,
            forall|c: int|
                0 <= c < 52 ==> #[trigger] t@[c] == by_card(cards@, v@, live@, c, g as nat),
        decreases v@.len() - g,
    {
        let ghost before = t@;
        let a: usize = cards[2 * g] as usize;
        let b: usize = cards[2 * g + 1] as usize;
        assert(cards@[2 * g] < 52 && cards@[2 * g + 1] < 52);
        if live[g] {
            let x = t[a].plus(v[g]);
            t[a] = x;
            let y = t[b].plus(v[g]);
            t[b] = y;
        }
        proof {
            assert forall|c: int| 0 <= c < 52 implies #[trigger] t@[c] == by_card(
                cards@,
                v@,
                live@,
                c,
                (g + 1) as nat,
            ) by {
                assert(before[c] == by_card(cards@, v@, live@, c, g as nat));
            }
        }
        g += 1;
    }
    t
}

fn pair_table<T: Scalar>(cards: &[u8], v: &Vec<T>, live: &Vec<bool>) -> (t: Vec<T>)
    requires
        live@.len() == v@.len(),
        are_hands(cards@, v@.len() as int),
    ensures
        t@.len() == 2704,
        forall|c: int, d: int|
            0 <= c < 52 && 0 <= d < 52 ==> #[trigger] t@[at(52, c, d)] == last_pair(
                cards@,
                v@,
                live@,
                c,
                d,
                v@.len(),
            ),
{
    let total: usize = cards.len();
    let mut t: Vec<T> = filled(T::zero(), 2704);
    let mut g: usize = 0;
    while g < v.len()
        invariant
            g <= v@.len(),
            total == cards@.len(),
            live@.len() == v@.len(),
            are_hands(cards@, v@.len() as int),
            t@.len() == 2704,
            forall|c: int, d: int|
                0 <= c < 52 && 0 <= d < 52 ==> #[trigger] t@[at(52, c, d)] == last_pair(
                    cards@,
                    v@,
                    live@,
                    c,
                    d,
                    g as nat,
                ),
        decreases v@.len() - g,
    {
        let ghost before = t@;
        let a: usize = cards[2 * g] as usize;
        let b: usize = cards[2 * g + 1] as usize;
        assert(cards@[2 * g] < 52 && cards@[2 * g + 1] < 52);
        if live[g] {
            t[a * 52 + b] = v[g];
            t[b * 52 + a] = v[g];
        }
        proof {
            assert forall|c: int, d: int| 0 <= c < 52 && 0 <= d < 52 implies #[trigger] t@[at(
                52,
                c,
                d,
            )] == last_pair(cards@, v@, live@, c, d, (g + 1) as nat) by {
                assert(before[at(52, c, d)] == last_pair(cards@, v@, live@, c, d, g as nat));
            }
        }
        g += 1;
    }
    t
}

fn nonzero_of<T: Scalar>(v: &Vec<T>) -> (live: Vec<bool>)
    ensures
        live@ == nonzero(v@),
{
    let mut live: Vec<bool> = Vec::new();
    let mut g: usize = 0;
    while g < v.len()
        invariant
            g <= v@.len(),
            live@.len() == g,
            forall|i: int| 0 <= i < g ==> #[trigger] live@[i] == nonzero(v@)[i],
        decreases v@.len() - g,
    {
        live.push(!v[g].same(T::zero()));
        g += 1;
    }
    assert(live@ =~= nonzero(v@));
    live
}

/// Several opponents' reach over the same hands.
pub struct Crowd<T> {
    pub reach: Seq<Seq<T>>,
    pub cards: Seq<u8>,
    pub nh: int,
}

impl<T: Scalar> Crowd<T> {
    pub open spec fn wf(&self) -> bool {
        &&& 0 <= self.nh
        &&& are_hands(self.cards, self.nh)
        &&& forall|i: int|
            0 <= i < self.reach.len() ==> (#[trigger] self.reach[i]).len() == self.nh
    }

    /// The first card of hand `h`.
    pub open spec fn low(&self, h: int) -> int {
        self.cards[2 * h] as int
    }

    /// The second card of hand `h`.
    pub open spec fn high(&self, h: int) -> int {
        self.cards[2 * h + 1] as int
    }

    /// Opponent `i`'s reach.
    pub open spec fn mass(&self, i: int) -> T {
        total(self.reach[i], nonzero(self.reach[i]), self.nh as nat)
    }

    /// Opponent `i`'s reach with card `c`.
    pub open spec fn with_card(&self, i: int, c: int) -> T {
        by_card(self.cards, self.reach[i], nonzero(self.reach[i]), c, self.nh as nat)
    }

    /// Opponent `i`'s reach with the hand of `c` and `d`.
    pub open spec fn look(&self, i: int, c: int, d: int) -> T {
        last_pair(self.cards, self.reach[i], everyone(self.nh), c, d, self.nh as nat)
    }

    /// The same, read off the hands with a reach.
    pub open spec fn entry(&self, i: int, c: int, d: int) -> T {
        last_pair(self.cards, self.reach[i], nonzero(self.reach[i]), c, d, self.nh as nat)
    }

    /// Opponent `i`'s reach without the cards of hand `h`.
    pub open spec fn free(&self, i: int, h: int) -> T {
        self.mass(i).s_minus(self.with_card(i, self.low(h))).s_minus(
            self.with_card(i, self.high(h)),
        ).s_plus(self.reach[i][h])
    }

    /// The reach of `i` and `j` with the same hand, by hand.
    pub open spec fn joint(&self, i: int, j: int) -> Seq<T> {
        Seq::new(self.nh as nat, |g: int| self.reach[i][g].s_times(self.reach[j][g]))
    }

    pub open spec fn shared(&self, i: int, j: int) -> T {
        total(self.joint(i, j), nonzero(self.joint(i, j)), self.nh as nat)
    }

    pub open spec fn shared_with(&self, i: int, j: int, c: int) -> T {
        by_card(self.cards, self.joint(i, j), nonzero(self.joint(i, j)), c, self.nh as nat)
    }

    /// The reach of `i` and `j` with the same hand, without the cards of hand `h`;
    /// `own` is the reach with `h` itself.
    pub open spec fn shared_free(&self, i: int, j: int, h: int, own: T) -> T {
        self.shared(i, j).s_minus(self.shared_with(i, j, self.low(h))).s_minus(
            self.shared_with(i, j, self.high(h)),
        ).s_plus(own)
    }

    /// Opponent `i`'s reach with card `c` and without the cards of hand `h`.
    pub open spec fn free_with(&self, i: int, h: int, c: int) -> T {
        self.with_card(i, c).s_minus(self.look(i, c, self.low(h))).s_minus(
            self.look(i, c, self.high(h)),
        )
    }

    /// The reach of `i` and `j` with a common card among the first `n`, without the
    /// cards of hand `h`.
    pub open spec fn common(&self, i: int, j: int, h: int, n: nat) -> T
        decreases n,
    {
        if n == 0 {
            T::s_zero()
        } else {
            let prev = self.common(i, j, h, (n - 1) as nat);
            if n - 1 == self.low(h) || n - 1 == self.high(h) {
                prev
            } else {
                prev.s_plus(self.free_with(i, h, n - 1).s_times(self.free_with(j, h, n - 1)))
            }
        }
    }

    /// The reach of `i` and `j` with hands that share a card, without the cards of
    /// hand `h`.
    pub open spec fn clash(&self, i: int, j: int, h: int) -> T {
        self.common(i, j, h, 52).s_minus(
            self.shared_free(i, j, h, self.reach[i][h].s_times(self.reach[j][h])),
        )
    }

    /// The product of the first `n` opponents' reach, without `i` and `j`.
    pub open spec fn others(&self, i: int, j: int, h: int, n: nat) -> T
        decreases n,
    {
        if n == 0 {
            T::s_one()
        } else {
            let prev = self.others(i, j, h, (n - 1) as nat);
            if n - 1 != i && n - 1 != j {
                prev.s_times(self.free(n - 1, h))
            } else {
                prev
            }
        }
    }

    /// What the clashes of `i` with later opponents under `m` take away, added to
    /// `acc`.
    pub open spec fn taken_by(
        &self,
        clash: spec_fn(int, int) -> T,
        h: int,
        i: int,
        acc: T,
        m: int,
    ) -> T
        decreases m,
    {
        if m <= i + 1 || m <= 0 {
            acc
        } else {
            self.taken_by(clash, h, i, acc, m - 1).s_plus(
                clash(i, m - 1).s_times(self.others(i, m - 1, h, self.reach.len())),
            )
        }
    }

    /// What the clashes of the first `n` opponents with later ones take away.
    pub open spec fn taken(&self, clash: spec_fn(int, int) -> T, h: int, n: nat) -> T
        decreases n,
    {
        if n == 0 {
            T::s_zero()
        } else {
            self.taken_by(
                clash,
                h,
                n - 1,
                self.taken(clash, h, (n - 1) as nat),
                self.reach.len() as int,
            )
        }
    }

    /// The product of all opponents' reach less what their clashes take away, not
    /// under zero.
    pub open spec fn mass_left(&self, clash: spec_fn(int, int) -> T, h: int) -> T {
        self.others(-1, -1, h, self.reach.len()).s_minus(
            self.taken(clash, h, self.reach.len()),
        ).s_larger(T::s_zero())
    }

    /// The clashes that hand `h` sees.
    pub open spec fn clashes(&self, h: int) -> spec_fn(int, int) -> T {
        |i: int, j: int| self.clash(i, j, h)
    }
}

/// The crowd that the arguments describe.
pub open spec fn crowd_of<T>(reach: Seq<&[T]>, cards: Seq<u8>, nh: int) -> Crowd<T> {
    Crowd { reach: Seq::new(reach.len(), |i: int| reach[i]@), cards, nh }
}

/// Tables of one opponent.
pub struct Seat<T> {
    reach: Vec<T>,
    mass: T,
    with_card: Vec<T>,
    look: Vec<T>,
    entry: Vec<T>,
}

impl<T: Scalar> Seat<T> {
    pub closed spec fn is_of(&self, crowd: &Crowd<T>, i: int) -> bool {
        &&& self.reach@ == crowd.reach[i]
        &&& self.mass == crowd.mass(i)
        &&& self.with_card@.len() == 52
        &&& forall|c: int| 0 <= c < 52 ==> #[trigger] self.with_card@[c] == crowd.with_card(i, c)
        &&& self.look@.len() == 2704
        &&& forall|c: int, d: int|
            0 <= c < 52 && 0 <= d < 52 ==> #[trigger] self.look@[at(52, c, d)] == crowd.look(
                i,
                c,
                d,
            )
        &&& self.entry@.len() == 2704
        &&& forall|c: int, d: int|
            0 <= c < 52 && 0 <= d < 52 ==> #[trigger] self.entry@[at(52, c, d)] == crowd.entry(
                i,
                c,
                d,
            )
    }
}

/// The tables of every opponent.
pub open spec fn are_seats<T: Scalar>(seats: Seq<Seat<T>>, crowd: &Crowd<T>) -> bool {
    &&& seats.len() == crowd.reach.len()
    &&& forall|i: int| 0 <= i < seats.len() ==> (#[trigger] seats[i]).is_of(crowd, i)
}

fn make_seats<T: Scalar>(reach: &[&[T]], cards: &[u8], nh: usize) -> (seats: Vec<Seat<T>>)
    requires
        crowd_of(reach@, cards@, nh as int).wf(),
    ensures
        are_seats(seats@, &crowd_of(reach@, cards@, nh as int)),
{
    let ghost crowd = crowd_of(reach@, cards@, nh as int);
    let all: Vec<bool> = filled(true, nh);
    assert(all@ =~= everyone(nh as int));
    let mut seats: Vec<Seat<T>> = Vec::new();
    let mut i: usize = 0;
    while i < reach.len()
        invariant
            i <= reach@.len(),
            crowd == crowd_of(reach@, cards@, nh as int),
            crowd.wf(),
            all@ == everyone(nh as int),
            seats@.len() == i,
            forall|j: int| 0 <= j < i ==> (#[trigger] seats@[j]).is_of(&crowd, j),
        decreases reach@.len() - i,
    {
        assert(crowd.reach[i as int] == reach@[i as int]@);
        assert(crowd.reach[i as int].len() == nh);
        let own: Vec<T> = copied(reach[i]);
        let live = nonzero_of(&own);
        let mass = sum_live(&own, &live);
        let with_card = card_table(cards, &own, &live);
        let look = pair_table(cards, &own, &all);
        let entry = pair_table(cards, &own, &live);
        seats.push(Seat { reach: own, mass, with_card, look, entry });
        i += 1;
    }
    seats
}

/// Tables of two opponents.
pub struct Bond<T> {
    shared: T,
    shared_with: Vec<T>,
}

impl<T: Scalar> Bond<T> {
    pub closed spec fn is_of(&self, crowd: &Crowd<T>, i: int, j: int) -> bool {
        &&& self.shared == crowd.shared(i, j)
        &&& self.shared_with@.len() == 52
        &&& forall|c: int|
            0 <= c < 52 ==> #[trigger] self.shared_with@[c] == crowd.shared_with(i, j, c)
    }
}

/// The tables of opponents `i` and `j`.
fn make_bond<T: Scalar>(
    cards: &[u8],
    a: &Seat<T>,
    b: &Seat<T>,
    Ghost(crowd): Ghost<&Crowd<T>>,
    Ghost(i): Ghost<int>,
    Ghost(j): Ghost<int>,
) -> (bond: Bond<T>)
    requires
        crowd.wf(),
        crowd.cards == cards@,
        0 <= i < crowd.reach.len(),
        0 <= j < crowd.reach.len(),
        a.is_of(crowd, i),
        b.is_of(crowd, j),
    ensures
        bond.is_of(crowd, i, j),
{
    let nh: usize = a.reach.len();
    proof {
        assert(crowd.reach[i].len() == nh && crowd.reach[j].len() == nh);
    }
    let mut v: Vec<T> = Vec::new();
    let mut g: usize = 0;
    while g < nh
        invariant
            g <= nh,
            nh == crowd.nh,
            a.reach@ == crowd.reach[i],
            b.reach@ == crowd.reach[j],
            a.reach@.len() == nh,
            b.reach@.len() == nh,
            v@.len() == g,
            forall|k: int| 0 <= k < g ==> #[trigger] v@[k] == crowd.joint(i, j)[k],
        decreases nh - g,
    {
        v.push(a.reach[g].times(b.reach[g]));
        g += 1;
    }
    assert(v@ =~= crowd.joint(i, j));
    let live = nonzero_of(&v);
    let shared = sum_live(&v, &live);
    let shared_with = card_table(cards, &v, &live);
    Bond { shared, shared_with }
}

/// Computes [`Crowd::free`].
fn free_of<T: Scalar>(
    seat: &Seat<T>,
    cards: &[u8],
    h: usize,
    Ghost(crowd): Ghost<&Crowd<T>>,
    Ghost(i): Ghost<int>,
) -> (x: T)
    requires
        crowd.wf(),
        crowd.cards == cards@,
        0 <= i < crowd.reach.len(),
        seat.is_of(crowd, i),
        h < crowd.nh,
    ensures
        x == crowd.free(i, h as int),
{
    assert(crowd.reach[i].len() == crowd.nh);
    let total: usize = cards.len();
    let h1: usize = cards[2 * h] as usize;
    let h2: usize = cards[2 * h + 1] as usize;
    assert(cards@[2 * h] < 52 && cards@[2 * h + 1] < 52);
    seat.mass.minus(seat.with_card[h1]).minus(seat.with_card[h2]).plus(seat.reach[h])
}

/// Computes [`Crowd::shared_free`].
fn shared_free_of<T: Scalar>(
    bond: &Bond<T>,
    cards: &[u8],
    h: usize,
    own: T,
    Ghost(crowd): Ghost<&Crowd<T>>,
    Ghost(i): Ghost<int>,
    Ghost(j): Ghost<int>,
) -> (x: T)
    requires
        crowd.wf(),
        crowd.cards == cards@,
        bond.is_of(crowd, i, j),
        h < crowd.nh,
    ensures
        x == crowd.shared_free(i, j, h as int, own),
{
    let total: usize = cards.len();
    let h1: usize = cards[2 * h] as usize;
    let h2: usize = cards[2 * h + 1] as usize;
    assert(cards@[2 * h] < 52 && cards@[2 * h + 1] < 52);
    bond.shared.minus(bond.shared_with[h1]).minus(bond.shared_with[h2]).plus(own)
}

/// Computes [`Crowd::clash`].
fn clash_of<T: Scalar>(
    a: &Seat<T>,
    b: &Seat<T>,
    bond: &Bond<T>,
    cards: &[u8],
    h: usize,
    Ghost(crowd): Ghost<&Crowd<T>>,
    Ghost(i): Ghost<int>,
    Ghost(j): Ghost<int>,
) -> (x: T)
    requires
        crowd.wf(),
        crowd.cards == cards@,
        0 <= i < crowd.reach.len(),
        0 <= j < crowd.reach.len(),
        a.is_of(crowd, i),
        b.is_of(crowd, j),
        bond.is_of(crowd, i, j),
        h < crowd.nh,
    ensures
        x == crowd.clash(i, j, h as int),
{
    assert(crowd.reach[i].len() == crowd.nh && crowd.reach[j].len() == crowd.nh);
    let total: usize = cards.len();
    let h1: usize = cards[2 * h] as usize;
    let h2: usize = cards[2 * h + 1] as usize;
    assert(cards@[2 * h] < 52 && cards@[2 * h + 1] < 52);
    let mut dot: T = T::zero();
    let mut c: usize = 0;
    while c < 52
        invariant
            c <= 52,
            h1 < 52,
            h2 < 52,
            h1 == crowd.low(h as int),
            h2 == crowd.high(h as int),
            a.is_of(crowd, i),
            b.is_of(crowd, j),
            dot == crowd.common(i, j, h as int, c as nat),
        decreases 52 - c,
    {
        if c != h1 && c != h2 {
            proof {
                lemma_at_bound(52, 52, c as int, h1 as int);
                lemma_at_bound(52, 52, c as int, h2 as int);
                assert(a.look@[at(52, c as int, h1 as int)] == crowd.look(i, c as int, h1 as int));
                assert(a.look@[at(52, c as int, h2 as int)] == crowd.look(i, c as int, h2 as int));
                assert(b.look@[at(52, c as int, h1 as int)] == crowd.look(j, c as int, h1 as int));
                assert(b.look@[at(52, c as int, h2 as int)] == crowd.look(j, c as int, h2 as int));
            }
            let x = a.with_card[c].minus(a.look[c * 52 + h1]).minus(a.look[c * 52 + h2]);
            let y = b.with_card[c].minus(b.look[c * 52 + h1]).minus(b.look[c * 52 + h2]);
            dot = dot.plus(x.times(y));
        }
        c += 1;
    }
    let own = a.reach[h].times(b.reach[h]);
    dot.minus(shared_free_of(bond, cards, h, own, Ghost(crowd), Ghost(i), Ghost(j)))
}

/// The opponents' reach without the cards of hand `h`, one by one.
fn frees_of<T: Scalar>(
    seats: &Vec<Seat<T>>,
    cards: &[u8],
    h: usize,
    Ghost(crowd): Ghost<&Crowd<T>>,
) -> (out: Vec<T>)
    requires
        crowd.wf(),
        crowd.cards == cards@,
        are_seats(seats@, crowd),
        h < crowd.nh,
    ensures
        out@ == Seq::new(crowd.reach.len(), |i: int| crowd.free(i, h as int)),
{
    let mut out: Vec<T> = Vec::new();
    let mut i: usize = 0;
    while i < seats.len()
        invariant
            i <= seats@.len(),
            crowd.wf(),
            crowd.cards == cards@,
            are_seats(seats@, crowd),
            h < crowd.nh,
            out@.len() == i,
            forall|j: int| 0 <= j < i ==> #[trigger] out@[j] == crowd.free(j, h as int),
        decreases seats@.len() - i,
    {
        out.push(free_of(&seats[i], cards, h, Ghost(crowd), Ghost(i as int)));
        i += 1;
    }
    assert(out@ =~= Seq::new(crowd.reach.len(), |i: int| crowd.free(i, h as int)));
    out
}

/// Computes [`Crowd::others`]; all opponents where none is left out.
fn others_of<T: Scalar>(
    frees: &Vec<T>,
    skip: Option<(usize, usize)>,
    Ghost(crowd): Ghost<&Crowd<T>>,
    Ghost(h): Ghost<int>,
) -> (x: T)
    requires
        frees@ == Seq::new(crowd.reach.len(), |i: int| crowd.free(i, h)),
    ensures
        x == match skip {
            Some((i, j)) => crowd.others(i as int, j as int, h, crowd.reach.len()),
            None => crowd.others(-1, -1, h, crowd.reach.len()),
        },
{
    let ghost i0 = match skip {
        Some((i, j)) => i as int,
        None => -1,
    };
    let ghost j0 = match skip {
        Some((i, j)) => j as int,
        None => -1,
    };
    let mut x: T = T::one();
    let mut m: usize = 0;
    while m < frees.len()
        invariant
            m <= frees@.len(),
            frees@ == Seq::new(crowd.reach.len(), |i: int| crowd.free(i, h)),
            i0 == match skip {
                Some((i, j)) => i as int,
                None => -1,
            },
            j0 == match skip {
                Some((i, j)) => j as int,
                None => -1,
            },
            x == crowd.others(i0, j0, h, m as nat),
        decreases frees@.len() - m,
    {
        let left_out = match skip {
            Some((i, j)) => m == i || m == j,
            None => false,
        };
        if !left_out {
            x = x.times(frees[m]);
        }
        m += 1;
    }
    x
}

/// The place of the pair `(i, j)` among the pairs of `k`, in order.
pub open spec fn pair_place(k: int, i: int, j: int) -> int {
    i * k + j
}

/// The tables of every pair of opponents, by [`pair_place`].
pub open spec fn are_bonds<T: Scalar>(bonds: Seq<Bond<T>>, crowd: &Crowd<T>) -> bool {
    let k = crowd.reach.len() as int;
    &&& bonds.len() == k * k
    &&& forall|i: int, j: int|
        0 <= i < j < k ==> (#[trigger] bonds[pair_place(k, i, j)]).is_of(crowd, i, j)
}

fn make_bonds<T: Scalar>(seats: &Vec<Seat<T>>, cards: &[u8], Ghost(crowd): Ghost<&Crowd<T>>) -> (bonds:
    Vec<Bond<T>>)
    requires
        crowd.wf(),
        crowd.cards == cards@,
        are_seats(seats@, crowd),
    ensures
        are_bonds(bonds@, crowd),
{
    let k: usize = seats.len();
    let mut bonds: Vec<Bond<T>> = Vec::new();
    let mut i: usize = 0;
    assert(0 * k == 0) by (nonlinear_arith);
    while i < k
        invariant
            i <= k,
            k == seats@.len(),
            k == crowd.reach.len(),
            crowd.wf(),
            crowd.cards == cards@,
            are_seats(seats@, crowd),
            bonds@.len() == i * k,
            forall|p: int, q: int|
                0 <= p < i && p < q < k ==> (#[trigger] bonds@[pair_place(k as int, p, q)]).is_of(
                    crowd,
                    p,
                    q,
                ),
        decreases k - i,
    {
        let mut j: usize = 0;
        while j < k
            invariant
                j <= k,
                i < k,
                k == seats@.len(),
                k == crowd.reach.len(),
                crowd.wf(),
                crowd.cards == cards@,
                are_seats(seats@, crowd),
                bonds@.len() == i * k + j,
                forall|p: int, q: int|
                    0 <= p < i && p < q < k ==> (#[trigger] bonds@[pair_place(
                        k as int,
                        p,
                        q,
                    )]).is_of(crowd, p, q),
                forall|q: int|
                    i < q < j ==> (#[trigger] bonds@[pair_place(k as int, i as int, q)]).is_of(
                        crowd,
                        i as int,
                        q,
                    ),
            decreases k - j,
        {
            let ghost before = bonds@;
            assert(seats@[i as int].is_of(crowd, i as int) && seats@[j as int].is_of(
                crowd,
                j as int,
            ));
            if i < j {
                bonds.push(
                    make_bond(
                        cards,
                        &seats[i],
                        &seats[j],
                        Ghost(crowd),
                        Ghost(i as int),
                        Ghost(j as int),
                    ),
                );
            } else {
                bonds.push(Bond { shared: T::zero(), shared_with: Vec::new() });
            }
            proof {
                assert forall|p: int, q: int| 0 <= p < i && p < q < k implies (
                #[trigger] bonds@[pair_place(k as int, p, q)]).is_of(crowd, p, q) by {
                    lemma_at_bound(k as int, i as int, p, q);
                    assert(before[pair_place(k as int, p, q)].is_of(crowd, p, q));
                }
                assert forall|q: int| i < q < j + 1 implies (#[trigger] bonds@[pair_place(
                    k as int,
                    i as int,
                    q,
                )]).is_of(crowd, i as int, q) by {
                    if q < j {
                        assert(before[pair_place(k as int, i as int, q)].is_of(
                            crowd,
                            i as int,
                            q,
                        ));
                    }
                }
            }
            j += 1;
        }
        assert((i + 1) * k == i * k + k) by (nonlinear_arith);
        proof {
            assert forall|p: int, q: int| 0 <= p < i + 1 && p < q < k implies (
            #[trigger] bonds@[pair_place(k as int, p, q)]).is_of(crowd, p, q) by {
                if p == i {
                    assert(bonds@[pair_place(k as int, i as int, q)].is_of(crowd, i as int, q));
                }
            }
        }
        i += 1;
    }
    bonds
}

/// `single` can be asked for the reach of fewer than two opponents.
pub open spec fn answers_few<T, P: Fn(&[&[T]], &[u8], usize) -> Vec<T>>(
    single: &P,
    reach: &[&[T]],
    cards: &[u8],
    nh: usize,
) -> bool {
    reach@.len() < 2 ==> call_requires(*single, (reach, cards, nh))
}

/// Adds up what the clashes take away, and takes it from the product of all.
fn left_of<T: Scalar>(
    frees: &Vec<T>,
    clashes: &Vec<T>,
    Ghost(crowd): Ghost<&Crowd<T>>,
    Ghost(clash): Ghost<spec_fn(int, int) -> T>,
    Ghost(h): Ghost<int>,
) -> (x: T)
    requires
        frees@ == Seq::new(crowd.reach.len(), |i: int| crowd.free(i, h)),
        clashes@.len() == crowd.reach.len() * crowd.reach.len(),
        forall|i: int, j: int|
            0 <= i < j < crowd.reach.len() ==> #[trigger] clashes@[pair_place(
                crowd.reach.len() as int,
                i,
                j,
            )] == clash(i, j),
    ensures
        x == crowd.mass_left(clash, h),
{
    let k: usize = frees.len();
    let total: usize = clashes.len();
    let mut sum: T = T::zero();
    let mut i: usize = 0;
    while i < k
        invariant
            i <= k,
            k == crowd.reach.len(),
            frees@ == Seq::new(crowd.reach.len(), |i: int| crowd.free(i, h)),
            frees@.len() == k,
            total == k * k,
            clashes@.len() == total,
            forall|i: int, j: int|
                0 <= i < j < k ==> #[trigger] clashes@[pair_place(k as int, i, j)] == clash(i, j),
            sum == crowd.taken(clash, h, i as nat),
        decreases k - i,
    {
        let ghost acc = sum;
        let mut j: usize = i + 1;
        while j < k
            invariant
                i < j <= k,
                k == crowd.reach.len(),
                frees@ == Seq::new(crowd.reach.len(), |i: int| crowd.free(i, h)),
                total == k * k,
                clashes@.len() == total,
                forall|i: int, j: int|
                    0 <= i < j < k ==> #[trigger] clashes@[pair_place(k as int, i, j)] == clash(
                        i,
                        j,
                    ),
                sum == crowd.taken_by(clash, h, i as int, acc, j as int),
            decreases k - j,
        {
            proof {
                lemma_at_bound(k as int, k as int, i as int, j as int);
                assert(clashes@[pair_place(k as int, i as int, j as int)] == clash(
                    i as int,
                    j as int,
                ));
            }
            let rest = others_of(frees, Some((i, j)), Ghost(crowd), Ghost(h));
            sum = sum.plus(clashes[i * k + j].times(rest));
            j += 1;
        }
        i += 1;
    }
    let all = others_of(frees, None, Ghost(crowd), Ghost(h));
    all.minus(sum).larger(T::zero())
}

/// The joint reach of the opponents with hands that share no card with hand `h` or
/// each other, for every `h`: the product of all, less what pairs of opponents with a
/// common card take away. Of fewer than two opponents `single` knows the reach.
pub fn mass_cluster_pairs<T: Scalar, P: Fn(&[&[T]], &[u8], usize) -> Vec<T>>(
    opp_reach: &[&[T]],
    hand_cards: &[u8],
    nh: usize,
    single: &P,
) -> (out: Vec<T>)
    requires
        crowd_of(opp_reach@, hand_cards@, nh as int).wf(),
        answers_few(single, opp_reach, hand_cards, nh),
    ensures
        opp_reach@.len() < 2 ==> call_ensures(*single, (opp_reach, hand_cards, nh), out),
        opp_reach@.len() >= 2 ==> out@.len() == nh && forall|h: int|
            0 <= h < nh ==> #[trigger] out@[h] == ({
                let crowd = crowd_of(opp_reach@, hand_cards@, nh as int);
                crowd.mass_left(crowd.clashes(h), h)
            }),
{
    if opp_reach.len() < 2 {
        return single(opp_reach, hand_cards, nh);
    }
    let ghost crowd = crowd_of(opp_reach@, hand_cards@, nh as int);
    let seats = make_seats(opp_reach, hand_cards, nh);
    let bonds = make_bonds(&seats, hand_cards, Ghost(&crowd));
    let k: usize = seats.len();
    let mut out: Vec<T> = Vec::new();
    let mut h: usize = 0;
    while h < nh
        invariant
            h <= nh,
            crowd.wf(),
            crowd.cards == hand_cards@,
            crowd.nh == nh,
            k == crowd.reach.len(),
            are_seats(seats@, &crowd),
            are_bonds(bonds@, &crowd),
            out@.len() == h,
            forall|g: int|
                0 <= g < h ==> #[trigger] out@[g] == crowd.mass_left(crowd.clashes(g), g),
        decreases nh - h,
    {
        let frees = frees_of(&seats, hand_cards, h, Ghost(&crowd));
        let ghost clash = crowd.clashes(h as int);
        let mut clashes: Vec<T> = Vec::new();
        let mut i: usize = 0;
        assert(0 * k == 0) by (nonlinear_arith);
        while i < k
            invariant
                i <= k,
                h < nh,
                crowd.wf(),
                crowd.cards == hand_cards@,
                crowd.nh == nh,
                k == crowd.reach.len(),
                are_seats(seats@, &crowd),
                are_bonds(bonds@, &crowd),
                clash == crowd.clashes(h as int),
                clashes@.len() == i * k,
                forall|p: int, q: int|
                    0 <= p < i && p < q < k ==> #[trigger] clashes@[pair_place(k as int, p, q)]
                        == clash(p, q),
            decreases k - i,
        {
            let mut j: usize = 0;
            while j < k
                invariant
                    j <= k,
                    i < k,
                    h < nh,
                    crowd.wf(),
                    crowd.cards == hand_cards@,
                    crowd.nh == nh,
                    k == crowd.reach.len(),
                    are_seats(seats@, &crowd),
                    are_bonds(bonds@, &crowd),
                    clash == crowd.clashes(h as int),
                    clashes@.len() == i * k + j,
                    forall|p: int, q: int|
                        0 <= p < i && p < q < k ==> #[trigger] clashes@[pair_place(
                            k as int,
                            p,
                            q,
                        )] == clash(p, q),
                    forall|q: int|
                        i < q < j ==> #[trigger] clashes@[pair_place(k as int, i as int, q)]
                            == clash(i as int, q),
                decreases k - j,
            {
                let ghost before = clashes@;
                let bonds_len: usize = bonds.len();
                proof {
                    lemma_at_bound(k as int, k as int, i as int, j as int);
                }
                if i < j {
                    assert(bonds@[pair_place(k as int, i as int, j as int)].is_of(
                        &crowd,
                        i as int,
                        j as int,
                    ));
                    assert(seats@[i as int].is_of(&crowd, i as int) && seats@[j as int].is_of(
                        &crowd,
                        j as int,
                    ));
                    clashes.push(
                        clash_of(
                            &seats[i],
                            &seats[j],
                            &bonds[i * k + j],
                            hand_cards,
                            h,
                            Ghost(&crowd),
                            Ghost(i as int),
                            Ghost(j as int),
                        ),
                    );
                } else {
                    clashes.push(T::zero());
                }
                proof {
                    assert(clashes@.take(before.len() as int) =~= before);
                    lemma_pushed(before, clashes@, k as int, i as int, j as int, clash);
                }
                j += 1;
            }
            assert((i + 1) * k == i * k + k) by (nonlinear_arith);
            proof {
                assert forall|p: int, q: int| 0 <= p < i + 1 && p < q < k implies #[trigger] clashes@[pair_place(
                    k as int,
                    p,
                    q,
                )] == clash(p, q) by {
                    if p == i {
                        assert(clashes@[pair_place(k as int, i as int, q)] == clash(i as int, q));
                    }
                }
            }
            i += 1;
        }
        out.push(left_of(&frees, &clashes, Ghost(&crowd), Ghost(clash), Ghost(h as int)));
        h += 1;
    }
    out
}

/// One more entry of a table of pairs.
proof fn lemma_pushed<T>(
    before: Seq<T>,
    after: Seq<T>,
    k: int,
    i: int,
    j: int,
    f: spec_fn(int, int) -> T,
)
    requires
        0 <= i < k,
        0 <= j < k,
        before.len() == i * k + j,
        after.len() == before.len() + 1,
        after.take(before.len() as int) == before,
        i < j ==> after[before.len() as int] == f(i, j),
        forall|p: int, q: int|
            0 <= p < i && p < q < k ==> #[trigger] before[pair_place(k, p, q)] == f(p, q),
        forall|q: int| i < q < j ==> #[trigger] before[pair_place(k, i, q)] == f(i, q),
    ensures
        forall|p: int, q: int|
            0 <= p < i && p < q < k ==> #[trigger] after[pair_place(k, p, q)] == f(p, q),
        forall|q: int| i < q < j + 1 ==> #[trigger] after[pair_place(k, i, q)] == f(i, q),
{
    assert forall|p: int, q: int| 0 <= p < i && p < q < k implies #[trigger] after[pair_place(
        k,
        p,
        q,
    )] == f(p, q) by {
        lemma_at_bound(k, i, p, q);
        let x = pair_place(k, p, q);
        assert(0 <= x < before.len());
        assert(after.take(before.len() as int)[x] == after[x]);
    }
    assert forall|q: int| i < q < j + 1 implies #[trigger] after[pair_place(k, i, q)] == f(
        i,
        q,
    ) by {
        if q < j {
            assert(0 <= i * k) by (nonlinear_arith)
                requires
                    0 <= i,
                    0 <= k,
            ;
            let x = pair_place(k, i, q);
            assert(0 <= x < before.len());
            assert(after.take(before.len() as int)[x] == after[x]);
        }
    }
}

impl<T: Scalar> Crowd<T> {
    /// The reach of `i` and `j` with a common card among the first `n`.
    pub open spec fn common_all(&self, i: int, j: int, n: nat) -> T
        decreases n,
    {
        if n == 0 {
            T::s_zero()
        } else {
            self.common_all(i, j, (n - 1) as nat).s_plus(
                self.with_card(i, n - 1).s_times(self.with_card(j, n - 1)),
            )
        }
    }

    /// The reach of `j` with card `d` among the first `n` hands, each times the reach
    /// of `i` with its other card.
    pub open spec fn cross(&self, i: int, j: int, d: int, n: nat) -> T
        decreases n,
    {
        if n == 0 {
            T::s_zero()
        } else {
            let prev = self.cross(i, j, d, (n - 1) as nat);
            let g = n - 1;
            let r = self.reach[j][g];
            if is_zero(r) {
                prev
            } else {
                let x = if self.high(g) == d {
                    prev.s_plus(self.with_card(i, self.low(g)).s_times(r))
                } else {
                    prev
                };
                if self.low(g) == d {
                    x.s_plus(self.with_card(i, self.high(g)).s_times(r))
                } else {
                    x
                }
            }
        }
    }

    /// The reach of `i` with `d` and of `j` with `e` over a common card among the first
    /// `n`.
    pub open spec fn linked(&self, i: int, j: int, d: int, e: int, n: nat) -> T
        decreases n,
    {
        if n == 0 {
            T::s_zero()
        } else {
            let prev = self.linked(i, j, d, e, (n - 1) as nat);
            let x = self.entry(i, n - 1, d);
            if is_zero(x) {
                prev
            } else {
                prev.s_plus(x.s_times(self.entry(j, n - 1, e)))
            }
        }
    }

    /// [`Crowd::clash`] by tables over the whole deck; `x` and `y` are the reach of `i`
    /// and `j` with hand `h`.
    pub open spec fn clash_by_tables(&self, i: int, j: int, h: int, x: T, y: T) -> T {
        let h1 = self.low(h);
        let h2 = self.high(h);
        let n = self.nh as nat;
        let all = self.common_all(i, j, 52).s_minus(self.cross(i, j, h1, n)).s_minus(
            self.cross(i, j, h2, n),
        ).s_minus(self.cross(j, i, h1, n)).s_minus(self.cross(j, i, h2, n)).s_plus(
            self.linked(i, j, h1, h1, 52),
        ).s_plus(self.linked(i, j, h1, h2, 52)).s_plus(self.linked(i, j, h2, h1, 52)).s_plus(
            self.linked(i, j, h2, h2, 52),
        );
        let own = self.with_card(i, h1).s_minus(x).s_times(
            self.with_card(j, h1).s_minus(y),
        ).s_plus(
            self.with_card(i, h2).s_minus(x).s_times(self.with_card(j, h2).s_minus(y)),
        );
        all.s_minus(own).s_minus(self.shared_free(i, j, h, x.s_times(y)))
    }

    /// The clashes that hand `h` sees, by tables.
    pub open spec fn clashes_by_tables(&self, h: int) -> spec_fn(int, int) -> T {
        |i: int, j: int|
            self.clash_by_tables(
                i,
                j,
                h,
                self.look(i, self.low(h), self.high(h)),
                self.look(j, self.low(h), self.high(h)),
            )
    }
}

/// Tables of two opponents over the whole deck.
pub struct Span<T> {
    common: T,
    ahead: Vec<T>,
    behind: Vec<T>,
    linked: Vec<T>,
}

impl<T: Scalar> Span<T> {
    pub closed spec fn is_of(&self, crowd: &Crowd<T>, i: int, j: int) -> bool {
        &&& self.common == crowd.common_all(i, j, 52)
        &&& self.ahead@.len() == 52
        &&& forall|d: int|
            0 <= d < 52 ==> #[trigger] self.ahead@[d] == crowd.cross(i, j, d, crowd.nh as nat)
        &&& self.behind@.len() == 52
        &&& forall|d: int|
            0 <= d < 52 ==> #[trigger] self.behind@[d] == crowd.cross(j, i, d, crowd.nh as nat)
        &&& self.linked@.len() == 2704
        &&& forall|d: int, e: int|
            0 <= d < 52 && 0 <= e < 52 ==> #[trigger] self.linked@[at(52, d, e)] == crowd.linked(
                i,
                j,
                d,
                e,
                52,
            )
    }
}

/// Computes [`Crowd::cross`] for every card.
fn cross_table<T: Scalar>(
    a: &Seat<T>,
    b: &Seat<T>,
    cards: &[u8],
    Ghost(crowd): Ghost<&Crowd<T>>,
    Ghost(i): Ghost<int>,
    Ghost(j): Ghost<int>,
) -> (t: Vec<T>)
    requires
        crowd.wf(),
        crowd.cards == cards@,
        0 <= j < crowd.reach.len(),
        a.is_of(crowd, i),
        b.is_of(crowd, j),
    ensures
        t@.len() == 52,
        forall|d: int| 0 <= d < 52 ==> #[trigger] t@[d] == crowd.cross(i, j, d, crowd.nh as nat),
{
    let nh: usize = b.reach.len();
    assert(crowd.reach[j].len() == nh);
    let total: usize = cards.len();
    let mut t: Vec<T> = filled(T::zero(), 52);
    let mut g: usize = 0;
    while g < nh
        invariant
            g <= nh,
            nh == crowd.nh,
            total == cards@.len(),
            crowd.wf(),
            crowd.cards == cards@,
            a.is_of(crowd, i),
            b.reach@ == crowd.reach[j],
            b.reach@.len() == nh,
            t@.len() == 52,
            forall|d: int| 0 <= d < 52 ==> #[trigger] t@[d] == crowd.cross(i, j, d, g as nat),
        decreases nh - g,
    {
        let ghost before = t@;
        let c: usize = cards[2 * g] as usize;
        let d: usize = cards[2 * g + 1] as usize;
        assert(cards@[2 * g] < 52 && cards@[2 * g + 1] < 52);
        let r = b.reach[g];
        if !r.same(T::zero()) {
            let x = t[d].plus(a.with_card[c].times(r));
            t[d] = x;
            let y = t[c].plus(a.with_card[d].times(r));
            t[c] = y;
        }
        proof {
            assert forall|e: int| 0 <= e < 52 implies #[trigger] t@[e] == crowd.cross(
                i,
                j,
                e,
                (g + 1) as nat,
            ) by {
                assert(before[e] == crowd.cross(i, j, e, g as nat));
            }
        }
        g += 1;
    }
    t
}

/// Computes [`Crowd::linked`] for every two cards.
fn linked_table<T: Scalar>(
    a: &Seat<T>,
    b: &Seat<T>,
    Ghost(crowd): Ghost<&Crowd<T>>,
    Ghost(i): Ghost<int>,
    Ghost(j): Ghost<int>,
) -> (t: Vec<T>)
    requires
        a.is_of(crowd, i),
        b.is_of(crowd, j),
    ensures
        t@.len() == 2704,
        forall|d: int, e: int|
            0 <= d < 52 && 0 <= e < 52 ==> #[trigger] t@[at(52, d, e)] == crowd.linked(
                i,
                j,
                d,
                e,
                52,
            ),
{
    let mut t: Vec<T> = filled(T::zero(), 2704);
    let mut c: usize = 0;
    while c < 52
        invariant
            c <= 52,
            a.is_of(crowd, i),
            b.is_of(crowd, j),
            t@.len() == 2704,
            forall|d: int, e: int|
                0 <= d < 52 && 0 <= e < 52 ==> #[trigger] t@[at(52, d, e)] == crowd.linked(
                    i,
                    j,
                    d,
                    e,
                    c as nat,
                ),
        decreases 52 - c,
    {
        let ghost start = t@;
        let mut d: usize = 0;
        while d < 52
            invariant
                d <= 52,
                c < 52,
                a.is_of(crowd, i),
                b.is_of(crowd, j),
                t@.len() == 2704,
                forall|f: int, e: int|
                    0 <= f < 52 && 0 <= e < 52 ==> #[trigger] t@[at(52, f, e)] == crowd.linked(
                        i,
                        j,
                        f,
                        e,
                        if f < d {
                            (c + 1) as nat
                        } else {
                            c as nat
                        },
                    ),
            decreases 52 - d,
        {
            assert(a.entry@[at(52, c as int, d as int)] == crowd.entry(i, c as int, d as int));
            let x = a.entry[c * 52 + d];
            if !x.same(T::zero()) {
                let mut e: usize = 0;
                while e < 52
                    invariant
                        e <= 52,
                        c < 52,
                        d < 52,
                        b.is_of(crowd, j),
                        x == crowd.entry(i, c as int, d as int),
                        !is_zero(x),
                        t@.len() == 2704,
                        forall|f: int, k: int|
                            0 <= f < 52 && 0 <= k < 52 ==> #[trigger] t@[at(52, f, k)]
                                == crowd.linked(
                                i,
                                j,
                                f,
                                k,
                                if f < d || (f == d && k < e) {
                                    (c + 1) as nat
                                } else {
                                    c as nat
                                },
                            ),
                    decreases 52 - e,
                {
                    let ghost before = t@;
                    assert(b.entry@[at(52, c as int, e as int)] == crowd.entry(
                        j,
                        c as int,
                        e as int,
                    ));
                    assert(t@[at(52, d as int, e as int)] == crowd.linked(
                        i,
                        j,
                        d as int,
                        e as int,
                        c as nat,
                    ));
                    let y = t[d * 52 + e].plus(x.times(b.entry[c * 52 + e]));
                    t[d * 52 + e] = y;
                    proof {
                        assert forall|f: int, k: int| 0 <= f < 52 && 0 <= k < 52 implies #[trigger] t@[at(
                            52,
                            f,
                            k,
                        )] == crowd.linked(
                            i,
                            j,
                            f,
                            k,
                            if f < d || (f == d && k < e + 1) {
                                (c + 1) as nat
                            } else {
                                c as nat
                            },
                        ) by {
                            if !(f == d && k == e) {
                                assert(before[at(52, f, k)] == t@[at(52, f, k)]);
                            }
                        }
                    }
                    e += 1;
                }
            }
            d += 1;
        }
        c += 1;
    }
    t
}

fn make_span<T: Scalar>(
    a: &Seat<T>,
    b: &Seat<T>,
    cards: &[u8],
    Ghost(crowd): Ghost<&Crowd<T>>,
    Ghost(i): Ghost<int>,
    Ghost(j): Ghost<int>,
) -> (span: Span<T>)
    requires
        crowd.wf(),
        crowd.cards == cards@,
        0 <= i < crowd.reach.len(),
        0 <= j < crowd.reach.len(),
        a.is_of(crowd, i),
        b.is_of(crowd, j),
    ensures
        span.is_of(crowd, i, j),
{
    let mut common: T = T::zero();
    let mut c: usize = 0;
    while c < 52
        invariant
            c <= 52,
            a.is_of(crowd, i),
            b.is_of(crowd, j),
            common == crowd.common_all(i, j, c as nat),
        decreases 52 - c,
    {
        common = common.plus(a.with_card[c].times(b.with_card[c]));
        c += 1;
    }
    Span {
        common,
        ahead: cross_table(a, b, cards, Ghost(crowd), Ghost(i), Ghost(j)),
        behind: cross_table(b, a, cards, Ghost(crowd), Ghost(j), Ghost(i)),
        linked: linked_table(a, b, Ghost(crowd), Ghost(i), Ghost(j)),
    }
}

/// Computes [`Crowd::clash_by_tables`].
fn clash_by_tables_of<T: Scalar>(
    a: &Seat<T>,
    b: &Seat<T>,
    bond: &Bond<T>,
    span: &Span<T>,
    cards: &[u8],
    h: usize,
    x: T,
    y: T,
    Ghost(crowd): Ghost<&Crowd<T>>,
    Ghost(i): Ghost<int>,
    Ghost(j): Ghost<int>,
) -> (out: T)
    requires
        crowd.wf(),
        crowd.cards == cards@,
        a.is_of(crowd, i),
        b.is_of(crowd, j),
        bond.is_of(crowd, i, j),
        span.is_of(crowd, i, j),
        h < crowd.nh,
    ensures
        out == crowd.clash_by_tables(i, j, h as int, x, y),
{
    let total: usize = cards.len();
    let h1: usize = cards[2 * h] as usize;
    let h2: usize = cards[2 * h + 1] as usize;
    proof {
        assert(cards@[2 * h] < 52 && cards@[2 * h + 1] < 52);
        let p = h1 as int;
        let q = h2 as int;
        lemma_at_bound(52, 52, p, p);
        lemma_at_bound(52, 52, p, q);
        lemma_at_bound(52, 52, q, p);
        lemma_at_bound(52, 52, q, q);
        assert(span.linked@[at(52, p, p)] == crowd.linked(i, j, p, p, 52));
        assert(span.linked@[at(52, p, q)] == crowd.linked(i, j, p, q, 52));
        assert(span.linked@[at(52, q, p)] == crowd.linked(i, j, q, p, 52));
        assert(span.linked@[at(52, q, q)] == crowd.linked(i, j, q, q, 52));
    }
    let all = span.common.minus(span.ahead[h1]).minus(span.ahead[h2]).minus(
        span.behind[h1],
    ).minus(span.behind[h2]).plus(span.linked[h1 * 52 + h1]).plus(
        span.linked[h1 * 52 + h2],
    ).plus(span.linked[h2 * 52 + h1]).plus(span.linked[h2 * 52 + h2]);
    let own = a.with_card[h1].minus(x).times(b.with_card[h1].minus(y)).plus(
        a.with_card[h2].minus(x).times(b.with_card[h2].minus(y)),
    );
    all.minus(own).minus(
        shared_free_of(bond, cards, h, x.times(y), Ghost(crowd), Ghost(i), Ghost(j)),
    )
}

/// The deck tables of every pair of opponents, by [`pair_place`].
pub open spec fn are_spans<T: Scalar>(spans: Seq<Span<T>>, crowd: &Crowd<T>) -> bool {
    let k = crowd.reach.len() as int;
    &&& spans.len() == k * k
    &&& forall|i: int, j: int|
        0 <= i < j < k ==> (#[trigger] spans[pair_place(k, i, j)]).is_of(crowd, i, j)
}

fn make_spans<T: Scalar>(seats: &Vec<Seat<T>>, cards: &[u8], Ghost(crowd): Ghost<&Crowd<T>>) -> (spans:
    Vec<Span<T>>)
    requires
        crowd.wf(),
        crowd.cards == cards@,
        are_seats(seats@, crowd),
    ensures
        are_spans(spans@, crowd),
{
    let k: usize = seats.len();
    let mut spans: Vec<Span<T>> = Vec::new();
    let mut i: usize = 0;
    assert(0 * k == 0) by (nonlinear_arith);
    while i < k
        invariant
            i <= k,
            k == seats@.len(),
            k == crowd.reach.len(),
            crowd.wf(),
            crowd.cards == cards@,
            are_seats(seats@, crowd),
            spans@.len() == i * k,
            forall|p: int, q: int|
                0 <= p < i && p < q < k ==> (#[trigger] spans@[pair_place(k as int, p, q)]).is_of(
                    crowd,
                    p,
                    q,
                ),
        decreases k - i,
    {
        let mut j: usize = 0;
        while j < k
            invariant
                j <= k,
                i < k,
                k == seats@.len(),
                k == crowd.reach.len(),
                crowd.wf(),
                crowd.cards == cards@,
                are_seats(seats@, crowd),
                spans@.len() == i * k + j,
                forall|p: int, q: int|
                    0 <= p < i && p < q < k ==> (#[trigger] spans@[pair_place(
                        k as int,
                        p,
                        q,
                    )]).is_of(crowd, p, q),
                forall|q: int|
                    i < q < j ==> (#[trigger] spans@[pair_place(k as int, i as int, q)]).is_of(
                        crowd,
                        i as int,
                        q,
                    ),
            decreases k - j,
        {
            let ghost before = spans@;
            assert(seats@[i as int].is_of(crowd, i as int) && seats@[j as int].is_of(
                crowd,
                j as int,
            ));
            if i < j {
                spans.push(
                    make_span(
                        &seats[i],
                        &seats[j],
                        cards,
                        Ghost(crowd),
                        Ghost(i as int),
                        Ghost(j as int),
                    ),
                );
            } else {
                spans.push(
                    Span {
                        common: T::zero(),
                        ahead: Vec::new(),
                        behind: Vec::new(),
                        linked: Vec::new(),
                    },
                );
            }
            proof {
                assert forall|p: int, q: int| 0 <= p < i && p < q < k implies (
                #[trigger] spans@[pair_place(k as int, p, q)]).is_of(crowd, p, q) by {
                    lemma_at_bound(k as int, i as int, p, q);
                    assert(before[pair_place(k as int, p, q)].is_of(crowd, p, q));
                }
                assert forall|q: int| i < q < j + 1 implies (#[trigger] spans@[pair_place(
                    k as int,
                    i as int,
                    q,
                )]).is_of(crowd, i as int, q) by {
                    if q < j {
                        assert(before[pair_place(k as int, i as int, q)].is_of(
                            crowd,
                            i as int,
                            q,
                        ));
                    }
                }
            }
            j += 1;
        }
        assert((i + 1) * k == i * k + k) by (nonlinear_arith);
        proof {
            assert forall|p: int, q: int| 0 <= p < i + 1 && p < q < k implies (
            #[trigger] spans@[pair_place(k as int, p, q)]).is_of(crowd, p, q) by {
                if p == i {
                    assert(spans@[pair_place(k as int, i as int, q)].is_of(crowd, i as int, q));
                }
            }
        }
        i += 1;
    }
    spans
}

/// Computes the clashes of all pairs by tables; with `by_hand` the reach with hand `h`
/// is read by hand, else by its cards.
fn clashes_by_tables_of<T: Scalar>(
    seats: &Vec<Seat<T>>,
    bonds: &Vec<Bond<T>>,
    spans: &Vec<Span<T>>,
    cards: &[u8],
    h: usize,
    by_hand: bool,
    Ghost(crowd): Ghost<&Crowd<T>>,
    Ghost(clash): Ghost<spec_fn(int, int) -> T>,
) -> (clashes: Vec<T>)
    requires
        crowd.wf(),
        crowd.cards == cards@,
        are_seats(seats@, crowd),
        are_bonds(bonds@, crowd),
        are_spans(spans@, crowd),
        h < crowd.nh,
        clash == if by_hand {
            crowd.clashes_by_hand(h as int)
        } else {
            crowd.clashes_by_tables(h as int)
        },
    ensures
        clashes@.len() == crowd.reach.len() * crowd.reach.len(),
        forall|i: int, j: int|
            0 <= i < j < crowd.reach.len() ==> #[trigger] clashes@[pair_place(
                crowd.reach.len() as int,
                i,
                j,
            )] == clash(i, j),
{
    let k: usize = seats.len();
    let total: usize = cards.len();
    let h1: usize = cards[2 * h] as usize;
    let h2: usize = cards[2 * h + 1] as usize;
    proof {
        assert(cards@[2 * h] < 52 && cards@[2 * h + 1] < 52);
        lemma_at_bound(52, 52, h1 as int, h2 as int);
    }
    let mut clashes: Vec<T> = Vec::new();
    let mut i: usize = 0;
    assert(0 * k == 0) by (nonlinear_arith);
    while i < k
        invariant
            i <= k,
            crowd.wf(),
            crowd.cards == cards@,
            k == crowd.reach.len(),
            are_seats(seats@, crowd),
            are_bonds(bonds@, crowd),
            are_spans(spans@, crowd),
            h < crowd.nh,
            h1 == crowd.low(h as int),
            h2 == crowd.high(h as int),
            h1 < 52,
            h2 < 52,
            clash == if by_hand {
                crowd.clashes_by_hand(h as int)
            } else {
                crowd.clashes_by_tables(h as int)
            },
            clashes@.len() == i * k,
            forall|p: int, q: int|
                0 <= p < i && p < q < k ==> #[trigger] clashes@[pair_place(k as int, p, q)]
                    == clash(p, q),
        decreases k - i,
    {
        let mut j: usize = 0;
        while j < k
            invariant
                j <= k,
                i < k,
                crowd.wf(),
                crowd.cards == cards@,
                k == crowd.reach.len(),
                are_seats(seats@, crowd),
                are_bonds(bonds@, crowd),
                are_spans(spans@, crowd),
                h < crowd.nh,
                h1 == crowd.low(h as int),
                h2 == crowd.high(h as int),
                h1 < 52,
                h2 < 52,
                clash == if by_hand {
                    crowd.clashes_by_hand(h as int)
                } else {
                    crowd.clashes_by_tables(h as int)
                },
                clashes@.len() == i * k + j,
                forall|p: int, q: int|
                    0 <= p < i && p < q < k ==> #[trigger] clashes@[pair_place(k as int, p, q)]
                        == clash(p, q),
                forall|q: int|
                    i < q < j ==> #[trigger] clashes@[pair_place(k as int, i as int, q)] == clash(
                        i as int,
                        q,
                    ),
            decreases k - j,
        {
            let ghost before = clashes@;
            let places: usize = bonds.len();
            proof {
                lemma_at_bound(k as int, k as int, i as int, j as int);
            }
            if i < j {
                proof {
                    assert(bonds@[pair_place(k as int, i as int, j as int)].is_of(
                        crowd,
                        i as int,
                        j as int,
                    ));
                    assert(spans@[pair_place(k as int, i as int, j as int)].is_of(
                        crowd,
                        i as int,
                        j as int,
                    ));
                    assert(seats@[i as int].is_of(crowd, i as int) && seats@[j as int].is_of(
                        crowd,
                        j as int,
                    ));
                    assert(crowd.reach[i as int].len() == crowd.nh && crowd.reach[j as int].len()
                        == crowd.nh);
                    lemma_at_bound(52, 52, h1 as int, h2 as int);
                    assert(seats@[i as int].look@[at(52, h1 as int, h2 as int)] == crowd.look(
                        i as int,
                        h1 as int,
                        h2 as int,
                    ));
                    assert(seats@[j as int].look@[at(52, h1 as int, h2 as int)] == crowd.look(
                        j as int,
                        h1 as int,
                        h2 as int,
                    ));
                }
                let (x, y) = if by_hand {
                    (seats[i].reach[h], seats[j].reach[h])
                } else {
                    (seats[i].look[h1 * 52 + h2], seats[j].look[h1 * 52 + h2])
                };
                clashes.push(
                    clash_by_tables_of(
                        &seats[i],
                        &seats[j],
                        &bonds[i * k + j],
                        &spans[i * k + j],
                        cards,
                        h,
                        x,
                        y,
                        Ghost(crowd),
                        Ghost(i as int),
                        Ghost(j as int),
                    ),
                );
            } else {
                clashes.push(T::zero());
            }
            proof {
                assert(clashes@.take(before.len() as int) =~= before);
                lemma_pushed(before, clashes@, k as int, i as int, j as int, clash);
            }
            j += 1;
        }
        assert((i + 1) * k == i * k + k) by (nonlinear_arith);
        proof {
            assert forall|p: int, q: int| 0 <= p < i + 1 && p < q < k implies #[trigger] clashes@[pair_place(
                k as int,
                p,
                q,
            )] == clash(p, q) by {
                if p == i {
                    assert(clashes@[pair_place(k as int, i as int, q)] == clash(i as int, q));
                }
            }
        }
        i += 1;
    }
    clashes
}

impl<T: Scalar> Crowd<T> {
    /// The clashes that hand `h` sees, by tables, the reach with `h` read by hand.
    pub open spec fn clashes_by_hand(&self, h: int) -> spec_fn(int, int) -> T {
        |i: int, j: int| self.clash_by_tables(i, j, h, self.reach[i][h], self.reach[j][h])
    }
}

/// [`mass_cluster_pairs`] with the clashes taken from tables over the whole deck.
pub fn mass_cluster_pairs_fast<T: Scalar, P: Fn(&[&[T]], &[u8], usize) -> Vec<T>>(
    opp_reach: &[&[T]],
    hand_cards: &[u8],
    nh: usize,
    single: &P,
) -> (out: Vec<T>)
    requires
        crowd_of(opp_reach@, hand_cards@, nh as int).wf(),
        answers_few(single, opp_reach, hand_cards, nh),
    ensures
        opp_reach@.len() < 2 ==> call_ensures(*single, (opp_reach, hand_cards, nh), out),
        opp_reach@.len() >= 2 ==> out@.len() == nh && forall|h: int|
            0 <= h < nh ==> #[trigger] out@[h] == ({
                let crowd = crowd_of(opp_reach@, hand_cards@, nh as int);
                crowd.mass_left(crowd.clashes_by_tables(h), h)
            }),
{
    if opp_reach.len() < 2 {
        return single(opp_reach, hand_cards, nh);
    }
    let ghost crowd = crowd_of(opp_reach@, hand_cards@, nh as int);
    let seats = make_seats(opp_reach, hand_cards, nh);
    let bonds = make_bonds(&seats, hand_cards, Ghost(&crowd));
    let spans = make_spans(&seats, hand_cards, Ghost(&crowd));
    let mut out: Vec<T> = Vec::new();
    let mut h: usize = 0;
    while h < nh
        invariant
            h <= nh,
            crowd.wf(),
            crowd.cards == hand_cards@,
            crowd.nh == nh,
            are_seats(seats@, &crowd),
            are_bonds(bonds@, &crowd),
            are_spans(spans@, &crowd),
            out@.len() == h,
            forall|g: int|
                0 <= g < h ==> #[trigger] out@[g] == crowd.mass_left(
                    crowd.clashes_by_tables(g),
                    g,
                ),
        decreases nh - h,
    {
        let frees = frees_of(&seats, hand_cards, h, Ghost(&crowd));
        let ghost clash = crowd.clashes_by_tables(h as int);
        let clashes = clashes_by_tables_of(
            &seats,
            &bonds,
            &spans,
            hand_cards,
            h,
            false,
            Ghost(&crowd),
            Ghost(clash),
        );
        out.push(left_of(&frees, &clashes, Ghost(&crowd), Ghost(clash), Ghost(h as int)));
        h += 1;
    }
    out
}

impl<T: Scalar> Crowd<T> {
    /// Opponent `i`'s reach with hands that share a card with hand `g`.
    pub open spec fn touching(&self, i: int, g: int) -> T {
        self.with_card(i, self.low(g)).s_plus(self.with_card(i, self.high(g))).s_minus(
            self.reach[i][g],
        )
    }

    /// The reach of `c`, by hand, times the reach of `i` and of `k` with hands that
    /// share a card with it.
    pub open spec fn path_values(&self, c: int, i: int, k: int) -> Seq<T> {
        Seq::new(
            self.nh as nat,
            |g: int|
                self.reach[c][g].s_times(self.touching(i, g)).s_times(self.touching(k, g)),
        )
    }

    pub open spec fn path(&self, c: int, i: int, k: int) -> T {
        total(self.path_values(c, i, k), nonzero(self.reach[c]), self.nh as nat)
    }

    pub open spec fn path_with(&self, c: int, i: int, k: int, card: int) -> T {
        by_card(
            self.cards,
            self.path_values(c, i, k),
            nonzero(self.reach[c]),
            card,
            self.nh as nat,
        )
    }

    /// The paths over `c` whose end at `k` holds card `e`, over the first `n` hands.
    pub open spec fn path_end(&self, c: int, i: int, k: int, e: int, n: nat) -> T
        decreases n,
    {
        if n == 0 {
            T::s_zero()
        } else {
            let prev = self.path_end(c, i, k, e, (n - 1) as nat);
            let g = n - 1;
            let y = self.entry(k, self.low(g), e).s_plus(self.entry(k, self.high(g), e));
            if is_zero(self.reach[c][g]) || is_zero(y) {
                prev
            } else {
                prev.s_plus(self.reach[c][g].s_times(self.touching(i, g)).s_times(y))
            }
        }
    }

    /// The paths over `c`, without the cards of hand `h`.
    pub open spec fn path_free(&self, c: int, i: int, k: int, h: int) -> T {
        let h1 = self.low(h);
        let h2 = self.high(h);
        let n = self.nh as nat;
        self.path(c, i, k).s_minus(self.path_with(c, i, k, h1)).s_minus(
            self.path_with(c, i, k, h2),
        ).s_minus(
            self.path_end(c, i, k, h1, n).s_plus(self.path_end(c, i, k, h2, n)).s_plus(
                self.path_end(c, k, i, h1, n),
            ).s_plus(self.path_end(c, k, i, h2, n)),
        )
    }

    /// Three hands on three cards, the third card among the first `n`, added to `acc`.
    pub open spec fn ring_third(&self, i: int, j: int, k: int, c1: int, c2: int, acc: T, n: nat) -> T
        decreases n,
    {
        if n == 0 {
            acc
        } else {
            let prev = self.ring_third(i, j, k, c1, c2, acc, (n - 1) as nat);
            let c3 = n - 1;
            if c3 == c1 || c3 == c2 {
                prev
            } else {
                prev.s_plus(
                    self.entry(i, c1, c3).s_times(self.entry(j, c1, c2)).s_times(
                        self.entry(k, c2, c3),
                    ),
                )
            }
        }
    }

    /// The same, the second card among the first `n`.
    pub open spec fn ring_second(&self, i: int, j: int, k: int, c1: int, acc: T, n: nat) -> T
        decreases n,
    {
        if n == 0 {
            acc
        } else {
            let prev = self.ring_second(i, j, k, c1, acc, (n - 1) as nat);
            if n - 1 == c1 || is_zero(self.entry(j, c1, n - 1)) {
                prev
            } else {
                self.ring_third(i, j, k, c1, n - 1, prev, 52)
            }
        }
    }

    /// The same, the first card among the first `n`.
    pub open spec fn ring(&self, i: int, j: int, k: int, n: nat) -> T
        decreases n,
    {
        if n == 0 {
            T::s_zero()
        } else {
            self.ring_second(i, j, k, n - 1, self.ring(i, j, k, (n - 1) as nat), 52)
        }
    }

    /// Two equal hands and a third with one of their cards, the other card among the
    /// first `n`, added to `acc`.
    pub open spec fn twins_second(&self, i: int, j: int, k: int, a: int, acc: T, n: nat) -> T
        decreases n,
    {
        if n == 0 {
            acc
        } else {
            let prev = self.twins_second(i, j, k, a, acc, (n - 1) as nat);
            let b = n - 1;
            if a == b {
                prev
            } else {
                prev.s_plus(
                    self.entry(i, a, b).s_times(self.with_card(j, a)).s_times(self.entry(k, a, b)),
                ).s_plus(
                    self.entry(i, b, a).s_times(self.entry(j, b, a)).s_times(self.with_card(k, a)),
                ).s_plus(
                    self.with_card(i, a).s_times(self.entry(j, a, b)).s_times(self.entry(k, a, b)),
                )
            }
        }
    }

    /// The same, the common card among the first `n`.
    pub open spec fn twins(&self, i: int, j: int, k: int, n: nat) -> T
        decreases n,
    {
        if n == 0 {
            T::s_zero()
        } else {
            self.twins_second(i, j, k, n - 1, self.twins(i, j, k, (n - 1) as nat), 52)
        }
    }

    /// Three hands with card `c`.
    pub open spec fn star_at(&self, i: int, j: int, k: int, c: int) -> T {
        self.with_card(i, c).s_times(self.with_card(j, c)).s_times(self.with_card(k, c))
    }

    /// Three hands with a common card among the first `n`, added to the twins.
    pub open spec fn stars(&self, i: int, j: int, k: int, n: nat) -> T
        decreases n,
    {
        if n == 0 {
            self.twins(i, j, k, 52)
        } else {
            self.stars(i, j, k, (n - 1) as nat).s_plus(self.star_at(i, j, k, n - 1))
        }
    }

    /// Opponent `i`'s reach around hand `g`, the hand itself counted four times.
    pub open spec fn around(&self, i: int, g: int) -> T {
        self.with_card(i, self.low(g)).s_plus(self.with_card(i, self.high(g))).s_plus(
            T::s_of(2).s_times(self.reach[i][g]),
        )
    }

    /// Two opponents with the same hand and the third around it, by hand.
    pub open spec fn doubles(&self, i: int, j: int, k: int) -> Seq<T> {
        Seq::new(
            self.nh as nat,
            |g: int|
                {
                    let (ri, rj, rk) = (self.reach[i][g], self.reach[j][g], self.reach[k][g]);
                    ri.s_times(rk).s_times(self.around(j, g)).s_plus(
                        ri.s_times(rj).s_times(self.around(k, g)),
                    ).s_plus(rj.s_times(rk).s_times(self.around(i, g)))
                },
        )
    }

    /// All three with the same hand, by hand.
    pub open spec fn triples(&self, i: int, j: int, k: int) -> Seq<T> {
        Seq::new(
            self.nh as nat,
            |g: int| self.reach[i][g].s_times(self.reach[j][g]).s_times(self.reach[k][g]),
        )
    }

    /// What values by hand add up to, without those of the cards of hand `h`.
    pub open spec fn values_free(&self, v: Seq<T>, h: int) -> T {
        total(v, everyone(self.nh), self.nh as nat).s_minus(
            by_card(self.cards, v, everyone(self.nh), self.low(h), self.nh as nat),
        ).s_minus(by_card(self.cards, v, everyone(self.nh), self.high(h), self.nh as nat))
    }

    /// Three hands of which every two share a card, without the cards of hand `h`.
    pub open spec fn knot(&self, i: int, j: int, k: int, h: int) -> T {
        self.ring(i, j, k, 52).s_plus(self.stars(i, j, k, 52)).s_minus(
            self.star_at(i, j, k, self.low(h)),
        ).s_minus(self.star_at(i, j, k, self.high(h))).s_minus(
            self.values_free(self.doubles(i, j, k), h),
        ).s_plus(T::s_of(5).s_times(self.values_free(self.triples(i, j, k), h)))
    }

    /// Three opponents in one cluster.
    pub open spec fn cluster(&self, i: int, j: int, k: int, h: int) -> T {
        T::s_zero().s_plus(self.path_free(i, j, k, h)).s_plus(
            self.path_free(j, i, k, h),
        ).s_plus(self.path_free(k, i, j, h)).s_minus(self.knot(i, j, k, h))
    }

    /// The mass of four opponents: all apart, one pair, two pairs, or a cluster of
    /// three; not under zero.
    pub open spec fn mass_of_four(&self, h: int) -> T {
        let s0 = self.free(0, h);
        let s1 = self.free(1, h);
        let s2 = self.free(2, h);
        let s3 = self.free(3, h);
        let c = self.clashes_by_hand(h);
        let apart = s0.s_times(s1).s_times(s2).s_times(s3);
        let pairs = T::s_of(-1).s_times(c(0, 1)).s_times(s2).s_times(s3).s_minus(
            c(0, 2).s_times(s1).s_times(s3),
        ).s_minus(c(0, 3).s_times(s1).s_times(s2)).s_minus(
            c(1, 2).s_times(s0).s_times(s3),
        ).s_minus(c(1, 3).s_times(s0).s_times(s2)).s_minus(c(2, 3).s_times(s0).s_times(s1));
        let double = c(0, 1).s_times(c(2, 3)).s_plus(c(0, 2).s_times(c(1, 3))).s_plus(
            c(0, 3).s_times(c(1, 2)),
        );
        let threes = self.cluster(0, 1, 2, h).s_times(s3).s_plus(
            self.cluster(0, 1, 3, h).s_times(s2),
        ).s_plus(self.cluster(0, 2, 3, h).s_times(s1)).s_plus(
            self.cluster(1, 2, 3, h).s_times(s0),
        );
        apart.s_plus(pairs).s_plus(double).s_plus(threes).s_larger(T::s_zero())
    }
}

/// Values by hand, their sum and their sums by card.
pub struct Tally<T> {
    sum: T,
    with_card: Vec<T>,
}

impl<T: Scalar> Tally<T> {
    pub closed spec fn is_of(&self, cards: Seq<u8>, v: Seq<T>, live: Seq<bool>) -> bool {
        &&& self.sum == total(v, live, v.len())
        &&& self.with_card@.len() == 52
        &&& forall|c: int|
            0 <= c < 52 ==> #[trigger] self.with_card@[c] == by_card(cards, v, live, c, v.len())
    }
}

fn tally<T: Scalar>(cards: &[u8], v: &Vec<T>, live: &Vec<bool>) -> (t: Tally<T>)
    requires
        live@.len() == v@.len(),
        are_hands(cards@, v@.len() as int),
    ensures
        t.is_of(cards@, v@, live@),
{
    Tally { sum: sum_live(v, live), with_card: card_table(cards, v, live) }
}

/// Tables of the paths over one opponent.
pub struct Path<T> {
    all: Tally<T>,
    right: Vec<T>,
    left: Vec<T>,
}

impl<T: Scalar> Path<T> {
    pub closed spec fn is_of(&self, crowd: &Crowd<T>, c: int, i: int, k: int) -> bool {
        &&& self.all.is_of(crowd.cards, crowd.path_values(c, i, k), nonzero(crowd.reach[c]))
        &&& self.right@.len() == 52
        &&& forall|e: int|
            0 <= e < 52 ==> #[trigger] self.right@[e] == crowd.path_end(
                c,
                i,
                k,
                e,
                crowd.nh as nat,
            )
        &&& self.left@.len() == 52
        &&& forall|e: int|
            0 <= e < 52 ==> #[trigger] self.left@[e] == crowd.path_end(
                c,
                k,
                i,
                e,
                crowd.nh as nat,
            )
    }
}

/// Computes [`Crowd::touching`].
fn touching_of<T: Scalar>(
    seat: &Seat<T>,
    cards: &[u8],
    g: usize,
    Ghost(crowd): Ghost<&Crowd<T>>,
    Ghost(i): Ghost<int>,
) -> (x: T)
    requires
        crowd.wf(),
        crowd.cards == cards@,
        0 <= i < crowd.reach.len(),
        seat.is_of(crowd, i),
        g < crowd.nh,
    ensures
        x == crowd.touching(i, g as int),
{
    assert(crowd.reach[i].len() == crowd.nh);
    let total: usize = cards.len();
    let a: usize = cards[2 * g] as usize;
    let b: usize = cards[2 * g + 1] as usize;
    assert(cards@[2 * g] < 52 && cards@[2 * g + 1] < 52);
    seat.with_card[a].plus(seat.with_card[b]).minus(seat.reach[g])
}

/// Computes [`Crowd::path_end`] for every card.
fn path_ends<T: Scalar>(
    c: &Seat<T>,
    i: &Seat<T>,
    k: &Seat<T>,
    cards: &[u8],
    Ghost(crowd): Ghost<&Crowd<T>>,
    Ghost(ci): Ghost<int>,
    Ghost(ii): Ghost<int>,
    Ghost(ki): Ghost<int>,
) -> (t: Vec<T>)
    requires
        crowd.wf(),
        crowd.cards == cards@,
        0 <= ci < crowd.reach.len(),
        0 <= ii < crowd.reach.len(),
        0 <= ki < crowd.reach.len(),
        c.is_of(crowd, ci),
        i.is_of(crowd, ii),
        k.is_of(crowd, ki),
    ensures
        t@.len() == 52,
        forall|e: int|
            0 <= e < 52 ==> #[trigger] t@[e] == crowd.path_end(ci, ii, ki, e, crowd.nh as nat),
{
    let nh: usize = c.reach.len();
    assert(crowd.reach[ci].len() == nh);
    let total: usize = cards.len();
    let mut t: Vec<T> = filled(T::zero(), 52);
    let mut g: usize = 0;
    while g < nh
        invariant
            g <= nh,
            nh == crowd.nh,
            total == cards@.len(),
            crowd.wf(),
            crowd.cards == cards@,
            0 <= ii < crowd.reach.len(),
            c.reach@ == crowd.reach[ci],
            c.reach@.len() == nh,
            i.is_of(crowd, ii),
            k.is_of(crowd, ki),
            t@.len() == 52,
            forall|e: int|
                0 <= e < 52 ==> #[trigger] t@[e] == crowd.path_end(ci, ii, ki, e, g as nat),
        decreases nh - g,
    {
        let r = c.reach[g];
        if !r.same(T::zero()) {
            let a: usize = cards[2 * g] as usize;
            let b: usize = cards[2 * g + 1] as usize;
            assert(cards@[2 * g] < 52 && cards@[2 * g + 1] < 52);
            let x = touching_of(i, cards, g, Ghost(crowd), Ghost(ii));
            let mut e: usize = 0;
            while e < 52
                invariant
                    e <= 52,
                    a < 52,
                    b < 52,
                    g < nh,
                    a == crowd.low(g as int),
                    b == crowd.high(g as int),
                    r == crowd.reach[ci][g as int],
                    !is_zero(r),
                    x == crowd.touching(ii, g as int),
                    k.is_of(crowd, ki),
                    t@.len() == 52,
                    forall|f: int|
                        0 <= f < 52 ==> #[trigger] t@[f] == crowd.path_end(
                            ci,
                            ii,
                            ki,
                            f,
                            if f < e {
                                (g + 1) as nat
                            } else {
                                g as nat
                            },
                        ),
                decreases 52 - e,
            {
                let ghost before = t@;
                assert(k.entry@[at(52, a as int, e as int)] == crowd.entry(
                    ki,
                    a as int,
                    e as int,
                ));
                assert(k.entry@[at(52, b as int, e as int)] == crowd.entry(
                    ki,
                    b as int,
                    e as int,
                ));
                let y = k.entry[a * 52 + e].plus(k.entry[b * 52 + e]);
                if !y.same(T::zero()) {
                    let z = t[e].plus(r.times(x).times(y));
                    t[e] = z;
                }
                proof {
                    assert forall|f: int| 0 <= f < 52 implies #[trigger] t@[f] == crowd.path_end(
                        ci,
                        ii,
                        ki,
                        f,
                        if f < e + 1 {
                            (g + 1) as nat
                        } else {
                            g as nat
                        },
                    ) by {
                        assert(before[f] == crowd.path_end(
                            ci,
                            ii,
                            ki,
                            f,
                            if f < e {
                                (g + 1) as nat
                            } else {
                                g as nat
                            },
                        ));
                    }
                }
                e += 1;
            }
        } else {
            proof {
                assert forall|e: int| 0 <= e < 52 implies #[trigger] t@[e] == crowd.path_end(
                    ci,
                    ii,
                    ki,
                    e,
                    (g + 1) as nat,
                ) by {
                    assert(t@[e] == crowd.path_end(ci, ii, ki, e, g as nat));
                }
            }
        }
        g += 1;
    }
    t
}

fn make_path<T: Scalar>(
    c: &Seat<T>,
    i: &Seat<T>,
    k: &Seat<T>,
    cards: &[u8],
    Ghost(crowd): Ghost<&Crowd<T>>,
    Ghost(ci): Ghost<int>,
    Ghost(ii): Ghost<int>,
    Ghost(ki): Ghost<int>,
) -> (path: Path<T>)
    requires
        crowd.wf(),
        crowd.cards == cards@,
        0 <= ci < crowd.reach.len(),
        0 <= ii < crowd.reach.len(),
        0 <= ki < crowd.reach.len(),
        c.is_of(crowd, ci),
        i.is_of(crowd, ii),
        k.is_of(crowd, ki),
    ensures
        path.is_of(crowd, ci, ii, ki),
{
    let nh: usize = c.reach.len();
    assert(crowd.reach[ci].len() == nh);
    let live = nonzero_of(&c.reach);
    let mut v: Vec<T> = Vec::new();
    let mut g: usize = 0;
    while g < nh
        invariant
            g <= nh,
            nh == crowd.nh,
            crowd.wf(),
            crowd.cards == cards@,
            0 <= ii < crowd.reach.len(),
            0 <= ki < crowd.reach.len(),
            c.reach@ == crowd.reach[ci],
            c.reach@.len() == nh,
            i.is_of(crowd, ii),
            k.is_of(crowd, ki),
            v@.len() == g,
            forall|m: int| 0 <= m < g ==> #[trigger] v@[m] == crowd.path_values(ci, ii, ki)[m],
        decreases nh - g,
    {
        let x = touching_of(i, cards, g, Ghost(crowd), Ghost(ii));
        let y = touching_of(k, cards, g, Ghost(crowd), Ghost(ki));
        v.push(c.reach[g].times(x).times(y));
        g += 1;
    }
    assert(v@ =~= crowd.path_values(ci, ii, ki));
    Path {
        all: tally(cards, &v, &live),
        right: path_ends(c, i, k, cards, Ghost(crowd), Ghost(ci), Ghost(ii), Ghost(ki)),
        left: path_ends(c, k, i, cards, Ghost(crowd), Ghost(ci), Ghost(ki), Ghost(ii)),
    }
}

/// Computes [`Crowd::path_free`].
fn path_free_of<T: Scalar>(
    path: &Path<T>,
    cards: &[u8],
    h: usize,
    Ghost(crowd): Ghost<&Crowd<T>>,
    Ghost(c): Ghost<int>,
    Ghost(i): Ghost<int>,
    Ghost(k): Ghost<int>,
) -> (x: T)
    requires
        crowd.wf(),
        crowd.cards == cards@,
        path.is_of(crowd, c, i, k),
        h < crowd.nh,
    ensures
        x == crowd.path_free(c, i, k, h as int),
{
    let total: usize = cards.len();
    let h1: usize = cards[2 * h] as usize;
    let h2: usize = cards[2 * h + 1] as usize;
    assert(cards@[2 * h] < 52 && cards@[2 * h + 1] < 52);
    path.all.sum.minus(path.all.with_card[h1]).minus(path.all.with_card[h2]).minus(
        path.right[h1].plus(path.right[h2]).plus(path.left[h1]).plus(path.left[h2]),
    )
}

/// Computes [`Crowd::ring`] over all cards.
fn ring_of<T: Scalar>(
    i: &Seat<T>,
    j: &Seat<T>,
    k: &Seat<T>,
    Ghost(crowd): Ghost<&Crowd<T>>,
    Ghost(ii): Ghost<int>,
    Ghost(ji): Ghost<int>,
    Ghost(ki): Ghost<int>,
) -> (x: T)
    requires
        i.is_of(crowd, ii),
        j.is_of(crowd, ji),
        k.is_of(crowd, ki),
    ensures
        x == crowd.ring(ii, ji, ki, 52),
{
    let mut x: T = T::zero();
    let mut c1: usize = 0;
    while c1 < 52
        invariant
            c1 <= 52,
            i.is_of(crowd, ii),
            j.is_of(crowd, ji),
            k.is_of(crowd, ki),
            x == crowd.ring(ii, ji, ki, c1 as nat),
        decreases 52 - c1,
    {
        let ghost acc = x;
        let mut c2: usize = 0;
        while c2 < 52
            invariant
                c1 < 52,
                c2 <= 52,
                i.is_of(crowd, ii),
                j.is_of(crowd, ji),
                k.is_of(crowd, ki),
                x == crowd.ring_second(ii, ji, ki, c1 as int, acc, c2 as nat),
            decreases 52 - c2,
        {
            assert(j.entry@[at(52, c1 as int, c2 as int)] == crowd.entry(
                ji,
                c1 as int,
                c2 as int,
            ));
            let y = j.entry[c1 * 52 + c2];
            if c2 != c1 && !y.same(T::zero()) {
                let ghost mid = x;
                let mut c3: usize = 0;
                while c3 < 52
                    invariant
                        c1 < 52,
                        c2 < 52,
                        c3 <= 52,
                        i.is_of(crowd, ii),
                        k.is_of(crowd, ki),
                        y == crowd.entry(ji, c1 as int, c2 as int),
                        x == crowd.ring_third(
                            ii,
                            ji,
                            ki,
                            c1 as int,
                            c2 as int,
                            mid,
                            c3 as nat,
                        ),
                    decreases 52 - c3,
                {
                    if c3 != c1 && c3 != c2 {
                        assert(i.entry@[at(52, c1 as int, c3 as int)] == crowd.entry(
                            ii,
                            c1 as int,
                            c3 as int,
                        ));
                        assert(k.entry@[at(52, c2 as int, c3 as int)] == crowd.entry(
                            ki,
                            c2 as int,
                            c3 as int,
                        ));
                        x = x.plus(
                            i.entry[c1 * 52 + c3].times(y).times(k.entry[c2 * 52 + c3]),
                        );
                    }
                    c3 += 1;
                }
            }
            c2 += 1;
        }
        c1 += 1;
    }
    x
}

/// Computes [`Crowd::stars`] over all cards.
fn stars_of<T: Scalar>(
    i: &Seat<T>,
    j: &Seat<T>,
    k: &Seat<T>,
    Ghost(crowd): Ghost<&Crowd<T>>,
    Ghost(ii): Ghost<int>,
    Ghost(ji): Ghost<int>,
    Ghost(ki): Ghost<int>,
) -> (x: T)
    requires
        i.is_of(crowd, ii),
        j.is_of(crowd, ji),
        k.is_of(crowd, ki),
    ensures
        x == crowd.stars(ii, ji, ki, 52),
{
    let mut x: T = T::zero();
    let mut a: usize = 0;
    while a < 52
        invariant
            a <= 52,
            i.is_of(crowd, ii),
            j.is_of(crowd, ji),
            k.is_of(crowd, ki),
            x == crowd.twins(ii, ji, ki, a as nat),
        decreases 52 - a,
    {
        let ghost acc = x;
        let mut b: usize = 0;
        while b < 52
            invariant
                a < 52,
                b <= 52,
                i.is_of(crowd, ii),
                j.is_of(crowd, ji),
                k.is_of(crowd, ki),
                x == crowd.twins_second(ii, ji, ki, a as int, acc, b as nat),
            decreases 52 - b,
        {
            if a != b {
                proof {
                    let p = a as int;
                    let q = b as int;
                    assert(i.entry@[at(52, p, q)] == crowd.entry(ii, p, q));
                    assert(i.entry@[at(52, q, p)] == crowd.entry(ii, q, p));
                    assert(j.entry@[at(52, p, q)] == crowd.entry(ji, p, q));
                    assert(j.entry@[at(52, q, p)] == crowd.entry(ji, q, p));
                    assert(k.entry@[at(52, p, q)] == crowd.entry(ki, p, q));
                }
                let ab: usize = a * 52 + b;
                let ba: usize = b * 52 + a;
                x = x.plus(i.entry[ab].times(j.with_card[a]).times(k.entry[ab]));
                x = x.plus(i.entry[ba].times(j.entry[ba]).times(k.with_card[a]));
                x = x.plus(i.with_card[a].times(j.entry[ab]).times(k.entry[ab]));
            }
            b += 1;
        }
        a += 1;
    }
    let mut c: usize = 0;
    while c < 52
        invariant
            c <= 52,
            i.is_of(crowd, ii),
            j.is_of(crowd, ji),
            k.is_of(crowd, ki),
            x == crowd.stars(ii, ji, ki, c as nat),
        decreases 52 - c,
    {
        x = x.plus(i.with_card[c].times(j.with_card[c]).times(k.with_card[c]));
        c += 1;
    }
    x
}

/// Computes [`Crowd::around`].
fn around_of<T: Scalar>(
    seat: &Seat<T>,
    cards: &[u8],
    g: usize,
    Ghost(crowd): Ghost<&Crowd<T>>,
    Ghost(i): Ghost<int>,
) -> (x: T)
    requires
        crowd.wf(),
        crowd.cards == cards@,
        0 <= i < crowd.reach.len(),
        seat.is_of(crowd, i),
        g < crowd.nh,
    ensures
        x == crowd.around(i, g as int),
{
    assert(crowd.reach[i].len() == crowd.nh);
    let total: usize = cards.len();
    let a: usize = cards[2 * g] as usize;
    let b: usize = cards[2 * g + 1] as usize;
    assert(cards@[2 * g] < 52 && cards@[2 * g + 1] < 52);
    seat.with_card[a].plus(seat.with_card[b]).plus(T::of_i32(2).times(seat.reach[g]))
}

/// Tables of three opponents.
pub struct Knot<T> {
    paths: (Path<T>, Path<T>, Path<T>),
    closed: T,
    star: Vec<T>,
    doubles: Tally<T>,
    triples: Tally<T>,
}

impl<T: Scalar> Knot<T> {
    pub closed spec fn is_of(&self, crowd: &Crowd<T>, i: int, j: int, k: int) -> bool {
        &&& self.paths.0.is_of(crowd, i, j, k)
        &&& self.paths.1.is_of(crowd, j, i, k)
        &&& self.paths.2.is_of(crowd, k, i, j)
        &&& self.closed == crowd.ring(i, j, k, 52).s_plus(crowd.stars(i, j, k, 52))
        &&& self.star@.len() == 52
        &&& forall|c: int| 0 <= c < 52 ==> #[trigger] self.star@[c] == crowd.star_at(i, j, k, c)
        &&& self.doubles.is_of(crowd.cards, crowd.doubles(i, j, k), everyone(crowd.nh))
        &&& self.triples.is_of(crowd.cards, crowd.triples(i, j, k), everyone(crowd.nh))
    }
}

fn make_knot<T: Scalar>(
    i: &Seat<T>,
    j: &Seat<T>,
    k: &Seat<T>,
    cards: &[u8],
    Ghost(crowd): Ghost<&Crowd<T>>,
    Ghost(ii): Ghost<int>,
    Ghost(ji): Ghost<int>,
    Ghost(ki): Ghost<int>,
) -> (knot: Knot<T>)
    requires
        crowd.wf(),
        crowd.cards == cards@,
        0 <= ii < crowd.reach.len(),
        0 <= ji < crowd.reach.len(),
        0 <= ki < crowd.reach.len(),
        i.is_of(crowd, ii),
        j.is_of(crowd, ji),
        k.is_of(crowd, ki),
    ensures
        knot.is_of(crowd, ii, ji, ki),
{
    let nh: usize = i.reach.len();
    proof {
        assert(crowd.reach[ii].len() == nh && crowd.reach[ji].len() == nh && crowd.reach[ki].len()
            == nh);
    }
    let mut star: Vec<T> = Vec::new();
    let mut c: usize = 0;
    while c < 52
        invariant
            c <= 52,
            i.is_of(crowd, ii),
            j.is_of(crowd, ji),
            k.is_of(crowd, ki),
            star@.len() == c,
            forall|d: int| 0 <= d < c ==> #[trigger] star@[d] == crowd.star_at(ii, ji, ki, d),
        decreases 52 - c,
    {
        star.push(i.with_card[c].times(j.with_card[c]).times(k.with_card[c]));
        c += 1;
    }
    let mut doubles: Vec<T> = Vec::new();
    let mut triples: Vec<T> = Vec::new();
    let mut g: usize = 0;
    while g < nh
        invariant
            g <= nh,
            nh == crowd.nh,
            crowd.wf(),
            crowd.cards == cards@,
            0 <= ii < crowd.reach.len(),
            0 <= ji < crowd.reach.len(),
            0 <= ki < crowd.reach.len(),
            i.is_of(crowd, ii),
            j.is_of(crowd, ji),
            k.is_of(crowd, ki),
            crowd.reach[ii].len() == nh,
            crowd.reach[ji].len() == nh,
            crowd.reach[ki].len() == nh,
            doubles@.len() == g,
            triples@.len() == g,
            forall|m: int| 0 <= m < g ==> #[trigger] doubles@[m] == crowd.doubles(ii, ji, ki)[m],
            forall|m: int| 0 <= m < g ==> #[trigger] triples@[m] == crowd.triples(ii, ji, ki)[m],
        decreases nh - g,
    {
        let ri = i.reach[g];
        let rj = j.reach[g];
        let rk = k.reach[g];
        let xi = around_of(i, cards, g, Ghost(crowd), Ghost(ii));
        let xj = around_of(j, cards, g, Ghost(crowd), Ghost(ji));
        let xk = around_of(k, cards, g, Ghost(crowd), Ghost(ki));
        doubles.push(
            ri.times(rk).times(xj).plus(ri.times(rj).times(xk)).plus(rj.times(rk).times(xi)),
        );
        triples.push(ri.times(rj).times(rk));
        g += 1;
    }
    assert(doubles@ =~= crowd.doubles(ii, ji, ki));
    assert(triples@ =~= crowd.triples(ii, ji, ki));
    let all: Vec<bool> = filled(true, nh);
    assert(all@ =~= everyone(crowd.nh));
    let ring = ring_of(i, j, k, Ghost(crowd), Ghost(ii), Ghost(ji), Ghost(ki));
    let stars = stars_of(i, j, k, Ghost(crowd), Ghost(ii), Ghost(ji), Ghost(ki));
    Knot {
        paths: (
            make_path(i, j, k, cards, Ghost(crowd), Ghost(ii), Ghost(ji), Ghost(ki)),
            make_path(j, i, k, cards, Ghost(crowd), Ghost(ji), Ghost(ii), Ghost(ki)),
            make_path(k, i, j, cards, Ghost(crowd), Ghost(ki), Ghost(ii), Ghost(ji)),
        ),
        closed: ring.plus(stars),
        star,
        doubles: tally(cards, &doubles, &all),
        triples: tally(cards, &triples, &all),
    }
}

/// Computes [`Crowd::cluster`].
fn cluster_of<T: Scalar>(
    knot: &Knot<T>,
    cards: &[u8],
    h: usize,
    Ghost(crowd): Ghost<&Crowd<T>>,
    Ghost(i): Ghost<int>,
    Ghost(j): Ghost<int>,
    Ghost(k): Ghost<int>,
) -> (x: T)
    requires
        crowd.wf(),
        crowd.cards == cards@,
        knot.is_of(crowd, i, j, k),
        h < crowd.nh,
    ensures
        x == crowd.cluster(i, j, k, h as int),
{
    let total: usize = cards.len();
    let h1: usize = cards[2 * h] as usize;
    let h2: usize = cards[2 * h + 1] as usize;
    assert(cards@[2 * h] < 52 && cards@[2 * h + 1] < 52);
    let p0 = path_free_of(&knot.paths.0, cards, h, Ghost(crowd), Ghost(i), Ghost(j), Ghost(k));
    let p1 = path_free_of(&knot.paths.1, cards, h, Ghost(crowd), Ghost(j), Ghost(i), Ghost(k));
    let p2 = path_free_of(&knot.paths.2, cards, h, Ghost(crowd), Ghost(k), Ghost(i), Ghost(j));
    let doubles = knot.doubles.sum.minus(knot.doubles.with_card[h1]).minus(
        knot.doubles.with_card[h2],
    );
    let triples = knot.triples.sum.minus(knot.triples.with_card[h1]).minus(
        knot.triples.with_card[h2],
    );
    let tied = knot.closed.minus(knot.star[h1]).minus(knot.star[h2]).minus(doubles).plus(
        T::of_i32(5).times(triples),
    );
    T::zero().plus(p0).plus(p1).plus(p2).minus(tied)
}

/// The joint reach of four opponents with hands that share no card with hand `h` or
/// each other, for every `h`, up to clusters of three.
pub fn mass_cluster_k23_fast<T: Scalar>(opp_reach: &[&[T]], hand_cards: &[u8], nh: usize) -> (out:
    Vec<T>)
    requires
        crowd_of(opp_reach@, hand_cards@, nh as int).wf(),
        opp_reach@.len() == 4,
    ensures
        out@.len() == nh,
        forall|h: int|
            0 <= h < nh ==> #[trigger] out@[h] == crowd_of(
                opp_reach@,
                hand_cards@,
                nh as int,
            ).mass_of_four(h),
{
    let ghost crowd = crowd_of(opp_reach@, hand_cards@, nh as int);
    let seats = make_seats(opp_reach, hand_cards, nh);
    let bonds = make_bonds(&seats, hand_cards, Ghost(&crowd));
    let spans = make_spans(&seats, hand_cards, Ghost(&crowd));
    proof {
        assert(seats@[0].is_of(&crowd, 0) && seats@[1].is_of(&crowd, 1) && seats@[2].is_of(
            &crowd,
            2,
        ) && seats@[3].is_of(&crowd, 3));
    }
    let k012 = make_knot(
        &seats[0],
        &seats[1],
        &seats[2],
        hand_cards,
        Ghost(&crowd),
        Ghost(0),
        Ghost(1),
        Ghost(2),
    );
    let k013 = make_knot(
        &seats[0],
        &seats[1],
        &seats[3],
        hand_cards,
        Ghost(&crowd),
        Ghost(0),
        Ghost(1),
        Ghost(3),
    );
    let k023 = make_knot(
        &seats[0],
        &seats[2],
        &seats[3],
        hand_cards,
        Ghost(&crowd),
        Ghost(0),
        Ghost(2),
        Ghost(3),
    );
    let k123 = make_knot(
        &seats[1],
        &seats[2],
        &seats[3],
        hand_cards,
        Ghost(&crowd),
        Ghost(1),
        Ghost(2),
        Ghost(3),
    );
    let mut out: Vec<T> = Vec::new();
    let mut h: usize = 0;
    while h < nh
        invariant
            h <= nh,
            crowd.wf(),
            crowd.cards == hand_cards@,
            crowd.nh == nh,
            crowd.reach.len() == 4,
            are_seats(seats@, &crowd),
            are_bonds(bonds@, &crowd),
            are_spans(spans@, &crowd),
            k012.is_of(&crowd, 0, 1, 2),
            k013.is_of(&crowd, 0, 1, 3),
            k023.is_of(&crowd, 0, 2, 3),
            k123.is_of(&crowd, 1, 2, 3),
            out@.len() == h,
            forall|g: int| 0 <= g < h ==> #[trigger] out@[g] == crowd.mass_of_four(g),
        decreases nh - h,
    {
        let frees = frees_of(&seats, hand_cards, h, Ghost(&crowd));
        let ghost c = crowd.clashes_by_hand(h as int);
        let clashes = clashes_by_tables_of(
            &seats,
            &bonds,
            &spans,
            hand_cards,
            h,
            true,
            Ghost(&crowd),
            Ghost(c),
        );
        proof {
            assert(clashes@[pair_place(4, 0, 1)] == c(0, 1));
            assert(clashes@[pair_place(4, 0, 2)] == c(0, 2));
            assert(clashes@[pair_place(4, 0, 3)] == c(0, 3));
            assert(clashes@[pair_place(4, 1, 2)] == c(1, 2));
            assert(clashes@[pair_place(4, 1, 3)] == c(1, 3));
            assert(clashes@[pair_place(4, 2, 3)] == c(2, 3));
        }
        let c01 = clashes[1];
        let c02 = clashes[2];
        let c03 = clashes[3];
        let c12 = clashes[6];
        let c13 = clashes[7];
        let c23 = clashes[11];
        let s0 = frees[0];
        let s1 = frees[1];
        let s2 = frees[2];
        let s3 = frees[3];
        let t0 = cluster_of(&k012, hand_cards, h, Ghost(&crowd), Ghost(0), Ghost(1), Ghost(2));
        let t1 = cluster_of(&k013, hand_cards, h, Ghost(&crowd), Ghost(0), Ghost(1), Ghost(3));
        let t2 = cluster_of(&k023, hand_cards, h, Ghost(&crowd), Ghost(0), Ghost(2), Ghost(3));
        let t3 = cluster_of(&k123, hand_cards, h, Ghost(&crowd), Ghost(1), Ghost(2), Ghost(3));
        let apart = s0.times(s1).times(s2).times(s3);
        let pairs = T::of_i32(-1).times(c01).times(s2).times(s3).minus(
            c02.times(s1).times(s3),
        ).minus(c03.times(s1).times(s2)).minus(c12.times(s0).times(s3)).minus(
            c13.times(s0).times(s2),
        ).minus(c23.times(s0).times(s1));
        let double = c01.times(c23).plus(c02.times(c13)).plus(c03.times(c12));
        let threes = t0.times(s3).plus(t1.times(s2)).plus(t2.times(s1)).plus(t3.times(s0));
        out.push(apart.plus(pairs).plus(double).plus(threes).larger(T::zero()));
        h += 1;
    }
    out
}

} // verus!
