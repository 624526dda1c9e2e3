//! Showdown values per bucket of hands.
use vstd::prelude::*;

use crate::layout::{at, lemma_at_bound};
use crate::scalar::{Scalar, Widen};
use crate::terminal::opponent;

verus! {

/// The traverser beats the opponent.
pub const REL_WIN: u8 = 0;

/// The traverser and the opponent tie.
pub const REL_TIE: u8 = 1;

/// The opponent beats the traverser.
pub const REL_LOSE: u8 = 2;

/// The opponent has folded.
pub const REL_FOLDED: u8 = 3;

/// The most opponents that a showdown has.
pub const MAX_OPP: usize = 9;

/// The most buckets that fit a graphics kernel.
pub const MAX_BUCKETS_GPU: usize = 16;

/// Pair mass that wins, ties and loses, by bucket pair: `[b_t * nb + b_o]`.
pub struct WtlMatrices<W> {
    pub nb: usize,
    pub w: Vec<W>,
    pub t: Vec<W>,
    pub l: Vec<W>,
}

impl<W> WtlMatrices<W> {
    pub open spec fn wf(&self) -> bool {
        &&& self.w@.len() == self.nb * self.nb
        &&& self.t@.len() == self.nb * self.nb
        &&& self.l@.len() == self.nb * self.nb
    }
}

/// Fractions of the pair mass of two buckets, by bucket pair: `[b_t * nb + b_o]`.
pub struct BucketedRunoutTables<T> {
    pub nb: usize,
    /// The traverser's bucket wins.
    pub f_w: Vec<T>,
    /// The buckets tie.
    pub f_t: Vec<T>,
    /// The opponent's bucket wins.
    pub f_l: Vec<T>,
    /// The two hands share no card.
    pub f_n: Vec<T>,
}

/// `x == 0`.
pub open spec fn is_zero<T: Scalar>(x: T) -> bool {
    x.s_same(T::s_zero())
}

/// A fraction of the pair mass; zero where a bucket is empty.
pub open spec fn pair_fraction<T: Widen>(mass: T::Wide, denom: T::Wide) -> T {
    if is_zero(denom) {
        T::s_zero()
    } else {
        T::s_narrow(mass.s_over(denom))
    }
}

/// The fraction of pairs that share no card; zero where a bucket is empty.
pub open spec fn pair_compat<T: Widen>(w: T::Wide, t: T::Wide, l: T::Wide, denom: T::Wide) -> T {
    if is_zero(denom) {
        T::s_zero()
    } else {
        T::s_narrow(w.s_over(denom).s_plus(t.s_over(denom)).s_plus(l.s_over(denom)))
    }
}

impl<T: Widen> BucketedRunoutTables<T> {
    pub open spec fn wf(&self) -> bool {
        &&& self.f_w@.len() == self.nb * self.nb
        &&& self.f_t@.len() == self.nb * self.nb
        &&& self.f_l@.len() == self.nb * self.nb
        &&& self.f_n@.len() == self.nb * self.nb
    }

    /// The fractions of `wtl`, for buckets of the given weights.
    pub open spec fn is_of(&self, wtl: &WtlMatrices<T::Wide>, sums: Seq<T::Wide>) -> bool {
        &&& self.wf()
        &&& self.nb == wtl.nb
        &&& forall|bt: int, bo: int|
            #![trigger at(self.nb as int, bt, bo)]
            0 <= bt < self.nb && 0 <= bo < self.nb ==> {
                let i = at(self.nb as int, bt, bo);
                let denom = sums[bt].s_times(sums[bo]);
                &&& self.f_w@[i] == pair_fraction::<T>(wtl.w@[i], denom)
                &&& self.f_t@[i] == pair_fraction::<T>(wtl.t@[i], denom)
                &&& self.f_l@[i] == pair_fraction::<T>(wtl.l@[i], denom)
                &&& self.f_n@[i] == pair_compat::<T>(wtl.w@[i], wtl.t@[i], wtl.l@[i], denom)
            }
    }

    /// The fractions of `wtl`, for buckets of the given weights.
    pub fn from_wtl(wtl: &WtlMatrices<T::Wide>, bucket_weight_sums: &[T::Wide]) -> (tables: Self)
        requires
            wtl.wf(),
            bucket_weight_sums@.len() == wtl.nb,
        ensures
            tables.is_of(wtl, bucket_weight_sums@),
    {
        let nb: usize = wtl.nb;
        let ghost sums = bucket_weight_sums@;
        let total: usize = wtl.w.len();
        let mut f_w: Vec<T> = Vec::new();
        let mut f_t: Vec<T> = Vec::new();
        let mut f_l: Vec<T> = Vec::new();
        let mut f_n: Vec<T> = Vec::new();
        let mut i: usize = 0;
        while i < total
            invariant
                i <= total,
                total == nb * nb,
                wtl.wf(),
                nb == wtl.nb,
                sums == bucket_weight_sums@,
                sums.len() == nb,
                f_w@.len() == i,
                f_t@.len() == i,
                f_l@.len() == i,
                f_n@.len() == i,
                forall|j: int|
                    #![trigger f_w@[j]]
                    #![trigger f_t@[j]]
                    #![trigger f_l@[j]]
                    #![trigger f_n@[j]]
                    0 <= j < i ==> {
                        let denom = sums[j / nb as int].s_times(sums[j % nb as int]);
                        &&& f_w@[j] == pair_fraction::<T>(wtl.w@[j], denom)
                        &&& f_t@[j] == pair_fraction::<T>(wtl.t@[j], denom)
                        &&& f_l@[j] == pair_fraction::<T>(wtl.l@[j], denom)
                        &&& f_n@[j] == pair_compat::<T>(wtl.w@[j], wtl.t@[j], wtl.l@[j], denom)
                    },
            decreases total - i,
        {
            assert(0 < nb && i / nb < nb) by (nonlinear_arith)
                requires
                    0 <= i < nb * nb,
                    0 <= nb,
            ;
            let denom = bucket_weight_sums[i / nb].times(bucket_weight_sums[i % nb]);
            if denom.same(T::Wide::zero()) {
                f_w.push(T::zero());
                f_t.push(T::zero());
                f_l.push(T::zero());
                f_n.push(T::zero());
            } else {
                let w = wtl.w[i].over(denom);
                let t = wtl.t[i].over(denom);
                let l = wtl.l[i].over(denom);
                f_w.push(T::narrow(w));
                f_t.push(T::narrow(t));
                f_l.push(T::narrow(l));
                f_n.push(T::narrow(w.plus(t).plus(l)));
            }
            i += 1;
        }
        let tables = BucketedRunoutTables { nb, f_w, f_t, f_l, f_n };
        proof {
            assert forall|bt: int, bo: int|
                #![trigger at(nb as int, bt, bo)]
                0 <= bt < nb && 0 <= bo < nb implies {
                let i = at(nb as int, bt, bo);
                let denom = sums[bt].s_times(sums[bo]);
                &&& tables.f_w@[i] == pair_fraction::<T>(wtl.w@[i], denom)
                &&& tables.f_t@[i] == pair_fraction::<T>(wtl.t@[i], denom)
                &&& tables.f_l@[i] == pair_fraction::<T>(wtl.l@[i], denom)
                &&& tables.f_n@[i] == pair_compat::<T>(wtl.w@[i], wtl.t@[i], wtl.l@[i], denom)
            } by {
                let i = at(nb as int, bt, bo);
                lemma_at_bound(nb as int, nb as int, bt, bo);
                vstd::arithmetic::div_mod::lemma_fundamental_div_mod_converse(i, nb as int, bt, bo);
                assert(tables.f_w@[i] == f_w@[i]);
            }
        }
        tables
    }
}

/// Player `p` has folded.
pub open spec fn has_folded(mask: u16, p: int) -> bool {
    mask & (1u16 << (p as u16)) != 0
}

fn folded(mask: u16, p: usize) -> (r: bool)
    requires
        p < 16,
    ensures
        r == has_folded(mask, p as int),
{
    let q: u16 = p as u16;
    mask & (1u16 << q) != 0
}

/// What the players have at stake in one terminal.
pub struct Stakes<T> {
    pub contributions: Seq<int>,
    pub fold_mask: u16,
    pub traverser: int,
    pub starting_pot: int,
    pub rake_rate: T,
    pub rake_cap: T,
}

/// `x`, but not over the cap and not under zero.
pub open spec fn capped<T: Scalar>(x: T, cap: T) -> T {
    (if cap.s_below(x) {
        cap
    } else {
        x
    }).s_larger(T::s_zero())
}

fn cap_rake<T: Scalar>(x: T, cap: T) -> (y: T)
    ensures
        y == capped(x, cap),
{
    let low = if cap.below(x) {
        cap
    } else {
        x
    };
    low.larger(T::zero())
}

/// The first `n` contributions, added up.
pub open spec fn sum_of(c: Seq<int>, n: nat) -> int
    decreases n,
{
    if n == 0 {
        0
    } else {
        sum_of(c, (n - 1) as nat) + c[n - 1]
    }
}

/// How many of the first `n` contributions reach `lev`.
pub open spec fn reaching(c: Seq<int>, lev: int, n: nat) -> nat
    decreases n,
{
    if n == 0 {
        0
    } else {
        reaching(c, lev, (n - 1) as nat) + if c[n - 1] >= lev {
            1nat
        } else {
            0nat
        }
    }
}

/// A rising list with `x` in its place.
pub open spec fn with_level(levels: Seq<int>, x: int) -> Seq<int>
    decreases levels.len(),
{
    if levels.len() == 0 {
        seq![x]
    } else if x < levels[0] {
        seq![x] + levels
    } else if x == levels[0] {
        levels
    } else {
        seq![levels[0]] + with_level(levels.skip(1), x)
    }
}

/// The values of the first `n` contributions, rising, each once.
pub open spec fn levels_of(c: Seq<int>, n: nat) -> Seq<int>
    decreases n,
{
    if n == 0 {
        Seq::empty()
    } else {
        with_level(levels_of(c, (n - 1) as nat), c[n - 1])
    }
}

impl<T: Scalar> Stakes<T> {
    pub open spec fn np(&self) -> int {
        self.contributions.len() as int
    }

    pub open spec fn num_opp(&self) -> int {
        self.contributions.len() - 1
    }

    /// Stakes of two to ten players, seen by one of them.
    pub open spec fn wf(&self) -> bool {
        2 <= self.np() <= MAX_OPP + 1 && 0 <= self.traverser < self.np()
    }

    /// Nobody has folded and all have put in the same.
    pub open spec fn is_even(&self) -> bool {
        self.fold_mask == 0 && forall|p: int|
            0 <= p < self.np() ==> (#[trigger] self.contributions[p]) == self.contributions[0]
    }

    /// What the traverser has at stake: a share of the starting pot, and what
    /// they have put in.
    pub open spec fn stake(&self) -> T {
        T::s_of(self.starting_pot).s_over(T::s_of(self.np())).s_plus(
            T::s_of(self.contributions[self.traverser]),
        )
    }

    pub open spec fn opp_contrib(&self, oi: int) -> int {
        self.contributions[opponent(self.traverser, oi)]
    }

    pub open spec fn opp_folded(&self, oi: int) -> bool {
        has_folded(self.fold_mask, opponent(self.traverser, oi))
    }

    pub open spec fn levels(&self) -> Seq<int> {
        levels_of(self.contributions, self.contributions.len())
    }

    /// Chips that each contributor adds between the level before and level `li`.
    pub open spec fn step(&self, li: int) -> int {
        self.levels()[li] - if li == 0 {
            0
        } else {
            self.levels()[li - 1]
        }
    }

    /// The pot of level `li`; the starting pot belongs to the first.
    pub open spec fn level_pot(&self, li: int) -> T {
        let n = reaching(self.contributions, self.levels()[li], self.contributions.len());
        let pot = T::s_of(self.step(li) * n);
        if li == 0 {
            pot.s_plus(T::s_of(self.starting_pot))
        } else {
            pot
        }
    }

    /// The rake on the first level's pot.
    pub open spec fn main_rake(&self) -> T {
        let lev = self.levels()[0];
        let amount = lev * reaching(self.contributions, lev, self.contributions.len())
            + self.starting_pot;
        capped(T::s_of(amount).s_times(self.rake_rate), self.rake_cap)
    }

    /// The traverser can win level `lev`.
    pub open spec fn is_in(&self, lev: int) -> bool {
        !has_folded(self.fold_mask, self.traverser) && self.contributions[self.traverser] >= lev
    }

    /// Opponent `oi` can win level `lev`.
    pub open spec fn opp_in(&self, lev: int, oi: int) -> bool {
        !self.opp_folded(oi) && self.opp_contrib(oi) >= lev
    }

    /// One of the first `n` opponents can win level `lev`.
    pub open spec fn some_opp_in(&self, lev: int, n: nat) -> bool {
        exists|oi: int| 0 <= oi < n && #[trigger] self.opp_in(lev, oi)
    }

    /// What the traverser gets back of a level that nobody can win.
    pub open spec fn refund(&self, li: int) -> T {
        T::s_of(self.step(li)).s_plus(
            if li == 0 {
                T::s_of(self.starting_pot).s_over(T::s_of(self.np()))
            } else {
                T::s_zero()
            },
        )
    }

    /// The pot of level `li` after rake.
    pub open spec fn net_pot(&self, li: int) -> T {
        if li == 0 {
            self.level_pot(li).s_minus(self.main_rake())
        } else {
            self.level_pot(li)
        }
    }

    /// An opponent who can win level `lev` beats the traverser.
    pub open spec fn is_beaten(&self, lev: int, rel: Seq<u8>) -> bool {
        exists|oi: int|
            0 <= oi < self.num_opp() && #[trigger] self.opp_in(lev, oi) && rel[oi] == REL_LOSE
    }

    /// The traverser, and those of the first `n` opponents who can win level `lev`
    /// and tie with them.
    pub open spec fn tied(&self, lev: int, rel: Seq<u8>, n: nat) -> nat
        decreases n,
    {
        if n == 0 {
            1
        } else {
            self.tied(lev, rel, (n - 1) as nat) + if self.opp_in(lev, n - 1) && rel[n - 1]
                == REL_TIE {
                1nat
            } else {
                0nat
            }
        }
    }

    /// What level `li` pays the traverser.
    pub open spec fn payout(&self, rel: Seq<u8>, li: int) -> Option<T> {
        let lev = self.levels()[li];
        if is_zero(self.level_pot(li)) {
            None
        } else if !self.is_in(lev) && !self.some_opp_in(lev, self.num_opp() as nat) {
            if self.contributions[self.traverser] >= lev {
                Some(self.refund(li))
            } else {
                None
            }
        } else if !self.is_in(lev) || self.is_beaten(lev, rel) {
            None
        } else {
            Some(
                self.net_pot(li).s_over(
                    T::s_of(self.tied(lev, rel, self.num_opp() as nat) as int),
                ),
            )
        }
    }

    /// What the first `n` levels pay the traverser.
    pub open spec fn cash(&self, rel: Seq<u8>, n: nat) -> T
        decreases n,
    {
        if n == 0 {
            T::s_zero()
        } else {
            let prev = self.cash(rel, (n - 1) as nat);
            match self.payout(rel, n - 1) {
                Some(x) => prev.s_plus(x),
                None => prev,
            }
        }
    }

    /// What the traverser wins or loses, when the opponents stand to them as `rel`
    /// says.
    pub open spec fn net(&self, rel: Seq<u8>) -> T {
        self.cash(rel, self.levels().len()).s_minus(self.stake())
    }
}

proof fn lemma_with_level(levels: Seq<int>, x: int, k: int)
    requires
        0 <= k <= levels.len(),
        forall|i: int| 0 <= i < k ==> #[trigger] levels[i] < x,
        k < levels.len() ==> x <= levels[k],
    ensures
        with_level(levels, x) == if k < levels.len() && levels[k] == x {
            levels
        } else {
            levels.insert(k, x)
        },
    decreases levels.len(),
{
    if levels.len() == 0 {
        assert(levels.insert(0, x) =~= seq![x]);
    } else if x < levels[0] {
        assert(k == 0);
        assert(levels.insert(0, x) =~= seq![x] + levels);
    } else if x == levels[0] {
        assert(k == 0);
    } else {
        assert(k > 0) by {
            if k == 0 {
                assert(x <= levels[0]);
            }
        }
        let rest = levels.skip(1);
        lemma_with_level(rest, x, k - 1);
        if k < levels.len() && levels[k] == x {
            assert(seq![levels[0]] + rest =~= levels);
        } else {
            assert(levels.insert(k, x) =~= seq![levels[0]] + rest.insert(k - 1, x));
        }
    }
}

/// Pot levels rise, and are the values that occur among the contributions.
pub proof fn law_levels_rise(c: Seq<int>, n: nat)
    requires
        n <= c.len(),
    ensures
        forall|i: int, j: int|
            0 <= i < j < levels_of(c, n).len() ==> #[trigger] levels_of(c, n)[i]
                < #[trigger] levels_of(c, n)[j],
        forall|x: int| #[trigger]
            levels_of(c, n).contains(x) <==> exists|p: int| 0 <= p < n && #[trigger] c[p] == x,
        levels_of(c, n).len() <= n,
        n > 0 ==> levels_of(c, n).len() > 0,
    decreases n,
{
    if n > 0 {
        law_levels_rise(c, (n - 1) as nat);
        let prev = levels_of(c, (n - 1) as nat);
        let all = levels_of(c, n);
        let x = c[n - 1];
        let k = lemma_level_place(prev, x);
        lemma_with_level(prev, x, k);
        if k < prev.len() && prev[k] == x {
            assert(all == prev);
            assert(prev.contains(x));
        } else {
            assert(all == prev.insert(k, x));
            assert(all[k] == x);
        }
        assert forall|y: int| #[trigger] all.contains(y) <==> exists|p: int|
            0 <= p < n && #[trigger] c[p] == y by {
            if all.contains(y) && y != x {
                let i = choose|i: int| 0 <= i < all.len() && all[i] == y;
                if !(k < prev.len() && prev[k] == x) {
                    assert(all[i] == if i < k {
                        prev[i]
                    } else if i == k {
                        x
                    } else {
                        prev[i - 1]
                    });
                }
                assert(prev.contains(y));
                let p = choose|p: int| 0 <= p < n - 1 && #[trigger] c[p] == y;
                assert(c[p] == y);
            }
            if y == x {
                assert(c[n - 1] == y);
                assert(all.contains(x));
            }
            if exists|p: int| 0 <= p < n && #[trigger] c[p] == y {
                let p = choose|p: int| 0 <= p < n && #[trigger] c[p] == y;
                if p < n - 1 {
                    assert(prev.contains(y));
                    let i = choose|i: int| 0 <= i < prev.len() && prev[i] == y;
                    if !(k < prev.len() && prev[k] == x) {
                        if i < k {
                            assert(all[i] == y);
                        } else {
                            assert(all[i + 1] == y);
                        }
                    }
                }
            }
        }
    }
}

/// The place of `x` in a rising list.
proof fn lemma_level_place(levels: Seq<int>, x: int) -> (k: int)
    requires
        forall|i: int, j: int|
            0 <= i < j < levels.len() ==> #[trigger] levels[i] < #[trigger] levels[j],
    ensures
        0 <= k <= levels.len(),
        forall|i: int| 0 <= i < k ==> #[trigger] levels[i] < x,
        k < levels.len() ==> x <= levels[k],
    decreases levels.len(),
{
    if levels.len() == 0 {
        0
    } else if levels.last() < x {
        levels.len() as int
    } else {
        let k = lemma_level_place(levels.drop_last(), x);
        assert forall|i: int| 0 <= i < k implies #[trigger] levels[i] < x by {
            assert(levels.drop_last()[i] == levels[i]);
        }
        if k < levels.len() - 1 {
            assert(levels.drop_last()[k] == levels[k]);
        }
        k
    }
}

/// The stakes that the arguments of a showdown describe. Without a flop no rake is
/// taken.
pub open spec fn stakes_of<T: Scalar>(
    contributions: Seq<i32>,
    fold_mask: u16,
    traverser: int,
    starting_pot: i32,
    rake_rate: T,
    rake_cap: T,
    flop_seen: bool,
) -> Stakes<T> {
    Stakes {
        contributions: Seq::new(contributions.len(), |p: int| contributions[p] as int),
        fold_mask,
        traverser,
        starting_pot: starting_pot as int,
        rake_rate: if flop_seen {
            rake_rate
        } else {
            T::s_zero()
        },
        rake_cap: if flop_seen {
            rake_cap
        } else {
            T::s_zero()
        },
    }
}

/// Pot levels and eligibility of one terminal.
pub struct Arm2Ctx<T> {
    levels: Vec<i32>,
    contributions: Vec<i32>,
    starting_pot: i32,
    main_pot_rake: T,
    traverser_stake: T,
    traverser_folded: bool,
    opp_contrib: Vec<i32>,
    opp_folded: Vec<bool>,
    traverser: usize,
}

/// The pot levels, rising.
fn sorted_levels(contributions: &[i32]) -> (levels: Vec<i32>)
    ensures
        Seq::new(levels@.len(), |i: int| levels@[i] as int) == levels_of(
            Seq::new(contributions@.len(), |p: int| contributions@[p] as int),
            contributions@.len(),
        ),
{
    let ghost c = Seq::new(contributions@.len(), |p: int| contributions@[p] as int);
    let n: usize = contributions.len();
    let mut levels: Vec<i32> = Vec::new();
    let ghost mut plain: Seq<int> = Seq::empty();
    let mut p: usize = 0;
    while p < n
        invariant
            p <= n,
            n == contributions@.len(),
            c == Seq::new(contributions@.len(), |p: int| contributions@[p] as int),
            plain == levels_of(c, p as nat),
            plain == Seq::new(levels@.len(), |i: int| levels@[i] as int),
        decreases n - p,
    {
        let x: i32 = contributions[p];
        let ghost before = levels@;
        proof {
            law_levels_rise(c, p as nat);
        }
        let mut k: usize = 0;
        while k < levels.len() && levels[k] < x
            invariant
                k <= levels@.len(),
                levels@ == before,
                plain == Seq::new(levels@.len(), |i: int| levels@[i] as int),
                forall|i: int| 0 <= i < k ==> #[trigger] plain[i] < x,
            decreases levels@.len() - k,
        {
            assert(plain[k as int] == levels@[k as int]);
            k += 1;
        }
        assert(k < levels@.len() ==> plain[k as int] == levels@[k as int]);
        proof {
            lemma_with_level(plain, x as int, k as int);
        }
        if k == levels.len() || levels[k] != x {
            levels.insert(k, x);
            proof {
                let next = Seq::new(levels@.len(), |i: int| levels@[i] as int);
                assert(next =~= plain.insert(k as int, x as int));
            }
        }
        proof {
            plain = Seq::new(levels@.len(), |i: int| levels@[i] as int);
            assert(c[p as int] == x);
        }
        p += 1;
    }
    levels
}

/// How many contributions reach `lev`.
fn count_reaching(contributions: &Vec<i32>, lev: i32) -> (n: usize)
    ensures
        n == reaching(
            Seq::new(contributions@.len(), |p: int| contributions@[p] as int),
            lev as int,
            contributions@.len(),
        ),
        n <= contributions@.len(),
{
    let ghost c = Seq::new(contributions@.len(), |p: int| contributions@[p] as int);
    let mut n: usize = 0;
    let mut p: usize = 0;
    while p < contributions.len()
        invariant
            p <= contributions@.len(),
            c == Seq::new(contributions@.len(), |p: int| contributions@[p] as int),
            n == reaching(c, lev as int, p as nat),
            n <= p,
        decreases contributions@.len() - p,
    {
        assert(c[p as int] == contributions@[p as int]);
        if contributions[p] >= lev {
            n += 1;
        }
        p += 1;
    }
    n
}

proof fn lemma_chips(step: i64, n: usize)
    requires
        n <= MAX_OPP + 1,
        -0x1_0000_0000 <= step <= 0x1_0000_0000,
    ensures
        -0x10_0000_0000 <= step * n <= 0x10_0000_0000,
{
    assert(-0x10_0000_0000 <= step * n <= 0x10_0000_0000) by (nonlinear_arith)
        requires
            0 <= n <= 10,
            -0x1_0000_0000 <= step <= 0x1_0000_0000,
    ;
}

impl<T: Scalar> Arm2Ctx<T> {
    pub closed spec fn is_for(&self, st: &Stakes<T>) -> bool {
        &&& st.wf()
        &&& st.levels() == Seq::new(self.levels@.len(), |i: int| self.levels@[i] as int)
        &&& st.contributions == Seq::new(
            self.contributions@.len(),
            |p: int| self.contributions@[p] as int,
        )
        &&& st.starting_pot == self.starting_pot
        &&& st.traverser == self.traverser
        &&& self.main_pot_rake == st.main_rake()
        &&& self.traverser_stake == st.stake()
        &&& self.traverser_folded == has_folded(st.fold_mask, st.traverser)
        &&& self.opp_contrib@.len() == st.num_opp()
        &&& self.opp_folded@.len() == st.num_opp()
        &&& forall|oi: int|
            0 <= oi < st.num_opp() ==> (#[trigger] self.opp_contrib@[oi]) == st.opp_contrib(oi)
        &&& forall|oi: int|
            0 <= oi < st.num_opp() ==> (#[trigger] self.opp_folded@[oi]) == st.opp_folded(oi)
    }

    /// What the payoff of a terminal needs.
    fn new(
        contributions: &[i32],
        fold_mask: u16,
        traverser: usize,
        starting_pot: i32,
        rake_rate: T,
        rake_cap: T,
        flop_seen: bool,
    ) -> (ctx: Self)
        requires
            2 <= contributions@.len() <= MAX_OPP + 1,
            traverser < contributions@.len(),
        ensures
            ctx.is_for(
                &stakes_of(
                    contributions@,
                    fold_mask,
                    traverser as int,
                    starting_pot,
                    rake_rate,
                    rake_cap,
                    flop_seen,
                ),
            ),
    {
        let ghost st = stakes_of(
            contributions@,
            fold_mask,
            traverser as int,
            starting_pot,
            rake_rate,
            rake_cap,
            flop_seen,
        );
        let np: usize = contributions.len();
        let (rate, cap) = if flop_seen {
            (rake_rate, rake_cap)
        } else {
            (T::zero(), T::zero())
        };
        let levels = sorted_levels(contributions);
        let mut own: Vec<i32> = Vec::new();
        let mut opp_contrib: Vec<i32> = Vec::new();
        let mut opp_folded: Vec<bool> = Vec::new();
        let mut p: usize = 0;
        while p < np
            invariant
                p <= np,
                np == contributions@.len(),
                np <= MAX_OPP + 1,
                traverser < np,
                own@ == contributions@.take(p as int),
                st.contributions == Seq::new(
                    contributions@.len(),
                    |p: int| contributions@[p] as int,
                ),
                st.fold_mask == fold_mask,
                st.traverser == traverser,
                opp_contrib@.len() == if p <= traverser {
                    p as int
                } else {
                    p - 1
                },
                opp_folded@.len() == opp_contrib@.len(),
                forall|oi: int|
                    0 <= oi < opp_contrib@.len() ==> (#[trigger] opp_contrib@[oi])
                        == st.opp_contrib(oi),
                forall|oi: int|
                    0 <= oi < opp_folded@.len() ==> (#[trigger] opp_folded@[oi]) == st.opp_folded(
                        oi,
                    ),
            decreases np - p,
        {
            own.push(contributions[p]);
            assert(own@ =~= contributions@.take(p + 1));
            if p != traverser {
                let ghost oi = opp_contrib@.len() as int;
                assert(opponent(traverser as int, oi) == p);
                opp_contrib.push(contributions[p]);
                opp_folded.push(folded(fold_mask, p));
            }
            p += 1;
        }
        assert(own@ =~= contributions@);
        proof {
            law_levels_rise(st.contributions, st.contributions.len());
            assert(st.levels()[0] == levels@[0]);
        }
        let lev: i32 = levels[0];
        let contributors: usize = count_reaching(&own, lev);
        proof {
            lemma_chips(lev as i64, contributors);
        }
        let amount: i64 = lev as i64 * contributors as i64 + starting_pot as i64;
        let main_pot_rake = cap_rake(T::of_i64(amount).times(rate), cap);
        let traverser_stake = T::of_i32(starting_pot).over(T::of_usize(np)).plus(
            T::of_i32(contributions[traverser]),
        );
        let traverser_folded = folded(fold_mask, traverser);
        Arm2Ctx {
            levels,
            contributions: own,
            starting_pot,
            main_pot_rake,
            traverser_stake,
            traverser_folded,
            opp_contrib,
            opp_folded,
            traverser,
        }
    }

    /// The pot of level `li`, and the chips that each contributor adds.
    fn pot_of(&self, li: usize, Ghost(st): Ghost<&Stakes<T>>) -> (out: (T, i64))
        requires
            self.is_for(st),
            li < st.levels().len(),
        ensures
            out.0 == st.level_pot(li as int),
            out.1 == st.step(li as int),
    {
        let lev: i32 = self.levels[li];
        assert(st.levels()[li as int] == lev);
        let before: i32 = if li == 0 {
            0
        } else {
            assert(st.levels()[li - 1] == self.levels@[li - 1]);
            self.levels[li - 1]
        };
        let step: i64 = lev as i64 - before as i64;
        let n: usize = count_reaching(&self.contributions, lev);
        proof {
            lemma_chips(step, n);
        }
        let pot = T::of_i64(step * n as i64);
        if li == 0 {
            (pot.plus(T::of_i32(self.starting_pot)), step)
        } else {
            (pot, step)
        }
    }

    /// What the traverser gets back of a level that nobody can win.
    fn refund_of(&self, li: usize, step: i64, Ghost(st): Ghost<&Stakes<T>>) -> (x: T)
        requires
            self.is_for(st),
            step == st.step(li as int),
        ensures
            x == st.refund(li as int),
    {
        let rest = if li == 0 {
            T::of_i32(self.starting_pot).over(T::of_usize(self.contributions.len()))
        } else {
            T::zero()
        };
        T::of_i64(step).plus(rest)
    }

    /// Whether an opponent can win level `lev`.
    fn any_opp_in(&self, lev: i32, Ghost(st): Ghost<&Stakes<T>>) -> (r: bool)
        requires
            self.is_for(st),
        ensures
            r == st.some_opp_in(lev as int, st.num_opp() as nat),
    {
        let mut oi: usize = 0;
        while oi < self.opp_folded.len()
            invariant
                oi <= self.opp_folded@.len(),
                self.is_for(st),
                forall|j: int| 0 <= j < oi ==> !#[trigger] st.opp_in(lev as int, j),
            decreases self.opp_folded@.len() - oi,
        {
            assert(self.opp_contrib@[oi as int] == st.opp_contrib(oi as int));
            if !self.opp_folded[oi] && self.opp_contrib[oi] >= lev {
                assert(st.opp_in(lev as int, oi as int));
                return true;
            }
            oi += 1;
        }
        false
    }

    /// What the traverser wins or loses when the opponents stand to them as `rel`
    /// says.
    fn net(&self, rel: &Vec<u8>, Ghost(st): Ghost<&Stakes<T>>) -> (x: T)
        requires
            self.is_for(st),
            rel@.len() == st.num_opp(),
        ensures
            x == st.net(rel@),
    {
        let num_opp: usize = self.opp_folded.len();
        let total: usize = self.levels.len();
        let mut cash: T = T::zero();
        let mut li: usize = 0;
        while li < total
            invariant
                li <= total,
                total == self.levels@.len(),
                num_opp == self.opp_folded@.len(),
                self.is_for(st),
                rel@.len() == st.num_opp(),
                cash == st.cash(rel@, li as nat),
            decreases total - li,
        {
            let lev: i32 = self.levels[li];
            assert(st.levels()[li as int] == lev);
            let (pot, step) = self.pot_of(li, Ghost(st));
            if !pot.same(T::zero()) {
                let own: i32 = self.contributions[self.traverser];
                assert(st.contributions[st.traverser] == own);
                let inside = !self.traverser_folded && own >= lev;
                if !inside {
                    if own >= lev && !self.any_opp_in(lev, Ghost(st)) {
                        cash = cash.plus(self.refund_of(li, step, Ghost(st)));
                    }
                } else {
                    let mut beaten = false;
                    let mut tied: usize = 1;
                    let mut oi: usize = 0;
                    while oi < num_opp
                        invariant
                            oi <= num_opp,
                            num_opp == self.opp_folded@.len(),
                            self.is_for(st),
                            rel@.len() == st.num_opp(),
                            beaten == exists|j: int|
                                0 <= j < oi && #[trigger] st.opp_in(lev as int, j) && rel@[j]
                                    == REL_LOSE,
                            tied == st.tied(lev as int, rel@, oi as nat),
                            tied <= oi + 1,
                        decreases num_opp - oi,
                    {
                        assert(self.opp_contrib@[oi as int] == st.opp_contrib(oi as int));
                        assert(self.opp_folded@[oi as int] == st.opp_folded(oi as int));
                        if !self.opp_folded[oi] && self.opp_contrib[oi] >= lev {
                            assert(st.opp_in(lev as int, oi as int));
                            if rel[oi] == REL_LOSE {
                                beaten = true;
                            }
                            if rel[oi] == REL_TIE {
                                tied += 1;
                            }
                        }
                        oi += 1;
                    }
                    assert(beaten == st.is_beaten(lev as int, rel@));
                    if !beaten {
                        let net_pot = if li == 0 {
                            pot.minus(self.main_pot_rake)
                        } else {
                            pot
                        };
                        cash = cash.plus(net_pot.over(T::of_usize(tied)));
                    }
                }
            }
            li += 1;
        }
        cash.minus(self.traverser_stake)
    }
}

/// The weights with which an opponent stands to the traverser.
#[derive(Clone, Copy, Debug)]
pub struct Odds<T> {
    pub win: T,
    pub tie: T,
    pub lose: T,
    /// The weight of hands that share no card; read of folded opponents only.
    pub compat: T,
}

impl<T: Scalar> Odds<T> {
    /// Win, tie and loss together.
    pub open spec fn active(&self) -> T {
        self.win.s_plus(self.tie).s_plus(self.lose)
    }
}

/// Tie counts after one more opponent, who loses with weight `win` and ties with
/// weight `tie`.
pub open spec fn tie_step<T: Scalar>(d: Seq<T>, win: T, tie: T) -> Seq<T> {
    Seq::new(
        d.len() + 1,
        |j: int|
            {
                let kept = if j < d.len() && !is_zero(d[j]) && !is_zero(win) {
                    d[j].s_times(win)
                } else {
                    T::s_zero()
                };
                if j > 0 && !is_zero(d[j - 1]) && !is_zero(tie) {
                    kept.s_plus(d[j - 1].s_times(tie))
                } else {
                    kept
                }
            },
    )
}

/// Shares of a pot by tie count, added up over the first `n` counts.
pub open spec fn share_by_ties<T: Scalar>(acc: T, out: T, d: Seq<T>, pot: T, n: nat) -> T
    decreases n,
{
    if n == 0 {
        acc
    } else {
        let prev = share_by_ties(acc, out, d, pot, (n - 1) as nat);
        if is_zero(d[n - 1]) {
            prev
        } else {
            prev.s_plus(out.s_times(d[n - 1]).s_times(pot.s_over(T::s_of(n as int))))
        }
    }
}

impl<T: Scalar> Stakes<T> {
    /// The weight of the first `n` opponents, whatever their relation.
    pub open spec fn mass(&self, sc: Seq<Odds<T>>, n: nat) -> T
        decreases n,
    {
        if n == 0 {
            T::s_one()
        } else {
            self.mass(sc, (n - 1) as nat).s_times(
                if self.opp_folded(n - 1) {
                    sc[n - 1].compat
                } else {
                    sc[n - 1].active()
                },
            )
        }
    }

    /// The weight of those of the first `n` opponents who cannot win level `lev`.
    pub open spec fn outside(&self, lev: int, sc: Seq<Odds<T>>, n: nat) -> T
        decreases n,
    {
        if n == 0 {
            T::s_one()
        } else {
            let prev = self.outside(lev, sc, (n - 1) as nat);
            if self.opp_folded(n - 1) {
                prev.s_times(sc[n - 1].compat)
            } else if self.opp_contrib(n - 1) < lev {
                prev.s_times(sc[n - 1].active())
            } else {
                prev
            }
        }
    }

    /// Weights of tie counts among those of the first `n` opponents who can win
    /// level `lev`, none of them ahead.
    pub open spec fn tie_odds(&self, lev: int, sc: Seq<Odds<T>>, n: nat) -> Seq<T>
        decreases n,
    {
        if n == 0 {
            seq![T::s_one()]
        } else {
            let prev = self.tie_odds(lev, sc, (n - 1) as nat);
            if self.opp_in(lev, n - 1) {
                tie_step(prev, sc[n - 1].win, sc[n - 1].tie)
            } else {
                prev
            }
        }
    }

    /// What the first `n` levels pay on average.
    pub open spec fn cash_expected(&self, sc: Seq<Odds<T>>, n: nat) -> T
        decreases n,
    {
        if n == 0 {
            T::s_zero()
        } else {
            let prev = self.cash_expected(sc, (n - 1) as nat);
            let li = n - 1;
            let lev = self.levels()[li];
            let all = self.num_opp() as nat;
            if is_zero(self.level_pot(li)) {
                prev
            } else if !self.is_in(lev) && !self.some_opp_in(lev, all) {
                if self.contributions[self.traverser] >= lev {
                    prev.s_plus(self.refund(li).s_times(self.mass(sc, all)))
                } else {
                    prev
                }
            } else if !self.is_in(lev) {
                prev
            } else {
                let d = self.tie_odds(lev, sc, all);
                share_by_ties(prev, self.outside(lev, sc, all), d, self.net_pot(li), d.len())
            }
        }
    }

    /// What the traverser wins or loses on average, weighted.
    pub open spec fn net_expected(&self, sc: Seq<Odds<T>>) -> T {
        self.cash_expected(sc, self.levels().len()).s_minus(
            self.stake().s_times(self.mass(sc, self.num_opp() as nat)),
        )
    }
}

/// Computes [`tie_step`].
fn next_ties<T: Scalar>(d: &Vec<T>, win: T, tie: T) -> (out: Vec<T>)
    requires
        d@.len() < usize::MAX,
    ensures
        out@ == tie_step(d@, win, tie),
{
    let n: usize = d.len();
    let mut out: Vec<T> = Vec::new();
    let mut j: usize = 0;
    while j <= n
        invariant
            j <= n + 1,
            n == d@.len(),
            n < usize::MAX,
            out@.len() == j,
            forall|i: int| 0 <= i < j ==> #[trigger] out@[i] == tie_step(d@, win, tie)[i],
        decreases n + 1 - j,
    {
        let kept = if j < n && !d[j].same(T::zero()) && !win.same(T::zero()) {
            d[j].times(win)
        } else {
            T::zero()
        };
        if j > 0 && !d[j - 1].same(T::zero()) && !tie.same(T::zero()) {
            out.push(kept.plus(d[j - 1].times(tie)));
        } else {
            out.push(kept);
        }
        j += 1;
    }
    assert(out@ =~= tie_step(d@, win, tie));
    out
}

impl<T: Scalar> Arm2Ctx<T> {
    /// What the traverser wins or loses on average when the opponents stand to
    /// them with the weights `sc`.
    fn net_expected(&self, sc: &Vec<Odds<T>>, Ghost(st): Ghost<&Stakes<T>>) -> (x: T)
        requires
            self.is_for(st),
            sc@.len() == st.num_opp(),
        ensures
            x == st.net_expected(sc@),
    {
        let num_opp: usize = self.opp_folded.len();
        let mut mass: T = T::one();
        let mut oi: usize = 0;
        while oi < num_opp
            invariant
                oi <= num_opp,
                num_opp == self.opp_folded@.len(),
                self.is_for(st),
                sc@.len() == st.num_opp(),
                mass == st.mass(sc@, oi as nat),
            decreases num_opp - oi,
        {
            assert(self.opp_folded@[oi as int] == st.opp_folded(oi as int));
            if self.opp_folded[oi] {
                mass = mass.times(sc[oi].compat);
            } else {
                mass = mass.times(sc[oi].win.plus(sc[oi].tie).plus(sc[oi].lose));
            }
            oi += 1;
        }
        let total: usize = self.levels.len();
        let mut cash: T = T::zero();
        let mut li: usize = 0;
        while li < total
            invariant
                li <= total,
                total == self.levels@.len(),
                num_opp == self.opp_folded@.len(),
                self.is_for(st),
                sc@.len() == st.num_opp(),
                mass == st.mass(sc@, num_opp as nat),
                cash == st.cash_expected(sc@, li as nat),
            decreases total - li,
        {
            let lev: i32 = self.levels[li];
            assert(st.levels()[li as int] == lev);
            let (pot, step) = self.pot_of(li, Ghost(st));
            if !pot.same(T::zero()) {
                let own: i32 = self.contributions[self.traverser];
                assert(st.contributions[st.traverser] == own);
                let inside = !self.traverser_folded && own >= lev;
                if !inside {
                    if own >= lev && !self.any_opp_in(lev, Ghost(st)) {
                        cash = cash.plus(self.refund_of(li, step, Ghost(st)).times(mass));
                    }
                } else {
                    let (out, d) = self.level_odds(lev, sc, Ghost(st));
                    let net_pot = if li == 0 {
                        pot.minus(self.main_pot_rake)
                    } else {
                        pot
                    };
                    let ghost acc = cash;
                    let mut j: usize = 0;
                    while j < d.len()
                        invariant
                            j <= d@.len(),
                            cash == share_by_ties(acc, out, d@, net_pot, j as nat),
                        decreases d@.len() - j,
                    {
                        if !d[j].same(T::zero()) {
                            cash = cash.plus(out.times(d[j]).times(net_pot.over(T::of_usize(j + 1))));
                        }
                        j += 1;
                    }
                }
            }
            li += 1;
        }
        cash.minus(self.traverser_stake.times(mass))
    }

    /// The weight of those who cannot win level `lev`, and the weights of tie counts
    /// among those who can.
    fn level_odds(&self, lev: i32, sc: &Vec<Odds<T>>, Ghost(st): Ghost<&Stakes<T>>) -> (r: (
        T,
        Vec<T>,
    ))
        requires
            self.is_for(st),
            sc@.len() == st.num_opp(),
        ensures
            r.0 == st.outside(lev as int, sc@, st.num_opp() as nat),
            r.1@ == st.tie_odds(lev as int, sc@, st.num_opp() as nat),
    {
        let num_opp: usize = self.opp_folded.len();
        let mut out: T = T::one();
        let mut d: Vec<T> = Vec::new();
        d.push(T::one());
        assert(d@ =~= seq![T::s_one()]);
        let mut oi: usize = 0;
        while oi < num_opp
            invariant
                oi <= num_opp,
                num_opp == self.opp_folded@.len(),
                self.is_for(st),
                sc@.len() == st.num_opp(),
                out == st.outside(lev as int, sc@, oi as nat),
                d@ == st.tie_odds(lev as int, sc@, oi as nat),
                d@.len() <= oi + 1,
            decreases num_opp - oi,
        {
            assert(self.opp_contrib@[oi as int] == st.opp_contrib(oi as int));
            assert(self.opp_folded@[oi as int] == st.opp_folded(oi as int));
            if self.opp_folded[oi] {
                out = out.times(sc[oi].compat);
            } else if self.opp_contrib[oi] < lev {
                out = out.times(sc[oi].win.plus(sc[oi].tie).plus(sc[oi].lose));
            } else {
                d = next_ties(&d, sc[oi].win, sc[oi].tie);
            }
            oi += 1;
        }
        (out, d)
    }
}

/// What one traverser bucket faces: the opponents' reach per bucket, and the
/// fractions of the bucket pairs.
pub struct Field<T> {
    pub reach: Seq<Seq<T>>,
    pub nb: int,
    pub bt: int,
    pub win: Seq<T>,
    pub tie: Seq<T>,
    pub lose: Seq<T>,
    pub compat: Seq<T>,
}

/// The field that the arguments of a showdown describe.
pub open spec fn field_of<T: Widen>(
    reach: Seq<&[T]>,
    tables: &BucketedRunoutTables<T>,
    bt: int,
) -> Field<T> {
    field_on(Seq::new(reach.len(), |oi: int| reach[oi]@), tables, bt)
}

/// What bucket `bt` faces, the opponents having this reach.
pub open spec fn field_on<T: Widen>(
    reach: Seq<Seq<T>>,
    tables: &BucketedRunoutTables<T>,
    bt: int,
) -> Field<T> {
    Field {
        reach,
        nb: tables.nb as int,
        bt,
        win: tables.f_w@,
        tie: tables.f_t@,
        lose: tables.f_l@,
        compat: tables.f_n@,
    }
}

/// One row of reach per opponent, one entry per bucket.
pub open spec fn reach_fits<T>(reach: Seq<&[T]>, nb: int, num_opp: int) -> bool {
    reach.len() == num_opp && forall|oi: int|
        0 <= oi < num_opp ==> (#[trigger] reach[oi])@.len() == nb
}

impl<T: Scalar> Field<T> {
    pub open spec fn num_opp(&self) -> int {
        self.reach.len() as int
    }

    /// `x` times the fractions of bucket `bo` with the first `k` buckets of
    /// `prefix`; nothing where one of them is zero.
    pub open spec fn chain(&self, prefix: Seq<usize>, bo: int, x: T, k: nat) -> Option<T>
        decreases k,
    {
        if k == 0 {
            Some(x)
        } else {
            match self.chain(prefix, bo, x, (k - 1) as nat) {
                None => None,
                Some(y) => {
                    let f = self.compat[at(self.nb, prefix[k - 1] as int, bo)];
                    if is_zero(f) {
                        None
                    } else {
                        Some(y.s_times(f))
                    }
                },
            }
        }
    }

    /// The weight of the next opponent holding bucket `bo`; nothing where they do
    /// not.
    pub open spec fn joint(&self, prefix: Seq<usize>, bo: int, weight: Option<T>) -> Option<T> {
        let r = self.reach[prefix.len() as int][bo];
        if is_zero(r) {
            None
        } else {
            let start = match weight {
                Some(w) => w.s_times(r),
                None => r,
            };
            self.chain(prefix, bo, start, prefix.len())
        }
    }
}

fn chain_of<T: Widen>(
    tables: &BucketedRunoutTables<T>,
    prefix: &Vec<usize>,
    bo: usize,
    x: T,
    Ghost(field): Ghost<&Field<T>>,
) -> (out: Option<T>)
    requires
        tables.wf(),
        bo < tables.nb,
        field.nb == tables.nb,
        field.compat == tables.f_n@,
        forall|i: int| 0 <= i < prefix@.len() ==> (#[trigger] prefix@[i]) < tables.nb,
    ensures
        out == field.chain(prefix@, bo as int, x, prefix@.len()),
{
    let nb: usize = tables.nb;
    let total: usize = tables.f_n.len();
    let mut y: T = x;
    let mut k: usize = 0;
    while k < prefix.len()
        invariant
            k <= prefix@.len(),
            tables.wf(),
            nb == tables.nb,
            total == nb * nb,
            bo < nb,
            field.nb == nb,
            field.compat == tables.f_n@,
            forall|i: int| 0 <= i < prefix@.len() ==> (#[trigger] prefix@[i]) < nb,
            Some(y) == field.chain(prefix@, bo as int, x, k as nat),
        decreases prefix@.len() - k,
    {
        let pb: usize = prefix[k];
        proof {
            lemma_at_bound(nb as int, nb as int, pb as int, bo as int);
        }
        let f = tables.f_n[pb * nb + bo];
        if f.same(T::zero()) {
            proof {
                lemma_chain_none(field, prefix@, bo as int, x, (k + 1) as nat, prefix@.len());
            }
            return None;
        }
        y = y.times(f);
        k += 1;
    }
    Some(y)
}

proof fn lemma_chain_none<T: Scalar>(
    field: &Field<T>,
    prefix: Seq<usize>,
    bo: int,
    x: T,
    k: nat,
    m: nat,
)
    requires
        k <= m,
        field.chain(prefix, bo, x, k) is None,
    ensures
        field.chain(prefix, bo, x, m) is None,
    decreases m,
{
    if k < m {
        lemma_chain_none(field, prefix, bo, x, k, (m - 1) as nat);
    }
}

fn joint_of<T: Widen>(
    reach: &[&[T]],
    tables: &BucketedRunoutTables<T>,
    prefix: &Vec<usize>,
    bo: usize,
    weight: Option<T>,
    Ghost(bt): Ghost<int>,
) -> (out: Option<T>)
    requires
        tables.wf(),
        bo < tables.nb,
        prefix@.len() < reach@.len(),
        reach_fits(reach@, tables.nb as int, reach@.len() as int),
        forall|i: int| 0 <= i < prefix@.len() ==> (#[trigger] prefix@[i]) < tables.nb,
    ensures
        out == field_of(reach@, tables, bt).joint(prefix@, bo as int, weight),
{
    let ghost field = field_of(reach@, tables, bt);
    let oi: usize = prefix.len();
    assert(reach@[oi as int]@.len() == tables.nb);
    let row = reach[oi];
    let r = row[bo];
    assert(r == field.reach[oi as int][bo as int]);
    if r.same(T::zero()) {
        return None;
    }
    let start = match weight {
        Some(w) => w.times(r),
        None => r,
    };
    chain_of(tables, prefix, bo, start, Ghost(&field))
}

/// The weight of being beaten after one more opponent, from the first `k` tie
/// counts: `compat` carries those already beaten on, `lose` adds to them.
pub open spec fn beaten_after<T: Scalar>(state: Seq<T>, compat: T, lose: T, counts: bool, k: nat) -> T
    decreases k,
{
    if k == 0 {
        if is_zero(state[0]) {
            T::s_zero()
        } else {
            T::s_zero().s_plus(state[0].s_times(compat))
        }
    } else {
        let prev = beaten_after(state, compat, lose, counts, (k - 1) as nat);
        if is_zero(state[k as int]) || !counts {
            prev
        } else {
            prev.s_plus(state[k as int].s_times(lose))
        }
    }
}

/// The weight of `j` ties after one more opponent.
pub open spec fn ties_after<T: Scalar>(
    state: Seq<T>,
    tie: T,
    win: T,
    tie_counts: bool,
    win_counts: bool,
    j: int,
) -> T {
    let x = if j > 0 && !is_zero(state[j]) && tie_counts {
        T::s_zero().s_plus(state[j].s_times(tie))
    } else {
        T::s_zero()
    };
    if j + 1 < state.len() && !is_zero(state[j + 1]) && win_counts {
        x.s_plus(state[j + 1].s_times(win))
    } else {
        x
    }
}

/// What the traverser wins per unit of stake when tied with `j` opponents and
/// ahead of the rest.
pub open spec fn unit_net<T: Scalar>(k: T, rake: T, j: int) -> T {
    if j == 0 {
        k.s_minus(rake)
    } else {
        let t = T::s_of(j + 1);
        k.s_plus(T::s_one()).s_minus(t).s_over(t).s_minus(rake.s_over(t))
    }
}

/// The payoffs of the first `n` tie counts, and of being beaten, added to `acc`.
pub open spec fn even_leaf<T: Scalar>(k: T, rake: T, state: Seq<T>, acc: T, n: nat) -> T
    decreases n,
{
    if n == 0 {
        if is_zero(state[0]) {
            acc
        } else {
            acc.s_plus(state[0].s_times(T::s_of(-1)))
        }
    } else {
        let prev = even_leaf(k, rake, state, acc, (n - 1) as nat);
        if is_zero(state[n as int]) {
            prev
        } else {
            prev.s_plus(state[n as int].s_times(unit_net(k, rake, n - 1)))
        }
    }
}

/// What one more opponent brings: weights of sharing no card, of beating the
/// traverser, of tying and of losing, and which of them count.
pub struct Step<T> {
    pub compat: T,
    pub lose: T,
    pub tie: T,
    pub win: T,
    pub lose_counts: bool,
    pub tie_counts: bool,
    pub win_counts: bool,
}

/// The state after one more opponent: the weight of being beaten, then that of each
/// tie count.
pub open spec fn even_step<T: Scalar>(state: Seq<T>, s: Step<T>) -> Seq<T> {
    seq![
        beaten_after(state, s.compat, s.lose, s.lose_counts, (state.len() - 1) as nat),
    ] + Seq::new(
        state.len(),
        |j: int| ties_after(state, s.tie, s.win, s.tie_counts, s.win_counts, j),
    )
}

/// Computes [`even_step`].
fn next_state<T: Scalar>(state: &Vec<T>, s: &Step<T>) -> (out: Vec<T>)
    requires
        1 <= state@.len() < usize::MAX,
    ensures
        out@ == even_step(state@, *s),
{
    let n: usize = state.len();
    let mut beaten = if state[0].same(T::zero()) {
        T::zero()
    } else {
        T::zero().plus(state[0].times(s.compat))
    };
    let mut k: usize = 1;
    while k < n
        invariant
            1 <= k <= n,
            n == state@.len(),
            beaten == beaten_after(state@, s.compat, s.lose, s.lose_counts, (k - 1) as nat),
        decreases n - k,
    {
        if !state[k].same(T::zero()) && s.lose_counts {
            beaten = beaten.plus(state[k].times(s.lose));
        }
        k += 1;
    }
    let mut out: Vec<T> = Vec::new();
    out.push(beaten);
    let mut j: usize = 0;
    while j < n
        invariant
            j <= n,
            n == state@.len(),
            n < usize::MAX,
            out@.len() == j + 1,
            out@[0] == beaten,
            forall|i: int|
                0 <= i < j ==> #[trigger] out@[i + 1] == ties_after(
                    state@,
                    s.tie,
                    s.win,
                    s.tie_counts,
                    s.win_counts,
                    i,
                ),
        decreases n - j,
    {
        let ghost before = out@;
        let mut x = T::zero();
        if j > 0 && !state[j].same(T::zero()) && s.tie_counts {
            x = T::zero().plus(state[j].times(s.tie));
        }
        if j + 1 < n && !state[j + 1].same(T::zero()) && s.win_counts {
            x = x.plus(state[j + 1].times(s.win));
        }
        out.push(x);
        proof {
            assert forall|i: int| 0 <= i < j + 1 implies #[trigger] out@[i + 1] == ties_after(
                state@,
                s.tie,
                s.win,
                s.tie_counts,
                s.win_counts,
                i,
            ) by {
                if i < j {
                    assert(out@[i + 1] == before[i + 1]);
                }
            }
        }
        j += 1;
    }
    proof {
        let want = even_step(state@, *s);
        assert forall|i: int| 0 <= i < want.len() implies out@[i] == want[i] by {
            if i > 0 {
                assert(out@[(i - 1) + 1] == out@[i]);
            }
        }
        assert(out@ =~= want);
    }
    out
}

/// Computes [`even_leaf`] over all tie counts.
fn leaf_of<T: Scalar>(k: T, rake: T, state: &Vec<T>, acc: T) -> (out: T)
    requires
        1 <= state@.len(),
    ensures
        out == even_leaf(k, rake, state@, acc, (state@.len() - 1) as nat),
{
    let mut out = if state[0].same(T::zero()) {
        acc
    } else {
        acc.plus(state[0].times(T::of_i32(-1)))
    };
    let mut n: usize = 1;
    while n < state.len()
        invariant
            1 <= n <= state@.len(),
            out == even_leaf(k, rake, state@, acc, (n - 1) as nat),
        decreases state@.len() - n,
    {
        if !state[n].same(T::zero()) {
            let unit = if n == 1 {
                k.minus(rake)
            } else {
                let t = T::of_usize(n);
                k.plus(T::one()).minus(t).over(t).minus(rake.over(t))
            };
            out = out.plus(state[n].times(unit));
        }
        n += 1;
    }
    out
}

impl<T: Scalar> Field<T> {
    /// What the next opponent brings when holding bucket `bo`.
    pub open spec fn even_branch(&self, prefix: Seq<usize>, bo: int) -> Option<Step<T>> {
        let i = at(self.nb, self.bt, bo);
        match self.joint(prefix, bo, None) {
            None => None,
            Some(m) => if is_zero(self.compat[i]) {
                None
            } else {
                Some(
                    Step {
                        compat: m.s_times(self.compat[i]),
                        lose: m.s_times(self.lose[i]),
                        tie: m.s_times(self.tie[i]),
                        win: m.s_times(self.win[i]),
                        lose_counts: !is_zero(self.lose[i]),
                        tie_counts: !is_zero(self.tie[i]),
                        win_counts: !is_zero(self.win[i]),
                    },
                )
            },
        }
    }

    /// The payoffs of all bucket tuples of the opponents after `prefix`, added to
    /// `acc`.
    pub open spec fn even_all(&self, k: T, rake: T, prefix: Seq<usize>, state: Seq<T>, acc: T) -> T
        decreases self.num_opp() - prefix.len(), self.nb + 1,
    {
        if prefix.len() >= self.num_opp() || self.nb < 0 {
            even_leaf(k, rake, state, acc, (state.len() - 1) as nat)
        } else {
            self.even_upto(k, rake, prefix, state, acc, self.nb)
        }
    }

    /// The same, the next opponent holding one of the first `n` buckets.
    pub open spec fn even_upto(
        &self,
        k: T,
        rake: T,
        prefix: Seq<usize>,
        state: Seq<T>,
        acc: T,
        n: int,
    ) -> T
        decreases self.num_opp() - prefix.len(), n,
    {
        if n <= 0 || prefix.len() >= self.num_opp() {
            acc
        } else {
            let prev = self.even_upto(k, rake, prefix, state, acc, n - 1);
            match self.even_branch(prefix, n - 1) {
                None => prev,
                Some(s) => self.even_all(
                    k,
                    rake,
                    prefix.push((n - 1) as usize),
                    even_step(state, s),
                    prev,
                ),
            }
        }
    }

    /// The payoffs of all bucket tuples and relations of the opponents after
    /// `prefix`, added to `acc`.
    pub open spec fn levels_all(
        &self,
        st: &Stakes<T>,
        weight: T,
        prefix: Seq<usize>,
        rel: Seq<u8>,
        acc: T,
    ) -> T
        decreases self.num_opp() - prefix.len(), self.nb + 1,
    {
        if prefix.len() >= self.num_opp() || self.nb < 0 {
            acc.s_plus(weight.s_times(st.net(rel)))
        } else {
            self.levels_upto(st, weight, prefix, rel, acc, self.nb)
        }
    }

    /// The same, the next opponent holding one of the first `n` buckets.
    pub open spec fn levels_upto(
        &self,
        st: &Stakes<T>,
        weight: T,
        prefix: Seq<usize>,
        rel: Seq<u8>,
        acc: T,
        n: int,
    ) -> T
        decreases self.num_opp() - prefix.len(), n,
    {
        if n <= 0 || prefix.len() >= self.num_opp() {
            acc
        } else {
            let prev = self.levels_upto(st, weight, prefix, rel, acc, n - 1);
            let i = at(self.nb, self.bt, n - 1);
            let longer = prefix.push((n - 1) as usize);
            match self.joint(prefix, n - 1, Some(weight)) {
                None => prev,
                Some(base) => if st.opp_folded(prefix.len() as int) {
                    if is_zero(self.compat[i]) {
                        prev
                    } else {
                        self.levels_all(
                            st,
                            base.s_times(self.compat[i]),
                            longer,
                            rel.push(REL_FOLDED),
                            prev,
                        )
                    }
                } else {
                    let won = if is_zero(self.win[i]) {
                        prev
                    } else {
                        self.levels_all(
                            st,
                            base.s_times(self.win[i]),
                            longer,
                            rel.push(REL_WIN),
                            prev,
                        )
                    };
                    let tied = if is_zero(self.tie[i]) {
                        won
                    } else {
                        self.levels_all(
                            st,
                            base.s_times(self.tie[i]),
                            longer,
                            rel.push(REL_TIE),
                            won,
                        )
                    };
                    if is_zero(self.lose[i]) {
                        tied
                    } else {
                        self.levels_all(
                            st,
                            base.s_times(self.lose[i]),
                            longer,
                            rel.push(REL_LOSE),
                            tied,
                        )
                    }
                },
            }
        }
    }

    /// The weights with which an opponent holding bucket `bo` stands to the
    /// traverser; nothing where they cannot.
    pub open spec fn odds(&self, is_folded: bool, bo: int) -> Option<Odds<T>> {
        let i = at(self.nb, self.bt, bo);
        let z = T::s_zero();
        if is_folded {
            if is_zero(self.compat[i]) {
                None
            } else {
                Some(Odds { win: z, tie: z, lose: z, compat: self.compat[i] })
            }
        } else if is_zero(self.win[i]) && is_zero(self.tie[i]) && is_zero(self.lose[i]) {
            None
        } else {
            Some(Odds { win: self.win[i], tie: self.tie[i], lose: self.lose[i], compat: z })
        }
    }

    /// The average payoffs of all bucket tuples of the opponents after `prefix`,
    /// added to `acc`.
    pub open spec fn tuples_all(
        &self,
        st: &Stakes<T>,
        weight: T,
        prefix: Seq<usize>,
        sc: Seq<Odds<T>>,
        acc: T,
    ) -> T
        decreases self.num_opp() - prefix.len(), self.nb + 1,
    {
        if prefix.len() >= self.num_opp() || self.nb < 0 {
            acc.s_plus(weight.s_times(st.net_expected(sc)))
        } else {
            self.tuples_upto(st, weight, prefix, sc, acc, self.nb)
        }
    }

    /// The same, the next opponent holding one of the first `n` buckets.
    pub open spec fn tuples_upto(
        &self,
        st: &Stakes<T>,
        weight: T,
        prefix: Seq<usize>,
        sc: Seq<Odds<T>>,
        acc: T,
        n: int,
    ) -> T
        decreases self.num_opp() - prefix.len(), n,
    {
        if n <= 0 || prefix.len() >= self.num_opp() {
            acc
        } else {
            let prev = self.tuples_upto(st, weight, prefix, sc, acc, n - 1);
            match self.joint(prefix, n - 1, Some(weight)) {
                None => prev,
                Some(base) => match self.odds(st.opp_folded(prefix.len() as int), n - 1) {
                    None => prev,
                    Some(o) => self.tuples_all(
                        st,
                        base,
                        prefix.push((n - 1) as usize),
                        sc.push(o),
                        prev,
                    ),
                },
            }
        }
    }
}

/// Every bucket of the tuple so far is a bucket.
pub open spec fn are_buckets(prefix: Seq<usize>, nb: int) -> bool {
    forall|i: int| 0 <= i < prefix.len() ==> (#[trigger] prefix[i]) < nb
}

/// Goes through the bucket tuples of an even showdown.
fn recurse_eq_buckets<T: Widen>(
    reach: &[&[T]],
    tables: &BucketedRunoutTables<T>,
    bt: usize,
    k: T,
    rake: T,
    prefix: &mut Vec<usize>,
    state: &Vec<T>,
    acc: T,
) -> (out: T)
    requires
        tables.wf(),
        bt < tables.nb,
        reach@.len() <= MAX_OPP,
        reach_fits(reach@, tables.nb as int, reach@.len() as int),
        old(prefix)@.len() <= reach@.len(),
        are_buckets(old(prefix)@, tables.nb as int),
        state@.len() == old(prefix)@.len() + 2,
    ensures
        final(prefix)@ == old(prefix)@,
        out == field_of(reach@, tables, bt as int).even_all(k, rake, old(prefix)@, state@, acc),
    decreases reach@.len() - old(prefix)@.len(),
{
    let ghost field = field_of(reach@, tables, bt as int);
    let ghost start = prefix@;
    if prefix.len() == reach.len() {
        return leaf_of(k, rake, state, acc);
    }
    let nb: usize = tables.nb;
    let total: usize = tables.f_n.len();
    let mut out: T = acc;
    let mut bo: usize = 0;
    while bo < nb
        invariant
            bo <= nb,
            nb == tables.nb,
            total == nb * nb,
            tables.wf(),
            bt < nb,
            reach@.len() <= MAX_OPP,
            reach_fits(reach@, nb as int, reach@.len() as int),
            prefix@ == start,
            start == old(prefix)@,
            start.len() < reach@.len(),
            are_buckets(start, nb as int),
            state@.len() == start.len() + 2,
            field == field_of(reach@, tables, bt as int),
            out == field.even_upto(k, rake, start, state@, acc, bo as int),
        decreases nb - bo,
    {
        let joint = joint_of(reach, tables, prefix, bo, None, Ghost(bt as int));
        proof {
            lemma_at_bound(nb as int, nb as int, bt as int, bo as int);
        }
        if let Some(m) = joint {
            let i: usize = bt * nb + bo;
            let compat = tables.f_n[i];
            if !compat.same(T::zero()) {
                let lose = tables.f_l[i];
                let tie = tables.f_t[i];
                let win = tables.f_w[i];
                let s = Step {
                    compat: m.times(compat),
                    lose: m.times(lose),
                    tie: m.times(tie),
                    win: m.times(win),
                    lose_counts: !lose.same(T::zero()),
                    tie_counts: !tie.same(T::zero()),
                    win_counts: !win.same(T::zero()),
                };
                let next = next_state(state, &s);
                prefix.push(bo);
                assert(field.even_branch(start, bo as int) == Some(s));
                out = recurse_eq_buckets(reach, tables, bt, k, rake, prefix, &next, out);
                prefix.pop();
                assert(prefix@ =~= start);
            }
        }
        bo += 1;
    }
    out
}

/// Goes through the bucket tuples and relations of an uneven showdown.
fn recurse_levels_buckets<T: Widen>(
    reach: &[&[T]],
    tables: &BucketedRunoutTables<T>,
    bt: usize,
    ctx: &Arm2Ctx<T>,
    weight: T,
    prefix: &mut Vec<usize>,
    rel: &mut Vec<u8>,
    acc: T,
    Ghost(st): Ghost<&Stakes<T>>,
) -> (out: T)
    requires
        tables.wf(),
        bt < tables.nb,
        ctx.is_for(st),
        reach@.len() == st.num_opp(),
        reach_fits(reach@, tables.nb as int, reach@.len() as int),
        old(prefix)@.len() <= reach@.len(),
        are_buckets(old(prefix)@, tables.nb as int),
        old(rel)@.len() == old(prefix)@.len(),
    ensures
        final(prefix)@ == old(prefix)@,
        final(rel)@ == old(rel)@,
        out == field_of(reach@, tables, bt as int).levels_all(
            st,
            weight,
            old(prefix)@,
            old(rel)@,
            acc,
        ),
    decreases reach@.len() - old(prefix)@.len(),
{
    let ghost field = field_of(reach@, tables, bt as int);
    let ghost start = prefix@;
    let ghost start_rel = rel@;
    if prefix.len() == reach.len() {
        return acc.plus(weight.times(ctx.net(rel, Ghost(st))));
    }
    let nb: usize = tables.nb;
    let total: usize = tables.f_n.len();
    let mut out: T = acc;
    let mut bo: usize = 0;
    while bo < nb
        invariant
            bo <= nb,
            nb == tables.nb,
            total == nb * nb,
            tables.wf(),
            bt < nb,
            ctx.is_for(st),
            reach@.len() == st.num_opp(),
            reach_fits(reach@, nb as int, reach@.len() as int),
            prefix@ == start,
            rel@ == start_rel,
            start == old(prefix)@,
            start.len() < reach@.len(),
            start_rel.len() == start.len(),
            are_buckets(start, nb as int),
            field == field_of(reach@, tables, bt as int),
            out == field.levels_upto(st, weight, start, start_rel, acc, bo as int),
        decreases nb - bo,
    {
        let joint = joint_of(reach, tables, prefix, bo, Some(weight), Ghost(bt as int));
        proof {
            lemma_at_bound(nb as int, nb as int, bt as int, bo as int);
        }
        if let Some(base) = joint {
            let i: usize = bt * nb + bo;
            let oi: usize = prefix.len();
            assert(ctx.opp_folded@[oi as int] == st.opp_folded(oi as int));
            prefix.push(bo);
            if ctx.opp_folded[oi] {
                let f = tables.f_n[i];
                if !f.same(T::zero()) {
                    rel.push(REL_FOLDED);
                    out = recurse_levels_buckets(
                        reach,
                        tables,
                        bt,
                        ctx,
                        base.times(f),
                        prefix,
                        rel,
                        out,
                        Ghost(st),
                    );
                    rel.pop();
                    assert(rel@ =~= start_rel);
                }
            } else {
                let fw = tables.f_w[i];
                if !fw.same(T::zero()) {
                    rel.push(REL_WIN);
                    out = recurse_levels_buckets(
                        reach,
                        tables,
                        bt,
                        ctx,
                        base.times(fw),
                        prefix,
                        rel,
                        out,
                        Ghost(st),
                    );
                    rel.pop();
                    assert(rel@ =~= start_rel);
                }
                let ft = tables.f_t[i];
                if !ft.same(T::zero()) {
                    rel.push(REL_TIE);
                    out = recurse_levels_buckets(
                        reach,
                        tables,
                        bt,
                        ctx,
                        base.times(ft),
                        prefix,
                        rel,
                        out,
                        Ghost(st),
                    );
                    rel.pop();
                    assert(rel@ =~= start_rel);
                }
                let fl = tables.f_l[i];
                if !fl.same(T::zero()) {
                    rel.push(REL_LOSE);
                    out = recurse_levels_buckets(
                        reach,
                        tables,
                        bt,
                        ctx,
                        base.times(fl),
                        prefix,
                        rel,
                        out,
                        Ghost(st),
                    );
                    rel.pop();
                    assert(rel@ =~= start_rel);
                }
            }
            prefix.pop();
            assert(prefix@ =~= start);
        }
        bo += 1;
    }
    out
}

/// Goes through the bucket tuples of an uneven showdown, averaging over relations.
fn recurse_tuples_collapsed<T: Widen>(
    reach: &[&[T]],
    tables: &BucketedRunoutTables<T>,
    bt: usize,
    ctx: &Arm2Ctx<T>,
    weight: T,
    prefix: &mut Vec<usize>,
    sc: &mut Vec<Odds<T>>,
    acc: T,
    Ghost(st): Ghost<&Stakes<T>>,
) -> (out: T)
    requires
        tables.wf(),
        bt < tables.nb,
        ctx.is_for(st),
        reach@.len() == st.num_opp(),
        reach_fits(reach@, tables.nb as int, reach@.len() as int),
        old(prefix)@.len() <= reach@.len(),
        are_buckets(old(prefix)@, tables.nb as int),
        old(sc)@.len() == old(prefix)@.len(),
    ensures
        final(prefix)@ == old(prefix)@,
        final(sc)@ == old(sc)@,
        out == field_of(reach@, tables, bt as int).tuples_all(
            st,
            weight,
            old(prefix)@,
            old(sc)@,
            acc,
        ),
    decreases reach@.len() - old(prefix)@.len(),
{
    let ghost field = field_of(reach@, tables, bt as int);
    let ghost start = prefix@;
    let ghost start_sc = sc@;
    if prefix.len() == reach.len() {
        return acc.plus(weight.times(ctx.net_expected(sc, Ghost(st))));
    }
    let nb: usize = tables.nb;
    let total: usize = tables.f_n.len();
    let mut out: T = acc;
    let mut bo: usize = 0;
    while bo < nb
        invariant
            bo <= nb,
            nb == tables.nb,
            total == nb * nb,
            tables.wf(),
            bt < nb,
            ctx.is_for(st),
            reach@.len() == st.num_opp(),
            reach_fits(reach@, nb as int, reach@.len() as int),
            prefix@ == start,
            sc@ == start_sc,
            start == old(prefix)@,
            start.len() < reach@.len(),
            start_sc.len() == start.len(),
            are_buckets(start, nb as int),
            field == field_of(reach@, tables, bt as int),
            out == field.tuples_upto(st, weight, start, start_sc, acc, bo as int),
        decreases nb - bo,
    {
        let joint = joint_of(reach, tables, prefix, bo, Some(weight), Ghost(bt as int));
        proof {
            lemma_at_bound(nb as int, nb as int, bt as int, bo as int);
        }
        if let Some(base) = joint {
            let i: usize = bt * nb + bo;
            let oi: usize = prefix.len();
            assert(ctx.opp_folded@[oi as int] == st.opp_folded(oi as int));
            let z = T::zero();
            let odds = if ctx.opp_folded[oi] {
                let n = tables.f_n[i];
                if n.same(z) {
                    None
                } else {
                    Some(Odds { win: z, tie: z, lose: z, compat: n })
                }
            } else {
                let w = tables.f_w[i];
                let t = tables.f_t[i];
                let l = tables.f_l[i];
                if w.same(z) && t.same(z) && l.same(z) {
                    None
                } else {
                    Some(Odds { win: w, tie: t, lose: l, compat: z })
                }
            };
            assert(odds == field.odds(st.opp_folded(oi as int), bo as int));
            if let Some(o) = odds {
                prefix.push(bo);
                sc.push(o);
                out = recurse_tuples_collapsed(
                    reach,
                    tables,
                    bt,
                    ctx,
                    base,
                    prefix,
                    sc,
                    out,
                    Ghost(st),
                );
                sc.pop();
                prefix.pop();
                assert(sc@ =~= start_sc);
                assert(prefix@ =~= start);
            }
        }
        bo += 1;
    }
    out
}

impl<T: Scalar> Stakes<T> {
    /// The rake per unit of stake of an even showdown.
    pub open spec fn unit_rake(&self) -> T {
        let total = self.starting_pot + sum_of(self.contributions, self.contributions.len());
        let rake = capped(T::s_of(total).s_times(self.rake_rate), self.rake_cap);
        if T::s_zero().s_below(self.stake()) {
            rake.s_over(self.stake())
        } else {
            T::s_zero()
        }
    }

    /// The number of opponents.
    pub open spec fn rivals(&self) -> T {
        T::s_of(self.num_opp())
    }
}

impl<T: Scalar> Field<T> {
    /// The value of an even showdown.
    pub open spec fn even_value(&self, st: &Stakes<T>) -> T {
        st.stake().s_times(
            self.even_all(
                st.rivals(),
                st.unit_rake(),
                Seq::empty(),
                seq![T::s_zero(), T::s_one()],
                T::s_zero(),
            ),
        )
    }

    /// The value of a showdown, by bucket tuples and relations.
    pub open spec fn value(&self, st: &Stakes<T>) -> T {
        if st.is_even() {
            self.even_value(st)
        } else {
            self.levels_all(st, T::s_one(), Seq::empty(), Seq::empty(), T::s_zero())
        }
    }

    /// The value of a showdown, by bucket tuples, averaged over relations.
    pub open spec fn collapsed_value(&self, st: &Stakes<T>) -> T {
        if st.is_even() {
            self.even_value(st)
        } else {
            self.tuples_all(st, T::s_one(), Seq::empty(), Seq::empty(), T::s_zero())
        }
    }
}

/// Whether nobody has folded and all have put in the same.
fn all_even(contributions: &[i32], fold_mask: u16) -> (r: bool)
    requires
        contributions@.len() > 0,
    ensures
        r == (fold_mask == 0 && forall|p: int|
            0 <= p < contributions@.len() ==> (#[trigger] contributions@[p]) == contributions@[0]),
{
    if fold_mask != 0 {
        return false;
    }
    let mut p: usize = 0;
    while p < contributions.len()
        invariant
            p <= contributions@.len(),
            contributions@.len() > 0,
            forall|q: int| 0 <= q < p ==> (#[trigger] contributions@[q]) == contributions@[0],
        decreases contributions@.len() - p,
    {
        if contributions[p] != contributions[0] {
            return false;
        }
        p += 1;
    }
    true
}

/// The stake and the rake per unit of it in an even showdown.
fn even_terms<T: Scalar>(
    contributions: &[i32],
    fold_mask: u16,
    traverser: usize,
    starting_pot: i32,
    rake_rate: T,
    rake_cap: T,
    flop_seen: bool,
) -> (r: (T, T))
    requires
        2 <= contributions@.len() <= MAX_OPP + 1,
        traverser < contributions@.len(),
    ensures
        ({
            let st = stakes_of(
                contributions@,
                fold_mask,
                traverser as int,
                starting_pot,
                rake_rate,
                rake_cap,
                flop_seen,
            );
            r.0 == st.stake() && r.1 == st.unit_rake()
        }),
{
    let ghost st = stakes_of(
        contributions@,
        fold_mask,
        traverser as int,
        starting_pot,
        rake_rate,
        rake_cap,
        flop_seen,
    );
    let np: usize = contributions.len();
    let (rate, cap) = if flop_seen {
        (rake_rate, rake_cap)
    } else {
        (T::zero(), T::zero())
    };
    let mut chips: i64 = 0;
    let mut p: usize = 0;
    while p < np
        invariant
            p <= np,
            np == contributions@.len(),
            np <= MAX_OPP + 1,
            st.contributions == Seq::new(contributions@.len(), |p: int| contributions@[p] as int),
            chips == sum_of(st.contributions, p as nat),
            -0x8000_0000 * p <= chips <= 0x8000_0000 * p,
        decreases np - p,
    {
        assert(st.contributions[p as int] == contributions@[p as int]);
        chips = chips + contributions[p] as i64;
        p += 1;
    }
    let stake = T::of_i32(starting_pot).over(T::of_usize(np)).plus(
        T::of_i32(contributions[traverser]),
    );
    let total: i64 = starting_pot as i64 + chips;
    let rake = cap_rake(T::of_i64(total).times(rate), cap);
    let unit = if T::zero().below(stake) {
        rake.over(stake)
    } else {
        T::zero()
    };
    (stake, unit)
}

/// One value per bucket of an even showdown.
fn even_values<T: Widen>(
    reach: &[&[T]],
    tables: &BucketedRunoutTables<T>,
    stake: T,
    unit: T,
    Ghost(st): Ghost<&Stakes<T>>,
) -> (cfv: Vec<T>)
    requires
        tables.wf(),
        st.wf(),
        reach_fits(reach@, tables.nb as int, st.num_opp()),
        stake == st.stake(),
        unit == st.unit_rake(),
    ensures
        cfv@.len() == tables.nb,
        forall|bt: int|
            0 <= bt < tables.nb ==> #[trigger] cfv@[bt] == field_of(
                reach@,
                tables,
                bt,
            ).even_value(st),
{
    let k = T::of_usize(reach.len());
    let mut cfv: Vec<T> = Vec::new();
    let mut bt: usize = 0;
    while bt < tables.nb
        invariant
            bt <= tables.nb,
            tables.wf(),
            st.wf(),
            reach_fits(reach@, tables.nb as int, st.num_opp()),
            stake == st.stake(),
            unit == st.unit_rake(),
            k == st.rivals(),
            cfv@.len() == bt,
            forall|b: int|
                0 <= b < bt ==> #[trigger] cfv@[b] == field_of(reach@, tables, b).even_value(st),
        decreases tables.nb - bt,
    {
        let mut prefix: Vec<usize> = Vec::new();
        let mut state: Vec<T> = Vec::new();
        state.push(T::zero());
        state.push(T::one());
        assert(state@ =~= seq![T::s_zero(), T::s_one()]);
        assert(prefix@ =~= Seq::empty());
        let sum = recurse_eq_buckets(
            reach,
            tables,
            bt,
            k,
            unit,
            &mut prefix,
            &state,
            T::zero(),
        );
        cfv.push(stake.times(sum));
        bt += 1;
    }
    cfv
}

/// Showdown values of the traverser's buckets, going through all bucket tuples of
/// the opponents and, where pots differ, all relations.
///
/// `bucket_reach[oi]` is the reach of the `oi`-th opponent by bucket, in player
/// order.
pub fn bucketed_showdown_cfv<T: Widen>(
    bucket_reach: &[&[T]],
    tables: &BucketedRunoutTables<T>,
    contributions: &[i32],
    fold_mask: u16,
    traverser: usize,
    num_players: u8,
    starting_pot: i32,
    rake_rate: T,
    rake_cap: T,
    flop_seen: bool,
) -> (cfv: Vec<T>)
    requires
        tables.wf(),
        3 <= num_players <= MAX_OPP + 1,
        contributions@.len() == num_players,
        traverser < num_players,
        reach_fits(bucket_reach@, tables.nb as int, num_players - 1),
    ensures
        cfv@.len() == tables.nb,
        forall|bt: int|
            0 <= bt < tables.nb ==> #[trigger] cfv@[bt] == field_of(
                bucket_reach@,
                tables,
                bt,
            ).value(
                &stakes_of(
                    contributions@,
                    fold_mask,
                    traverser as int,
                    starting_pot,
                    rake_rate,
                    rake_cap,
                    flop_seen,
                ),
            ),
{
    let ghost st = stakes_of(
        contributions@,
        fold_mask,
        traverser as int,
        starting_pot,
        rake_rate,
        rake_cap,
        flop_seen,
    );
    let even = all_even(contributions, fold_mask);
    proof {
        lemma_even(contributions@, &st);
    }
    if even {
        let (stake, unit) = even_terms(
            contributions,
            fold_mask,
            traverser,
            starting_pot,
            rake_rate,
            rake_cap,
            flop_seen,
        );
        return even_values(bucket_reach, tables, stake, unit, Ghost(&st));
    }
    let ctx = Arm2Ctx::new(
        contributions,
        fold_mask,
        traverser,
        starting_pot,
        rake_rate,
        rake_cap,
        flop_seen,
    );
    let mut cfv: Vec<T> = Vec::new();
    let mut bt: usize = 0;
    while bt < tables.nb
        invariant
            bt <= tables.nb,
            tables.wf(),
            ctx.is_for(&st),
            st.wf(),
            !st.is_even(),
            reach_fits(bucket_reach@, tables.nb as int, st.num_opp()),
            cfv@.len() == bt,
            forall|b: int|
                0 <= b < bt ==> #[trigger] cfv@[b] == field_of(bucket_reach@, tables, b).value(
                    &st,
                ),
        decreases tables.nb - bt,
    {
        let mut prefix: Vec<usize> = Vec::new();
        let mut rel: Vec<u8> = Vec::new();
        assert(prefix@ =~= Seq::empty());
        assert(rel@ =~= Seq::empty());
        let x = recurse_levels_buckets(
            bucket_reach,
            tables,
            bt,
            &ctx,
            T::one(),
            &mut prefix,
            &mut rel,
            T::zero(),
            Ghost(&st),
        );
        cfv.push(x);
        bt += 1;
    }
    cfv
}

proof fn lemma_even<T: Scalar>(c: Seq<i32>, st: &Stakes<T>)
    requires
        c.len() > 0,
        st.contributions == Seq::new(c.len(), |p: int| c[p] as int),
    ensures
        st.is_even() == (st.fold_mask == 0 && forall|p: int|
            0 <= p < c.len() ==> (#[trigger] c[p]) == c[0]),
{
    if st.is_even() {
        assert forall|p: int| 0 <= p < c.len() implies (#[trigger] c[p]) == c[0] by {
            assert(st.contributions[p] == st.contributions[0]);
        }
    }
}

/// Showdown values of the traverser's buckets, going through all bucket tuples of
/// the opponents and averaging over relations.
pub fn bucketed_showdown_cfv_design1_collapsed<T: Widen>(
    bucket_reach: &[&[T]],
    tables: &BucketedRunoutTables<T>,
    contributions: &[i32],
    fold_mask: u16,
    traverser: usize,
    num_players: u8,
    starting_pot: i32,
    rake_rate: T,
    rake_cap: T,
    flop_seen: bool,
) -> (cfv: Vec<T>)
    requires
        tables.wf(),
        2 <= num_players <= MAX_OPP + 1,
        contributions@.len() == num_players,
        traverser < num_players,
        reach_fits(bucket_reach@, tables.nb as int, num_players - 1),
    ensures
        cfv@.len() == tables.nb,
        forall|bt: int|
            0 <= bt < tables.nb ==> #[trigger] cfv@[bt] == field_of(
                bucket_reach@,
                tables,
                bt,
            ).collapsed_value(
                &stakes_of(
                    contributions@,
                    fold_mask,
                    traverser as int,
                    starting_pot,
                    rake_rate,
                    rake_cap,
                    flop_seen,
                ),
            ),
{
    let ghost st = stakes_of(
        contributions@,
        fold_mask,
        traverser as int,
        starting_pot,
        rake_rate,
        rake_cap,
        flop_seen,
    );
    let even = all_even(contributions, fold_mask);
    proof {
        lemma_even(contributions@, &st);
    }
    if even {
        let (stake, unit) = even_terms(
            contributions,
            fold_mask,
            traverser,
            starting_pot,
            rake_rate,
            rake_cap,
            flop_seen,
        );
        return even_values(bucket_reach, tables, stake, unit, Ghost(&st));
    }
    let ctx = Arm2Ctx::new(
        contributions,
        fold_mask,
        traverser,
        starting_pot,
        rake_rate,
        rake_cap,
        flop_seen,
    );
    let mut cfv: Vec<T> = Vec::new();
    let mut bt: usize = 0;
    while bt < tables.nb
        invariant
            bt <= tables.nb,
            tables.wf(),
            ctx.is_for(&st),
            st.wf(),
            !st.is_even(),
            reach_fits(bucket_reach@, tables.nb as int, st.num_opp()),
            cfv@.len() == bt,
            forall|b: int|
                0 <= b < bt ==> #[trigger] cfv@[b] == field_of(
                    bucket_reach@,
                    tables,
                    b,
                ).collapsed_value(&st),
        decreases tables.nb - bt,
    {
        let mut prefix: Vec<usize> = Vec::new();
        let mut sc: Vec<Odds<T>> = Vec::new();
        assert(prefix@ =~= Seq::empty());
        assert(sc@ =~= Seq::empty());
        let x = recurse_tuples_collapsed(
            bucket_reach,
            tables,
            bt,
            &ctx,
            T::one(),
            &mut prefix,
            &mut sc,
            T::zero(),
            Ghost(&st),
        );
        cfv.push(x);
        bt += 1;
    }
    cfv
}

impl<T: Widen> Field<T> {
    /// How the first `n` buckets of opponent `oi` stand to the traverser, weighted
    /// by reach.
    pub open spec fn blended(&self, oi: int, n: nat) -> Odds<T>
        decreases n,
    {
        if n == 0 {
            Odds { win: T::s_zero(), tie: T::s_zero(), lose: T::s_zero(), compat: T::s_zero() }
        } else {
            let prev = self.blended(oi, (n - 1) as nat);
            let r = self.reach[oi][n - 1];
            let i = at(self.nb, self.bt, n - 1);
            if is_zero(r) {
                prev
            } else {
                Odds {
                    win: prev.win.s_plus(r.s_times(self.win[i])),
                    tie: prev.tie.s_plus(r.s_times(self.tie[i])),
                    lose: prev.lose.s_plus(r.s_times(self.lose[i])),
                    compat: prev.compat.s_plus(r.s_times(self.compat[i])),
                }
            }
        }
    }

    /// How every opponent stands to the traverser.
    pub open spec fn all_blended(&self) -> Seq<Odds<T>> {
        Seq::new(self.reach.len(), |oi: int| self.blended(oi, self.nb as nat))
    }

    /// Opponent `oi`'s reach of bucket `b`, as far as it shares no card with the
    /// traverser's.
    pub open spec fn free_reach(&self, oi: int, b: int) -> T::Wide {
        self.reach[oi][b].s_widen().s_times(self.compat[at(self.nb, self.bt, b)].s_widen())
    }

    /// The compatible mass of bucket `bi`, of weight `wi`, with the first `n`
    /// buckets of opponent `j`, added to `acc`.
    pub open spec fn row_compat(&self, wi: T::Wide, bi: int, j: int, acc: T::Wide, n: nat) -> T::Wide
        decreases n,
    {
        if n == 0 {
            acc
        } else {
            let prev = self.row_compat(wi, bi, j, acc, (n - 1) as nat);
            let wj = self.free_reach(j, n - 1);
            if is_zero(wj) {
                prev
            } else {
                prev.s_plus(
                    wi.s_times(wj).s_times(self.compat[at(self.nb, bi, n - 1)].s_widen()),
                )
            }
        }
    }

    /// The compatible mass of the first `n` buckets of opponent `i` with all of
    /// opponent `j`.
    pub open spec fn pair_compat_mass(&self, i: int, j: int, n: nat) -> T::Wide
        decreases n,
    {
        if n == 0 {
            T::Wide::s_zero()
        } else {
            let prev = self.pair_compat_mass(i, j, (n - 1) as nat);
            let wi = self.free_reach(i, n - 1);
            if is_zero(wi) {
                prev
            } else {
                self.row_compat(wi, n - 1, j, prev, self.nb as nat)
            }
        }
    }

    /// `c` times the mean compatibility of opponent `i` with each later opponent
    /// under `m`.
    pub open spec fn thinned_by(&self, i: int, c: T::Wide, m: int) -> T::Wide
        decreases m,
    {
        if m <= i + 1 || m <= 0 {
            c
        } else {
            let prev = self.thinned_by(i, c, m - 1);
            let ni = self.all_blended()[i].compat.s_widen();
            let nj = self.all_blended()[m - 1].compat.s_widen();
            if is_zero(nj) {
                prev
            } else {
                prev.s_times(
                    self.pair_compat_mass(i, m - 1, self.nb as nat).s_over(ni.s_times(nj)),
                )
            }
        }
    }

    /// The mean compatibility of the first `n` opponents with all later ones.
    pub open spec fn thinned(&self, n: nat) -> T::Wide
        decreases n,
    {
        if n == 0 {
            T::Wide::s_one()
        } else {
            let prev = self.thinned((n - 1) as nat);
            if is_zero(self.all_blended()[n - 1].compat.s_widen()) {
                prev
            } else {
                self.thinned_by(n - 1, prev, self.num_opp())
            }
        }
    }

    /// The mean compatibility of all opponents with each other.
    pub open spec fn mass_scale(&self) -> T {
        T::s_narrow(self.thinned(self.num_opp() as nat))
    }
}

/// The payoffs of all relations of the opponents after `rel`, added to `acc`.
pub open spec fn relations_all<T: Scalar>(
    st: &Stakes<T>,
    probs: Seq<Odds<T>>,
    weight: T,
    rel: Seq<u8>,
    acc: T,
) -> T
    decreases probs.len() - rel.len(),
{
    if rel.len() >= probs.len() {
        acc.s_plus(weight.s_times(st.net(rel)))
    } else {
        let p = probs[rel.len() as int];
        if st.opp_folded(rel.len() as int) {
            if is_zero(p.compat) {
                acc
            } else {
                relations_all(st, probs, weight.s_times(p.compat), rel.push(REL_FOLDED), acc)
            }
        } else {
            let won = if is_zero(p.win) {
                acc
            } else {
                relations_all(st, probs, weight.s_times(p.win), rel.push(REL_WIN), acc)
            };
            let tied = if is_zero(p.tie) {
                won
            } else {
                relations_all(st, probs, weight.s_times(p.tie), rel.push(REL_TIE), won)
            };
            if is_zero(p.lose) {
                tied
            } else {
                relations_all(st, probs, weight.s_times(p.lose), rel.push(REL_LOSE), tied)
            }
        }
    }
}

/// The state after the first `n` opponents, each taken on their own.
pub open spec fn independent_state<T: Scalar>(probs: Seq<Odds<T>>, n: nat) -> Seq<T>
    decreases n,
{
    if n == 0 {
        seq![T::s_zero(), T::s_one()]
    } else {
        let p = probs[n - 1];
        even_step(
            independent_state(probs, (n - 1) as nat),
            Step {
                compat: p.compat,
                lose: p.lose,
                tie: p.tie,
                win: p.win,
                lose_counts: true,
                tie_counts: true,
                win_counts: true,
            },
        )
    }
}

impl<T: Widen> Field<T> {
    /// The value of a showdown, every opponent taken on their own and the mass
    /// scaled back by their mean compatibility.
    pub open spec fn factored_value(&self, st: &Stakes<T>) -> T {
        let probs = self.all_blended();
        if st.is_even() {
            let state = independent_state(probs, probs.len());
            st.stake().s_times(
                even_leaf(
                    st.rivals(),
                    st.unit_rake(),
                    state,
                    T::s_zero(),
                    (state.len() - 1) as nat,
                ),
            ).s_times(self.mass_scale())
        } else {
            relations_all(st, probs, T::s_one(), Seq::empty(), T::s_zero()).s_times(
                self.mass_scale(),
            )
        }
    }
}

/// Computes [`Field::all_blended`].
fn blend_opponents<T: Widen>(reach: &[&[T]], tables: &BucketedRunoutTables<T>, bt: usize) -> (probs:
    Vec<Odds<T>>)
    requires
        tables.wf(),
        bt < tables.nb,
        reach_fits(reach@, tables.nb as int, reach@.len() as int),
    ensures
        probs@ == field_of(reach@, tables, bt as int).all_blended(),
{
    let ghost field = field_of(reach@, tables, bt as int);
    let nb: usize = tables.nb;
    let total: usize = tables.f_n.len();
    let mut probs: Vec<Odds<T>> = Vec::new();
    let mut oi: usize = 0;
    while oi < reach.len()
        invariant
            oi <= reach@.len(),
            nb == tables.nb,
            total == nb * nb,
            tables.wf(),
            bt < nb,
            reach_fits(reach@, nb as int, reach@.len() as int),
            field == field_of(reach@, tables, bt as int),
            probs@.len() == oi,
            forall|q: int| 0 <= q < oi ==> #[trigger] probs@[q] == field.blended(q, nb as nat),
        decreases reach@.len() - oi,
    {
        let row = reach[oi];
        assert(reach@[oi as int]@.len() == nb);
        let z = T::zero();
        let mut o = Odds { win: z, tie: z, lose: z, compat: z };
        let mut bo: usize = 0;
        while bo < nb
            invariant
                bo <= nb,
                oi < reach@.len(),
                nb == tables.nb,
                total == nb * nb,
                tables.wf(),
                bt < nb,
                field == field_of(reach@, tables, bt as int),
                row == reach@[oi as int],
                row@.len() == nb,
                o == field.blended(oi as int, bo as nat),
            decreases nb - bo,
        {
            let r = row[bo];
            assert(r == field.reach[oi as int][bo as int]);
            if !r.same(T::zero()) {
                proof {
                    lemma_at_bound(nb as int, nb as int, bt as int, bo as int);
                }
                let i: usize = bt * nb + bo;
                o = Odds {
                    win: o.win.plus(r.times(tables.f_w[i])),
                    tie: o.tie.plus(r.times(tables.f_t[i])),
                    lose: o.lose.plus(r.times(tables.f_l[i])),
                    compat: o.compat.plus(r.times(tables.f_n[i])),
                };
            }
            bo += 1;
        }
        probs.push(o);
        oi += 1;
    }
    assert(probs@ =~= field.all_blended());
    probs
}

/// Computes [`Field::free_reach`].
fn free_reach_of<T: Widen>(
    reach: &[&[T]],
    tables: &BucketedRunoutTables<T>,
    bt: usize,
    oi: usize,
    b: usize,
) -> (x: T::Wide)
    requires
        tables.wf(),
        bt < tables.nb,
        b < tables.nb,
        oi < reach@.len(),
        reach_fits(reach@, tables.nb as int, reach@.len() as int),
    ensures
        x == field_of(reach@, tables, bt as int).free_reach(oi as int, b as int),
{
    let ghost field = field_of(reach@, tables, bt as int);
    let nb: usize = tables.nb;
    let total: usize = tables.f_n.len();
    let row = reach[oi];
    assert(reach@[oi as int]@.len() == nb);
    assert(row@[b as int] == field.reach[oi as int][b as int]);
    proof {
        lemma_at_bound(nb as int, nb as int, bt as int, b as int);
    }
    row[b].widen().times(tables.f_n[bt * nb + b].widen())
}

/// Computes [`Field::pair_compat_mass`].
fn pair_mass_of<T: Widen>(
    reach: &[&[T]],
    tables: &BucketedRunoutTables<T>,
    bt: usize,
    i: usize,
    j: usize,
) -> (s: T::Wide)
    requires
        tables.wf(),
        bt < tables.nb,
        i < reach@.len(),
        j < reach@.len(),
        reach_fits(reach@, tables.nb as int, reach@.len() as int),
    ensures
        s == field_of(reach@, tables, bt as int).pair_compat_mass(
            i as int,
            j as int,
            tables.nb as nat,
        ),
{
    let ghost field = field_of(reach@, tables, bt as int);
    let nb: usize = tables.nb;
    let total: usize = tables.f_n.len();
    let mut s: T::Wide = T::Wide::zero();
    let mut bi: usize = 0;
    while bi < nb
        invariant
            bi <= nb,
            nb == tables.nb,
            total == nb * nb,
            tables.wf(),
            bt < nb,
            i < reach@.len(),
            j < reach@.len(),
            reach_fits(reach@, nb as int, reach@.len() as int),
            field == field_of(reach@, tables, bt as int),
            s == field.pair_compat_mass(i as int, j as int, bi as nat),
        decreases nb - bi,
    {
        let wi = free_reach_of(reach, tables, bt, i, bi);
        if !wi.same(T::Wide::zero()) {
            let ghost acc = s;
            let mut bj: usize = 0;
            while bj < nb
                invariant
                    bj <= nb,
                    bi < nb,
                    nb == tables.nb,
                    total == nb * nb,
                    tables.wf(),
                    bt < nb,
                    j < reach@.len(),
                    reach_fits(reach@, nb as int, reach@.len() as int),
                    field == field_of(reach@, tables, bt as int),
                    s == field.row_compat(wi, bi as int, j as int, acc, bj as nat),
                decreases nb - bj,
            {
                let wj = free_reach_of(reach, tables, bt, j, bj);
                if !wj.same(T::Wide::zero()) {
                    proof {
                        lemma_at_bound(nb as int, nb as int, bi as int, bj as int);
                    }
                    s = s.plus(wi.times(wj).times(tables.f_n[bi * nb + bj].widen()));
                }
                bj += 1;
            }
        }
        bi += 1;
    }
    s
}

/// Computes [`Field::mass_scale`].
fn scale_of<T: Widen>(
    reach: &[&[T]],
    tables: &BucketedRunoutTables<T>,
    bt: usize,
    probs: &Vec<Odds<T>>,
) -> (c: T)
    requires
        tables.wf(),
        bt < tables.nb,
        reach_fits(reach@, tables.nb as int, reach@.len() as int),
        probs@ == field_of(reach@, tables, bt as int).all_blended(),
    ensures
        c == field_of(reach@, tables, bt as int).mass_scale(),
{
    let ghost field = field_of(reach@, tables, bt as int);
    let n: usize = reach.len();
    let mut c: T::Wide = T::Wide::one();
    let mut i: usize = 0;
    while i < n
        invariant
            i <= n,
            n == reach@.len(),
            n == field.num_opp(),
            probs@.len() == n,
            tables.wf(),
            bt < tables.nb,
            reach_fits(reach@, tables.nb as int, reach@.len() as int),
            field == field_of(reach@, tables, bt as int),
            probs@ == field.all_blended(),
            c == field.thinned(i as nat),
        decreases n - i,
    {
        let ni = probs[i].compat.widen();
        if !ni.same(T::Wide::zero()) {
            let ghost start = c;
            let mut j: usize = i + 1;
            while j < n
                invariant
                    i < j <= n,
                    n == reach@.len(),
                    n == field.num_opp(),
                    probs@.len() == n,
                    tables.wf(),
                    bt < tables.nb,
                    reach_fits(reach@, tables.nb as int, reach@.len() as int),
                    field == field_of(reach@, tables, bt as int),
                    probs@ == field.all_blended(),
                    ni == probs@[i as int].compat.s_widen(),
                    c == field.thinned_by(i as int, start, j as int),
                decreases n - j,
            {
                let nj = probs[j].compat.widen();
                if !nj.same(T::Wide::zero()) {
                    let s = pair_mass_of(reach, tables, bt, i, j);
                    c = c.times(s.over(ni.times(nj)));
                }
                j += 1;
            }
        }
        i += 1;
    }
    T::narrow(c)
}

/// Goes through the relations of an uneven showdown, every opponent taken on their
/// own.
fn recurse_rel_scalars<T: Widen>(
    ctx: &Arm2Ctx<T>,
    probs: &Vec<Odds<T>>,
    weight: T,
    rel: &mut Vec<u8>,
    acc: T,
    Ghost(st): Ghost<&Stakes<T>>,
) -> (out: T)
    requires
        ctx.is_for(st),
        probs@.len() == st.num_opp(),
        old(rel)@.len() <= probs@.len(),
    ensures
        final(rel)@ == old(rel)@,
        out == relations_all(st, probs@, weight, old(rel)@, acc),
    decreases probs@.len() - old(rel)@.len(),
{
    let ghost start = rel@;
    let oi: usize = rel.len();
    if oi == probs.len() {
        return acc.plus(weight.times(ctx.net(rel, Ghost(st))));
    }
    assert(ctx.opp_folded@[oi as int] == st.opp_folded(oi as int));
    let p = probs[oi];
    let mut out: T = acc;
    if ctx.opp_folded[oi] {
        if !p.compat.same(T::zero()) {
            rel.push(REL_FOLDED);
            out = recurse_rel_scalars(ctx, probs, weight.times(p.compat), rel, out, Ghost(st));
            rel.pop();
            assert(rel@ =~= start);
        }
    } else {
        if !p.win.same(T::zero()) {
            rel.push(REL_WIN);
            out = recurse_rel_scalars(ctx, probs, weight.times(p.win), rel, out, Ghost(st));
            rel.pop();
            assert(rel@ =~= start);
        }
        if !p.tie.same(T::zero()) {
            rel.push(REL_TIE);
            out = recurse_rel_scalars(ctx, probs, weight.times(p.tie), rel, out, Ghost(st));
            rel.pop();
            assert(rel@ =~= start);
        }
        if !p.lose.same(T::zero()) {
            rel.push(REL_LOSE);
            out = recurse_rel_scalars(ctx, probs, weight.times(p.lose), rel, out, Ghost(st));
            rel.pop();
            assert(rel@ =~= start);
        }
    }
    out
}

/// Computes [`independent_state`] of all opponents.
fn state_of<T: Widen>(probs: &Vec<Odds<T>>) -> (state: Vec<T>)
    requires
        probs@.len() <= MAX_OPP,
    ensures
        state@ == independent_state(probs@, probs@.len()),
        state@.len() == probs@.len() + 2,
{
    let mut state: Vec<T> = Vec::new();
    state.push(T::zero());
    state.push(T::one());
    assert(state@ =~= seq![T::s_zero(), T::s_one()]);
    let mut oi: usize = 0;
    while oi < probs.len()
        invariant
            oi <= probs@.len(),
            probs@.len() <= MAX_OPP,
            state@ == independent_state(probs@, oi as nat),
            state@.len() == oi + 2,
        decreases probs@.len() - oi,
    {
        let p = probs[oi];
        let s = Step {
            compat: p.compat,
            lose: p.lose,
            tie: p.tie,
            win: p.win,
            lose_counts: true,
            tie_counts: true,
            win_counts: true,
        };
        state = next_state(&state, &s);
        oi += 1;
    }
    state
}

/// Showdown values of the traverser's buckets, every opponent taken on their own
/// and the mass scaled back by the opponents' mean compatibility.
pub fn bucketed_showdown_cfv_factored<T: Widen>(
    bucket_reach: &[&[T]],
    tables: &BucketedRunoutTables<T>,
    contributions: &[i32],
    fold_mask: u16,
    traverser: usize,
    num_players: u8,
    starting_pot: i32,
    rake_rate: T,
    rake_cap: T,
    flop_seen: bool,
) -> (cfv: Vec<T>)
    requires
        tables.wf(),
        4 <= num_players <= MAX_OPP + 1,
        contributions@.len() == num_players,
        traverser < num_players,
        reach_fits(bucket_reach@, tables.nb as int, num_players - 1),
    ensures
        cfv@.len() == tables.nb,
        forall|bt: int|
            0 <= bt < tables.nb ==> #[trigger] cfv@[bt] == field_of(
                bucket_reach@,
                tables,
                bt,
            ).factored_value(
                &stakes_of(
                    contributions@,
                    fold_mask,
                    traverser as int,
                    starting_pot,
                    rake_rate,
                    rake_cap,
                    flop_seen,
                ),
            ),
{
    let ghost st = stakes_of(
        contributions@,
        fold_mask,
        traverser as int,
        starting_pot,
        rake_rate,
        rake_cap,
        flop_seen,
    );
    let even = all_even(contributions, fold_mask);
    proof {
        lemma_even(contributions@, &st);
    }
    let (stake, unit) = even_terms(
        contributions,
        fold_mask,
        traverser,
        starting_pot,
        rake_rate,
        rake_cap,
        flop_seen,
    );
    let ctx = Arm2Ctx::new(
        contributions,
        fold_mask,
        traverser,
        starting_pot,
        rake_rate,
        rake_cap,
        flop_seen,
    );
    let k = T::of_usize(bucket_reach.len());
    let mut cfv: Vec<T> = Vec::new();
    let mut bt: usize = 0;
    while bt < tables.nb
        invariant
            bt <= tables.nb,
            tables.wf(),
            ctx.is_for(&st),
            st.wf(),
            even == st.is_even(),
            stake == st.stake(),
            unit == st.unit_rake(),
            k == st.rivals(),
            reach_fits(bucket_reach@, tables.nb as int, st.num_opp()),
            cfv@.len() == bt,
            forall|b: int|
                0 <= b < bt ==> #[trigger] cfv@[b] == field_of(
                    bucket_reach@,
                    tables,
                    b,
                ).factored_value(&st),
        decreases tables.nb - bt,
    {
        let probs = blend_opponents(bucket_reach, tables, bt);
        let scale = scale_of(bucket_reach, tables, bt, &probs);
        if even {
            let state = state_of(&probs);
            let sum = leaf_of(k, unit, &state, T::zero());
            cfv.push(stake.times(sum).times(scale));
        } else {
            let mut rel: Vec<u8> = Vec::new();
            assert(rel@ =~= Seq::empty());
            let sum = recurse_rel_scalars(
                &ctx,
                &probs,
                T::one(),
                &mut rel,
                T::zero(),
                Ghost(&st),
            );
            cfv.push(sum.times(scale));
        }
        bt += 1;
    }
    cfv
}

} // verus!
