//! The classes of hands that play alike before the flop: pairs, suited and offsuit
//! hands, by their ranks.
use vstd::prelude::*;

use crate::card::{lemma_pair_bound, lemma_pair_order, pair_number, Card, NUM_POSSIBLE_HANDS};
use crate::deck::{hand_of, high_card, is_pair, lemma_cards, lemma_has_cards, low_card};
use crate::layout::count_upto;

verus! {

pub const NUM_PREFLOP_CLASSES: usize = 169;

/// A class, as a place in a square of ranks: pairs on the diagonal, suited hands under
/// it, offsuit hands over it.
#[derive(Clone, Copy, Debug, PartialEq, Eq, Structural)]
pub struct PreflopClass {
    index: u8,
}

/// The class of the hand of two cards.
pub open spec fn class_index(a: int, b: int) -> int {
    let (ra, rb) = (a / 4, b / 4);
    let (hi, lo) = if ra < rb {
        (rb, ra)
    } else {
        (ra, rb)
    };
    if a % 4 == b % 4 {
        hi * 13 + lo
    } else {
        lo * 13 + hi
    }
}

impl PreflopClass {
    pub closed spec fn number(&self) -> int {
        self.index as int
    }

    pub fn from_combo(a: Card, b: Card) -> (class: PreflopClass)
        requires
            a < 52,
            b < 52,
        ensures
            class.number() == class_index(a as int, b as int),
            0 <= class.number() < NUM_PREFLOP_CLASSES,
    {
        let ra: u8 = a / 4;
        let rb: u8 = b / 4;
        let hi: u8 = if ra < rb {
            rb
        } else {
            ra
        };
        let lo: u8 = if ra < rb {
            ra
        } else {
            rb
        };
        PreflopClass {
            index: if a % 4 == b % 4 {
                hi * 13 + lo
            } else {
                lo * 13 + hi
            },
        }
    }

    pub fn index(&self) -> (i: usize)
        ensures
            i == self.number(),
    {
        self.index as usize
    }
}

/// The class of hand `i`.
pub open spec fn class_of(i: int) -> int {
    class_index(low_card(i), high_card(i))
}

/// Tells the hands of a class.
pub open spec fn in_class(cls: int) -> spec_fn(int) -> bool {
    |i: int| class_of(i) == cls
}

/// Number of hands of a class.
pub open spec fn class_size(cls: int) -> int {
    count_upto(in_class(cls), NUM_POSSIBLE_HANDS as nat) as int
}

/// The hands of a class among the first `n`, in order.
pub open spec fn listed(cls: int, n: nat) -> Seq<int>
    decreases n,
{
    if n == 0 {
        Seq::empty()
    } else if class_of(n - 1) == cls {
        listed(cls, (n - 1) as nat).push(n - 1)
    } else {
        listed(cls, (n - 1) as nat)
    }
}

/// The hands of a class, in order, as pairs of cards.
pub fn class_combos(cls: usize) -> (out: Vec<[u8; 2]>)
    ensures
        out@.len() == listed(cls as int, NUM_POSSIBLE_HANDS as nat).len(),
        forall|k: int|
            0 <= k < out@.len() ==> {
                let i = listed(cls as int, NUM_POSSIBLE_HANDS as nat)[k];
                &&& (#[trigger] out@[k])[0] == low_card(i)
                &&& out@[k][1] == high_card(i)
                &&& out@[k][0] < out@[k][1] < 52
            },
{
    let mut out: Vec<[u8; 2]> = Vec::new();
    let mut i: usize = 0;
    while i < NUM_POSSIBLE_HANDS
        invariant
            i <= NUM_POSSIBLE_HANDS,
            out@.len() == listed(cls as int, i as nat).len(),
            forall|k: int|
                0 <= k < out@.len() ==> {
                    let j = listed(cls as int, i as nat)[k];
                    &&& (#[trigger] out@[k])[0] == low_card(j)
                    &&& out@[k][1] == high_card(j)
                    &&& out@[k][0] < out@[k][1] < 52
                },
        decreases NUM_POSSIBLE_HANDS - i,
    {
        let (a, b) = hand_of(i);
        if PreflopClass::from_combo(a, b).index() == cls {
            out.push([a, b]);
        }
        i += 1;
        assert((i - 1) as nat == i - 1);
    }
    out
}

/// As many hands are listed as there are.
pub proof fn lemma_listed_len(cls: int, n: nat)
    ensures
        listed(cls, n).len() == count_upto(in_class(cls), n),
    decreases n,
{
    if n > 0 {
        lemma_listed_len(cls, (n - 1) as nat);
    }
}

/// What is listed: the hands of the class, each once, in order.
proof fn lemma_listed(cls: int, n: nat)
    ensures
        forall|k: int|
            0 <= k < listed(cls, n).len() ==> 0 <= #[trigger] listed(cls, n)[k] < n && class_of(
                listed(cls, n)[k],
            ) == cls,
        forall|k: int, l: int|
            0 <= k < l < listed(cls, n).len() ==> #[trigger] listed(cls, n)[k] < #[trigger] listed(
                cls,
                n,
            )[l],
        forall|i: int| 0 <= i < n && class_of(i) == cls ==> #[trigger] listed(cls, n).contains(i),
    decreases n,
{
    if n > 0 {
        let prev = listed(cls, (n - 1) as nat);
        let now = listed(cls, n);
        lemma_listed(cls, (n - 1) as nat);
        assert forall|i: int| 0 <= i < n && class_of(i) == cls implies #[trigger] now.contains(
            i,
        ) by {
            if i == n - 1 {
                assert(now[now.len() - 1] == i);
            } else {
                assert(prev.contains(i));
                let k = choose|k: int| 0 <= k < prev.len() && prev[k] == i;
                assert(now[k] == i);
            }
        }
    }
}

/// Two increasing lists of the same numbers are of the same length.
proof fn lemma_same_list(a: Seq<int>, b: Seq<int>)
    requires
        forall|k: int, l: int| 0 <= k < l < a.len() ==> #[trigger] a[k] < #[trigger] a[l],
        forall|k: int, l: int| 0 <= k < l < b.len() ==> #[trigger] b[k] < #[trigger] b[l],
        forall|k: int| 0 <= k < a.len() ==> b.contains(#[trigger] a[k]),
        forall|k: int| 0 <= k < b.len() ==> a.contains(#[trigger] b[k]),
    ensures
        a.len() == b.len(),
    decreases a.len(),
{
    if a.len() == 0 {
        if b.len() > 0 {
            assert(a.contains(b[0]));
        }
    } else {
        assert(b.contains(a[0]));
        let n = a.len() - 1;
        let m = b.len() - 1;
        assert(a.last() == b.last()) by {
            assert(b.contains(a[n]));
            let k = choose|k: int| 0 <= k < b.len() && b[k] == a[n];
            assert(a.contains(b[m]));
            let l = choose|l: int| 0 <= l < a.len() && a[l] == b[m];
            if k < m {
                assert(b[k] < b[m]);
                if l < n {
                    assert(a[l] < a[n]);
                }
            }
        }
        let a2 = a.drop_last();
        let b2 = b.drop_last();
        assert forall|k: int| 0 <= k < a2.len() implies b2.contains(#[trigger] a2[k]) by {
            assert(b.contains(a[k]));
            let j = choose|j: int| 0 <= j < b.len() && b[j] == a[k];
            assert(a[k] < a[n]);
            assert(j != m);
            assert(b2[j] == a2[k]);
        }
        assert forall|k: int| 0 <= k < b2.len() implies a2.contains(#[trigger] b2[k]) by {
            assert(a.contains(b[k]));
            let j = choose|j: int| 0 <= j < a.len() && a[j] == b[k];
            assert(b[k] < b[m]);
            assert(j != n);
            assert(a2[j] == b2[k]);
        }
        lemma_same_list(a2, b2);
    }
}

/// The numbers of the hands of two ranks `lo <= hi` and two suits each, for the given
/// suits of the lower and the higher card.
spec fn hand_at(lo: int, hi: int, s: int, t: int) -> int {
    pair_number(4 * lo + s, 4 * hi + t)
}

proof fn lemma_hand_at(lo: int, hi: int, s: int, t: int)
    requires
        0 <= lo <= hi < 13,
        0 <= s < 4,
        0 <= t < 4,
        lo < hi || s < t,
    ensures
        0 <= hand_at(lo, hi, s, t) < NUM_POSSIBLE_HANDS,
        low_card(hand_at(lo, hi, s, t)) == 4 * lo + s,
        high_card(hand_at(lo, hi, s, t)) == 4 * hi + t,
        class_of(hand_at(lo, hi, s, t)) == if s == t {
            hi * 13 + lo
        } else {
            lo * 13 + hi
        },
{
    let a = 4 * lo + s;
    let b = 4 * hi + t;
    let i = hand_at(lo, hi, s, t);
    assert(is_pair(i, a, b));
    lemma_cards(i, a, b);
    lemma_pair_bound(a, b);
    assert(a / 4 == lo && b / 4 == hi && a % 4 == s && b % 4 == t);
}

/// A hand of a class is one of those that its ranks and suits give.
#[verifier::spinoff_prover]
#[verifier::rlimit(60)]
proof fn lemma_class_parts(i: int, lo: int, hi: int, suited: bool)
    requires
        0 <= i < NUM_POSSIBLE_HANDS,
        0 <= lo <= hi < 13,
        suited ==> lo < hi,
        class_of(i) == if suited {
            hi * 13 + lo
        } else {
            lo * 13 + hi
        },
    ensures
        low_card(i) / 4 == lo,
        high_card(i) / 4 == hi,
        suited == (low_card(i) % 4 == high_card(i) % 4),
        i == hand_at(lo, hi, low_card(i) % 4, high_card(i) % 4),
{
    lemma_has_cards(i);
    let (a, b) = (low_card(i), high_card(i));
    let (ra, rb) = (a / 4, b / 4);
    assert(ra <= rb);
    if ra == rb {
        assert(a % 4 != b % 4);
        assert(class_of(i) == ra * 13 + rb);
    }
}

/// Pairs come in six hands, suited hands in four, offsuit hands in twelve.
pub proof fn law_class_sizes(lo: int, hi: int)
    requires
        0 <= lo <= hi < 13,
    ensures
        lo == hi ==> class_size(lo * 13 + hi) == 6,
        lo < hi ==> class_size(hi * 13 + lo) == 4,
        lo < hi ==> class_size(lo * 13 + hi) == 12,
{
    if lo == hi {
        lemma_pair_size(lo);
    } else {
        lemma_suited_size(lo, hi);
        lemma_offsuit_size(lo, hi);
    }
}

proof fn lemma_pair_size(r: int)
    requires
        0 <= r < 13,
    ensures
        class_size(r * 13 + r) == 6,
{
    let cls = r * 13 + r;
    let n = NUM_POSSIBLE_HANDS as nat;
    lemma_listed(cls, n);
    lemma_listed_len(cls, n);
    let want = seq![
        hand_at(r, r, 0, 1),
        hand_at(r, r, 0, 2),
        hand_at(r, r, 0, 3),
        hand_at(r, r, 1, 2),
        hand_at(r, r, 1, 3),
        hand_at(r, r, 2, 3),
    ];
    lemma_hand_at(r, r, 0, 1);
    lemma_hand_at(r, r, 0, 2);
    lemma_hand_at(r, r, 0, 3);
    lemma_hand_at(r, r, 1, 2);
    lemma_hand_at(r, r, 1, 3);
    lemma_hand_at(r, r, 2, 3);
    lemma_rises(r, r, 0, 1, 0, 2);
    lemma_rises(r, r, 0, 2, 0, 3);
    lemma_rises(r, r, 0, 3, 1, 2);
    lemma_rises(r, r, 1, 2, 1, 3);
    lemma_rises(r, r, 1, 3, 2, 3);
    let have = listed(cls, n);
    assert forall|k: int| 0 <= k < have.len() implies want.contains(#[trigger] have[k]) by {
        let i = have[k];
        lemma_class_parts(i, r, r, false);
        let (s, t) = (low_card(i) % 4, high_card(i) % 4);
        lemma_has_cards(i);
        assert(s < t);
        if s == 0 {
            assert(want[t - 1] == i);
        } else if s == 1 {
            assert(want[t + 1] == i);
        } else {
            assert(want[5] == i);
        }
    }
    lemma_same_list(have, want);
}

proof fn lemma_suited_size(lo: int, hi: int)
    requires
        0 <= lo < hi < 13,
    ensures
        class_size(hi * 13 + lo) == 4,
{
    let cls = hi * 13 + lo;
    let n = NUM_POSSIBLE_HANDS as nat;
    lemma_listed(cls, n);
    lemma_listed_len(cls, n);
    let want = seq![
        hand_at(lo, hi, 0, 0),
        hand_at(lo, hi, 1, 1),
        hand_at(lo, hi, 2, 2),
        hand_at(lo, hi, 3, 3),
    ];
    lemma_hand_at(lo, hi, 0, 0);
    lemma_hand_at(lo, hi, 1, 1);
    lemma_hand_at(lo, hi, 2, 2);
    lemma_hand_at(lo, hi, 3, 3);
    lemma_rises(lo, hi, 0, 0, 1, 1);
    lemma_rises(lo, hi, 1, 1, 2, 2);
    lemma_rises(lo, hi, 2, 2, 3, 3);
    let have = listed(cls, n);
    assert forall|k: int| 0 <= k < have.len() implies want.contains(#[trigger] have[k]) by {
        let i = have[k];
        lemma_class_parts(i, lo, hi, true);
        let s = low_card(i) % 4;
        assert(want[s] == i);
    }
    lemma_same_list(have, want);
}

proof fn lemma_offsuit_size(lo: int, hi: int)
    requires
        0 <= lo < hi < 13,
    ensures
        class_size(lo * 13 + hi) == 12,
{
    let cls = lo * 13 + hi;
    let n = NUM_POSSIBLE_HANDS as nat;
    lemma_listed(cls, n);
    lemma_listed_len(cls, n);
    let want = seq![
        hand_at(lo, hi, 0, 1),
        hand_at(lo, hi, 0, 2),
        hand_at(lo, hi, 0, 3),
        hand_at(lo, hi, 1, 0),
        hand_at(lo, hi, 1, 2),
        hand_at(lo, hi, 1, 3),
        hand_at(lo, hi, 2, 0),
        hand_at(lo, hi, 2, 1),
        hand_at(lo, hi, 2, 3),
        hand_at(lo, hi, 3, 0),
        hand_at(lo, hi, 3, 1),
        hand_at(lo, hi, 3, 2),
    ];
    lemma_hand_at(lo, hi, 0, 1);
    lemma_hand_at(lo, hi, 0, 2);
    lemma_hand_at(lo, hi, 0, 3);
    lemma_hand_at(lo, hi, 1, 0);
    lemma_hand_at(lo, hi, 1, 2);
    lemma_hand_at(lo, hi, 1, 3);
    lemma_hand_at(lo, hi, 2, 0);
    lemma_hand_at(lo, hi, 2, 1);
    lemma_hand_at(lo, hi, 2, 3);
    lemma_hand_at(lo, hi, 3, 0);
    lemma_hand_at(lo, hi, 3, 1);
    lemma_hand_at(lo, hi, 3, 2);
    lemma_rises(lo, hi, 0, 1, 0, 2);
    lemma_rises(lo, hi, 0, 2, 0, 3);
    lemma_rises(lo, hi, 0, 3, 1, 0);
    lemma_rises(lo, hi, 1, 0, 1, 2);
    lemma_rises(lo, hi, 1, 2, 1, 3);
    lemma_rises(lo, hi, 1, 3, 2, 0);
    lemma_rises(lo, hi, 2, 0, 2, 1);
    lemma_rises(lo, hi, 2, 1, 2, 3);
    lemma_rises(lo, hi, 2, 3, 3, 0);
    lemma_rises(lo, hi, 3, 0, 3, 1);
    lemma_rises(lo, hi, 3, 1, 3, 2);
    let have = listed(cls, n);
    assert forall|k: int| 0 <= k < have.len() implies want.contains(#[trigger] have[k]) by {
        let i = have[k];
        lemma_class_parts(i, lo, hi, false);
        let (s, t) = (low_card(i) % 4, high_card(i) % 4);
        let place = 3 * s + if t < s {
            t
        } else {
            t - 1
        };
        assert(want[place] == i);
    }
    lemma_same_list(have, want);
}

/// Hands are numbered by their lower card, then by their higher one.
proof fn lemma_rises(lo: int, hi: int, s: int, t: int, s2: int, t2: int)
    requires
        0 <= lo <= hi < 13,
        0 <= s < 4,
        0 <= t < 4,
        0 <= s2 < 4,
        0 <= t2 < 4,
        lo < hi || (s < t && s2 < t2),
        s < s2 || (s == s2 && t < t2),
    ensures
        hand_at(lo, hi, s, t) < hand_at(lo, hi, s2, t2),
{
    lemma_pair_order(4 * lo + s, 4 * hi + t, 4 * lo + s2, 4 * hi + t2);
}

} // verus!
