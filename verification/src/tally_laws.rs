//! What is counted, and what is the largest.
use vstd::prelude::*;

use crate::bucketed_showdown::Field;
use crate::buckets::strength_by;
use crate::exact::{
    is_exact, lemma_nothing, lemma_orders, lemma_sum_zero, lemma_units, row_of, row_sums, sum2,
    Exact,
};
use crate::flop_start_game::FlopChanceTable;
use crate::flop_start_vector_cfr::longest_river;
use crate::layout::{at, count_upto};
use crate::postflop_oracle::{commit_upto, is_live, live_upto};
use crate::pseudo_harmonic::{pot_upto, PseudoHarmonicCrossTreeMap};
use crate::scalar::{sum_upto, Scalar, Widen};
use crate::tree::FlatTree;

verus! {

/// The most committed by a player who is still in: nobody committed more, and where it is
/// more than nothing somebody committed it.
pub proof fn law_the_commitment_is_the_largest(tree: &FlatTree, i: int, n: nat)
    ensures
        forall|p: int|
            0 <= p < n && is_live(tree, i, p) ==> #[trigger] tree.contribution(i, p) <= commit_upto(
                tree,
                i,
                n,
            ),
        commit_upto(tree, i, n) > 0 ==> exists|p: int|
            0 <= p < n && is_live(tree, i, p) && #[trigger] tree.contribution(i, p) == commit_upto(
                tree,
                i,
                n,
            ),
        commit_upto(tree, i, n) >= 0,
    decreases n,
{
    if n > 0 {
        let m = (n - 1) as nat;
        law_the_commitment_is_the_largest(tree, i, m);
        if commit_upto(tree, i, n) > 0 {
            if commit_upto(tree, i, n) == commit_upto(tree, i, m) {
                let p = choose|p: int|
                    0 <= p < m && is_live(tree, i, p) && #[trigger] tree.contribution(i, p)
                        == commit_upto(tree, i, m);
                assert(tree.contribution(i, p) == commit_upto(tree, i, n));
            } else {
                assert(tree.contribution(i, n - 1) == commit_upto(tree, i, n));
            }
        }
    }
}

/// The players still in are all counted, and no others.
pub proof fn law_live_players_are_counted(tree: &FlatTree, i: int, n: nat)
    ensures
        live_upto(tree, i, n) == count_upto(|p: int| is_live(tree, i, p), n),
    decreases n,
{
    if n > 0 {
        law_live_players_are_counted(tree, i, (n - 1) as nat);
    }
}

/// The pot follows each player's contribution: where two nodes differ in what player `p` put
/// in alone, their pots differ by as much. Where nobody put anything in, there is no pot.
pub proof fn law_the_pot_follows_each_player(tree: &FlatTree, i: int, j: int, p: int, n: nat)
    requires
        forall|q: int|
            0 <= q < n && q != p ==> #[trigger] tree.contribution(i, q) == tree.contribution(j, q),
    ensures
        pot_upto(tree, i, n) - pot_upto(tree, j, n) == if 0 <= p < n {
            tree.contribution(i, p) - tree.contribution(j, p)
        } else {
            0
        },
        (forall|q: int| 0 <= q < n ==> #[trigger] tree.contribution(i, q) == 0) ==> pot_upto(
            tree,
            i,
            n,
        ) == 0,
    decreases n,
{
    if n > 0 {
        law_the_pot_follows_each_player(tree, i, j, p, (n - 1) as nat);
        if n - 1 != p {
            assert(tree.contribution(i, n - 1) == tree.contribution(j, n - 1));
        }
    }
}

impl<T: Widen> FlopChanceTable<T> {
    /// The most river cards after any of the first `n` cards: no card has more, and where
    /// there are any some card has as many.
    pub proof fn law_most_rivers_is_the_most(&self, n: nat)
        ensures
            forall|c: int|
                0 <= c < n ==> (#[trigger] self.river_decks@[c])@.len() <= self.most_rivers(n),
            self.most_rivers(n) > 0 ==> exists|c: int|
                0 <= c < n && (#[trigger] self.river_decks@[c])@.len() == self.most_rivers(n),
        decreases n,
    {
        if n > 0 {
            let m = (n - 1) as nat;
            self.law_most_rivers_is_the_most(m);
            if self.most_rivers(n) == self.most_rivers(m) && self.most_rivers(m) > 0 {
                let c = choose|c: int|
                    0 <= c < m && (#[trigger] self.river_decks@[c])@.len() == self.most_rivers(m);
                assert(self.river_decks@[c]@.len() == self.most_rivers(n));
            } else {
                assert(self.river_decks@[n - 1]@.len() <= self.most_rivers(n));
            }
        }
    }
}

/// The longest river deck after the first `n` turn cards: none is longer, and where it is not
/// empty one is as long.
pub proof fn law_the_longest_river_is_the_longest<T: Widen>(table: &FlopChanceTable<T>, n: nat)
    ensures
        forall|k: int|
            0 <= k < n ==> table.river_decks@[#[trigger] table.remaining_deck@[k] as int]@.len()
                <= longest_river(table, n),
        longest_river(table, n) > 0 ==> exists|k: int|
            0 <= k < n && table.river_decks@[#[trigger] table.remaining_deck@[k] as int]@.len()
                == longest_river(table, n),
    decreases n,
{
    if n > 0 {
        let m = (n - 1) as nat;
        law_the_longest_river_is_the_longest(table, m);
        if longest_river(table, n) == longest_river(table, m) && longest_river(table, m) > 0 {
            let k = choose|k: int|
                0 <= k < m && table.river_decks@[#[trigger] table.remaining_deck@[k] as int]@.len()
                    == longest_river(table, m);
            assert(table.river_decks@[table.remaining_deck@[k] as int]@.len() == longest_river(
                table,
                n,
            ));
        } else {
            assert(table.river_decks@[table.remaining_deck@[n - 1] as int]@.len() <= longest_river(
                table,
                n,
            ));
        }
    }
}

impl<T: Widen> PseudoHarmonicCrossTreeMap<T> {
    /// The most stand-ins of any of the first `n` nodes: no node has more, and where there
    /// are any some node has as many; all nodes together have no fewer.
    pub proof fn law_most_entries_is_the_most(&self, n: nat)
        ensures
            forall|x: int|
                0 <= x < n ==> (#[trigger] self.rich_to_lean_nodes@[x])@.len() <= self.most_entries(
                    n,
                ),
            self.most_entries(n) > 0 ==> exists|x: int|
                0 <= x < n && (#[trigger] self.rich_to_lean_nodes@[x])@.len() == self.most_entries(
                    n,
                ),
            self.most_entries(n) <= self.entries_upto(n) <= n * self.most_entries(n),
        decreases n,
    {
        if n > 0 {
            let m = (n - 1) as nat;
            self.law_most_entries_is_the_most(m);
            let (a, b) = (self.most_entries(m), self.most_entries(n));
            assert(m * a <= m * b) by (nonlinear_arith)
                requires
                    a <= b,
            ;
            assert(n * b == m * b + b) by (nonlinear_arith)
                requires
                    n == m + 1,
            ;
            if b == a && a > 0 {
                let x = choose|x: int|
                    0 <= x < m && (#[trigger] self.rich_to_lean_nodes@[x])@.len() == a;
                assert(self.rich_to_lean_nodes@[x]@.len() == b);
            } else {
                assert(self.rich_to_lean_nodes@[n - 1]@.len() <= b);
            }
        }
    }
}

/// A hand has the strength that stands where it is listed; one that is not listed is under
/// all that are.
pub proof fn law_a_listed_hand_has_its_strength(
    strength: Seq<u16>,
    index: Seq<u16>,
    h: int,
    k: int,
    n: nat,
)
    requires
        0 <= k < n <= index.len(),
        index[k] == h,
        forall|j: int| 0 <= j < n && j != k ==> #[trigger] index[j] != h,
    ensures
        strength_by(strength, index, h, n) == strength[k],
        forall|g: int|
            (forall|j: int| 0 <= j < n ==> #[trigger] index[j] != g) ==> #[trigger] strength_by(
                strength,
                index,
                g,
                n,
            ) < strength[k],
    decreases n,
{
    lemma_strength(strength, index, h, k, n);
    assert forall|g: int|
        (forall|j: int| 0 <= j < n ==> #[trigger] index[j] != g) implies #[trigger] strength_by(
        strength,
        index,
        g,
        n,
    ) < strength[k] by {
        lemma_unlisted(strength, index, g, n);
    }
}

proof fn lemma_strength(strength: Seq<u16>, index: Seq<u16>, h: int, k: int, n: nat)
    requires
        0 <= k < n,
        index[k] == h,
        forall|j: int| 0 <= j < n && j != k ==> #[trigger] index[j] != h,
    ensures
        strength_by(strength, index, h, n) == strength[k],
    decreases n,
{
    if n - 1 != k {
        assert(index[n - 1] != h);
        lemma_strength(strength, index, h, k, (n - 1) as nat);
    }
}

proof fn lemma_unlisted(strength: Seq<u16>, index: Seq<u16>, g: int, n: nat)
    requires
        forall|j: int| 0 <= j < n ==> #[trigger] index[j] != g,
    ensures
        strength_by(strength, index, g, n) == i32::MIN,
    decreases n,
{
    if n > 0 {
        assert(index[n - 1] != g);
        lemma_unlisted(strength, index, g, (n - 1) as nat);
    }
}

impl<T: Widen> Field<T> {
    /// What buckets `a` of opponent `i` and `b` of opponent `j` have together.
    pub open spec fn compatible_pair(&self, i: int, j: int) -> spec_fn(int, int) -> T::Wide {
        |a: int, b: int|
            self.free_reach(i, a) * self.free_reach(j, b) * self.compat[at(
                self.nb,
                a,
                b,
            )].s_widen()
    }

    proof fn lemma_row_compat(&self, i: int, a: int, j: int, acc: T::Wide, n: nat)
        requires
            is_exact::<T::Wide>(),
        ensures
            self.row_compat(self.free_reach(i, a), a, j, acc, n) == acc + sum_upto(
                row_of(self.compatible_pair(i, j), a),
                n,
            ),
        decreases n,
    {
        let f = row_of(self.compatible_pair(i, j), a);
        lemma_units(acc);
        if n > 0 {
            let m = (n - 1) as nat;
            self.lemma_row_compat(i, a, j, acc, m);
            let wj = self.free_reach(j, n - 1);
            lemma_nothing(wj);
            lemma_orders(acc, sum_upto(f, m), f(n - 1));
            lemma_units(self.free_reach(i, a));
            lemma_units(self.compat[at(self.nb, a, n - 1)].s_widen());
            lemma_units(acc + sum_upto(f, m));
        }
    }

    proof fn lemma_pair_compat(&self, i: int, j: int, n: nat)
        requires
            is_exact::<T::Wide>(),
        ensures
            self.pair_compat_mass(i, j, n) == sum2(
                self.compatible_pair(i, j),
                n,
                self.nb as nat,
            ),
        decreases n,
    {
        let m = self.nb as nat;
        let rows = row_sums(self.compatible_pair(i, j), m);
        if n > 0 {
            let k = (n - 1) as nat;
            self.lemma_pair_compat(i, j, k);
            let wi = self.free_reach(i, n - 1);
            lemma_nothing(wi);
            let prev = self.pair_compat_mass(i, j, k);
            self.lemma_row_compat(i, n - 1, j, prev, m);
            let f = row_of(self.compatible_pair(i, j), n - 1);
            lemma_units(prev);
            if wi == T::Wide::s_zero() {
                assert forall|b: int| 0 <= b < m implies #[trigger] f(b) == T::Wide::s_zero() by {
                    lemma_units(self.free_reach(j, b));
                    lemma_units(self.compat[at(self.nb, n - 1, b)].s_widen());
                }
                lemma_sum_zero(f, m);
            }
        }
    }

    /// The compatible mass of two opponents is what every two of their buckets have
    /// together, by how compatible the buckets are.
    pub proof fn law_every_two_buckets_count(&self, i: int, j: int)
        requires
            is_exact::<T::Wide>(),
        ensures
            self.pair_compat_mass(i, j, self.nb as nat) == sum2(
                self.compatible_pair(i, j),
                self.nb as nat,
                self.nb as nat,
            ),
    {
        self.lemma_pair_compat(i, j, self.nb as nat);
    }
}

} // verus!
