//! Search of a decision before the flop between two players, all-in included.
use vstd::prelude::*;

use crate::best_response::plain_share;
use crate::game::GameSpec;
use crate::layout::{at, flat, lemma_at_bound, row_copy};
use crate::mccfr::{lemma_rooms_rise, rooms_upto, CpuMccfr};
use crate::mccfr_run::{are_iterations, is_iteration};
use crate::mccfr_steps::row_sum;
use crate::mccfr_walk::{branch_count, branch_edge, can_take, deals_fit, same_hands};
use crate::postflop_oracle::is_live;
use crate::preflop_allin_equity::{class_combo_counts, ones};
use crate::preflop_class::{class_size, NUM_PREFLOP_CLASSES};
use crate::scalar::{sum_upto, Scalar, Widen};
use crate::terminal::{views, Rake};
use crate::tree::{BOARD_PREFLOP, FlatTree, UNUSED};

verus! {

/// What entering the flop is worth where each player has put in `commit` and the pot is
/// `pot`: a table of classes by opposing classes, net of what was put in.
pub struct SeamValue<T> {
    pub commit: i32,
    pub pot: i32,
    pub values: Vec<T>,
}

/// The game of two players before the flop, on classes of hands. Folds win or lose the
/// chips put in; what goes on is worth its continuation where there is one, and is
/// played out all-in otherwise.
pub struct PreflopJamGame<'a, T> {
    /// Reach of both players, by combinations of cards.
    pub reach: Vec<Vec<T>>,
    /// All-in equity of each class against each.
    pub equity: &'a Vec<T>,
    /// Share of the combinations of a class that each class leaves possible.
    pub blocking: &'a Vec<T>,
    pub cont: Option<&'a Vec<SeamValue<T>>>,
    /// Chips of a full stack; no one is all-in where it is not over zero.
    pub stack: i32,
    pub rake_rate: T,
    pub rake_cap: T,
}

/// Entry of class `h` against class `oc`.
pub open spec fn versus<T>(table: Seq<T>, h: int, oc: int) -> T {
    table[at(NUM_PREFLOP_CLASSES as int, h, oc)]
}

/// Weight of the opponent's class `oc` beside class `h`.
pub open spec fn beside<T: Scalar>(opp: Seq<T>, blocking: Seq<T>, h: int) -> spec_fn(int) -> T {
    |oc: int| opp[oc].s_times(versus(blocking, h, oc))
}

/// The opponent's weight beside class `h`, times a value per class; classes without
/// weight are left out.
pub open spec fn worth_upto<T: Scalar>(
    weight: spec_fn(int) -> T,
    value: spec_fn(int) -> T,
    n: nat,
) -> T
    decreases n,
{
    if n == 0 {
        T::s_zero()
    } else {
        let prev = worth_upto(weight, value, (n - 1) as nat);
        if weight(n - 1).s_same(T::s_zero()) {
            prev
        } else {
            prev.s_plus(weight(n - 1).s_times(value(n - 1)))
        }
    }
}

/// Chips in the pot at a node.
pub open spec fn chips_at(tree: &FlatTree, i: int) -> int {
    tree.starting_pot + tree.contribution(i, 0) + tree.contribution(i, 1)
}

/// What a player has put in at a node, half of the dead chips included.
pub open spec fn invested<T: Scalar>(tree: &FlatTree, i: int, t: int) -> T {
    T::s_of(tree.starting_pot as int).s_over(T::s_of(2)).s_plus(
        T::s_of(tree.contribution(i, t)),
    )
}

/// The smaller contribution at a node.
pub open spec fn matched_chips(tree: &FlatTree, i: int) -> int {
    if tree.contribution(i, 0) <= tree.contribution(i, 1) {
        tree.contribution(i, 0)
    } else {
        tree.contribution(i, 1)
    }
}

/// Continuation `k` is the first for this commitment and pot.
pub open spec fn is_first_value<T>(list: Seq<SeamValue<T>>, commit: int, pot: int, k: int) -> bool {
    &&& 0 <= k < list.len()
    &&& list[k].commit == commit && list[k].pot == pot
    &&& forall|l: int|
        0 <= l < k ==> (#[trigger] list[l]).commit != commit || list[l].pot != pot
}

impl<'a, T: Scalar> PreflopJamGame<'a, T> {
    /// The tables cover all classes.
    pub open spec fn wf(&self) -> bool {
        let n = NUM_PREFLOP_CLASSES * NUM_PREFLOP_CLASSES;
        &&& self.reach@.len() == 2
        &&& self.reach@[0]@.len() == NUM_PREFLOP_CLASSES
        &&& self.reach@[1]@.len() == NUM_PREFLOP_CLASSES
        &&& self.equity@.len() == n
        &&& self.blocking@.len() == n
        &&& self.cont matches Some(list) ==> forall|k: int|
            0 <= k < list@.len() ==> (#[trigger] list@[k]).values@.len() == n
    }

    /// Both players are all-in at a node.
    pub open spec fn is_all_in(&self, tree: &FlatTree, i: int) -> bool {
        self.stack > 0 && matched_chips(tree, i) >= self.stack
    }

    /// There is a continuation for a node.
    pub open spec fn has_cont(&self, tree: &FlatTree, i: int) -> bool {
        &&& !self.is_all_in(tree, i)
        &&& self.cont matches Some(list) && exists|k: int|
            is_first_value(list@, matched_chips(tree, i), chips_at(tree, i), k)
    }

    /// Its values.
    pub open spec fn cont_values(&self, tree: &FlatTree, i: int) -> Seq<T> {
        let list = self.cont->Some_0@;
        let k = choose|k: int|
            is_first_value(list, matched_chips(tree, i), chips_at(tree, i), k);
        list[k].values@
    }

    /// The pot at a node after the rake.
    pub open spec fn raked(&self, tree: &FlatTree, i: int) -> T {
        let pot = T::s_of(chips_at(tree, i));
        let rake = self.rake_rate.s_times(pot);
        pot.s_minus(
            if self.rake_cap.s_below(rake) {
                self.rake_cap
            } else {
                rake
            },
        )
    }

    /// The traverser's value of class `h` at a leaf.
    pub open spec fn leaf(&self, t: int, tree: &FlatTree, i: int, opp: Seq<T>, h: int) -> T {
        let weight = beside(opp, self.blocking@, h);
        let n = NUM_PREFLOP_CLASSES as nat;
        let put_in = invested::<T>(tree, i, t);
        if !is_live(tree, i, 1 - t) {
            T::s_of(chips_at(tree, i)).s_minus(put_in).s_times(sum_upto(weight, n))
        } else if !is_live(tree, i, t) {
            T::s_zero().s_minus(put_in).s_times(sum_upto(weight, n))
        } else if self.has_cont(tree, i) {
            worth_upto(weight, |oc: int| versus(self.cont_values(tree, i), h, oc), n)
        } else {
            worth_upto(
                weight,
                |oc: int|
                    versus(self.equity@, h, oc).s_times(self.raked(tree, i)).s_minus(put_in),
                n,
            )
        }
    }

    /// The traverser's values at a leaf.
    pub open spec fn leaf_values(&self, t: int, tree: &FlatTree, i: int, opp: Seq<T>) -> Seq<T> {
        Seq::new(NUM_PREFLOP_CLASSES as nat, |h: int| self.leaf(t, tree, i, opp, h))
    }
}

/// The opponent's whole weight beside a class.
fn mass_beside<T: Scalar>(opp: &Vec<T>, blocking: &Vec<T>, h: usize) -> (x: T)
    requires
        opp@.len() == NUM_PREFLOP_CLASSES,
        blocking@.len() == NUM_PREFLOP_CLASSES * NUM_PREFLOP_CLASSES,
        h < NUM_PREFLOP_CLASSES,
    ensures
        x == sum_upto(beside(opp@, blocking@, h as int), NUM_PREFLOP_CLASSES as nat),
{
    let n: usize = NUM_PREFLOP_CLASSES;
    let mut acc: T = T::zero();
    let mut oc: usize = 0;
    while oc < n
        invariant
            oc <= n,
            n == NUM_PREFLOP_CLASSES,
            opp@.len() == n,
            blocking@.len() == NUM_PREFLOP_CLASSES * NUM_PREFLOP_CLASSES,
            h < n,
            acc == sum_upto(beside(opp@, blocking@, h as int), oc as nat),
        decreases n - oc,
    {
        proof {
            lemma_at_bound(n as int, n as int, h as int, oc as int);
        }
        acc = acc.plus(opp[oc].times(blocking[h * n + oc]));
        oc += 1;
        assert((oc - 1) as nat == oc - 1);
    }
    acc
}

/// Values of a class from a table: row `h`, each entry times `scale` less `off`, or as it
/// stands.
pub open spec fn entry_value<T: Scalar>(
    table: Seq<T>,
    h: int,
    terms: Option<(T, T)>,
) -> spec_fn(int) -> T {
    |oc: int|
        match terms {
            Some((scale, off)) => versus(table, h, oc).s_times(scale).s_minus(off),
            None => versus(table, h, oc),
        }
}

/// The opponent's weight beside a class, times a value per class.
fn worth_beside<T: Scalar>(
    opp: &Vec<T>,
    blocking: &Vec<T>,
    table: &Vec<T>,
    terms: Option<(T, T)>,
    h: usize,
) -> (x: T)
    requires
        opp@.len() == NUM_PREFLOP_CLASSES,
        blocking@.len() == NUM_PREFLOP_CLASSES * NUM_PREFLOP_CLASSES,
        table@.len() == NUM_PREFLOP_CLASSES * NUM_PREFLOP_CLASSES,
        h < NUM_PREFLOP_CLASSES,
    ensures
        x == worth_upto(
            beside(opp@, blocking@, h as int),
            entry_value(table@, h as int, terms),
            NUM_PREFLOP_CLASSES as nat,
        ),
{
    let n: usize = NUM_PREFLOP_CLASSES;
    let ghost weight = beside(opp@, blocking@, h as int);
    let ghost value = entry_value(table@, h as int, terms);
    let mut acc: T = T::zero();
    let mut oc: usize = 0;
    while oc < n
        invariant
            oc <= n,
            n == NUM_PREFLOP_CLASSES,
            opp@.len() == n,
            blocking@.len() == NUM_PREFLOP_CLASSES * NUM_PREFLOP_CLASSES,
            table@.len() == NUM_PREFLOP_CLASSES * NUM_PREFLOP_CLASSES,
            h < n,
            weight == beside(opp@, blocking@, h as int),
            value == entry_value(table@, h as int, terms),
            acc == worth_upto(weight, value, oc as nat),
        decreases n - oc,
    {
        proof {
            lemma_at_bound(n as int, n as int, h as int, oc as int);
        }
        let w = opp[oc].times(blocking[h * n + oc]);
        assert(w == weight(oc as int));
        if !w.same(T::zero()) {
            let e = table[h * n + oc];
            let v = match terms {
                Some((scale, off)) => e.times(scale).minus(off),
                None => e,
            };
            assert(v == value(oc as int));
            acc = acc.plus(w.times(v));
        }
        oc += 1;
        assert((oc - 1) as nat == oc - 1);
    }
    acc
}

proof fn lemma_worth_ext<T: Scalar>(
    weight: spec_fn(int) -> T,
    f: spec_fn(int) -> T,
    g: spec_fn(int) -> T,
    n: nat,
)
    requires
        forall|k: int| 0 <= k < n ==> #[trigger] f(k) == g(k),
    ensures
        worth_upto(weight, f, n) == worth_upto(weight, g, n),
    decreases n,
{
    if n > 0 {
        lemma_worth_ext(weight, f, g, (n - 1) as nat);
        assert(f(n - 1) == g(n - 1));
    }
}

impl<'a, T: Scalar> PreflopJamGame<'a, T> {
    /// The place of the continuation for a commitment and a pot.
    fn find_cont(&self, commit: i32, pot: i64) -> (r: Option<usize>)
        ensures
            match r {
                Some(k) => self.cont matches Some(list) && is_first_value(
                    list@,
                    commit as int,
                    pot as int,
                    k as int,
                ),
                None => self.cont matches Some(list) ==> forall|k: int|
                    !is_first_value(list@, commit as int, pot as int, k),
            },
    {
        match self.cont {
            None => None,
            Some(list) => {
                let n: usize = list.len();
                let mut k: usize = 0;
                while k < n
                    invariant
                        k <= n,
                        n == list@.len(),
                        self.cont == Some(list),
                        forall|l: int|
                            0 <= l < k ==> (#[trigger] list@[l]).commit != commit || list@[l].pot
                                != pot,
                    decreases n - k,
                {
                    if list[k].commit == commit && list[k].pot as i64 == pot {
                        return Some(k);
                    }
                    k += 1;
                }
                None
            },
        }
    }

    /// The traverser's value of every class at a leaf.
    #[verifier::rlimit(40)]
    pub fn value_leaf(
        &self,
        traverser: u8,
        node_idx: usize,
        tree: &FlatTree,
        cfreach: &Vec<Vec<T>>,
    ) -> (values: Vec<T>)
        requires
            self.wf(),
            tree.wf(),
            tree.np() == 2,
            tree.is_node(node_idx as int),
            traverser < 2,
            cfreach@.len() == 2,
            cfreach@[1 - traverser]@.len() == NUM_PREFLOP_CLASSES,
        ensures
            values@ == self.leaf_values(
                traverser as int,
                tree,
                node_idx as int,
                cfreach@[1 - traverser]@,
            ),
    {
        let ghost i = node_idx as int;
        let ghost t = traverser as int;
        let ghost opp_row = cfreach@[1 - traverser]@;
        let o: u8 = 1 - traverser;
        let mask: u16 = tree.get_folded_mask(node_idx);
        let c0: i32 = tree.get_contribution(node_idx, 0);
        let c1: i32 = tree.get_contribution(node_idx, 1);
        let ct: i32 = if traverser == 0 {
            c0
        } else {
            c1
        };
        let sp: i32 = tree.starting_pot;
        let total: i64 = sp as i64 + c0 as i64 + c1 as i64;
        assert(total == chips_at(tree, i));
        let put_in = T::of_i32(sp).over(T::of_usize(2)).plus(T::of_i32(ct));
        assert(put_in == invested::<T>(tree, i, t));
        let opp = &cfreach[o as usize];
        let t_folded = (mask >> (traverser as u16)) & 1u16 != 0;
        let o_folded = (mask >> (o as u16)) & 1u16 != 0;
        assert(o_folded == !is_live(tree, i, 1 - t));
        assert(t_folded == !is_live(tree, i, t));
        let n: usize = NUM_PREFLOP_CLASSES;
        let mut out: Vec<T> = Vec::new();
        if t_folded || o_folded {
            let delta = if o_folded {
                T::of_i64(total).minus(put_in)
            } else {
                T::zero().minus(put_in)
            };
            let mut h: usize = 0;
            while h < n
                invariant
                    h <= n,
                    n == NUM_PREFLOP_CLASSES,
                    self.wf(),
                    opp@ == opp_row,
                    opp@.len() == n,
                    t_folded || o_folded,
                    o_folded == !is_live(tree, i, 1 - t),
                    t_folded == !is_live(tree, i, t),
                    delta == (if o_folded {
                        T::s_of(chips_at(tree, i)).s_minus(invested::<T>(tree, i, t))
                    } else {
                        T::s_zero().s_minus(invested::<T>(tree, i, t))
                    }),
                    out@.len() == h,
                    forall|k: int| 0 <= k < h ==> #[trigger] out@[k] == self.leaf(t, tree, i, opp_row, k),
                decreases n - h,
            {
                let mass = mass_beside(opp, self.blocking, h);
                out.push(delta.times(mass));
                assert(out@[h as int] == self.leaf(t, tree, i, opp_row, h as int));
                h += 1;
            }
            assert(out@ =~= self.leaf_values(t, tree, i, opp_row));
            return out;
        }
        let commit: i32 = if c0 <= c1 {
            c0
        } else {
            c1
        };
        assert(commit == matched_chips(tree, i));
        let all_in = self.stack > 0 && commit >= self.stack;
        let found: Option<usize> = if all_in {
            None
        } else {
            self.find_cont(commit, total)
        };
        let mut rake = self.rake_rate.times(T::of_i64(total));
        if self.rake_cap.below(rake) {
            rake = self.rake_cap;
        }
        let pot_eff = T::of_i64(total).minus(rake);
        assert(pot_eff == self.raked(tree, i));
        let (table, terms): (&Vec<T>, Option<(T, T)>) = match found {
            Some(k) => {
                assert(self.has_cont(tree, i));
                proof {
                    let list = self.cont->Some_0@;
                    let m = choose|m: int|
                        is_first_value(list, matched_chips(tree, i), chips_at(tree, i), m);
                    assert(is_first_value(list, matched_chips(tree, i), chips_at(tree, i), m));
                    if m < k {
                        assert(list[m].commit != commit || list[m].pot != total);
                    }
                    if k < m {
                        assert(list[k as int].commit != commit || list[k as int].pot != total);
                    }
                    assert(list[k as int].values@.len() == NUM_PREFLOP_CLASSES * NUM_PREFLOP_CLASSES);
                }
                match self.cont {
                    Some(list) => (&list[k].values, None),
                    None => (self.equity, None),
                }
            },
            None => {
                assert(!self.has_cont(tree, i));
                (self.equity, Some((pot_eff, put_in)))
            },
        };
        let ghost seen = self.has_cont(tree, i);
        assert(seen ==> table@ == self.cont_values(tree, i) && terms is None);
        assert(!seen ==> table@ == self.equity@ && terms == Some((pot_eff, put_in)));
        let mut h: usize = 0;
        while h < n
            invariant
                h <= n,
                n == NUM_PREFLOP_CLASSES,
                self.wf(),
                opp@ == opp_row,
                opp@.len() == n,
                is_live(tree, i, 1 - t),
                is_live(tree, i, t),
                table@.len() == NUM_PREFLOP_CLASSES * NUM_PREFLOP_CLASSES,
                seen == self.has_cont(tree, i),
                seen ==> table@ == self.cont_values(tree, i) && terms is None,
                !seen ==> table@ == self.equity@ && terms == Some(
                    (self.raked(tree, i), invested::<T>(tree, i, t)),
                ),
                out@.len() == h,
                forall|k: int| 0 <= k < h ==> #[trigger] out@[k] == self.leaf(t, tree, i, opp_row, k),
            decreases n - h,
        {
            let x = worth_beside(opp, self.blocking, table, terms, h);
            proof {
                let hh = h as int;
                let weight = beside(opp_row, self.blocking@, hh);
                let f = entry_value(table@, hh, terms);
                if seen {
                    let g = |oc: int| versus(self.cont_values(tree, i), hh, oc);
                    lemma_worth_ext(weight, f, g, n as nat);
                } else {
                    let g = |oc: int|
                        versus(self.equity@, hh, oc).s_times(self.raked(tree, i)).s_minus(
                            invested::<T>(tree, i, t),
                        );
                    lemma_worth_ext(weight, f, g, n as nat);
                }
                assert(x == self.leaf(t, tree, i, opp_row, hh));
            }
            out.push(x);
            h += 1;
        }
        assert(out@ =~= self.leaf_values(t, tree, i, opp_row));
        out
    }
}

impl<'a, T: Widen> GameSpec<T> for PreflopJamGame<'a, T> {
    open spec fn s_valid(&self) -> bool {
        self.wf()
    }

    open spec fn s_players(&self) -> int {
        2
    }

    open spec fn s_hands(&self, player: int) -> int {
        NUM_PREFLOP_CLASSES as int
    }

    open spec fn s_weight(&self, player: int) -> Seq<T> {
        self.reach@[player]@
    }

    open spec fn s_terminal(
        &self,
        traverser: u8,
        node: int,
        tree: &FlatTree,
        reach: Seq<Seq<T>>,
    ) -> Seq<T> {
        self.leaf_values(traverser as int, tree, node, reach[1 - traverser])
    }

    open spec fn s_continuation(
        &self,
        traverser: u8,
        node: int,
        tree: &FlatTree,
        reach: Seq<Seq<T>>,
    ) -> Seq<T> {
        self.leaf_values(traverser as int, tree, node, reach[1 - traverser])
    }

    open spec fn s_chance(&self, outcome: int, hand: int) -> T {
        T::s_one()
    }

    open spec fn s_can_ask(&self, outcome: int) -> bool {
        true
    }

    open spec fn s_combinations(&self) -> T::Wide {
        T::Wide::s_one()
    }

    open spec fn s_outcomes(&self) -> int {
        0
    }

    open spec fn s_can_deal(&self, outcome: int) -> bool {
        true
    }

    open spec fn s_can_undo(&self) -> bool {
        true
    }

    open spec fn s_set(&self, outcome: int) -> Self {
        *self
    }

    open spec fn s_clear(&self) -> Self {
        *self
    }

    open spec fn s_single_deal(&self) -> bool {
        true
    }

    proof fn lemma_set(&self, outcome: int) {
    }

    proof fn lemma_clear(&self) {
    }

    proof fn lemma_undo(&self, outcome: int) {
    }

    fn num_hands(&self, player: u8) -> (n: usize) {
        NUM_PREFLOP_CLASSES
    }

    fn initial_weight(&self, player: u8) -> (w: Vec<T>) {
        assert(player == 0 || player == 1);
        row_copy(&self.reach[player as usize])
    }

    fn evaluate_terminal(
        &self,
        traverser: u8,
        node_idx: usize,
        tree: &FlatTree,
        cfreach: &Vec<Vec<T>>,
    ) -> (values: Vec<T>) {
        assert(cfreach@[1 - traverser]@.len() == self.s_hands(1 - traverser));
        self.value_leaf(traverser, node_idx, tree, cfreach)
    }

    fn evaluate_continuation(
        &self,
        traverser: u8,
        node_idx: usize,
        tree: &FlatTree,
        cfreach: &Vec<Vec<T>>,
    ) -> (values: Vec<T>) {
        assert(cfreach@[1 - traverser]@.len() == self.s_hands(1 - traverser));
        self.value_leaf(traverser, node_idx, tree, cfreach)
    }

    fn chance_probability(&self, outcome: usize, hand: usize) -> (x: T) {
        T::one()
    }

    fn num_combinations(&self) -> (x: T::Wide) {
        T::Wide::one()
    }

    fn num_chance_outcomes(&self) -> (n: usize) {
        0
    }

    fn set_chance_outcome(&mut self, outcome: usize) {
    }

    fn clear_chance_outcome(&mut self) {
    }
}

/// A bet: a share of the pot, or all of one's chips.
#[derive(Clone, Copy, Debug)]
pub enum BetSize<W> {
    PotRelative(W),
    AllIn,
}

/// The bets and raises on offer.
pub struct BetSizeOptions<W> {
    pub bet: Vec<BetSize<W>>,
    pub raise: Vec<BetSize<W>>,
}

/// Bets allowed on a street.
#[derive(Clone, Copy, Debug)]
pub struct BetCap {
    pub preflop: u8,
    pub flop: u8,
    pub turn: u8,
    pub river: u8,
}

impl BetCap {
    /// The same cap on all streets.
    pub fn all(n: u8) -> (cap: BetCap)
        ensures
            cap == (BetCap { preflop: n, flop: n, turn: n, river: n }),
    {
        BetCap { preflop: n, flop: n, turn: n, river: n }
    }
}

/// What a betting tree is built from.
pub struct TreeConfig<W> {
    pub num_players: u8,
    pub initial_state: u8,
    pub starting_pot: i32,
    pub starting_stacks: Vec<i32>,
    pub initial_contributions: Vec<i32>,
    pub rake_rate: W,
    pub rake_cap: W,
    pub bet_sizes: BetSizeOptions<W>,
    pub add_allin_threshold: W,
    pub force_allin_threshold: W,
    pub merging_threshold: W,
    pub button_player: Option<u8>,
    pub max_bets_per_street: BetCap,
    pub no_open_limp: bool,
    pub threebet_or_fold: bool,
}

/// Raises of the menu, in quarters of the pot.
pub open spec fn rich_quarters() -> Seq<int> {
    seq![4, 2, 3, 5, 6, 8, 10, 12, 16, 20, 24, 32, 44]
}

/// A bet of so many quarters of the pot.
pub open spec fn quarters<W: Scalar>(q: int) -> BetSize<W> {
    BetSize::PotRelative(W::s_of(q).s_over(W::s_of(4)))
}

/// The raises on offer: the first `n` of the menu, then all-in.
pub open spec fn jam_raises<W: Scalar>(n: int) -> Seq<BetSize<W>> {
    let k = if n < rich_quarters().len() {
        n
    } else {
        rich_quarters().len() as int
    };
    Seq::new(k as nat, |i: int| quarters::<W>(rich_quarters()[i])).push(BetSize::AllIn)
}

fn menu_quarters() -> (q: Vec<usize>)
    ensures
        q@.len() == rich_quarters().len(),
        forall|k: int| 0 <= k < q@.len() ==> #[trigger] q@[k] == rich_quarters()[k],
{
    let mut q: Vec<usize> = Vec::new();
    q.push(4);
    q.push(2);
    q.push(3);
    q.push(5);
    q.push(6);
    q.push(8);
    q.push(10);
    q.push(12);
    q.push(16);
    q.push(20);
    q.push(24);
    q.push(32);
    q.push(44);
    q
}

/// The menu of a search: a pot-sized bet, so many raises, and all-in.
pub fn jam_bets<W: Scalar>(nraises: usize) -> (bets: BetSizeOptions<W>)
    ensures
        bets.bet@ == seq![BetSize::PotRelative(W::s_one())],
        bets.raise@ == jam_raises::<W>(nraises as int),
{
    let menu = menu_quarters();
    let total: usize = menu.len();
    let n: usize = if nraises < total {
        nraises
    } else {
        total
    };
    let mut raise: Vec<BetSize<W>> = Vec::new();
    let mut k: usize = 0;
    while k < n
        invariant
            k <= n,
            n <= total,
            total == menu@.len(),
            total == rich_quarters().len(),
            forall|k: int| 0 <= k < menu@.len() ==> #[trigger] menu@[k] == rich_quarters()[k],
            raise@.len() == k,
            forall|l: int|
                0 <= l < k ==> #[trigger] raise@[l] == quarters::<W>(rich_quarters()[l]),
        decreases n - k,
    {
        raise.push(BetSize::PotRelative(W::of_usize(menu[k]).over(W::of_usize(4))));
        k += 1;
    }
    raise.push(BetSize::AllIn);
    assert(raise@ =~= jam_raises::<W>(nraises as int));
    let mut bet: Vec<BetSize<W>> = Vec::new();
    bet.push(BetSize::PotRelative(W::one()));
    assert(bet@ =~= seq![BetSize::PotRelative(W::s_one())]);
    BetSizeOptions { bet, raise }
}

/// The tree of a search: two players before the flop, with what they have put in.
pub open spec fn is_jam_config<W: Scalar>(
    cfg: &TreeConfig<W>,
    c_hero: int,
    c_opp: int,
    dead: i32,
    stack: int,
    nraises: int,
    rake: Rake<W>,
) -> bool {
    &&& cfg.num_players == 2
    &&& cfg.initial_state == BOARD_PREFLOP
    &&& cfg.starting_pot == dead
    &&& cfg.starting_stacks@.len() == 2
    &&& cfg.starting_stacks@[0] == stack - c_hero
    &&& cfg.starting_stacks@[1] == stack - c_opp
    &&& cfg.initial_contributions@.len() == 2
    &&& cfg.initial_contributions@[0] == c_hero
    &&& cfg.initial_contributions@[1] == c_opp
    &&& cfg.rake_rate == rake.rate
    &&& cfg.rake_cap == rake.cap
    &&& cfg.bet_sizes.bet@ == seq![BetSize::PotRelative(W::s_one())]
    &&& cfg.bet_sizes.raise@ == jam_raises::<W>(nraises)
    &&& cfg.add_allin_threshold == W::s_one()
    &&& cfg.force_allin_threshold == W::s_one()
    &&& cfg.merging_threshold == W::s_zero()
    &&& cfg.button_player == Some(0u8)
    &&& cfg.max_bets_per_street == (BetCap { preflop: 3, flop: 3, turn: 3, river: 3 })
    &&& !cfg.no_open_limp
    &&& !cfg.threebet_or_fold
}

/// Closure `build` makes this of a configuration.
pub open spec fn builds<W, B: Fn(&TreeConfig<W>) -> Result<FlatTree, String>>(
    build: &B,
    cfg: TreeConfig<W>,
    r: Result<FlatTree, String>,
) -> bool {
    call_ensures(*build, (&cfg,), r)
}

/// Closure `build` makes this of the search's configuration.
pub open spec fn builds_jam<W: Scalar, B: Fn(&TreeConfig<W>) -> Result<FlatTree, String>>(
    build: &B,
    c_hero: int,
    c_opp: int,
    dead: i32,
    stack: int,
    nraises: int,
    rake: Rake<W>,
    r: Result<FlatTree, String>,
) -> bool {
    exists|cfg: TreeConfig<W>| #[trigger]
        builds(build, cfg, r) && is_jam_config(&cfg, c_hero, c_opp, dead, stack, nraises, rake)
}

/// Builds the tree of a search, rooted at the decision to be made: the first player has
/// put in `c_hero`, the second `c_opp`, and `dead` chips lie in the pot.
pub fn build_jam_tree<W: Scalar, B: Fn(&TreeConfig<W>) -> Result<FlatTree, String>>(
    c_hero: i32,
    c_opp: i32,
    dead: i32,
    stack: i32,
    nraises: usize,
    rake: Rake<W>,
    build: &B,
) -> (r: Result<FlatTree, String>)
    requires
        i32::MIN <= stack - c_hero <= i32::MAX,
        i32::MIN <= stack - c_opp <= i32::MAX,
        forall|cfg: &TreeConfig<W>| #[trigger] call_requires(*build, (cfg,)),
    ensures
        builds_jam(
            build,
            c_hero as int,
            c_opp as int,
            dead,
            stack as int,
            nraises as int,
            rake,
            r,
        ),
{
    let mut starting_stacks: Vec<i32> = Vec::new();
    starting_stacks.push(stack - c_hero);
    starting_stacks.push(stack - c_opp);
    let mut initial_contributions: Vec<i32> = Vec::new();
    initial_contributions.push(c_hero);
    initial_contributions.push(c_opp);
    let cfg = TreeConfig {
        num_players: 2,
        initial_state: BOARD_PREFLOP,
        starting_pot: dead,
        starting_stacks,
        initial_contributions,
        rake_rate: rake.rate,
        rake_cap: rake.cap,
        bet_sizes: jam_bets::<W>(nraises),
        add_allin_threshold: W::one(),
        force_allin_threshold: W::one(),
        merging_threshold: W::zero(),
        button_player: Some(0),
        max_bets_per_street: BetCap::all(3),
        no_open_limp: false,
        threebet_or_fold: false,
    };
    let r = build(&cfg);
    assert(builds(build, cfg, r));
    r
}

/// Settings of a search.
#[derive(Clone, Copy, Debug)]
pub struct PreflopJamCfg<T> {
    pub iters: u32,
    /// Sharpness of the first player's play.
    pub lambda: T,
    /// Sharpness of the second player's play. Where both are zero, nobody answers
    /// quantally: regrets are matched, and the strategy is the plain average.
    pub opp_lambda: T,
    /// Continuations to choose from past the depth limit; one for none.
    pub plk: usize,
    /// Raises before all-in.
    pub nraises: usize,
}

impl<T: Scalar> PreflopJamCfg<T> {
    /// Nobody answers quantally.
    pub open spec fn plays_plainly(&self) -> bool {
        self.lambda.s_same(T::s_zero()) && self.opp_lambda.s_same(T::s_zero())
    }
}

impl<T: Scalar> Default for PreflopJamCfg<T> {
    fn default() -> (cfg: PreflopJamCfg<T>)
        ensures
            cfg == (PreflopJamCfg {
                iters: 256,
                lambda: T::s_zero(),
                opp_lambda: T::s_zero(),
                plk: 1,
                nraises: 6,
            }),
    {
        PreflopJamCfg { iters: 256, lambda: T::zero(), opp_lambda: T::zero(), plk: 1, nraises: 6 }
    }
}

/// What a search found: the decision, its actions with their labels and what the first
/// player has put in after each, and a probability per action and class.
pub struct PreflopJamResult<T> {
    pub root: usize,
    pub actions: Vec<(u8, i32)>,
    pub strategy: Vec<Vec<T>>,
}

/// The first decision of the tree.
pub open spec fn is_first_decision(tree: &FlatTree, i: int) -> bool {
    &&& tree.is_node(i)
    &&& tree.nodes@[i].is_player()
    &&& forall|j: int| 0 <= j < i ==> !(#[trigger] tree.nodes@[j]).is_player()
}

/// The tree's first decision is the first player's.
pub open spec fn starts_with_hero(tree: &FlatTree) -> bool {
    exists|i: int| #[trigger] is_first_decision(tree, i) && tree.nodes@[i].player_id == 0
}

/// Row of weights, each times the number of combinations of its class.
pub open spec fn by_combos<T: Scalar>(row: Seq<T>, counts: Seq<T>) -> Seq<T> {
    Seq::new(NUM_PREFLOP_CLASSES as nat, |c: int| row[c].s_times(counts[c]))
}

/// Computes [`by_combos`].
fn weigh_combos<T: Scalar>(row: &Vec<T>, counts: &Vec<T>) -> (out: Vec<T>)
    requires
        row@.len() == NUM_PREFLOP_CLASSES,
        counts@.len() == NUM_PREFLOP_CLASSES,
    ensures
        out@ == by_combos(row@, counts@),
{
    let n: usize = NUM_PREFLOP_CLASSES;
    let mut out: Vec<T> = Vec::new();
    let mut c: usize = 0;
    while c < n
        invariant
            c <= n,
            n == NUM_PREFLOP_CLASSES,
            row@.len() == n,
            counts@.len() == n,
            out@.len() == c,
            forall|k: int| 0 <= k < c ==> #[trigger] out@[k] == row@[k].s_times(counts@[k]),
        decreases n - c,
    {
        out.push(row[c].times(counts[c]));
        c += 1;
    }
    assert(out@ =~= by_combos(row@, counts@));
    out
}

/// Node `i` is a chance node without children.
pub open spec fn is_cut_off(tree: &FlatTree, i: int) -> bool {
    tree.nodes@[i].is_chance() && tree.arity(i) == 0
}

/// Lists the chance nodes without children.
fn cut_offs(tree: &FlatTree) -> (list: Vec<usize>)
    requires
        tree.wf(),
    ensures
        forall|k: int| 0 <= k < list@.len() ==> (#[trigger] list@[k]) < tree.size(),
        forall|i: int| #[trigger]
            tree.is_node(i) ==> (list@.contains(i as usize) <==> is_cut_off(tree, i)),
{
    let nn: usize = tree.nodes.len();
    let mut list: Vec<usize> = Vec::new();
    let mut i: usize = 0;
    while i < nn
        invariant
            i <= nn,
            nn == tree.size(),
            nn <= u32::MAX,
            forall|k: int| 0 <= k < list@.len() ==> (#[trigger] list@[k]) < i,
            forall|j: int|
                0 <= j < i ==> (#[trigger] list@.contains(j as usize) <==> is_cut_off(tree, j)),
        decreases nn - i,
    {
        let node = tree.nodes[i];
        let ghost was = list@;
        if node.is_chance() && node.num_children == 0 {
            list.push(i);
            proof {
                assert(list@[list@.len() - 1] == i);
                assert forall|j: int| 0 <= j < i + 1 implies (#[trigger] list@.contains(j as usize)
                    <==> is_cut_off(tree, j)) by {
                    if j < i {
                        if was.contains(j as usize) {
                            let k = choose|k: int| 0 <= k < was.len() && was[k] == j as usize;
                            assert(list@[k] == j as usize);
                        }
                        if list@.contains(j as usize) {
                            let k = choose|k: int| 0 <= k < list@.len() && list@[k] == j as usize;
                            assert(was[k] == j as usize);
                        }
                        assert(was.contains(j as usize) <==> is_cut_off(tree, j));
                    }
                }
            }
        } else {
            proof {
                assert(!list@.contains(i)) by {
                    if list@.contains(i) {
                        let k = choose|k: int| 0 <= k < list@.len() && list@[k] == i;
                    }
                }
            }
        }
        i += 1;
    }
    list
}

/// A fresh solver for the search: it stops at the flop, and plays as sharply as the
/// settings say.
pub open spec fn is_jam_start<T: Scalar>(
    m: &CpuMccfr<T>,
    tree: &FlatTree,
    cfg: &PreflopJamCfg<T>,
) -> bool {
    let total = rooms_upto(tree, m.num_hands@, tree.size() as nat);
    &&& m.is_for(tree)
    &&& m.num_hands@ == seq![NUM_PREFLOP_CLASSES, NUM_PREFLOP_CLASSES]
    &&& m.iteration == 0
    &&& m.regrets@ == flat(T::s_zero(), total)
    &&& m.cum_strategy@ == flat(T::s_zero(), total)
    &&& m.last_cfv@ == flat(T::s_zero(), total)
    &&& m.dcfr is None
    &&& !m.use_snapshot
    &&& m.num_variants == (if cfg.plk > 1 {
        cfg.plk as int
    } else {
        1
    })
    &&& m.frozen@ == flat(false, tree.size())
    &&& m.boundary@ == flat(false, tree.size())
    &&& m.depth_limit@ == Seq::new(tree.size() as nat, |i: int| is_cut_off(tree, i))
    &&& if cfg.plays_plainly() {
        m.lambda is None
    } else {
        m.lambda matches Some(l) && l@ == seq![cfg.lambda, cfg.opp_lambda]
    }
}

/// The tables that the solver needs for the tree fit in memory.
pub open spec fn jam_fits<T: Scalar>(tree: &FlatTree, plk: int) -> bool {
    &&& tree.wf()
    &&& tree.np() == 2
    &&& rooms_upto(
        tree,
        seq![NUM_PREFLOP_CLASSES, NUM_PREFLOP_CLASSES],
        tree.size() as nat,
    ) < UNUSED
    &&& plk > 1 ==> forall|m: CpuMccfr<T>| #[trigger]
        m.is_for(tree) && m.num_hands@ == seq![NUM_PREFLOP_CLASSES, NUM_PREFLOP_CLASSES] ==> plk
            * m.hands_below(tree, 0, tree.arity(0) as nat) <= usize::MAX
}

/// The game of a search.
pub open spec fn is_jam_game<T: Widen>(
    game: &PreflopJamGame<T>,
    hero: Seq<T>,
    opp: Seq<T>,
    equity: &Vec<T>,
    blocking: &Vec<T>,
    cont: Option<&Vec<SeamValue<T>>>,
    stack: i32,
    rake: Rake<T::Wide>,
) -> bool {
    &&& game.wf()
    &&& exists|counts: Vec<T>| #[trigger]
        is_combo_counts(counts@) && game.reach@[0]@ == by_combos(hero, counts@) && game.reach@[1]@
            == by_combos(opp, counts@)
    &&& game.equity == equity
    &&& game.blocking == blocking
    &&& game.cont == cont
    &&& game.stack == stack
    &&& game.rake_rate == T::s_narrow(rake.rate)
    &&& game.rake_cap == T::s_narrow(rake.cap)
}

/// Combinations of every class.
pub open spec fn is_combo_counts<T: Scalar>(counts: Seq<T>) -> bool {
    &&& counts.len() == NUM_PREFLOP_CLASSES
    &&& forall|c: int|
        0 <= c < NUM_PREFLOP_CLASSES ==> #[trigger] counts[c] == ones::<T>(class_size(c) as nat)
}

/// What a search of `tree` finds.
pub open spec fn is_search<T: Widen>(
    tree: &FlatTree,
    game: PreflopJamGame<T>,
    cfg: &PreflopJamCfg<T>,
    res: &PreflopJamResult<T>,
) -> bool {
    let root = res.root as int;
    let na = tree.arity(root);
    &&& is_first_decision(tree, root)
    &&& tree.nodes@[root].player_id == 0
    &&& res.actions@ == Seq::new(
        na as nat,
        |a: int|
            (
                tree.nodes@[tree.child(root, a)].action_label,
                tree.contribution(tree.child(root, a), 0) as i32,
            ),
    )
    &&& exists|m0: CpuMccfr<T>, m1: CpuMccfr<T>, sums: Seq<T>| #[trigger]
        are_iterations(m0, m1, tree, game, sums, cfg.iters as nat) && is_jam_start(
            &m0,
            tree,
            cfg,
        ) && views(res.strategy@) == Seq::new(
            na as nat,
            |a: int|
                Seq::new(
                    NUM_PREFLOP_CLASSES as nat,
                    |h: int|
                        plain_share(
                            m1.cum_strategy@,
                            m1.offset(root),
                            NUM_PREFLOP_CLASSES as int,
                            na,
                            a,
                            h,
                        ),
                ),
        )
}

/// Deals change nothing, so every deal can be made and taken back.
proof fn lemma_deals_fit<T: Widen>(
    limits: Seq<bool>,
    tree: &FlatTree,
    g: PreflopJamGame<T>,
    i: int,
)
    requires
        tree.wf(),
        tree.is_node(i),
    ensures
        deals_fit(limits, tree, g, i),
    decreases tree.max_depth + 1 - tree.level(i),
{
    if !(limits[i] || tree.nodes@[i].is_terminal() || tree.arity(i) == 0) {
        assert forall|a: int| #[trigger] tree.is_edge(i, a) implies deals_fit(
            limits,
            tree,
            g,
            tree.child(i, a),
        ) by {
            assert(tree.edge_ok(i, a));
            lemma_deals_fit(limits, tree, g, tree.child(i, a));
        }
        if tree.nodes@[i].is_chance() {
            assert forall|o: int| 0 <= o < branch_count(tree, &g, i) implies {
                let e = branch_edge(tree, &g, i, o);
                &&& #[trigger] can_take(&g, o)
                &&& tree.is_edge(i, e) ==> deals_fit(limits, tree, g.s_set(o), tree.child(i, e))
            } by {
                assert(g.s_set(o) == g);
            }
        }
    }
}

/// The first decision of a tree.
fn first_decision(tree: &FlatTree) -> (r: Option<usize>)
    requires
        tree.wf(),
    ensures
        match r {
            Some(i) => is_first_decision(tree, i as int),
            None => forall|j: int| tree.is_node(j) ==> !(#[trigger] tree.nodes@[j]).is_player(),
        },
{
    let nn: usize = tree.nodes.len();
    let mut i: usize = 0;
    while i < nn
        invariant
            i <= nn,
            nn == tree.size(),
            forall|j: int| 0 <= j < i ==> !(#[trigger] tree.nodes@[j]).is_player(),
        decreases nn - i,
    {
        if tree.nodes[i].is_player() {
            return Some(i);
        }
        i += 1;
    }
    None
}

/// Labels of a decision's actions, and what the first player has put in after each.
fn action_menu(tree: &FlatTree, root: usize) -> (actions: Vec<(u8, i32)>)
    requires
        tree.wf(),
        tree.is_node(root as int),
    ensures
        actions@ == Seq::new(
            tree.arity(root as int) as nat,
            |a: int|
                (
                    tree.nodes@[tree.child(root as int, a)].action_label,
                    tree.contribution(tree.child(root as int, a), 0) as i32,
                ),
        ),
{
    assert(tree.node_ok(root as int));
    let na: usize = tree.nodes[root].num_children as usize;
    let kids: &[u32] = tree.node_children(root);
    let ghost goal = Seq::new(
        tree.arity(root as int) as nat,
        |a: int|
            (
                tree.nodes@[tree.child(root as int, a)].action_label,
                tree.contribution(tree.child(root as int, a), 0) as i32,
            ),
    );
    let mut actions: Vec<(u8, i32)> = Vec::new();
    let mut a: usize = 0;
    while a < na
        invariant
            a <= na,
            na == tree.arity(root as int),
            tree.wf(),
            tree.is_node(root as int),
            kids@.len() == na,
            forall|b: int|
                0 <= b < kids@.len() ==> (#[trigger] kids@[b]) as int == tree.child(root as int, b),
            goal == Seq::new(
                tree.arity(root as int) as nat,
                |a: int|
                    (
                        tree.nodes@[tree.child(root as int, a)].action_label,
                        tree.contribution(tree.child(root as int, a), 0) as i32,
                    ),
            ),
            actions@.len() == a,
            forall|b: int| 0 <= b < a ==> #[trigger] actions@[b] == goal[b],
        decreases na - a,
    {
        assert(tree.is_edge(root as int, a as int));
        assert(tree.edge_ok(root as int, a as int));
        let c: usize = kids[a] as usize;
        actions.push((tree.nodes[c].action_label, tree.get_contribution(c, 0)));
        a += 1;
    }
    assert(actions@ =~= goal);
    actions
}

/// Sets up the solver of a search.
fn jam_solver<T: Widen + Send + Sync>(tree: &FlatTree, cfg: &PreflopJamCfg<T>) -> (m: CpuMccfr<T>)
    requires
        jam_fits::<T>(tree, cfg.plk as int),
    ensures
        is_jam_start(&m, tree, cfg),
{
    let mut hands: Vec<usize> = Vec::new();
    hands.push(NUM_PREFLOP_CLASSES);
    hands.push(NUM_PREFLOP_CLASSES);
    assert(hands@ =~= seq![NUM_PREFLOP_CLASSES, NUM_PREFLOP_CLASSES]);
    let mut m: CpuMccfr<T> = CpuMccfr::new(tree, hands);
    let list = cut_offs(tree);
    m.set_depth_limit(list.as_slice());
    assert(m.depth_limit@ =~= Seq::new(tree.size() as nat, |i: int| is_cut_off(tree, i))) by {
        assert forall|i: int| 0 <= i < tree.size() implies #[trigger] m.depth_limit@[i]
            == is_cut_off(tree, i) by {
            assert(tree.is_node(i));
        }
    }
    if cfg.plk > 1 {
        let ghost before = m;
        assert(m.is_for(tree) && m.num_hands@ == seq![NUM_PREFLOP_CLASSES, NUM_PREFLOP_CLASSES]);
        m.setup_pluribus_continuations(tree, cfg.plk, T::of_usize(5));
        assert(m.boundary@ =~= flat(false, tree.size())) by {
            assert forall|i: int| 0 <= i < tree.size() implies !#[trigger] m.boundary@[i] by {
                assert(!before.first_fixed(tree, i));
            }
        }
    }
    if !(cfg.lambda.same(T::zero()) && cfg.opp_lambda.same(T::zero())) {
        let mut lambda: Vec<T> = Vec::new();
        lambda.push(cfg.lambda);
        lambda.push(cfg.opp_lambda);
        assert(lambda@ =~= seq![cfg.lambda, cfg.opp_lambda]);
        m.set_lambda(lambda);
    }
    m
}

/// Searches a tree.
fn search<T: Widen + Send + Sync>(
    tree: &FlatTree,
    game: &mut PreflopJamGame<T>,
    cfg: &PreflopJamCfg<T>,
) -> (r: Option<PreflopJamResult<T>>)
    requires
        jam_fits::<T>(tree, cfg.plk as int),
        old(game).wf(),
    ensures
        match r {
            Some(res) => is_search(tree, *old(game), cfg, &res),
            None => !starts_with_hero(tree),
        },
{
    let mut m = jam_solver(tree, cfg);
    let ghost m0 = m;
    proof {
        lemma_deals_fit(m.depth_limit@, tree, *game, 0);
        assert(same_hands(&m, &*game)) by {
            assert forall|p: int| 0 <= p < m.num_hands@.len() implies #[trigger] game.s_hands(p)
                == m.num_hands@[p] by {}
        }
    }
    let ghost g = *game;
    let values = m.run(tree, game, cfg.iters);
    let root: usize = match first_decision(tree) {
        Some(i) => i,
        None => {
            return None;
        },
    };
    if tree.nodes[root].player_id != 0 {
        assert forall|i: int| #[trigger] is_first_decision(tree, i) implies tree.nodes@[i].player_id
            != 0 by {
            if i < root {
                assert(!tree.nodes@[i].is_player());
            }
            if root < i {
                assert(!tree.nodes@[root as int].is_player());
            }
        }
        return None;
    }
    let na: usize = tree.nodes[root].num_children as usize;
    let actions = action_menu(tree, root);
    proof {
        let sums = choose|sums: Seq<T>| #[trigger]
            are_iterations(m0, m, tree, g, sums, cfg.iters as nat);
        lemma_same_hands_after(m0, m, tree, g, sums, cfg.iters as nat);
        lemma_rooms_rise(tree, m.num_hands@, root as nat, tree.size() as nat);
        assert(m.node_data_offset@[root as int] == rooms_upto(tree, m.num_hands@, root as nat));
    }
    let strategy = m.get_average_strategy(root, na, NUM_PREFLOP_CLASSES);
    Some(PreflopJamResult { root, actions, strategy })
}

/// Iterations keep the layout.
proof fn lemma_same_hands_after<T: Widen, G: GameSpec<T>>(
    m0: CpuMccfr<T>,
    m1: CpuMccfr<T>,
    tree: &FlatTree,
    g: G,
    sums: Seq<T>,
    n: nat,
)
    requires
        are_iterations(m0, m1, tree, g, sums, n),
    ensures
        m1.num_hands == m0.num_hands,
        m1.node_data_offset == m0.node_data_offset,
    decreases n,
{
    if n > 0 {
        let (m, prev, v) = choose|m: CpuMccfr<T>, prev: Seq<T>, v: Seq<T>|
            #![trigger is_iteration(m, m1, tree, g, v), row_sum(prev, v)]
            {
                &&& is_iteration(m, m1, tree, g, v)
                &&& are_iterations(m0, m, tree, g, prev, (n - 1) as nat)
                &&& sums == row_sum(prev, v)
            };
        lemma_same_hands_after(m0, m, tree, g, prev, (n - 1) as nat);
    }
}

/// Tables of classes by classes.
pub open spec fn are_jam_tables<T>(
    hero: Seq<T>,
    opp: Seq<T>,
    equity: Seq<T>,
    blocking: Seq<T>,
    cont: Option<&Vec<SeamValue<T>>>,
) -> bool {
    let n = NUM_PREFLOP_CLASSES * NUM_PREFLOP_CLASSES;
    &&& hero.len() == NUM_PREFLOP_CLASSES
    &&& opp.len() == NUM_PREFLOP_CLASSES
    &&& equity.len() == n
    &&& blocking.len() == n
    &&& cont matches Some(list) ==> forall|k: int|
        0 <= k < list@.len() ==> (#[trigger] list@[k]).values@.len() == n
}

/// Searches the decision of a player that faces a bet before the flop: all raises of the
/// menu and all-in, down to the flop. Where play goes on, `cont` says what the flop is
/// worth; without it all chips go in.
///
/// There is no result if the player faces no bet, if the tree cannot be built, or if its
/// first decision is not the player's.
pub fn solve_preflop_search<
    T: Widen + Send + Sync,
    B: Fn(&TreeConfig<T::Wide>) -> Result<FlatTree, String>,
>(
    c_hero: i32,
    c_opp: i32,
    dead: i32,
    stack: i32,
    hero_reach: &Vec<T>,
    opp_reach: &Vec<T>,
    equity: &Vec<T>,
    blocking: &Vec<T>,
    cont: Option<&Vec<SeamValue<T>>>,
    cfg: &PreflopJamCfg<T>,
    rake: Rake<T::Wide>,
    build: &B,
) -> (r: Option<PreflopJamResult<T>>)
    requires
        are_jam_tables(hero_reach@, opp_reach@, equity@, blocking@, cont),
        i32::MIN <= stack - c_hero <= i32::MAX,
        i32::MIN <= stack - c_opp <= i32::MAX,
        forall|c: &TreeConfig<T::Wide>| #[trigger] call_requires(*build, (c,)),
        forall|c: TreeConfig<T::Wide>, tree: FlatTree| #[trigger]
            builds(build, c, Ok(tree)) ==> jam_fits::<T>(&tree, cfg.plk as int),
    ensures
        match r {
            Some(res) => c_hero < c_opp && exists|tree: FlatTree, game: PreflopJamGame<T>| #[trigger]
                is_search(&tree, game, cfg, &res) && builds_jam(
                    build,
                    c_hero as int,
                    c_opp as int,
                    dead,
                    stack as int,
                    cfg.nraises as int,
                    rake,
                    Ok(tree),
                ) && is_jam_game(
                    &game,
                    hero_reach@,
                    opp_reach@,
                    equity,
                    blocking,
                    cont,
                    stack,
                    rake,
                ),
            None => c_hero >= c_opp || exists|built: Result<FlatTree, String>| #[trigger]
                builds_jam(
                    build,
                    c_hero as int,
                    c_opp as int,
                    dead,
                    stack as int,
                    cfg.nraises as int,
                    rake,
                    built,
                ) && match built {
                    Ok(tree) => !starts_with_hero(&tree),
                    Err(_) => true,
                },
        },
{
    if c_hero >= c_opp {
        return None;
    }
    let built = build_jam_tree(c_hero, c_opp, dead, stack, cfg.nraises, rake, build);
    let tree = match built {
        Ok(tree) => tree,
        Err(_) => {
            return None;
        },
    };
    let counts: Vec<T> = class_combo_counts();
    let mut reach: Vec<Vec<T>> = Vec::new();
    reach.push(weigh_combos(hero_reach, &counts));
    reach.push(weigh_combos(opp_reach, &counts));
    let mut game = PreflopJamGame {
        reach,
        equity,
        blocking,
        cont,
        stack,
        rake_rate: T::narrow(rake.rate),
        rake_cap: T::narrow(rake.cap),
    };
    assert(is_combo_counts(counts@));
    let ghost g = game;
    assert(is_jam_game(&g, hero_reach@, opp_reach@, equity, blocking, cont, stack, rake));
    assert(jam_fits::<T>(&tree, cfg.plk as int)) by {
        let c = choose|c: TreeConfig<T::Wide>| #[trigger]
            builds(build, c, Ok(tree)) && is_jam_config(
                &c,
                c_hero as int,
                c_opp as int,
                dead,
                stack as int,
                cfg.nraises as int,
                rake,
            );
        assert(builds(build, c, Ok(tree)));
    }
    let r = search(&tree, &mut game, cfg);
    r
}

/// The same with all chips in wherever play goes on: a fair picture where little is left
/// to play for after the flop.
pub fn solve_hu_preflop_jam<
    T: Widen + Send + Sync,
    B: Fn(&TreeConfig<T::Wide>) -> Result<FlatTree, String>,
>(
    c_hero: i32,
    c_opp: i32,
    dead: i32,
    stack: i32,
    hero_reach: &Vec<T>,
    opp_reach: &Vec<T>,
    equity: &Vec<T>,
    blocking: &Vec<T>,
    cfg: &PreflopJamCfg<T>,
    rake: Rake<T::Wide>,
    build: &B,
) -> (r: Option<PreflopJamResult<T>>)
    requires
        are_jam_tables(hero_reach@, opp_reach@, equity@, blocking@, None),
        i32::MIN <= stack - c_hero <= i32::MAX,
        i32::MIN <= stack - c_opp <= i32::MAX,
        forall|c: &TreeConfig<T::Wide>| #[trigger] call_requires(*build, (c,)),
        forall|c: TreeConfig<T::Wide>, tree: FlatTree| #[trigger]
            builds(build, c, Ok(tree)) ==> jam_fits::<T>(&tree, cfg.plk as int),
    ensures
        match r {
            Some(res) => c_hero < c_opp && exists|tree: FlatTree, game: PreflopJamGame<T>| #[trigger]
                is_search(&tree, game, cfg, &res) && builds_jam(
                    build,
                    c_hero as int,
                    c_opp as int,
                    dead,
                    stack as int,
                    cfg.nraises as int,
                    rake,
                    Ok(tree),
                ) && is_jam_game(
                    &game,
                    hero_reach@,
                    opp_reach@,
                    equity,
                    blocking,
                    None,
                    stack,
                    rake,
                ),
            None => c_hero >= c_opp || exists|built: Result<FlatTree, String>| #[trigger]
                builds_jam(
                    build,
                    c_hero as int,
                    c_opp as int,
                    dead,
                    stack as int,
                    cfg.nraises as int,
                    rake,
                    built,
                ) && match built {
                    Ok(tree) => !starts_with_hero(&tree),
                    Err(_) => true,
                },
        },
{
    solve_preflop_search(
        c_hero,
        c_opp,
        dead,
        stack,
        hero_reach,
        opp_reach,
        equity,
        blocking,
        None,
        cfg,
        rake,
        build,
    )
}

} // verus!
