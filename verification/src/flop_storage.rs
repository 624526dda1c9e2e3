//! The stored state of a flop-start solver: reading it out, and keeping the
//! river part elsewhere.
use vstd::prelude::*;

use crate::bank::{block, room, spare, ZoneBank};
use crate::flop_start_vector_cfr::{FlopStartVectorCfr, RiverPersistenceMode};
use crate::layout::{
    at, copy_run, flat, lemma_at_bound, lemma_at_inj, lemma_flat_row, lemma_other_row,
    lemma_row_inside, only_row, row, row_copy,
};
use crate::scalar::{filled, sum_upto, Scalar, Widen};
use crate::tree::{FlatTree, MAX_NA_POSTFLOP, UNUSED};
use crate::zones::{lies_in, Zone, ZoneBook};

verus! {

/// Bytes of one stored number.
pub const ENTRY_BYTES: u64 = 4;

/// The lists hold the same, level by level.
pub open spec fn same_lists(a: Seq<Vec<u32>>, b: Seq<Vec<u32>>) -> bool {
    a.len() == b.len() && forall|d: int| 0 <= d < a.len() ==> (#[trigger] a[d])@ == b[d]@
}

fn copied_lists(src: &Vec<Vec<u32>>) -> (out: Vec<Vec<u32>>)
    ensures
        same_lists(out@, src@),
{
    let mut out: Vec<Vec<u32>> = Vec::new();
    let mut d: usize = 0;
    while d < src.len()
        invariant
            d <= src@.len(),
            out@.len() == d,
            forall|e: int| 0 <= e < d ==> (#[trigger] out@[e])@ == src@[e]@,
        decreases src@.len() - d,
    {
        out.push(row_copy(&src[d]));
        d += 1;
    }
    out
}

/// `ids` and `offs` list the decisions of `zone` in decision order, with their
/// infoset numbers.
pub open spec fn are_decisions(
    tree: &FlatTree,
    zones: Seq<Zone>,
    zone: Zone,
    book: &ZoneBook,
    ids: Seq<u32>,
    offs: Seq<u32>,
) -> bool {
    &&& ids == tree.decision_node_ids@.filter(lies_in(zones, zone))
    &&& offs == Seq::new(ids.len(), |k: int| book.local(ids[k] as int) as u32)
}

/// Lists the decisions of a zone.
fn decisions_of(tree: &FlatTree, zones: &Vec<Zone>, zone: Zone, book: &ZoneBook) -> (out: (
    Vec<u32>,
    Vec<u32>,
))
    requires
        tree.wf(),
        zones@.len() == tree.size(),
        book.of(tree, zones@, zone),
    ensures
        are_decisions(tree, zones@, zone, book, out.0@, out.1@),
{
    let ghost all = tree.decision_node_ids@;
    let ghost f = lies_in(zones@, zone);
    let mut ids: Vec<u32> = Vec::new();
    let mut offs: Vec<u32> = Vec::new();
    let mut k: usize = 0;
    proof {
        reveal_with_fuel(Seq::filter, 1);
        assert(all.take(0).filter(f) =~= Seq::<u32>::empty());
    }
    while k < tree.decision_node_ids.len()
        invariant
            k <= all.len(),
            all == tree.decision_node_ids@,
            f == lies_in(zones@, zone),
            tree.wf(),
            zones@.len() == tree.size(),
            book.of(tree, zones@, zone),
            ids@ == all.take(k as int).filter(f),
            offs@ == Seq::new(ids@.len(), |j: int| book.local(ids@[j] as int) as u32),
        decreases all.len() - k,
    {
        let id: u32 = tree.decision_node_ids[k];
        assert(all[k as int] < tree.size());
        let ghost ids0 = ids@;
        proof {
            reveal_with_fuel(Seq::filter, 1);
            assert(all.take(k + 1).drop_last() =~= all.take(k as int));
            assert(all.take(k + 1).last() == id);
        }
        if zones[id as usize] == zone {
            ids.push(id);
            offs.push(book.local_offset[id as usize] as u32);
            assert(offs@ =~= Seq::new(ids@.len(), |j: int| book.local(ids@[j] as int) as u32));
        }
        k += 1;
    }
    assert(all.take(k as int) =~= all);
    (ids, offs)
}

impl<T: Widen> FlopStartVectorCfr<T> {
    /// Zone nodes by level: river, turn, flop.
    pub fn zone_nodes_per_level(&self) -> (lists: (Vec<Vec<u32>>, Vec<Vec<u32>>, Vec<Vec<u32>>))
        ensures
            same_lists(lists.0@, self.river_book.nodes@),
            same_lists(lists.1@, self.turn_book.nodes@),
            same_lists(lists.2@, self.flop_book.nodes@),
    {
        (
            copied_lists(&self.river_book.nodes),
            copied_lists(&self.turn_book.nodes),
            copied_lists(&self.flop_book.nodes),
        )
    }

    /// Zone nodes by level: preflop, river, turn, flop.
    pub fn zone_nodes_per_level_with_preflop(&self) -> (lists: (
        Vec<Vec<u32>>,
        Vec<Vec<u32>>,
        Vec<Vec<u32>>,
        Vec<Vec<u32>>,
    ))
        ensures
            same_lists(lists.0@, self.preflop_book.nodes@),
            same_lists(lists.1@, self.river_book.nodes@),
            same_lists(lists.2@, self.turn_book.nodes@),
            same_lists(lists.3@, self.flop_book.nodes@),
    {
        (
            copied_lists(&self.preflop_book.nodes),
            copied_lists(&self.river_book.nodes),
            copied_lists(&self.turn_book.nodes),
            copied_lists(&self.flop_book.nodes),
        )
    }

    /// The preflop decisions with their infoset numbers.
    pub fn preflop_decision_nodes(&self, tree: &FlatTree) -> (out: (Vec<u32>, Vec<u32>))
        requires
            self.wf(tree),
        ensures
            are_decisions(
                tree,
                self.zones@,
                Zone::Preflop,
                &self.preflop_book,
                out.0@,
                out.1@,
            ),
    {
        decisions_of(tree, &self.zones, Zone::Preflop, &self.preflop_book)
    }

    /// The decisions of flop, turn and river with their infoset numbers.
    pub fn per_zone_decision_nodes(&self, tree: &FlatTree) -> (out: (
        Vec<u32>,
        Vec<u32>,
        Vec<u32>,
        Vec<u32>,
        Vec<u32>,
        Vec<u32>,
    ))
        requires
            self.wf(tree),
        ensures
            are_decisions(tree, self.zones@, Zone::Flop, &self.flop_book, out.0@, out.1@),
            are_decisions(tree, self.zones@, Zone::Turn, &self.turn_book, out.2@, out.3@),
            are_decisions(tree, self.zones@, Zone::River, &self.river_book, out.4@, out.5@),
    {
        let (a, b) = decisions_of(tree, &self.zones, Zone::Flop, &self.flop_book);
        let (c, d) = decisions_of(tree, &self.zones, Zone::Turn, &self.turn_book);
        let (e, f) = decisions_of(tree, &self.zones, Zone::River, &self.river_book);
        (a, b, c, d, e, f)
    }

    /// Entries of one turn and river pair.
    pub open spec fn pair_len(&self) -> int {
        self.river.infosets * room(self.nh as int)
    }

    /// Entries of all turn and river pairs.
    pub fn river_persistent_len(&self) -> (n: usize)
        requires
            self.n_turn * self.max_n_river * self.pair_len() <= usize::MAX,
            self.n_turn * self.max_n_river <= usize::MAX,
            self.river.wf(),
            self.river.width == self.nh,
        ensures
            n == self.n_turn * self.max_n_river * self.pair_len(),
    {
        let stride: usize = self.river.stride();
        self.n_turn * self.max_n_river * stride
    }

    /// Where a pair's entries start in a file.
    pub open spec fn pair_offset(&self, tc: int, rc: int) -> int {
        at(self.max_n_river as int, tc, rc) * (self.pair_len() * ENTRY_BYTES)
    }

    /// Where the entries of turn place `tc` and river place `rc` start in a
    /// file, in bytes.
    pub fn river_pair_byte_offset(&self, tc: usize, rc: usize) -> (off: u64)
        requires
            tc < self.n_turn,
            rc < self.max_n_river,
            self.n_turn * self.max_n_river * (self.pair_len() * ENTRY_BYTES) <= u64::MAX,
            self.n_turn * self.max_n_river <= usize::MAX,
            self.river.wf(),
            self.river.width == self.nh,
        ensures
            off == self.pair_offset(tc as int, rc as int),
    {
        let ghost pair = self.pair_len() * ENTRY_BYTES;
        let stride: usize = self.river.stride();
        proof {
            lemma_at_bound(self.max_n_river as int, self.n_turn as int, tc as int, rc as int);
            lemma_row_inside(
                pair,
                self.n_turn * self.max_n_river,
                at(self.max_n_river as int, tc as int, rc as int),
            );
        }
        let index: u64 = (tc * self.max_n_river + rc) as u64;
        assert(pair <= self.n_turn * self.max_n_river * pair);
        let bytes: u64 = stride as u64 * ENTRY_BYTES;
        index * bytes
    }

    /// Hands the full river buffers out, to be kept in files, and leaves room
    /// for one pair at a time.
    pub fn into_disk_backed(self, regrets_path: String, cum_strategy_path: String) -> (out: (
        FlopStartVectorCfr<T>,
        Vec<T>,
        Vec<T>,
    ))
        requires
            self.river_mode.in_memory(),
            self.river.wf(),
        ensures
            out.1@ == self.river.regrets@,
            out.2@ == self.river.cum@,
            ({
                let s = out.0;
                &&& s == (FlopStartVectorCfr {
                    river: s.river,
                    river_mode: s.river_mode,
                    current_river_pair: None,
                    ..self
                })
                &&& s.river_mode == (RiverPersistenceMode::DiskBacked {
                    regrets_path,
                    cum_strategy_path,
                })
                &&& s.river.wf()
                &&& s.river == (ZoneBank {
                    outcomes: 1,
                    regrets: s.river.regrets,
                    cum: s.river.cum,
                    ..self.river
                })
                &&& s.river.regrets@ == flat(T::s_zero(), self.river.strategy@.len() as int)
                &&& s.river.cum@ == flat(T::s_zero(), self.river.strategy@.len() as int)
            }),
    {
        let mut s = self;
        let stride: usize = s.river.stride();
        let infosets: usize = s.river.infosets;
        let mut regrets: Vec<T> = filled(T::zero(), stride);
        let mut cum: Vec<T> = filled(T::zero(), stride);
        std::mem::swap(&mut regrets, &mut s.river.regrets);
        std::mem::swap(&mut cum, &mut s.river.cum);
        s.river.outcomes = 1;
        s.river_mode = RiverPersistenceMode::DiskBacked { regrets_path, cum_strategy_path };
        s.current_river_pair = None;
        assert(1 * infosets * room(s.river.width as int) == infosets * room(s.river.width as int));
        assert(s.river.regrets@ =~= flat(T::s_zero(), self.river.strategy@.len() as int));
        assert(s.river.cum@ =~= flat(T::s_zero(), self.river.strategy@.len() as int));
        (s, regrets, cum)
    }

    /// Takes in the entries of one pair. With everything in memory nothing has
    /// to be taken in.
    pub fn load_river_pair(&mut self, tc: usize, rc: usize, regrets: Vec<T>, cum: Vec<T>)
        requires
            old(self).river.wf(),
            !old(self).river_mode.in_memory() ==> {
                &&& old(self).river.outcomes == 1
                &&& regrets@.len() == old(self).river.strategy@.len()
                &&& cum@.len() == old(self).river.strategy@.len()
            },
        ensures
            old(self).river_mode.in_memory() ==> *final(self) == *old(self),
            !old(self).river_mode.in_memory() ==> *final(self) == (FlopStartVectorCfr {
                river: ZoneBank { regrets, cum, ..old(self).river },
                current_river_pair: Some((tc, rc)),
                ..*old(self)
            }),
            final(self).river.wf(),
    {
        if !self.river_mode.in_memory() {
            self.river.regrets = regrets;
            self.river.cum = cum;
            self.current_river_pair = Some((tc, rc));
        }
    }

    /// The entries of the loaded pair, to be written back; nothing with
    /// everything in memory.
    pub fn save_river_pair(&self, tc: usize, rc: usize) -> (out: Option<(Vec<T>, Vec<T>)>)
        requires
            !self.river_mode.in_memory() ==> self.current_river_pair == Some((tc, rc)),
        ensures
            self.river_mode.in_memory() ==> out is None,
            !self.river_mode.in_memory() ==> (out matches Some(pair) && pair.0@
                == self.river.regrets@ && pair.1@ == self.river.cum@),
    {
        if self.river_mode.in_memory() {
            None
        } else {
            Some((row_copy(&self.river.regrets), row_copy(&self.river.cum)))
        }
    }

    pub fn river_mode(&self) -> (m: &RiverPersistenceMode)
        ensures
            *m == self.river_mode,
    {
        &self.river_mode
    }
}

/// The file ranges of two pairs do not overlap, and all lie inside the file.
pub proof fn law_pair_ranges_are_apart<T: Widen>(
    s: &FlopStartVectorCfr<T>,
    tc: int,
    rc: int,
    tc2: int,
    rc2: int,
)
    requires
        0 <= tc < s.n_turn,
        0 <= rc < s.max_n_river,
        0 <= tc2 < s.n_turn,
        0 <= rc2 < s.max_n_river,
        (tc, rc) != (tc2, rc2),
    ensures
        0 <= s.pair_offset(tc, rc),
        s.pair_offset(tc, rc) + s.pair_len() * ENTRY_BYTES <= s.n_turn * s.max_n_river * (
        s.pair_len() * ENTRY_BYTES),
        s.pair_offset(tc, rc) + s.pair_len() * ENTRY_BYTES <= s.pair_offset(tc2, rc2)
            || s.pair_offset(tc2, rc2) + s.pair_len() * ENTRY_BYTES <= s.pair_offset(tc, rc),
{
    let m = s.max_n_river as int;
    let len = s.pair_len() * ENTRY_BYTES;
    assert(0 <= s.pair_len()) by (nonlinear_arith)
        requires
            s.pair_len() == s.river.infosets * room(s.nh as int),
            room(s.nh as int) == 8 * s.nh,
    ;
    let a = at(m, tc, rc);
    let b = at(m, tc2, rc2);
    lemma_at_bound(m, s.n_turn as int, tc, rc);
    lemma_at_bound(m, s.n_turn as int, tc2, rc2);
    lemma_row_inside(len, s.n_turn * s.max_n_river, a);
    if a == b {
        lemma_at_inj(m, tc, rc, tc2, rc2);
    }
    if a < b {
        lemma_row_inside(len, b, a);
    } else {
        lemma_row_inside(len, a, b);
    }
}

/// The entries of a pair in a file of all pairs.
pub open spec fn pair_in<T: Widen>(s: &FlopStartVectorCfr<T>, file: Seq<T>, tc: int, rc: int) -> Seq<
    T,
> {
    row(file, s.pair_len(), at(s.max_n_river as int, tc, rc))
}

/// The file once the entries of a pair are written over.
pub open spec fn with_pair<T: Widen>(
    s: &FlopStartVectorCfr<T>,
    file: Seq<T>,
    tc: int,
    rc: int,
    entries: Seq<T>,
) -> Seq<T> {
    let from = at(s.max_n_river as int, tc, rc) * s.pair_len();
    Seq::new(
        file.len(),
        |i: int|
            if from <= i < from + s.pair_len() {
                entries[i - from]
            } else {
                file[i]
            },
    )
}

/// What is written at a pair's place in a file is read there again, and the other pairs
/// stay as they were. A pair's place in bytes is that of its entries.
pub proof fn law_saved_pair_loads_back<T: Widen>(
    s: &FlopStartVectorCfr<T>,
    file: Seq<T>,
    tc: int,
    rc: int,
    entries: Seq<T>,
    tc2: int,
    rc2: int,
)
    requires
        0 <= tc < s.n_turn,
        0 <= rc < s.max_n_river,
        0 <= tc2 < s.n_turn,
        0 <= rc2 < s.max_n_river,
        file.len() == s.n_turn * s.max_n_river * s.pair_len(),
    ensures
        s.pair_offset(tc, rc) == at(s.max_n_river as int, tc, rc) * s.pair_len() * ENTRY_BYTES,
        entries.len() == s.pair_len() ==> pair_in(s, with_pair(s, file, tc, rc, entries), tc, rc)
            == entries,
        (tc, rc) != (tc2, rc2) ==> pair_in(s, with_pair(s, file, tc, rc, entries), tc2, rc2)
            == pair_in(s, file, tc2, rc2),
{
    let m = s.max_n_river as int;
    let len = s.pair_len();
    let all = s.n_turn * s.max_n_river;
    let a = at(m, tc, rc);
    let b = at(m, tc2, rc2);
    let out = with_pair(s, file, tc, rc, entries);
    assert(0 <= len) by (nonlinear_arith)
        requires
            len == s.river.infosets * room(s.nh as int),
            room(s.nh as int) == 8 * s.nh,
    ;
    assert(a * (len * ENTRY_BYTES) == a * len * ENTRY_BYTES) by (nonlinear_arith);
    lemma_at_bound(m, s.n_turn as int, tc, rc);
    lemma_at_bound(m, s.n_turn as int, tc2, rc2);
    lemma_row_inside(len, all, a);
    lemma_row_inside(len, all, b);
    if entries.len() == len {
        assert(pair_in(s, out, tc, rc) =~= entries);
    }
    if (tc, rc) != (tc2, rc2) {
        if a == b {
            lemma_at_inj(m, tc, rc, tc2, rc2);
        }
        if a < b {
            lemma_row_inside(len, b, a);
        } else {
            lemma_row_inside(len, a, b);
        }
        assert(pair_in(s, out, tc2, rc2) =~= pair_in(s, file, tc2, rc2));
    }
}

/// A pair's own slice holds what the full buffers hold for the pair: playing
/// from the slice reads and writes the same infoset entries.
pub proof fn law_pair_slice_is_the_pair<T>(
    big: Seq<T>,
    w: int,
    infosets: int,
    outcomes: int,
    o: int,
    local: int,
    n: int,
)
    requires
        0 <= w,
        0 <= n <= MAX_NA_POSTFLOP,
        0 <= local < infosets,
        0 <= o < outcomes,
        big.len() == outcomes * infosets * room(w),
    ensures
        block(row(big, infosets * room(w), o), w, local, n) == block(
            big,
            w,
            at(infosets, o, local),
            n,
        ),
        spare(row(big, infosets * room(w), o), w, local, n) == spare(
            big,
            w,
            at(infosets, o, local),
            n,
        ),
{
    let big_row = room(w);
    let slice = row(big, infosets * big_row, o);
    let g = at(infosets, o, local);
    assert(outcomes * infosets * big_row == outcomes * (infosets * big_row)) by (nonlinear_arith);
    assert(0 <= infosets * big_row) by (nonlinear_arith)
        requires
            0 <= infosets,
            0 <= big_row,
    ;
    lemma_row_inside(infosets * big_row, outcomes, o);
    lemma_row_inside(big_row, infosets, local);
    lemma_at_bound(infosets, outcomes, o, local);
    lemma_row_inside(big_row, outcomes * infosets, g);
    assert(o * (infosets * big_row) + local * big_row == g * big_row) by (nonlinear_arith)
        requires
            g == o * infosets + local,
    ;
    assert(row(slice, big_row, local) =~= row(big, big_row, g));
}

/// The accumulated strategies of turn places at one entry.
pub open spec fn turn_entries<T: Widen>(s: &FlopStartVectorCfr<T>, i: int, a: int, h: int) -> spec_fn(
    int,
) -> T {
    |tc: int|
        row(
            s.turn.cum@,
            room(s.nh as int),
            at(s.turn.infosets as int, tc, s.turn_book.local(i)),
        )[at(s.nh as int, a, h)]
}

/// The accumulated strategies of the first `r` river places after turn place
/// `tc`, and of all those after the turn places before it, added up; and how many
/// they are.
pub open spec fn river_total<T: Widen>(
    s: &FlopStartVectorCfr<T>,
    i: int,
    a: int,
    h: int,
    tc: nat,
    r: nat,
) -> (T, nat)
    decreases tc, r,
{
    if r > 0 {
        let (sum, n) = river_total(s, i, a, h, tc, (r - 1) as nat);
        let here = row(
            s.river.cum@,
            room(s.nh as int),
            at(
                s.river.infosets as int,
                at(s.max_n_river as int, tc as int, r - 1),
                s.river_book.local(i),
            ),
        )[at(s.nh as int, a, h)];
        (sum.s_plus(here), n + 1)
    } else if tc > 0 {
        river_total(s, i, a, h, (tc - 1) as nat, s.river_counts@[tc - 1] as nat)
    } else {
        (T::s_zero(), 0)
    }
}

/// The entry of decision `i` in the flattened strategy: the flop's as it is, the
/// turn's and the river's averaged over the deals.
pub open spec fn flattened_entry<T: Widen>(s: &FlopStartVectorCfr<T>, i: int, a: int, h: int) -> T {
    match s.zones@[i] {
        Zone::Flop => row(s.flop.cum@, room(s.nh as int), s.flop_book.local(i))[at(
            s.nh as int,
            a,
            h,
        )],
        Zone::Turn => sum_upto(turn_entries(s, i, a, h), s.n_turn as nat).s_over(
            T::s_of(s.n_turn as int),
        ),
        Zone::River => {
            let (sum, n) = river_total(s, i, a, h, s.n_turn as nat, 0);
            if n > 0 {
                sum.s_over(T::s_of(n as int))
            } else {
                sum
            }
        },
        Zone::Preflop => T::s_zero(),
    }
}

/// `cum` holds every decision's flattened entries in its infoset's place, zeros
/// elsewhere; `offsets` says where.
pub open spec fn is_flattened<T: Widen>(
    s: &FlopStartVectorCfr<T>,
    tree: &FlatTree,
    cum: Seq<T>,
    offsets: Seq<usize>,
) -> bool {
    let w = s.nh as int;
    &&& cum.len() == tree.num_infosets * room(w)
    &&& offsets.len() == tree.size()
    &&& forall|i: int|
        tree.is_node(i) ==> #[trigger] offsets[i] == if tree.nodes@[i].is_player() {
            tree.infoset_offsets@[i] * room(w)
        } else {
            UNUSED as int
        }
    &&& forall|i: int|
        tree.is_node(i) && (#[trigger] tree.nodes@[i]).is_player() ==> flattened_at(s, tree, cum, i)
    &&& forall|g: int|
        0 <= g < tree.num_infosets && !is_infoset(tree, g) ==> #[trigger] row(cum, room(w), g)
            == flat(T::s_zero(), room(w))
}

/// Some decision has infoset number `g`.
pub open spec fn is_infoset(tree: &FlatTree, g: int) -> bool {
    exists|k: int|
        0 <= k < tree.decision_node_ids@.len() && tree.infoset_offsets@[(
        #[trigger] tree.decision_node_ids@[k]) as int] == g
}

/// The entries of decision `i` are in place.
pub open spec fn flattened_at<T: Widen>(
    s: &FlopStartVectorCfr<T>,
    tree: &FlatTree,
    cum: Seq<T>,
    i: int,
) -> bool {
    let w = s.nh as int;
    let n = tree.arity(i);
    let g = tree.infoset_offsets@[i] as int;
    &&& forall|a: int, h: int|
        0 <= a < n && 0 <= h < w ==> #[trigger] block(cum, w, g, n)[at(w, a, h)]
            == flattened_entry(s, i, a, h)
    &&& spare(cum, w, g, n) == flat(T::s_zero(), room(w) - n * w)
}

impl<T: Widen> FlopStartVectorCfr<T> {
    /// Entry `x` of infoset `local` in outcome `o`.
    fn cum_entry(bank: &ZoneBank<T>, o: usize, local: usize, x: usize) -> (v: T)
        requires
            bank.wf(),
            o < bank.outcomes,
            local < bank.infosets,
            x < room(bank.width as int),
        ensures
            v == row(
                bank.cum@,
                room(bank.width as int),
                at(bank.infosets as int, o as int, local as int),
            )[x as int],
    {
        let len: usize = bank.cum.len();
        proof {
            lemma_at_bound(
                bank.infosets as int,
                bank.outcomes as int,
                o as int,
                local as int,
            );
            lemma_row_inside(
                room(bank.width as int),
                bank.outcomes * bank.infosets,
                at(bank.infosets as int, o as int, local as int),
            );
        }
        bank.cum[(o * bank.infosets + local) * (MAX_NA_POSTFLOP * bank.width) + x]
    }

    /// The flattened entry of action `a` and hand `h` at decision `idx`.
    fn flatten_entry(&self, tree: &FlatTree, idx: usize, a: usize, h: usize) -> (v: T)
        requires
            self.wf(tree),
            self.river_mode.in_memory(),
            tree.is_node(idx as int),
            tree.nodes@[idx as int].is_player(),
            a < tree.arity(idx as int),
            h < self.nh,
        ensures
            v == flattened_entry(self, idx as int, a as int, h as int),
    {
        let ghost i = idx as int;
        let zone = self.zones[idx];
        let nh: usize = self.nh;
        proof {
            lemma_at_bound(nh as int, 8, a as int, h as int);
            assert(ZoneBook::owns(tree, self.zones@, zone, i));
        }
        let x: usize = a * nh + h;
        match zone {
            Zone::Flop => {
                proof {
                    self.flop_book.lemma_local(tree, self.zones@, zone, i);
                }
                Self::cum_entry(&self.flop, 0, self.flop_book.local_offset[idx], x)
            },
            Zone::Turn => {
                proof {
                    self.turn_book.lemma_local(tree, self.zones@, zone, i);
                }
                let local: usize = self.turn_book.local_offset[idx];
                let mut sum = T::zero();
                let mut tc: usize = 0;
                while tc < self.n_turn
                    invariant
                        tc <= self.n_turn,
                        self.turn.wf(),
                        self.turn.width == self.nh,
                        self.turn.outcomes == self.n_turn,
                        local == self.turn_book.local(i),
                        local < self.turn.infosets,
                        x == at(self.nh as int, a as int, h as int),
                        x < room(self.nh as int),
                        sum == sum_upto(turn_entries(self, i, a as int, h as int), tc as nat),
                    decreases self.n_turn - tc,
                {
                    sum = sum.plus(Self::cum_entry(&self.turn, tc, local, x));
                    tc += 1;
                }
                sum.over(T::of_usize(self.n_turn))
            },
            Zone::River => {
                proof {
                    self.river_book.lemma_local(tree, self.zones@, zone, i);
                }
                let local: usize = self.river_book.local_offset[idx];
                let mut sum = T::zero();
                let mut count: usize = 0;
                let mut tc: usize = 0;
                while tc < self.n_turn
                    invariant
                        tc <= self.n_turn,
                        self.wf(tree),
                        self.river_mode.in_memory(),
                        local == self.river_book.local(i),
                        local < self.river.infosets,
                        x == at(self.nh as int, a as int, h as int),
                        x < room(self.nh as int),
                        count <= tc * self.max_n_river,
                        (sum, count as nat) == river_total(
                            self,
                            i,
                            a as int,
                            h as int,
                            tc as nat,
                            0,
                        ),
                    decreases self.n_turn - tc,
                {
                    let n: usize = self.river_counts[tc];
                    assert(self.river_counts@[tc as int] <= self.max_n_river);
                    let mut rc: usize = 0;
                    while rc < n
                        invariant
                            rc <= n,
                            tc < self.n_turn,
                            n == self.river_counts@[tc as int],
                            n <= self.max_n_river,
                            self.wf(tree),
                            self.river_mode.in_memory(),
                            local == self.river_book.local(i),
                            local < self.river.infosets,
                            x == at(self.nh as int, a as int, h as int),
                            x < room(self.nh as int),
                            count <= tc * self.max_n_river + rc,
                            (sum, count as nat) == river_total(
                                self,
                                i,
                                a as int,
                                h as int,
                                tc as nat,
                                rc as nat,
                            ),
                        decreases n - rc,
                    {
                        let o: usize = self.river_place(tc, rc);
                        proof {
                            lemma_at_bound(
                                self.max_n_river as int,
                                self.n_turn as int,
                                tc as int,
                                rc as int,
                            );
                        }
                        sum = sum.plus(Self::cum_entry(&self.river, o, local, x));
                        count += 1;
                        rc += 1;
                    }
                    proof {
                        assert(tc * self.max_n_river + self.max_n_river == (tc + 1)
                            * self.max_n_river) by (nonlinear_arith);
                    }
                    tc += 1;
                }
                if count > 0 {
                    sum.over(T::of_usize(count))
                } else {
                    sum
                }
            },
            Zone::Preflop => T::zero(),
        }
    }

    /// The average strategy by infoset of the tree: flop entries as they are,
    /// turn entries averaged over the turn cards, river entries over all turn and
    /// river cards.
    pub fn flattened_cum_strategy(&self, tree: &FlatTree) -> (out: (Vec<T>, Vec<usize>))
        requires
            self.wf(tree),
            self.river_mode.in_memory(),
            tree.num_infosets * room(self.nh as int) <= usize::MAX,
        ensures
            is_flattened(self, tree, out.0@, out.1@),
    {
        let nn: usize = tree.num_nodes();
        let nh: usize = self.nh;
        let ghost w = nh as int;
        let ghost big = room(w);
        let ghost ids = tree.decision_node_ids@;
        let one: usize = MAX_NA_POSTFLOP * nh;
        let total: usize = tree.num_infosets as usize * one;
        let ghost all = tree.num_infosets as int;
        let mut cum: Vec<T> = filled(T::zero(), total);
        let mut offsets: Vec<usize> = filled(UNUSED, nn);
        assert(cum@ =~= flat(T::s_zero(), all * big));
        proof {
            assert forall|g: int| 0 <= g < all implies #[trigger] row(cum@, big, g) == flat(
                T::s_zero(),
                big,
            ) by {
                lemma_flat_row(T::s_zero(), big, all, g);
            }
        }
        let mut k: usize = 0;
        while k < tree.decision_node_ids.len()
            invariant
                k <= ids.len(),
                ids == tree.decision_node_ids@,
                self.wf(tree),
                self.river_mode.in_memory(),
                nn == tree.size(),
                nh == self.nh,
                w == nh,
                big == room(w),
                one == big,
                all == tree.num_infosets,
                total == all * big,
                cum@.len() == total,
                offsets@.len() == nn,
                forall|j: int|
                    0 <= j < k ==> offsets@[(#[trigger] ids[j]) as int]
                        == tree.infoset_offsets@[ids[j] as int] * big,
                forall|i: int|
                    tree.is_node(i) && !tree.nodes@[i].is_player() ==> #[trigger] offsets@[i]
                        == UNUSED,
                forall|j: int|
                    0 <= j < k ==> flattened_at(self, tree, cum@, (#[trigger] ids[j]) as int),
                forall|g: int|
                    0 <= g < all && !(exists|j: int|
                        0 <= j < k && tree.infoset_offsets@[(#[trigger] ids[j]) as int] == g)
                        ==> #[trigger] row(cum@, big, g) == flat(T::s_zero(), big),
            decreases ids.len() - k,
        {
            let idx: usize = tree.decision_node_ids[k] as usize;
            let ghost i = ids[k as int] as int;
            assert(i == idx && tree.nodes@[i].is_player());
            assert(tree.infoset_offsets@[i] < tree.num_infosets);
            let na: usize = tree.nodes[idx].num_children as usize;
            let ghost n = na as int;
            let g: usize = tree.infoset_offsets[idx] as usize;
            proof {
                lemma_row_inside(big, all, g as int);
                assert(n * w <= big && 0 <= n * w) by (nonlinear_arith)
                    requires
                        0 <= n <= 8,
                        0 <= w,
                        big == 8 * w,
                ;
            }
            let off: usize = g * one;
            let len: usize = na * nh;
            let mut vals: Vec<T> = Vec::new();
            let mut a: usize = 0;
            while a < na
                invariant
                    a <= na,
                    n == na,
                    self.wf(tree),
                    self.river_mode.in_memory(),
                    tree.is_node(idx as int),
                    i == idx,
                    tree.nodes@[i].is_player(),
                    na == tree.arity(i),
                    nh == self.nh,
                    w == nh,
                    vals@.len() == a * w,
                    forall|c: int, h: int|
                        0 <= c < a && 0 <= h < w ==> #[trigger] vals@[at(w, c, h)]
                            == flattened_entry(self, i, c, h),
                decreases na - a,
            {
                let mut h: usize = 0;
                while h < nh
                    invariant
                        h <= nh,
                        a < na,
                        self.wf(tree),
                        self.river_mode.in_memory(),
                        tree.is_node(idx as int),
                        i == idx,
                        tree.nodes@[i].is_player(),
                        na == tree.arity(i),
                        nh == self.nh,
                        w == nh,
                        vals@.len() == a * w + h,
                        forall|c: int, j: int|
                            0 <= c < a && 0 <= j < w || c == a && 0 <= j < h ==> #[trigger] vals@[at(
                                w,
                                c,
                                j,
                            )] == flattened_entry(self, i, c, j),
                    decreases nh - h,
                {
                    let ghost before = vals@;
                    vals.push(self.flatten_entry(tree, idx, a, h));
                    proof {
                        assert forall|c: int, j: int|
                            0 <= c < a && 0 <= j < w || c == a && 0 <= j < h
                                + 1 implies #[trigger] vals@[at(w, c, j)] == flattened_entry(
                            self,
                            i,
                            c,
                            j,
                        ) by {
                            if c < a {
                                lemma_at_bound(w, a as int, c, j);
                                assert(before[at(w, c, j)] == vals@[at(w, c, j)]);
                            } else if j < h {
                                assert(before[at(w, c, j)] == vals@[at(w, c, j)]);
                            }
                        }
                    }
                    h += 1;
                }
                proof {
                    assert(a * w + w == (a + 1) * w) by (nonlinear_arith);
                }
                a += 1;
            }
            let ghost was = cum@;
            copy_run(vals.as_slice(), 0, &mut cum, off, len);
            let ghost offs0 = offsets@;
            offsets[idx] = off;
            proof {
                assert(only_row(was, cum@, big, g as int));
                assert(vals@.subrange(0, n * w) =~= vals@);
                assert(cum@.subrange(off as int, off + n * w) =~= block(cum@, w, g as int, n));
                assert(row(was, big, g as int) == flat(T::s_zero(), big)) by {
                    if exists|j: int|
                        0 <= j < k && tree.infoset_offsets@[(#[trigger] ids[j]) as int] == g {
                        let j = choose|j: int|
                            0 <= j < k && tree.infoset_offsets@[(#[trigger] ids[j]) as int] == g;
                        assert(ids[j] as int != ids[k as int] as int || j == k);
                        assert(tree.infoset_offsets@[ids[j] as int]
                            == tree.infoset_offsets@[ids[k as int] as int]);
                    }
                }
                assert(spare(cum@, w, g as int, n) =~= flat(T::s_zero(), big - n * w)) by {
                    assert forall|x: int| 0 <= x < big - n * w implies spare(
                        cum@,
                        w,
                        g as int,
                        n,
                    )[x] == T::s_zero() by {
                        assert(row(was, big, g as int)[n * w + x] == T::s_zero());
                    }
                }
                assert(flattened_at(self, tree, cum@, i));
                assert forall|j: int| 0 <= j < k + 1 implies flattened_at(
                    self,
                    tree,
                    cum@,
                    (#[trigger] ids[j]) as int,
                ) by {
                    if j < k {
                        let m = ids[j] as int;
                        let g2 = tree.infoset_offsets@[m] as int;
                        assert(flattened_at(self, tree, was, m));
                        if g2 == g {
                            assert(tree.infoset_offsets@[ids[j] as int]
                                == tree.infoset_offsets@[ids[k as int] as int]);
                        }
                        lemma_row_inside(big, all, g2);
                        lemma_other_row(was, cum@, big, g as int, g2);
                        assert(block(cum@, w, g2, tree.arity(m)) == block(
                            was,
                            w,
                            g2,
                            tree.arity(m),
                        ));
                        assert(spare(cum@, w, g2, tree.arity(m)) == spare(
                            was,
                            w,
                            g2,
                            tree.arity(m),
                        ));
                    }
                }
                assert forall|h: int|
                    0 <= h < all && !(exists|j: int|
                        0 <= j < k + 1 && tree.infoset_offsets@[(#[trigger] ids[j]) as int]
                            == h) implies #[trigger] row(cum@, big, h) == flat(
                    T::s_zero(),
                    big,
                ) by {
                    assert(tree.infoset_offsets@[ids[k as int] as int] != h);
                    assert(row(was, big, h) == flat(T::s_zero(), big));
                    lemma_row_inside(big, all, h);
                    lemma_other_row(was, cum@, big, g as int, h);
                }
                assert forall|j: int| 0 <= j < k + 1 implies offsets@[(#[trigger] ids[j]) as int]
                    == tree.infoset_offsets@[ids[j] as int] * big by {
                    if j < k {
                        assert(ids[j] != ids[k as int]);
                        assert(offs0[ids[j] as int] == tree.infoset_offsets@[ids[j] as int] * big);
                    }
                }
            }
            k += 1;
        }
        proof {
            assert forall|i: int|
                tree.is_node(i) && (#[trigger] tree.nodes@[i]).is_player() implies flattened_at(
                self,
                tree,
                cum@,
                i,
            ) by {
                assert(ids.contains(i as u32));
                let j = choose|j: int| 0 <= j < ids.len() && ids[j] == i as u32;
                assert(flattened_at(self, tree, cum@, ids[j] as int));
            }
            assert forall|i: int| tree.is_node(i) implies #[trigger] offsets@[i]
                == if tree.nodes@[i].is_player() {
                tree.infoset_offsets@[i] * room(w)
            } else {
                UNUSED as int
            } by {
                if tree.nodes@[i].is_player() {
                    assert(ids.contains(i as u32));
                    let j = choose|j: int| 0 <= j < ids.len() && ids[j] == i as u32;
                    assert(offsets@[ids[j] as int] == tree.infoset_offsets@[ids[j] as int] * big);
                }
            }
        }
        (cum, offsets)
    }
}

} // verus!
