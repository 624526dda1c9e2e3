//! One bottom-up pass over a zone: values first, then learning.
use vstd::prelude::*;

use crate::bank::{room, ZoneBank};
use crate::layout::{at, lemma_row_inside, row};
use crate::learn::{is_learner_row, learned_at, learns, weights, DcfrParams};
use crate::rows::same_row;
use crate::scalar::Scalar;
use crate::sweep::{settled, zone_values, Lens};
use crate::tree::FlatTree;
use crate::zones::{Zone, ZoneBook};

verus! {

/// `cfv` holds the values of the zone: terminals as `tv` says, every other node
/// from its children; rows outside the zone are those of `was`.
pub open spec fn zone_valued<T: Scalar>(
    tree: &FlatTree,
    zones: Seq<Zone>,
    zone: Zone,
    book: &ZoneBook,
    lens: &Lens,
    strategy: Seq<T>,
    nh: int,
    traverser: u8,
    tv: spec_fn(int) -> Seq<T>,
    was: Seq<T>,
    cfv: Seq<T>,
) -> bool {
    &&& cfv.len() == was.len()
    &&& forall|i: int|
        tree.is_node(i) && zones[i] == zone && tree.nodes@[i].is_terminal() ==> #[trigger] row(
            cfv,
            nh,
            i,
        ) == tv(i)
    &&& forall|i: int|
        tree.is_node(i) && zones[i] == zone ==> #[trigger] settled(
            tree,
            book,
            lens,
            strategy,
            nh,
            traverser,
            cfv,
            cfv,
            i,
        )
    &&& forall|i: int|
        tree.is_node(i) && zones[i] != zone ==> #[trigger] row(cfv, nh, i) == row(was, nh, i)
}

/// The buffers learned the values `v` for outcome `o`: the traverser's decisions
/// were updated, everything else stayed.
pub open spec fn bank_learned<T: Scalar>(
    tree: &FlatTree,
    zones: Seq<Zone>,
    zone: Zone,
    book: &ZoneBook,
    lens: &Lens,
    omega: Option<Seq<T>>,
    v: Seq<T>,
    nh: int,
    traverser: u8,
    p: &DcfrParams<T>,
    o: int,
    was: &ZoneBank<T>,
    bank: &ZoneBank<T>,
) -> bool {
    &&& bank.for_book(book)
    &&& bank.width == was.width
    &&& bank.outcomes == was.outcomes
    &&& bank.strategy == was.strategy
    &&& forall|i: int| #[trigger]
        learns(tree, zones, zone, traverser, i) ==> learned_at(
            tree,
            lens,
            omega,
            v,
            nh,
            p,
            was.strategy@,
            book.local(i),
            at(book.infoset_count as int, o, book.local(i)),
            i,
            was.regrets@,
            was.cum@,
            bank.regrets@,
            bank.cum@,
        )
    &&& forall|g: int|
        0 <= g < was.outcomes * was.infosets && !is_learner_row(
            tree,
            zones,
            zone,
            book,
            traverser,
            o,
            g,
        ) ==> #[trigger] row(bank.regrets@, room(was.width as int), g) == row(
            was.regrets@,
            room(was.width as int),
            g,
        )
    &&& forall|g: int|
        0 <= g < was.outcomes * was.infosets && !is_learner_row(
            tree,
            zones,
            zone,
            book,
            traverser,
            o,
            g,
        ) ==> #[trigger] row(bank.cum@, room(was.width as int), g) == row(
            was.cum@,
            room(was.width as int),
            g,
        )
}

impl<T: Scalar> ZoneBank<T> {
    /// Values the zone bottom up and, unless it is frozen, learns from it.
    pub fn pass(
        &mut self,
        tree: &FlatTree,
        zones: &Vec<Zone>,
        zone: Zone,
        book: &ZoneBook,
        lens: &Lens,
        omega: Option<&Vec<T>>,
        nh: usize,
        traverser: u8,
        terminal: &Vec<T>,
        cfv: &mut Vec<T>,
        p: &DcfrParams<T>,
        o: usize,
        frozen: bool,
    )
        requires
            tree.wf(),
            tree.fits_postflop(),
            zones@.len() == tree.size(),
            book.of(tree, zones@, zone),
            old(self).for_book(book),
            old(self).width == lens.width,
            o < old(self).outcomes,
            lens.wf(nh as int),
            terminal@.len() == tree.size() * nh,
            old(cfv)@.len() == tree.size() * nh,
            omega is None ==> lens.width == nh,
            weights(omega) matches Some(om) ==> om.len() == nh,
        ensures
            zone_valued(
                tree,
                zones@,
                zone,
                book,
                lens,
                old(self).strategy@,
                nh as int,
                traverser,
                same_row(terminal@, nh as int),
                old(cfv)@,
                final(cfv)@,
            ),
            frozen ==> *final(self) == *old(self),
            !frozen ==> bank_learned(
                tree,
                zones@,
                zone,
                book,
                lens,
                weights(omega),
                final(cfv)@,
                nh as int,
                traverser,
                p,
                o as int,
                &*old(self),
                &*final(self),
            ),
    {
        let ghost was = cfv@;
        let ghost s = self.strategy@;
        let ghost nhi = nh as int;
        zone_values(
            tree,
            zones,
            zone,
            book,
            lens,
            &self.strategy,
            nh,
            traverser,
            terminal,
            cfv,
        );
        proof {
            let v = cfv@;
            assert forall|i: int|
                tree.is_node(i) && zones@[i] == zone && tree.nodes@[i].is_terminal() implies #[trigger] row(
                v,
                nhi,
                i,
            ) == same_row(terminal@, nhi)(i) by {
                lemma_row_inside(nhi, tree.size(), i);
                assert(settled(tree, book, lens, s, nhi, traverser, terminal@, v, i));
                assert forall|h: int| 0 <= h < nhi implies row(v, nhi, i)[h] == row(
                    terminal@,
                    nhi,
                    i,
                )[h] by {
                    assert(v[at(nhi, i, h)] == terminal@[at(nhi, i, h)]);
                }
                assert(row(v, nhi, i) =~= row(terminal@, nhi, i));
            }
            assert forall|i: int| tree.is_node(i) && zones@[i] == zone implies #[trigger] settled(
                tree,
                book,
                lens,
                s,
                nhi,
                traverser,
                v,
                v,
                i,
            ) by {
                assert(settled(tree, book, lens, s, nhi, traverser, terminal@, v, i));
            }
        }
        if !frozen {
            self.learn(tree, zones, zone, book, lens, omega, cfv, nh, traverser, p, o);
        }
    }
}

} // verus!
