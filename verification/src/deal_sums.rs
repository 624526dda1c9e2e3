//! What deals are worth to the solvers: every card counts, by its chance.
use vstd::prelude::*;

use crate::bucketed_flop_cfr::{BucketSetting, BucketedFlopCfr};
use crate::exact::Exact;
use crate::flop_run::{river_chances, turn_chances, Play};
use crate::flop_start_vector_cfr::{FlopStartVectorCfr, Setting};
use crate::layout::row;
use crate::rows::{rows_set, sum_row};
use crate::scalar::{lemma_sum_ext, sum_upto, Scalar, Widen};
use crate::terminal::TerminalSpot;
use crate::zones::Zone;

verus! {

/// What hand `h` has at node `x` after each card, by the card's chance.
pub open spec fn card_worths<T: Scalar>(
    chances: spec_fn(int) -> Seq<T>,
    values: Seq<Seq<T>>,
    nh: int,
    x: int,
    h: int,
) -> spec_fn(int) -> T {
    |k: int| chances(k)[h] * row(values[k], nh, x)[h]
}

/// The rows of the marked nodes are what the values after all cards add up to, each by its
/// chance; the others are as they were.
pub open spec fn has_all_cards<T: Scalar>(
    was: Seq<T>,
    acc: Seq<T>,
    nh: int,
    size: int,
    marks: Seq<u32>,
    chances: spec_fn(int) -> Seq<T>,
    values: Seq<Seq<T>>,
) -> bool {
    forall|x: int|
        0 <= x < size ==> if marks.contains(x as u32) {
            &&& (#[trigger] row(acc, nh, x)).len() == nh
            &&& forall|h: int|
                0 <= h < nh ==> #[trigger] row(acc, nh, x)[h] == sum_upto(
                    card_worths(chances, values, nh, x, h),
                    values.len(),
                )
        } else {
            row(acc, nh, x) == row(was, nh, x)
        }
}

proof fn lemma_one_card_more<T: Scalar>(
    was: Seq<T>,
    mid: Seq<T>,
    acc: Seq<T>,
    nh: int,
    size: int,
    marks: Seq<u32>,
    chances: spec_fn(int) -> Seq<T>,
    values: Seq<Seq<T>>,
    cfv: Seq<T>,
)
    requires
        has_all_cards(was, mid, nh, size, marks, chances, values),
        rows_set(mid, acc, nh, size, marks, sum_row(mid, chances(values.len() as int), cfv, nh)),
    ensures
        has_all_cards(was, acc, nh, size, marks, chances, values.push(cfv)),
{
    let all = values.push(cfv);
    let n = values.len();
    assert forall|x: int| 0 <= x < size implies if marks.contains(x as u32) {
        &&& (#[trigger] row(acc, nh, x)).len() == nh
        &&& forall|h: int|
            0 <= h < nh ==> #[trigger] row(acc, nh, x)[h] == sum_upto(
                card_worths(chances, all, nh, x, h),
                all.len(),
            )
    } else {
        row(acc, nh, x) == row(was, nh, x)
    } by {
        let before = row(mid, nh, x);
        if marks.contains(x as u32) {
            assert(before.len() == nh);
            assert forall|h: int| 0 <= h < nh implies #[trigger] row(acc, nh, x)[h] == sum_upto(
                card_worths(chances, all, nh, x, h),
                all.len(),
            ) by {
                let f = card_worths(chances, values, nh, x, h);
                let g = card_worths(chances, all, nh, x, h);
                assert(before[h] == sum_upto(f, n));
                assert forall|k: int| 0 <= k < n implies #[trigger] f(k) == g(k) by {
                    assert(all[k] == values[k]);
                }
                lemma_sum_ext(f, g, n);
                assert(all[n as int] == cfv);
                assert(sum_upto(g, all.len()) == sum_upto(g, n) + g(n as int));
            }
        }
    }
}

impl<T: Widen> FlopStartVectorCfr<T> {
    /// The values of node rows that a pass over river place `rc` of turn place `tc` gives.
    pub open spec fn is_river_value<F: Fn(&TerminalSpot<T>) -> Vec<T>>(
        at_: &Setting<T, F>,
        tc: int,
        rc: int,
        cfv: Seq<T>,
    ) -> bool {
        exists|a: Self, b: Self, reach: Seq<T>, was: Seq<T>| #[trigger]
            a.passed(at_, Zone::River, tc, rc, reach, was, cfv, &b)
    }

    /// The same for turn place `tc`.
    pub open spec fn is_turn_value<F: Fn(&TerminalSpot<T>) -> Vec<T>>(
        at_: &Setting<T, F>,
        tc: int,
        cfv: Seq<T>,
    ) -> bool {
        exists|a: Self, b: Self, reach: Seq<T>, was: Seq<T>| #[trigger]
            a.passed(at_, Zone::Turn, tc, 0, reach, was, cfv, &b)
    }

    /// What the river deals of a turn card are worth is what all its rivers give, each by its
    /// chance.
    pub proof fn law_rivers_add_up<F: Fn(&TerminalSpot<T>) -> Vec<T>>(
        &self,
        at_: &Setting<T, F>,
        play: &Play<T>,
        tc: int,
        turn_reach: Seq<T>,
        acc0: Seq<T>,
        acc: Seq<T>,
        s: &Self,
        n: nat,
    ) -> (values: Seq<Seq<T>>)
        requires
            self.rivers_done(at_, play, tc, turn_reach, acc0, acc, s, n),
        ensures
            self.same_frame(s),
            values.len() == n,
            forall|k: int| 0 <= k < n ==> Self::is_river_value(at_, tc, k, #[trigger] values[k]),
            has_all_cards(
                acc0,
                acc,
                self.nh as int,
                at_.tree.size(),
                self.river_chance_children@,
                |k: int| river_chances(at_.table, at_.table.remaining_deck@[tc] as int, k),
                values,
            ),
        decreases n,
    {
        let nh = self.nh as int;
        let chances = |k: int| river_chances(at_.table, at_.table.remaining_deck@[tc] as int, k);
        if n == 0 {
            Seq::empty()
        } else {
            let m = (n - 1) as nat;
            let (sm, mid) = choose|sm: Self, mid: Seq<T>|
                self.rivers_done(at_, play, tc, turn_reach, acc0, mid, &sm, m)
                    && #[trigger] sm.river_step(at_, play, tc, n - 1, turn_reach, mid, acc, s);
            let values = self.law_rivers_add_up(at_, play, tc, turn_reach, acc0, mid, &sm, m);
            let (sp, reach, was, cfv) = choose|sp: Self, reach: Seq<T>, was: Seq<T>, cfv: Seq<T>|
                {
                    &&& sm.prepared(at_.tree, play, Zone::River, tc, n - 1, &sp)
                    &&& #[trigger] sp.passed(at_, Zone::River, tc, n - 1, reach, was, cfv, s)
                    &&& rows_set(
                        mid,
                        acc,
                        sm.nh as int,
                        at_.tree.size(),
                        sm.river_chance_children@,
                        sum_row(mid, chances(n - 1), cfv, sm.nh as int),
                    )
                };
            assert(Self::is_river_value(at_, tc, n - 1, cfv));
            lemma_one_card_more(
                acc0,
                mid,
                acc,
                nh,
                at_.tree.size(),
                self.river_chance_children@,
                chances,
                values,
                cfv,
            );
            let all = values.push(cfv);
            assert forall|k: int| 0 <= k < n implies Self::is_river_value(
                at_,
                tc,
                k,
                #[trigger] all[k],
            ) by {
                if k < m {
                    assert(all[k] == values[k]);
                }
            }
            all
        }
    }

    /// What the turn deals are worth is what all turns give, each by its chance.
    pub proof fn law_turns_add_up<F: Fn(&TerminalSpot<T>) -> Vec<T>>(
        &self,
        at_: &Setting<T, F>,
        play: &Play<T>,
        flop_reach: Seq<T>,
        acc0: Seq<T>,
        acc: Seq<T>,
        s: &Self,
        n: nat,
    ) -> (values: Seq<Seq<T>>)
        requires
            self.turns_done(at_, play, flop_reach, acc0, acc, s, n),
        ensures
            self.same_frame(s),
            values.len() == n,
            forall|k: int| 0 <= k < n ==> Self::is_turn_value(at_, k, #[trigger] values[k]),
            has_all_cards(
                acc0,
                acc,
                self.nh as int,
                at_.tree.size(),
                self.turn_chance_children@,
                |k: int| turn_chances(at_.table, k),
                values,
            ),
        decreases n,
    {
        let nh = self.nh as int;
        let chances = |k: int| turn_chances(at_.table, k);
        if n == 0 {
            Seq::empty()
        } else {
            let m = (n - 1) as nat;
            let (sm, mid) = choose|sm: Self, mid: Seq<T>|
                self.turns_done(at_, play, flop_reach, acc0, mid, &sm, m)
                    && #[trigger] sm.turn_step(at_, play, n - 1, flop_reach, mid, acc, s);
            let values = self.law_turns_add_up(at_, play, flop_reach, acc0, mid, &sm, m);
            let (sp, reach, r0, rivers, sr) = choose|
                sp: Self,
                reach: Seq<T>,
                r0: Seq<T>,
                rivers: Seq<T>,
                sr: Self,
            |
                {
                    &&& sm.turn_begun(at_.tree, play, n - 1, flop_reach, reach, &sp)
                    &&& #[trigger] sp.rivers_done(
                        at_,
                        play, n - 1,
                        reach,
                        r0,
                        rivers,
                        &sr,
                        sm.river_counts@[n - 1] as nat,
                    )
                    &&& sr.turn_ended(at_, n - 1, reach, rivers, mid, acc, s)
                };
            sp.law_rivers_add_up(
                at_,
                play, n - 1,
                reach,
                r0,
                rivers,
                &sr,
                sm.river_counts@[n - 1] as nat,
            );
            let (was, cfv) = choose|was: Seq<T>, cfv: Seq<T>|
                {
                    &&& #[trigger] sr.passed(at_, Zone::Turn, n - 1, 0, reach, was, cfv, s)
                    &&& rows_set(
                        mid,
                        acc,
                        sr.nh as int,
                        at_.tree.size(),
                        sr.turn_chance_children@,
                        sum_row(mid, chances(n - 1), cfv, sr.nh as int),
                    )
                };
            assert(Self::is_turn_value(at_, n - 1, cfv));
            lemma_one_card_more(
                acc0,
                mid,
                acc,
                nh,
                at_.tree.size(),
                self.turn_chance_children@,
                chances,
                values,
                cfv,
            );
            let all = values.push(cfv);
            assert forall|k: int| 0 <= k < n implies Self::is_turn_value(
                at_,
                k,
                #[trigger] all[k],
            ) by {
                if k < m {
                    assert(all[k] == values[k]);
                }
            }
            all
        }
    }
}

impl<T: Widen> BucketedFlopCfr<T> {
    /// The values of node rows that a pass over river place `rc` of turn place `tc` gives.
    pub open spec fn is_river_value(
        at_: &BucketSetting<T>,
        tc: int,
        rc: int,
        cfv: Seq<T>,
    ) -> bool {
        exists|a: Self, b: Self, reach: Seq<T>, was: Seq<T>| #[trigger]
            a.passed(at_, Zone::River, tc, rc, reach, was, cfv, &b)
    }

    /// The same for turn place `tc`.
    pub open spec fn is_turn_value(at_: &BucketSetting<T>, tc: int, cfv: Seq<T>) -> bool {
        exists|a: Self, b: Self, reach: Seq<T>, was: Seq<T>| #[trigger]
            a.passed(at_, Zone::Turn, tc, 0, reach, was, cfv, &b)
    }

    /// What the river deals of a turn card are worth is what all its rivers give, each by its
    /// chance.
    pub proof fn law_rivers_add_up(
        &self,
        at_: &BucketSetting<T>,
        tc: int,
        turn_reach: Seq<T>,
        acc0: Seq<T>,
        acc: Seq<T>,
        s: &Self,
        n: nat,
    ) -> (values: Seq<Seq<T>>)
        requires
            self.rivers_done(at_, tc, turn_reach, acc0, acc, s, n),
        ensures
            self.same_frame(s),
            values.len() == n,
            forall|k: int| 0 <= k < n ==> Self::is_river_value(at_, tc, k, #[trigger] values[k]),
            has_all_cards(
                acc0,
                acc,
                self.nh as int,
                at_.tree.size(),
                self.river_chance_children@,
                |k: int| river_chances(at_.table, at_.table.remaining_deck@[tc] as int, k),
                values,
            ),
        decreases n,
    {
        let nh = self.nh as int;
        let chances = |k: int| river_chances(at_.table, at_.table.remaining_deck@[tc] as int, k);
        if n == 0 {
            Seq::empty()
        } else {
            let m = (n - 1) as nat;
            let (sm, mid) = choose|sm: Self, mid: Seq<T>|
                self.rivers_done(at_, tc, turn_reach, acc0, mid, &sm, m)
                    && #[trigger] sm.river_step(at_, tc, n - 1, turn_reach, mid, acc, s);
            let values = self.law_rivers_add_up(at_, tc, turn_reach, acc0, mid, &sm, m);
            let (sp, reach, was, cfv) = choose|sp: Self, reach: Seq<T>, was: Seq<T>, cfv: Seq<T>|
                {
                    &&& sm.matched(at_.tree, Zone::River, tc, n - 1, &sp)
                    &&& #[trigger] sp.passed(at_, Zone::River, tc, n - 1, reach, was, cfv, s)
                    &&& rows_set(
                        mid,
                        acc,
                        sm.nh as int,
                        at_.tree.size(),
                        sm.river_chance_children@,
                        sum_row(mid, chances(n - 1), cfv, sm.nh as int),
                    )
                };
            assert(Self::is_river_value(at_, tc, n - 1, cfv));
            lemma_one_card_more(
                acc0,
                mid,
                acc,
                nh,
                at_.tree.size(),
                self.river_chance_children@,
                chances,
                values,
                cfv,
            );
            let all = values.push(cfv);
            assert forall|k: int| 0 <= k < n implies Self::is_river_value(
                at_,
                tc,
                k,
                #[trigger] all[k],
            ) by {
                if k < m {
                    assert(all[k] == values[k]);
                }
            }
            all
        }
    }

    /// What the turn deals are worth is what all turns give, each by its chance.
    pub proof fn law_turns_add_up(
        &self,
        at_: &BucketSetting<T>,
        flop_reach: Seq<T>,
        acc0: Seq<T>,
        acc: Seq<T>,
        s: &Self,
        n: nat,
    ) -> (values: Seq<Seq<T>>)
        requires
            self.turns_done(at_, flop_reach, acc0, acc, s, n),
        ensures
            self.same_frame(s),
            values.len() == n,
            forall|k: int| 0 <= k < n ==> Self::is_turn_value(at_, k, #[trigger] values[k]),
            has_all_cards(
                acc0,
                acc,
                self.nh as int,
                at_.tree.size(),
                self.turn_chance_children@,
                |k: int| turn_chances(at_.table, k),
                values,
            ),
        decreases n,
    {
        let nh = self.nh as int;
        let chances = |k: int| turn_chances(at_.table, k);
        if n == 0 {
            Seq::empty()
        } else {
            let m = (n - 1) as nat;
            let (sm, mid) = choose|sm: Self, mid: Seq<T>|
                self.turns_done(at_, flop_reach, acc0, mid, &sm, m)
                    && #[trigger] sm.turn_step(at_, n - 1, flop_reach, mid, acc, s);
            let values = self.law_turns_add_up(at_, flop_reach, acc0, mid, &sm, m);
            let (sp, reach, r0, rivers, sr) = choose|
                sp: Self,
                reach: Seq<T>,
                r0: Seq<T>,
                rivers: Seq<T>,
                sr: Self,
            |
                {
                    &&& sm.turn_begun(at_.tree, at_.bk, n - 1, flop_reach, reach, &sp)
                    &&& #[trigger] sp.rivers_done(
                        at_,
                        n - 1,
                        reach,
                        r0,
                        rivers,
                        &sr,
                        sm.river_counts@[n - 1] as nat,
                    )
                    &&& sr.turn_ended(at_, n - 1, reach, rivers, mid, acc, s)
                };
            sp.law_rivers_add_up(
                at_,
                n - 1,
                reach,
                r0,
                rivers,
                &sr,
                sm.river_counts@[n - 1] as nat,
            );
            let (was, cfv) = choose|was: Seq<T>, cfv: Seq<T>|
                {
                    &&& #[trigger] sr.passed(at_, Zone::Turn, n - 1, 0, reach, was, cfv, s)
                    &&& rows_set(
                        mid,
                        acc,
                        sr.nh as int,
                        at_.tree.size(),
                        sr.turn_chance_children@,
                        sum_row(mid, chances(n - 1), cfv, sr.nh as int),
                    )
                };
            assert(Self::is_turn_value(at_, n - 1, cfv));
            lemma_one_card_more(
                acc0,
                mid,
                acc,
                nh,
                at_.tree.size(),
                self.turn_chance_children@,
                chances,
                values,
                cfv,
            );
            let all = values.push(cfv);
            assert forall|k: int| 0 <= k < n implies Self::is_turn_value(
                at_,
                k,
                #[trigger] all[k],
            ) by {
                if k < m {
                    assert(all[k] == values[k]);
                }
            }
            all
        }
    }
}

} // verus!
