//! River buffers in files: the order of the pairs, and what the files keep.
use vstd::prelude::*;

use crate::flop_start_vector_cfr::FlopStartVectorCfr;
use crate::flop_storage::{law_saved_pair_loads_back, pair_in, with_pair};
use crate::scalar::Widen;

verus! {

/// The deck has turn place `p.0`, and after it river place `p.1`.
pub open spec fn is_pair(counts: Seq<usize>, p: (usize, usize)) -> bool {
    p.0 < counts.len() && p.1 < counts[p.0 as int]
}

/// Pair `p` is played after pair `q`: on a later turn, or as a later river of the same.
pub open spec fn comes_after(p: (usize, usize), q: (usize, usize)) -> bool {
    q.0 < p.0 || q.0 == p.0 && q.1 < p.1
}

/// Pair `p` is still to come once `last` was played.
pub open spec fn is_to_come(counts: Seq<usize>, last: Option<(usize, usize)>, p: (usize, usize)) -> bool {
    is_pair(counts, p) && (last matches Some(l) ==> comes_after(p, l))
}

/// `next` is the first pair that is still to come, if there is one.
pub open spec fn is_next(
    counts: Seq<usize>,
    last: Option<(usize, usize)>,
    next: Option<(usize, usize)>,
) -> bool {
    match next {
        Some(p) => is_to_come(counts, last, p) && forall|q: (usize, usize)| #[trigger]
            is_to_come(counts, last, q) ==> q == p || comes_after(q, p),
        None => forall|q: (usize, usize)| !#[trigger] is_to_come(counts, last, q),
    }
}

/// The pair of turn and river places to play after `last`: `counts` holds the number of
/// river cards of every turn place. Every pair that is dealt comes once and in order, turn
/// by turn.
pub fn next_pair(n_turn: usize, counts: &[usize], last: Option<(usize, usize)>) -> (next: Option<
    (usize, usize),
>)
    requires
        counts@.len() == n_turn,
        last matches Some(l) ==> is_pair(counts@, l),
    ensures
        is_next(counts@, last, next),
{
    let mut tc: usize = 0;
    let mut rc: usize = 0;
    if let Some((t, r)) = last {
        tc = t;
        rc = r + 1;
    }
    while tc < n_turn
        invariant
            tc <= n_turn,
            counts@.len() == n_turn,
            forall|q: (usize, usize)| #[trigger]
                is_to_come(counts@, last, q) <==> is_pair(counts@, q) && (tc < q.0 || tc == q.0
                    && rc <= q.1),
        decreases n_turn - tc,
    {
        if rc < counts[tc] {
            assert(is_to_come(counts@, last, (tc, rc)));
            return Some((tc, rc));
        }
        tc += 1;
        rc = 0;
    }
    None
}

/// `pairs` is what [`next_pair`] gives when it is asked again and again, from the start to
/// the end.
pub open spec fn is_schedule(counts: Seq<usize>, pairs: Seq<(usize, usize)>) -> bool {
    forall|k: int|
        0 <= k <= pairs.len() ==> #[trigger] is_next(
            counts,
            before(pairs, k),
            pair_at(pairs, k),
        )
}

/// The pair at place `k`, if there is one.
pub open spec fn pair_at(pairs: Seq<(usize, usize)>, k: int) -> Option<(usize, usize)> {
    if k < pairs.len() {
        Some(pairs[k])
    } else {
        None
    }
}

/// The pair before place `k`.
pub open spec fn before(pairs: Seq<(usize, usize)>, k: int) -> Option<(usize, usize)> {
    if k == 0 {
        None
    } else {
        Some(pairs[k - 1])
    }
}

/// Asked again and again, [`next_pair`] gives every pair that is dealt, each once, and in
/// order.
pub proof fn law_every_pair_comes_once(counts: Seq<usize>, pairs: Seq<(usize, usize)>)
    requires
        is_schedule(counts, pairs),
    ensures
        forall|p: (usize, usize)| #[trigger] pairs.contains(p) <==> is_pair(counts, p),
        forall|j: int, k: int|
            0 <= j < k < pairs.len() ==> comes_after(#[trigger] pairs[k], #[trigger] pairs[j]),
        pairs.no_duplicates(),
{
    let n = pairs.len() as int;
    assert forall|j: int, k: int| 0 <= j < k < n implies comes_after(
        #[trigger] pairs[k],
        #[trigger] pairs[j],
    ) by {
        lemma_later(counts, pairs, j, k);
    }
    assert forall|k: int| 0 <= k < n implies is_pair(counts, #[trigger] pairs[k]) by {
        assert(is_next(counts, before(pairs, k), pair_at(pairs, k)));
    }
    assert forall|p: (usize, usize)| is_pair(counts, p) implies #[trigger] pairs.contains(p) by {
        lemma_comes(counts, pairs, p, n);
        assert(is_next(counts, before(pairs, n), pair_at(pairs, n)));
        assert(!is_to_come(counts, before(pairs, n), p));
    }
}

proof fn lemma_later(counts: Seq<usize>, pairs: Seq<(usize, usize)>, j: int, k: int)
    requires
        is_schedule(counts, pairs),
        0 <= j < k < pairs.len(),
    ensures
        comes_after(pairs[k], pairs[j]),
    decreases k,
{
    assert(is_next(counts, before(pairs, k), pair_at(pairs, k)));
    if j < k - 1 {
        lemma_later(counts, pairs, j, k - 1);
    }
}

/// A pair is among the first `k`, or still to come.
proof fn lemma_comes(counts: Seq<usize>, pairs: Seq<(usize, usize)>, p: (usize, usize), k: int)
    requires
        is_schedule(counts, pairs),
        is_pair(counts, p),
        0 <= k <= pairs.len(),
    ensures
        pairs.contains(p) || is_to_come(counts, before(pairs, k), p),
    decreases k,
{
    if k > 0 {
        lemma_comes(counts, pairs, p, k - 1);
        assert(is_next(counts, before(pairs, k - 1), pair_at(pairs, k - 1)));
        if is_to_come(counts, before(pairs, k - 1), p) && p == pairs[k - 1] {
            assert(pairs.contains(p));
        }
    }
}

/// What the two files hold.
pub struct RiverFiles<T> {
    pub regrets: Seq<T>,
    pub cum: Seq<T>,
}

/// What a solver with its river buffers in files does next.
pub enum FileStep {
    /// Reads a pair from the files.
    Load { tc: usize, rc: usize },
    /// Writes the loaded pair back.
    Save { tc: usize, rc: usize },
    /// Changes the entries that it holds, not the files.
    Play,
}

impl FileStep {
    /// The step is within the files, and does not write pair `(tc, rc)`.
    pub open spec fn spares(&self, n_turn: int, max_n_river: int, tc: usize, rc: usize) -> bool {
        self matches FileStep::Save { tc: t, rc: r } ==> t < n_turn && r < max_n_river && (*t
            != tc || *r != rc)
    }
}

/// One step from solver `s` with files `f` to solver `s2` with files `f2`: a load hands
/// [`FlopStartVectorCfr::load_river_pair`] the entries of the pair, and a save writes what
/// [`FlopStartVectorCfr::save_river_pair`] gives over them.
pub open spec fn makes_step<T: Widen>(
    step: FileStep,
    s: &FlopStartVectorCfr<T>,
    f: RiverFiles<T>,
    s2: &FlopStartVectorCfr<T>,
    f2: RiverFiles<T>,
) -> bool {
    &&& s2.n_turn == s.n_turn
    &&& s2.max_n_river == s.max_n_river
    &&& s2.pair_len() == s.pair_len()
    &&& match step {
        FileStep::Load { tc, rc } => {
            &&& f2 == f
            &&& s2.river.regrets@ == pair_in(s, f.regrets, tc as int, rc as int)
            &&& s2.river.cum@ == pair_in(s, f.cum, tc as int, rc as int)
            &&& s2.current_river_pair == Some((tc, rc))
        },
        FileStep::Save { tc, rc } => {
            &&& *s2 == *s
            &&& s.current_river_pair == Some((tc, rc))
            &&& f2.regrets == with_pair(s, f.regrets, tc as int, rc as int, s.river.regrets@)
            &&& f2.cum == with_pair(s, f.cum, tc as int, rc as int, s.river.cum@)
        },
        FileStep::Play => f2 == f,
    }
}

/// The steps, one after the other.
pub open spec fn makes_steps<T: Widen>(
    steps: Seq<FileStep>,
    s: &FlopStartVectorCfr<T>,
    f: RiverFiles<T>,
    s2: &FlopStartVectorCfr<T>,
    f2: RiverFiles<T>,
) -> bool
    decreases steps.len(),
{
    if steps.len() == 0 {
        *s2 == *s && f2 == f
    } else {
        exists|sm: FlopStartVectorCfr<T>, fm: RiverFiles<T>|
            makes_steps(steps.drop_last(), s, f, &sm, fm) && #[trigger] makes_step(
                steps.last(),
                &sm,
                fm,
                s2,
                f2,
            )
    }
}

/// The files hold every pair.
pub open spec fn hold_all<T: Widen>(s: &FlopStartVectorCfr<T>, f: RiverFiles<T>) -> bool {
    &&& f.regrets.len() == s.n_turn * s.max_n_river * s.pair_len()
    &&& f.cum.len() == s.n_turn * s.max_n_river * s.pair_len()
}

proof fn lemma_pair_stays<T: Widen>(
    steps: Seq<FileStep>,
    s: &FlopStartVectorCfr<T>,
    f: RiverFiles<T>,
    s2: &FlopStartVectorCfr<T>,
    f2: RiverFiles<T>,
    tc: usize,
    rc: usize,
)
    requires
        hold_all(s, f),
        tc < s.n_turn,
        rc < s.max_n_river,
        forall|k: int|
            0 <= k < steps.len() ==> (#[trigger] steps[k]).spares(
                s.n_turn as int,
                s.max_n_river as int,
                tc,
                rc,
            ),
        makes_steps(steps, s, f, s2, f2),
    ensures
        hold_all(s2, f2),
        s2.n_turn == s.n_turn,
        s2.max_n_river == s.max_n_river,
        s2.pair_len() == s.pair_len(),
        pair_in(s2, f2.regrets, tc as int, rc as int) == pair_in(
            s,
            f.regrets,
            tc as int,
            rc as int,
        ),
        pair_in(s2, f2.cum, tc as int, rc as int) == pair_in(s, f.cum, tc as int, rc as int),
    decreases steps.len(),
{
    if steps.len() > 0 {
        let (sm, fm) = choose|sm: FlopStartVectorCfr<T>, fm: RiverFiles<T>|
            makes_steps(steps.drop_last(), s, f, &sm, fm) && #[trigger] makes_step(
                steps.last(),
                &sm,
                fm,
                s2,
                f2,
            );
        assert forall|k: int| 0 <= k < steps.drop_last().len() implies (
        #[trigger] steps.drop_last()[k]).spares(s.n_turn as int, s.max_n_river as int, tc, rc) by {
            assert(steps[k].spares(s.n_turn as int, s.max_n_river as int, tc, rc));
        }
        lemma_pair_stays(steps.drop_last(), s, f, &sm, fm, tc, rc);
        assert(steps[steps.len() - 1].spares(s.n_turn as int, s.max_n_river as int, tc, rc));
        if let FileStep::Save { tc: t, rc: r } = steps.last() {
            law_saved_pair_loads_back(
                &sm,
                fm.regrets,
                t as int,
                r as int,
                sm.river.regrets@,
                tc as int,
                rc as int,
            );
            law_saved_pair_loads_back(
                &sm,
                fm.cum,
                t as int,
                r as int,
                sm.river.cum@,
                tc as int,
                rc as int,
            );
        }
    }
}

/// A pair that was saved loads back as it was saved, whatever other pairs were loaded,
/// played and saved in between.
pub proof fn law_saved_pair_outlasts_others<T: Widen>(
    s: &FlopStartVectorCfr<T>,
    f: RiverFiles<T>,
    saved: &FlopStartVectorCfr<T>,
    f1: RiverFiles<T>,
    steps: Seq<FileStep>,
    later: &FlopStartVectorCfr<T>,
    f2: RiverFiles<T>,
    loaded: &FlopStartVectorCfr<T>,
    f3: RiverFiles<T>,
    tc: usize,
    rc: usize,
)
    requires
        hold_all(s, f),
        tc < s.n_turn,
        rc < s.max_n_river,
        s.river.regrets@.len() == s.pair_len(),
        s.river.cum@.len() == s.pair_len(),
        makes_step(FileStep::Save { tc, rc }, s, f, saved, f1),
        makes_steps(steps, saved, f1, later, f2),
        forall|k: int|
            0 <= k < steps.len() ==> (#[trigger] steps[k]).spares(
                s.n_turn as int,
                s.max_n_river as int,
                tc,
                rc,
            ),
        makes_step(FileStep::Load { tc, rc }, later, f2, loaded, f3),
    ensures
        loaded.river.regrets@ == s.river.regrets@,
        loaded.river.cum@ == s.river.cum@,
        loaded.current_river_pair == Some((tc, rc)),
{
    let (t, r) = (tc as int, rc as int);
    law_saved_pair_loads_back(s, f.regrets, t, r, s.river.regrets@, t, r);
    law_saved_pair_loads_back(s, f.cum, t, r, s.river.cum@, t, r);
    lemma_pair_stays(steps, saved, f1, later, f2, tc, rc);
}

} // verus!
