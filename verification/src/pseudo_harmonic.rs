//! Pairing two betting trees by pot fraction, with bets between two sizes split
//! among both.
use vstd::prelude::*;

use crate::cross_tree::is_bet_or_raise;
use crate::layout::{count_upto, lemma_count_bound, opt_int};
use crate::scalar::{filled, fraction_tolerance, s_fraction_tolerance, Scalar, Widen};
use crate::tree::{ACTION_LABEL_BET, ACTION_LABEL_RAISE, FlatTree};

verus! {

/// What the first `n` players have put in at node `i`.
pub open spec fn pot_upto(tree: &FlatTree, i: int, n: nat) -> int
    decreases n,
{
    if n == 0 {
        0
    } else {
        pot_upto(tree, i, (n - 1) as nat) + tree.contribution(i, n - 1)
    }
}

/// All chips that the players have put in at node `idx`.
pub fn pot_at_node(tree: &FlatTree, idx: usize) -> (pot: i64)
    requires
        tree.shape_ok(),
        tree.is_node(idx as int),
    ensures
        pot == pot_upto(tree, idx as int, tree.np() as nat),
{
    let np: u8 = tree.num_players;
    let mut pot: i64 = 0;
    let mut p: u8 = 0;
    while p < np
        invariant
            p <= np,
            np == tree.num_players,
            tree.shape_ok(),
            tree.is_node(idx as int),
            pot == pot_upto(tree, idx as int, p as nat),
            -0x8000_0000 * p <= pot <= 0x8000_0000 * p,
        decreases np - p,
    {
        pot = pot + tree.get_contribution(idx, p) as i64;
        p += 1;
    }
    pot
}

/// What player `p` adds between node `i` and its child `c`, as a part of the pot
/// at `i`; zero where there is no pot.
pub open spec fn pot_fraction<W: Scalar>(tree: &FlatTree, i: int, c: int, p: int) -> W {
    let pot = pot_upto(tree, i, tree.np() as nat);
    if pot <= 0 {
        W::s_zero()
    } else {
        W::s_of(tree.contribution(c, p) - tree.contribution(i, p)).s_over(W::s_of(pot))
    }
}

/// Computes [`pot_fraction`].
pub fn action_pot_fraction<W: Scalar>(
    tree: &FlatTree,
    parent_idx: usize,
    child_idx: usize,
    acting_player: u8,
) -> (x: W)
    requires
        tree.shape_ok(),
        tree.is_node(parent_idx as int),
        tree.is_node(child_idx as int),
        acting_player < tree.num_players,
    ensures
        x == pot_fraction::<W>(tree, parent_idx as int, child_idx as int, acting_player as int),
{
    let pot: i64 = pot_at_node(tree, parent_idx);
    if pot <= 0 {
        return W::zero();
    }
    let before: i64 = tree.get_contribution(parent_idx, acting_player) as i64;
    let after: i64 = tree.get_contribution(child_idx, acting_player) as i64;
    W::of_i64(after - before).over(W::of_i64(pot))
}

/// The probability of reading a bet of `b` as one of `a`, where `a` and `c` are
/// the neighbouring sizes.
pub open spec fn lower_weight<W: Scalar>(a: W, b: W, c: W) -> W {
    c.s_minus(b).s_times(W::s_one().s_plus(a)).s_over(
        c.s_minus(a).s_times(W::s_one().s_plus(b)),
    )
}

/// Computes [`lower_weight`]: `(c - b)(1 + a) / ((c - a)(1 + b))`.
pub fn pseudo_harmonic_weight<W: Scalar>(a: W, b: W, c: W) -> (p: W)
    ensures
        p == lower_weight(a, b, c),
{
    let num = c.minus(b).times(W::one().plus(a));
    let den = c.minus(a).times(W::one().plus(b));
    num.over(den)
}

/// A number brought into zero to one.
pub open spec fn unit_clamp<W: Scalar>(x: W) -> W {
    if x.s_below(W::s_zero()) {
        W::s_zero()
    } else if W::s_one().s_below(x) {
        W::s_one()
    } else {
        x
    }
}

fn clamp_unit<W: Scalar>(x: W) -> (y: W)
    ensures
        y == unit_clamp(x),
{
    if x.below(W::zero()) {
        W::zero()
    } else if W::one().below(x) {
        W::one()
    } else {
        x
    }
}

/// The two fractions differ by less than `tol`.
pub open spec fn is_close<W: Scalar>(x: W, y: W, tol: W) -> bool {
    let d = x.s_minus(y);
    if d.s_below(W::s_zero()) {
        W::s_zero().s_minus(d).s_below(tol)
    } else {
        d.s_below(tol)
    }
}

fn close<W: Scalar>(x: W, y: W, tol: W) -> (r: bool)
    ensures
        r == is_close(x, y, tol),
{
    let d = x.minus(y);
    if d.below(W::zero()) {
        W::zero().minus(d).below(tol)
    } else {
        d.below(tol)
    }
}

/// Action `a` of rich node `r` and action `b` of lean node `l` are the same: the
/// label, and for a bet or raise the part of the pot.
pub open spec fn same_move<W: Scalar>(
    rich: &FlatTree,
    lean: &FlatTree,
    tol: W,
    r: int,
    l: int,
    a: int,
    b: int,
) -> bool {
    let rc = rich.child(r, a);
    let lc = lean.child(l, b);
    let label = rich.nodes@[rc].action_label;
    label == lean.nodes@[lc].action_label && (!is_bet_or_raise(label) || is_close(
        pot_fraction::<W>(lean, l, lc, lean.nodes@[l].player_id as int),
        pot_fraction::<W>(rich, r, rc, rich.nodes@[r].player_id as int),
        tol,
    ))
}

/// The first lean action from `b` on that is action `a` of `r` and that no entry
/// of `taken` holds.
pub open spec fn free_move<W: Scalar>(
    rich: &FlatTree,
    lean: &FlatTree,
    tol: W,
    r: int,
    l: int,
    a: int,
    taken: Seq<Option<int>>,
    b: int,
) -> Option<int>
    decreases lean.arity(l) - b,
{
    if b >= lean.arity(l) {
        None
    } else if !taken.contains(Some(b)) && same_move(rich, lean, tol, r, l, a, b) {
        Some(b)
    } else {
        free_move(rich, lean, tol, r, l, a, taken, b + 1)
    }
}

/// What the first `k` actions of `r` claim at `l`: each the first equal lean
/// action that no earlier one has claimed.
pub open spec fn moves_claimed<W: Scalar>(
    rich: &FlatTree,
    lean: &FlatTree,
    tol: W,
    r: int,
    l: int,
    k: nat,
) -> Seq<Option<int>>
    decreases k,
{
    if k == 0 {
        Seq::empty()
    } else {
        let prev = moves_claimed(rich, lean, tol, r, l, (k - 1) as nat);
        prev.push(free_move(rich, lean, tol, r, l, k - 1, prev, 0))
    }
}

/// What action `a` of `r` claims at `l`.
pub open spec fn claim_of<W: Scalar>(
    rich: &FlatTree,
    lean: &FlatTree,
    tol: W,
    r: int,
    l: int,
    a: int,
) -> Option<int> {
    moves_claimed(rich, lean, tol, r, l, rich.arity(r) as nat)[a]
}

pub proof fn lemma_claim<W: Scalar>(
    rich: &FlatTree,
    lean: &FlatTree,
    tol: W,
    r: int,
    l: int,
    k: nat,
    m: nat,
)
    requires
        k <= m,
    ensures
        moves_claimed(rich, lean, tol, r, l, k).len() == k,
        moves_claimed(rich, lean, tol, r, l, k) == moves_claimed(rich, lean, tol, r, l, m).take(
            k as int,
        ),
    decreases m,
{
    if k < m {
        lemma_claim(rich, lean, tol, r, l, k, (m - 1) as nat);
        lemma_claim(rich, lean, tol, r, l, (m - 1) as nat, (m - 1) as nat);
        let all = moves_claimed(rich, lean, tol, r, l, m);
        let prev = moves_claimed(rich, lean, tol, r, l, (m - 1) as nat);
        assert(all.take(k as int) =~= prev.take(k as int));
    } else if m > 0 {
        lemma_claim(rich, lean, tol, r, l, (m - 1) as nat, (m - 1) as nat);
        let all = moves_claimed(rich, lean, tol, r, l, m);
        assert(all.take(k as int) =~= all);
    } else {
        assert(moves_claimed(rich, lean, tol, r, l, m).take(0) =~= Seq::empty());
    }
}

proof fn lemma_free_move_bound<W: Scalar>(
    rich: &FlatTree,
    lean: &FlatTree,
    tol: W,
    r: int,
    l: int,
    a: int,
    taken: Seq<Option<int>>,
    b: int,
)
    requires
        0 <= b,
    ensures
        free_move(rich, lean, tol, r, l, a, taken, b) matches Some(c) ==> b <= c < lean.arity(l),
    decreases lean.arity(l) - b,
{
    if b < lean.arity(l) {
        lemma_free_move_bound(rich, lean, tol, r, l, a, taken, b + 1);
    }
}

/// A claimed action is an action of the lean node.
pub proof fn lemma_claim_bound<W: Scalar>(
    rich: &FlatTree,
    lean: &FlatTree,
    tol: W,
    r: int,
    l: int,
    a: int,
)
    requires
        0 <= a < rich.arity(r),
    ensures
        claim_of(rich, lean, tol, r, l, a) matches Some(b) ==> 0 <= b < lean.arity(l),
{
    let n = rich.arity(r) as nat;
    lemma_claim(rich, lean, tol, r, l, (a + 1) as nat, n);
    lemma_claim(rich, lean, tol, r, l, a as nat, a as nat);
    lemma_claim(rich, lean, tol, r, l, n, n);
    let prev = moves_claimed(rich, lean, tol, r, l, a as nat);
    assert(moves_claimed(rich, lean, tol, r, l, n).take(a + 1)[a] == claim_of(
        rich,
        lean,
        tol,
        r,
        l,
        a,
    ));
    lemma_free_move_bound(rich, lean, tol, r, l, a, prev, 0);
}

/// Whether two moves are the same.
fn moves_match<W: Scalar>(
    rich: &FlatTree,
    lean: &FlatTree,
    tol: W,
    r_idx: usize,
    l_idx: usize,
    a: usize,
    b: usize,
) -> (ok: bool)
    requires
        rich.wf(),
        lean.wf(),
        rich.is_edge(r_idx as int, a as int),
        lean.is_edge(l_idx as int, b as int),
        rich.nodes@[r_idx as int].player_id < rich.num_players,
        lean.nodes@[l_idx as int].player_id < lean.num_players,
    ensures
        ok == same_move(rich, lean, tol, r_idx as int, l_idx as int, a as int, b as int),
{
    proof {
        assert(rich.edge_ok(r_idx as int, a as int));
        assert(lean.edge_ok(l_idx as int, b as int));
    }
    let rc: usize = rich.node_children(r_idx)[a] as usize;
    let lc: usize = lean.node_children(l_idx)[b] as usize;
    let label: u8 = rich.nodes[rc].action_label;
    if label != lean.nodes[lc].action_label {
        return false;
    }
    if label != ACTION_LABEL_BET && label != ACTION_LABEL_RAISE {
        return true;
    }
    let pf_l: W = action_pot_fraction(lean, l_idx, lc, lean.nodes[l_idx].player_id);
    let pf_r: W = action_pot_fraction(rich, r_idx, rc, rich.nodes[r_idx].player_id);
    close(pf_l, pf_r, tol)
}

/// The lean action that is action `a` of rich node `r_idx` and not used yet; it
/// is used from now on.
pub(crate) fn find_exact_lean_action<W: Scalar>(
    rich: &FlatTree,
    lean: &FlatTree,
    tol: W,
    r_idx: usize,
    l_idx: usize,
    a: usize,
    used: &mut Vec<bool>,
    Ghost(taken): Ghost<Seq<Option<int>>>,
) -> (found: Option<usize>)
    requires
        rich.wf(),
        lean.wf(),
        rich.is_edge(r_idx as int, a as int),
        lean.is_node(l_idx as int),
        rich.nodes@[r_idx as int].player_id < rich.num_players,
        lean.nodes@[l_idx as int].player_id < lean.num_players,
        old(used)@.len() == lean.arity(l_idx as int),
        forall|b: int| 0 <= b < old(used)@.len() ==> #[trigger] old(used)@[b] == taken.contains(
            Some(b),
        ),
    ensures
        opt_int(found) == free_move(
            rich,
            lean,
            tol,
            r_idx as int,
            l_idx as int,
            a as int,
            taken,
            0,
        ),
        final(used)@.len() == old(used)@.len(),
        forall|b: int|
            0 <= b < final(used)@.len() ==> #[trigger] final(used)@[b] == taken.push(
                opt_int(found),
            ).contains(Some(b)),
        found matches Some(b) ==> b < lean.arity(l_idx as int),
{
    let n: usize = lean.nodes[l_idx].num_children as usize;
    let ghost first = free_move(
        rich,
        lean,
        tol,
        r_idx as int,
        l_idx as int,
        a as int,
        taken,
        0,
    );
    let mut found: Option<usize> = None;
    let mut b: usize = 0;
    while b < n && found.is_none()
        invariant
            b <= n,
            n == lean.arity(l_idx as int),
            rich.wf(),
            lean.wf(),
            rich.is_edge(r_idx as int, a as int),
            lean.is_node(l_idx as int),
            rich.nodes@[r_idx as int].player_id < rich.num_players,
            lean.nodes@[l_idx as int].player_id < lean.num_players,
            used@.len() == n,
            forall|c: int| 0 <= c < used@.len() ==> #[trigger] used@[c] == taken.contains(Some(c)),
            match found {
                Some(c) => first == Some(c as int) && c < n,
                None => first == free_move(
                    rich,
                    lean,
                    tol,
                    r_idx as int,
                    l_idx as int,
                    a as int,
                    taken,
                    b as int,
                ),
            },
        decreases n - b, found.is_none() as int,
    {
        assert(lean.is_edge(l_idx as int, b as int));
        assert(used@[b as int] == taken.contains(Some(b as int)));
        if !used[b] && moves_match(rich, lean, tol, r_idx, l_idx, a, b) {
            found = Some(b);
        } else {
            b += 1;
        }
    }
    let ghost after = taken.push(opt_int(found));
    if let Some(c) = found {
        used[c] = true;
    }
    proof {
        assert forall|d: int| 0 <= d < used@.len() implies #[trigger] used@[d] == after.contains(
            Some(d),
        ) by {
            assert(after[taken.len() as int] == opt_int(found));
            if taken.contains(Some(d)) {
                let j = choose|j: int| 0 <= j < taken.len() && taken[j] == Some(d);
                assert(after[j] == Some(d));
            }
            if after.contains(Some(d)) {
                let j = choose|j: int| 0 <= j < after.len() && after[j] == Some(d);
                if j < taken.len() {
                    assert(taken[j] == Some(d));
                }
            }
        }
    }
    found
}

/// The lean actions that the actions of rich node `r_idx` claim.
pub(crate) fn claimed_moves<W: Scalar>(
    rich: &FlatTree,
    lean: &FlatTree,
    tol: W,
    r_idx: usize,
    l_idx: usize,
) -> (row: Vec<Option<usize>>)
    requires
        rich.wf(),
        lean.wf(),
        rich.is_node(r_idx as int),
        lean.is_node(l_idx as int),
        rich.nodes@[r_idx as int].player_id < rich.num_players,
        lean.nodes@[l_idx as int].player_id < lean.num_players,
    ensures
        row@.len() == rich.arity(r_idx as int),
        forall|a: int|
            0 <= a < row@.len() ==> opt_int(#[trigger] row@[a]) == claim_of(
                rich,
                lean,
                tol,
                r_idx as int,
                l_idx as int,
                a,
            ) && (row@[a] matches Some(b) ==> b < lean.arity(l_idx as int)),
{
    let n_r: usize = rich.nodes[r_idx].num_children as usize;
    let n_l: usize = lean.nodes[l_idx].num_children as usize;
    let ghost r = r_idx as int;
    let ghost l = l_idx as int;
    let mut used: Vec<bool> = filled(false, n_l);
    let mut row: Vec<Option<usize>> = Vec::new();
    let mut a: usize = 0;
    while a < n_r
        invariant
            a <= n_r,
            n_r == rich.arity(r),
            r == r_idx,
            l == l_idx,
            rich.wf(),
            lean.wf(),
            rich.is_node(r),
            lean.is_node(l),
            rich.nodes@[r].player_id < rich.num_players,
            lean.nodes@[l].player_id < lean.num_players,
            used@.len() == lean.arity(l),
            forall|b: int|
                0 <= b < used@.len() ==> #[trigger] used@[b] == moves_claimed(
                    rich,
                    lean,
                    tol,
                    r,
                    l,
                    a as nat,
                ).contains(Some(b)),
            row@.len() == a,
            forall|c: int|
                0 <= c < a ==> opt_int(#[trigger] row@[c]) == moves_claimed(
                    rich,
                    lean,
                    tol,
                    r,
                    l,
                    a as nat,
                )[c] && (row@[c] matches Some(b) ==> b < lean.arity(l)),
        decreases n_r - a,
    {
        assert(rich.is_edge(r, a as int));
        let ghost taken = moves_claimed(rich, lean, tol, r, l, a as nat);
        proof {
            lemma_claim(rich, lean, tol, r, l, a as nat, a as nat);
        }
        let found = find_exact_lean_action(
            rich,
            lean,
            tol,
            r_idx,
            l_idx,
            a,
            &mut used,
            Ghost(taken),
        );
        row.push(found);
        assert(moves_claimed(rich, lean, tol, r, l, (a + 1) as nat) == taken.push(opt_int(found)));
        a += 1;
    }
    row
}

/// The best lean neighbour so far on one side: its action and its part of the
/// pot.
pub open spec fn neighbour<W: Scalar>(
    rich: &FlatTree,
    lean: &FlatTree,
    tol: W,
    r: int,
    l: int,
    a: int,
    upper: bool,
    n: nat,
) -> Option<(int, W)>
    decreases n,
{
    if n == 0 {
        None
    } else {
        let prev = neighbour(rich, lean, tol, r, l, a, upper, (n - 1) as nat);
        let rc = rich.child(r, a);
        let lc = lean.child(l, n - 1);
        let x = pot_fraction::<W>(rich, r, rc, rich.nodes@[r].player_id as int);
        let y = pot_fraction::<W>(lean, l, lc, lean.nodes@[l].player_id as int);
        let below = y.s_plus(tol).s_below(x);
        let above = !below && x.s_plus(tol).s_below(y);
        if rich.nodes@[rc].action_label != lean.nodes@[lc].action_label || !(if upper {
            above
        } else {
            below
        }) {
            prev
        } else {
            match prev {
                None => Some((n - 1, y)),
                Some((_, z)) => if (if upper {
                    y.s_below(z)
                } else {
                    z.s_below(y)
                }) {
                    Some((n - 1, y))
                } else {
                    prev
                },
            }
        }
    }
}

/// A neighbour with its action as an exec index.
pub open spec fn opt_pair<W>(o: Option<(usize, W)>) -> Option<(int, W)> {
    match o {
        Some((b, y)) => Some((b as int, y)),
        None => None,
    }
}

/// The lean neighbours of a bet, below and above.
fn neighbours<W: Scalar>(
    rich: &FlatTree,
    lean: &FlatTree,
    tol: W,
    r_idx: usize,
    l_idx: usize,
    a: usize,
) -> (out: (Option<(usize, W)>, Option<(usize, W)>))
    requires
        rich.wf(),
        lean.wf(),
        rich.is_edge(r_idx as int, a as int),
        lean.is_node(l_idx as int),
        rich.nodes@[r_idx as int].player_id < rich.num_players,
        lean.nodes@[l_idx as int].player_id < lean.num_players,
    ensures
        opt_pair(out.0) == neighbour(
            rich,
            lean,
            tol,
            r_idx as int,
            l_idx as int,
            a as int,
            false,
            lean.arity(l_idx as int) as nat,
        ),
        opt_pair(out.1) == neighbour(
            rich,
            lean,
            tol,
            r_idx as int,
            l_idx as int,
            a as int,
            true,
            lean.arity(l_idx as int) as nat,
        ),
        out.0 matches Some((b, _)) ==> b < lean.arity(l_idx as int),
        out.1 matches Some((b, _)) ==> b < lean.arity(l_idx as int),
{
    let ghost r = r_idx as int;
    let ghost l = l_idx as int;
    proof {
        assert(rich.edge_ok(r, a as int));
    }
    let rc: usize = rich.node_children(r_idx)[a] as usize;
    let label: u8 = rich.nodes[rc].action_label;
    let x: W = action_pot_fraction(rich, r_idx, rc, rich.nodes[r_idx].player_id);
    let l_children = lean.node_children(l_idx);
    let n: usize = l_children.len();
    let mut lower: Option<(usize, W)> = None;
    let mut upper: Option<(usize, W)> = None;
    let mut b: usize = 0;
    while b < n
        invariant
            b <= n,
            n == lean.arity(l),
            r == r_idx,
            l == l_idx,
            rich.wf(),
            lean.wf(),
            lean.is_node(l),
            l_children@.len() == n,
            forall|c: int| 0 <= c < n ==> (#[trigger] l_children@[c]) as int == lean.child(l, c),
            lean.nodes@[l].player_id < lean.num_players,
            rc == rich.child(r, a as int),
            label == rich.nodes@[rc as int].action_label,
            x == pot_fraction::<W>(rich, r, rc as int, rich.nodes@[r].player_id as int),
            opt_pair(lower) == neighbour(rich, lean, tol, r, l, a as int, false, b as nat),
            opt_pair(upper) == neighbour(rich, lean, tol, r, l, a as int, true, b as nat),
            lower matches Some((c, _)) ==> c < b,
            upper matches Some((c, _)) ==> c < b,
        decreases n - b,
    {
        proof {
            assert(lean.is_edge(l, b as int));
            assert(lean.edge_ok(l, b as int));
        }
        let lc: usize = l_children[b] as usize;
        if lean.nodes[lc].action_label == label {
            let y: W = action_pot_fraction(lean, l_idx, lc, lean.nodes[l_idx].player_id);
            if y.plus(tol).below(x) {
                let better = match lower {
                    None => true,
                    Some((_, z)) => z.below(y),
                };
                if better {
                    lower = Some((b, y));
                }
            } else if x.plus(tol).below(y) {
                let better = match upper {
                    None => true,
                    Some((_, z)) => y.below(z),
                };
                if better {
                    upper = Some((b, y));
                }
            }
        }
        b += 1;
    }
    (lower, upper)
}

/// The lean nodes that stand for child `a` of rich node `r`, with weights, when
/// lean node `l` stands for `r` with weight `w`.
pub open spec fn targets<T: Widen>(
    rich: &FlatTree,
    lean: &FlatTree,
    tol: T::Wide,
    r: int,
    l: int,
    w: T,
    a: int,
) -> Seq<(int, T)> {
    let rc = rich.child(r, a);
    if rich.nodes@[r].is_terminal() || lean.nodes@[l].is_terminal() {
        Seq::empty()
    } else if rich.nodes@[r].is_chance() {
        seq![(lean.child(l, a), w)]
    } else {
        match claim_of(rich, lean, tol, r, l, a) {
            Some(b) => seq![(lean.child(l, b), w)],
            None => if !is_bet_or_raise(rich.nodes@[rc].action_label) {
                Seq::empty()
            } else {
                split_bet(rich, lean, tol, r, l, w, a)
            },
        }
    }
}

/// How a bet that equals no lean bet is split among its neighbours.
pub open spec fn split_bet<T: Widen>(
    rich: &FlatTree,
    lean: &FlatTree,
    tol: T::Wide,
    r: int,
    l: int,
    w: T,
    a: int,
) -> Seq<(int, T)> {
    let n = lean.arity(l) as nat;
    let x = pot_fraction::<T::Wide>(rich, r, rich.child(r, a), rich.nodes@[r].player_id as int);
    match (
        neighbour(rich, lean, tol, r, l, a, false, n),
        neighbour(rich, lean, tol, r, l, a, true, n),
    ) {
        (Some((lo, y)), Some((up, z))) => {
            let p = T::s_narrow(unit_clamp(lower_weight(y, x, z)));
            let w_lo = w.s_times(p);
            let w_up = w.s_times(T::s_one().s_minus(p));
            (if T::s_zero().s_below(w_lo) {
                seq![(lean.child(l, lo), w_lo)]
            } else {
                Seq::empty()
            }) + (if T::s_zero().s_below(w_up) {
                seq![(lean.child(l, up), w_up)]
            } else {
                Seq::empty()
            })
        },
        (Some((lo, _)), None) => seq![(lean.child(l, lo), w)],
        (None, Some((up, _))) => seq![(lean.child(l, up), w)],
        (None, None) => Seq::empty(),
    }
}

/// The targets of child `a` of `r` for the first `n` nodes that stand for `r`.
pub open spec fn all_targets<T: Widen>(
    rich: &FlatTree,
    lean: &FlatTree,
    tol: T::Wide,
    r: int,
    entries: Seq<(int, T)>,
    a: int,
    n: nat,
) -> Seq<(int, T)>
    decreases n,
{
    if n == 0 {
        Seq::empty()
    } else {
        all_targets(rich, lean, tol, r, entries, a, (n - 1) as nat) + targets(
            rich,
            lean,
            tol,
            r,
            entries[n - 1].0,
            entries[n - 1].1,
            a,
        )
    }
}

/// The edge that leads to node `x`.
pub open spec fn parent_edge(tree: &FlatTree, x: int) -> (int, int) {
    choose|e: (int, int)| #[trigger] tree.is_parent(e.0, e.1, x)
}

/// Every node but the root has an edge that leads to it, from a level above.
pub proof fn lemma_parent_edge(tree: &FlatTree, x: int)
    requires
        tree.wf(),
        tree.is_node(x),
        x != 0,
    ensures
        tree.is_parent(parent_edge(tree, x).0, parent_edge(tree, x).1, x),
        tree.level(parent_edge(tree, x).0) < tree.level(x),
{
    assert(tree.has_parent(x));
    let (j, b) = choose|j: int, b: int| tree.is_parent(j, b, x);
    let e = (j, b);
    assert(tree.is_parent(e.0, e.1, x));
    let (r, a) = parent_edge(tree, x);
    assert(tree.is_parent(r, a, x));
    assert(tree.edge_ok(r, a));
}

/// The lean nodes that stand for rich node `x`, with weights: the root for the
/// root, and from there what the moves lead to.
pub open spec fn stand_ins<T: Widen>(rich: &FlatTree, lean: &FlatTree, tol: T::Wide, x: int) -> Seq<
    (int, T),
>
    decreases rich.level(x),
    when rich.wf() && rich.is_node(x)
{
    if x == 0 {
        seq![(0int, T::s_one())]
    } else {
        let (r, a) = parent_edge(rich, x);
        proof {
            lemma_parent_edge(rich, x);
        }
        let up = stand_ins::<T>(rich, lean, tol, r);
        all_targets(rich, lean, tol, r, up, a, up.len())
    }
}

/// Lean node `l` can stand for rich node `x`: a deal has as many outcomes, and a
/// decision is made by a player of the table.
pub open spec fn can_stand(rich: &FlatTree, lean: &FlatTree, x: int, l: int) -> bool {
    ||| rich.nodes@[x].is_terminal()
    ||| lean.nodes@[l].is_terminal()
    ||| rich.nodes@[x].is_chance() && rich.arity(x) == lean.arity(l)
    ||| rich.nodes@[x].is_player() && lean.nodes@[l].player_id < lean.num_players
}

/// Every lean node that stands for a rich node can.
pub open spec fn stand_ins_agree<T: Widen>(
    rich: &FlatTree,
    lean: &FlatTree,
    tol: T::Wide,
) -> bool {
    forall|x: int|
        rich.is_node(x) ==> all_can_stand(rich, lean, x, #[trigger] stand_ins::<T>(
            rich,
            lean,
            tol,
            x,
        ))
}

/// Every node of the list can stand for `x`.
pub open spec fn all_can_stand<T>(
    rich: &FlatTree,
    lean: &FlatTree,
    x: int,
    list: Seq<(int, T)>,
) -> bool {
    forall|k: int| 0 <= k < list.len() ==> can_stand(rich, lean, x, (#[trigger] list[k]).0)
}

/// The lean nodes that stand for each rich node, with weights.
pub struct PseudoHarmonicCrossTreeMap<T> {
    pub rich_to_lean_nodes: Vec<Vec<(usize, T)>>,
}

/// Entries with their nodes as mathematical numbers.
pub open spec fn plain_entries<T>(list: Seq<(usize, T)>) -> Seq<(int, T)> {
    Seq::new(list.len(), |k: int| (list[k].0 as int, list[k].1))
}

/// Every entry names a node of the tree.
pub open spec fn are_nodes<T>(lean: &FlatTree, list: Seq<(usize, T)>) -> bool {
    forall|k: int| 0 <= k < list.len() ==> lean.is_node((#[trigger] list[k]).0 as int)
}

impl<T: Widen> PseudoHarmonicCrossTreeMap<T> {
    /// The map holds what stands for each node.
    pub open spec fn pairs(&self, rich: &FlatTree, lean: &FlatTree, tol: T::Wide) -> bool {
        &&& self.rich_to_lean_nodes@.len() == rich.size()
        &&& forall|x: int|
            rich.is_node(x) ==> plain_entries((#[trigger] self.rich_to_lean_nodes@[x])@)
                == stand_ins::<T>(rich, lean, tol, x) && are_nodes(
                lean,
                self.rich_to_lean_nodes@[x]@,
            )
    }

    /// Tells the player nodes that some lean node stands for.
    pub open spec fn paired_players(&self, rich: &FlatTree) -> spec_fn(int) -> bool {
        |x: int| self.rich_to_lean_nodes@[x]@.len() > 0 && rich.nodes@[x].is_player()
    }

    /// Number of rich player nodes that some lean node stands for.
    pub fn paired_player_count(&self, rich: &FlatTree) -> (n: usize)
        requires
            self.rich_to_lean_nodes@.len() == rich.size(),
        ensures
            n == count_upto(self.paired_players(rich), rich.size() as nat),
    {
        let mut n: usize = 0;
        let mut x: usize = 0;
        while x < self.rich_to_lean_nodes.len()
            invariant
                x <= self.rich_to_lean_nodes@.len(),
                self.rich_to_lean_nodes@.len() == rich.size(),
                n == count_upto(self.paired_players(rich), x as nat),
            decreases self.rich_to_lean_nodes@.len() - x,
        {
            proof {
                lemma_count_bound(self.paired_players(rich), x as nat);
            }
            if self.rich_to_lean_nodes[x].len() > 0 && rich.nodes[x].is_player() {
                n += 1;
            }
            x += 1;
        }
        n
    }

    /// The longest list among the first `n`.
    pub open spec fn most_entries(&self, n: nat) -> nat
        decreases n,
    {
        if n == 0 {
            0
        } else {
            let prev = self.most_entries((n - 1) as nat);
            let here = self.rich_to_lean_nodes@[n - 1]@.len();
            if here > prev {
                here
            } else {
                prev
            }
        }
    }

    /// The most lean nodes that stand for one rich node.
    pub fn max_entries_per_node(&self) -> (m: usize)
        ensures
            m == self.most_entries(self.rich_to_lean_nodes@.len()),
    {
        let mut m: usize = 0;
        let mut x: usize = 0;
        while x < self.rich_to_lean_nodes.len()
            invariant
                x <= self.rich_to_lean_nodes@.len(),
                m == self.most_entries(x as nat),
            decreases self.rich_to_lean_nodes@.len() - x,
        {
            let here: usize = self.rich_to_lean_nodes[x].len();
            if here > m {
                m = here;
            }
            x += 1;
        }
        m
    }

    /// The lengths of the first `n` lists, added up.
    pub open spec fn entries_upto(&self, n: nat) -> nat
        decreases n,
    {
        if n == 0 {
            0
        } else {
            self.entries_upto((n - 1) as nat) + self.rich_to_lean_nodes@[n - 1]@.len()
        }
    }

    proof fn lemma_entries_grow(&self, n: nat, m: nat)
        requires
            n <= m,
        ensures
            self.entries_upto(n) <= self.entries_upto(m),
        decreases m,
    {
        if n < m {
            self.lemma_entries_grow(n, (m - 1) as nat);
        }
    }

    /// All entries of all nodes.
    pub fn total_entries(&self) -> (n: usize)
        requires
            self.entries_upto(self.rich_to_lean_nodes@.len()) <= usize::MAX,
        ensures
            n == self.entries_upto(self.rich_to_lean_nodes@.len()),
    {
        let mut n: usize = 0;
        let mut x: usize = 0;
        while x < self.rich_to_lean_nodes.len()
            invariant
                x <= self.rich_to_lean_nodes@.len(),
                self.entries_upto(self.rich_to_lean_nodes@.len()) <= usize::MAX,
                n == self.entries_upto(x as nat),
            decreases self.rich_to_lean_nodes@.len() - x,
        {
            proof {
                self.lemma_entries_grow((x + 1) as nat, self.rich_to_lean_nodes@.len());
            }
            n += self.rich_to_lean_nodes[x].len();
            x += 1;
        }
        n
    }
}

/// What stands for a child is what the stand-ins of its parent lead to.
pub proof fn lemma_stand_ins_step<T: Widen>(
    rich: &FlatTree,
    lean: &FlatTree,
    tol: T::Wide,
    r: int,
    a: int,
)
    requires
        rich.wf(),
        rich.is_edge(r, a),
    ensures
        rich.is_node(rich.child(r, a)),
        stand_ins::<T>(rich, lean, tol, rich.child(r, a)) == all_targets(
            rich,
            lean,
            tol,
            r,
            stand_ins::<T>(rich, lean, tol, r),
            a,
            stand_ins::<T>(rich, lean, tol, r).len(),
        ),
{
    let x = rich.child(r, a);
    assert(rich.edge_ok(r, a));
    lemma_parent_edge(rich, x);
    let e = parent_edge(rich, x);
    assert(rich.is_edge(e.0, e.1));
    assert(e.0 == r && e.1 == a);
}

/// Computes [`targets`] from the claims of the node.
fn targets_of<T: Widen>(
    rich: &FlatTree,
    lean: &FlatTree,
    tol: T::Wide,
    r_idx: usize,
    l_idx: usize,
    w: T,
    claims: &Vec<Option<usize>>,
    a: usize,
) -> (out: Vec<(usize, T)>)
    requires
        rich.wf(),
        lean.wf(),
        rich.is_edge(r_idx as int, a as int),
        lean.is_node(l_idx as int),
        can_stand(rich, lean, r_idx as int, l_idx as int),
        rich.nodes@[r_idx as int].is_player() && !lean.nodes@[l_idx as int].is_terminal()
            ==> claims@.len() == rich.arity(r_idx as int) && opt_int(claims@[a as int])
            == claim_of(rich, lean, tol, r_idx as int, l_idx as int, a as int),
    ensures
        plain_entries(out@) == targets(
            rich,
            lean,
            tol,
            r_idx as int,
            l_idx as int,
            w,
            a as int,
        ),
        are_nodes(lean, out@),
{
    let ghost r = r_idx as int;
    let ghost l = l_idx as int;
    let ghost want = targets(rich, lean, tol, r, l, w, a as int);
    let mut out: Vec<(usize, T)> = Vec::new();
    assert(plain_entries(out@) =~= Seq::empty());
    proof {
        assert(rich.node_ok(r));
        assert(rich.edge_ok(r, a as int));
        assert(forall|b: int| 0 <= b < lean.arity(l) ==> #[trigger] lean.is_edge(l, b));
    }
    if rich.nodes[r_idx].is_terminal() || lean.nodes[l_idx].is_terminal() {
        return out;
    }
    let kids = lean.node_children(l_idx);
    if rich.nodes[r_idx].is_chance() {
        assert(lean.is_edge(l, a as int));
        out.push((kids[a] as usize, w));
        assert(plain_entries(out@) =~= want);
        return out;
    }
    proof {
        lemma_claim_bound(rich, lean, tol, r, l, a as int);
    }
    if let Some(b) = claims[a] {
        assert(lean.is_edge(l, b as int));
        out.push((kids[b] as usize, w));
        assert(plain_entries(out@) =~= want);
        return out;
    }
    let rc: usize = rich.node_children(r_idx)[a] as usize;
    let label: u8 = rich.nodes[rc].action_label;
    if label != ACTION_LABEL_BET && label != ACTION_LABEL_RAISE {
        return out;
    }
    let (lower, upper) = neighbours(rich, lean, tol, r_idx, l_idx, a);
    match (lower, upper) {
        (Some((lo, y)), Some((up, z))) => {
            assert(lean.is_edge(l, lo as int));
            assert(lean.is_edge(l, up as int));
            let x: T::Wide = action_pot_fraction(rich, r_idx, rc, rich.nodes[r_idx].player_id);
            let p = T::narrow(clamp_unit(pseudo_harmonic_weight(y, x, z)));
            let w_lo = w.times(p);
            let w_up = w.times(T::one().minus(p));
            if T::zero().below(w_lo) {
                out.push((kids[lo] as usize, w_lo));
            }
            if T::zero().below(w_up) {
                out.push((kids[up] as usize, w_up));
            }
        },
        (Some((lo, _)), None) => {
            assert(lean.is_edge(l, lo as int));
            out.push((kids[lo] as usize, w));
        },
        (None, Some((up, _))) => {
            assert(lean.is_edge(l, up as int));
            out.push((kids[up] as usize, w));
        },
        (None, None) => {},
    }
    assert(plain_entries(out@) =~= want);
    out
}

/// Whether every entry can stand for rich node `r_idx`.
fn entries_can_stand<T: Widen>(
    rich: &FlatTree,
    lean: &FlatTree,
    r_idx: usize,
    list: &Vec<(usize, T)>,
) -> (ok: bool)
    requires
        rich.is_node(r_idx as int),
        are_nodes(lean, list@),
    ensures
        ok == all_can_stand(rich, lean, r_idx as int, plain_entries(list@)),
{
    let ghost plain = plain_entries(list@);
    let rn = rich.nodes[r_idx];
    let mut k: usize = 0;
    while k < list.len()
        invariant
            k <= list@.len(),
            rich.is_node(r_idx as int),
            are_nodes(lean, list@),
            rn == rich.nodes@[r_idx as int],
            plain == plain_entries(list@),
            forall|j: int| 0 <= j < k ==> can_stand(rich, lean, r_idx as int, (#[trigger] plain[j]).0),
        decreases list@.len() - k,
    {
        let l: usize = list[k].0;
        assert(plain[k as int].0 == l);
        let ln = lean.nodes[l];
        let ok = rn.is_terminal() || ln.is_terminal() || (rn.is_chance() && rn.num_children
            == ln.num_children) || (rn.is_player() && ln.player_id < lean.num_players);
        if !ok {
            assert(!can_stand(rich, lean, r_idx as int, plain[k as int].0));
            return false;
        }
        k += 1;
    }
    true
}

/// The claims of rich node `r_idx` for each entry; an empty row where the node or
/// the entry makes no decision.
fn entry_claims<T: Widen>(
    rich: &FlatTree,
    lean: &FlatTree,
    tol: T::Wide,
    r_idx: usize,
    list: &Vec<(usize, T)>,
) -> (rows: Vec<Vec<Option<usize>>>)
    requires
        rich.wf(),
        lean.wf(),
        rich.is_node(r_idx as int),
        are_nodes(lean, list@),
        all_can_stand(rich, lean, r_idx as int, plain_entries(list@)),
    ensures
        rows@.len() == list@.len(),
        rich.nodes@[r_idx as int].is_player() ==> forall|k: int, a: int|
            #![trigger rows@[k]@[a]]
            0 <= k < rows@.len() && !lean.nodes@[list@[k].0 as int].is_terminal() && 0 <= a
                < rich.arity(r_idx as int) ==> rows@[k]@.len() == rich.arity(r_idx as int)
                && opt_int(rows@[k]@[a]) == claim_of(
                rich,
                lean,
                tol,
                r_idx as int,
                list@[k].0 as int,
                a,
            ),
{
    let ghost r = r_idx as int;
    let ghost plain = plain_entries(list@);
    let mut rows: Vec<Vec<Option<usize>>> = Vec::new();
    let rn = rich.nodes[r_idx];
    let mut k: usize = 0;
    while k < list.len()
        invariant
            k <= list@.len(),
            r == r_idx,
            rich.wf(),
            lean.wf(),
            rich.is_node(r),
            rn == rich.nodes@[r],
            are_nodes(lean, list@),
            plain == plain_entries(list@),
            all_can_stand(rich, lean, r, plain),
            rows@.len() == k,
            rn.is_player() ==> forall|j: int, a: int|
                #![trigger rows@[j]@[a]]
                0 <= j < k && !lean.nodes@[list@[j].0 as int].is_terminal() && 0 <= a < rich.arity(
                    r,
                ) ==> rows@[j]@.len() == rich.arity(r) && opt_int(rows@[j]@[a]) == claim_of(
                    rich,
                    lean,
                    tol,
                    r,
                    list@[j].0 as int,
                    a,
                ),
        decreases list@.len() - k,
    {
        let l: usize = list[k].0;
        proof {
            assert(rich.node_ok(r));
            assert(plain[k as int].0 == l);
        }
        if rn.is_player() && !lean.nodes[l].is_terminal() {
            rows.push(claimed_moves(rich, lean, tol, r_idx, l));
        } else {
            rows.push(Vec::new());
        }
        k += 1;
    }
    rows
}

/// What the stand-ins of `r_idx` lead to under action `a`.
fn gather<T: Widen>(
    rich: &FlatTree,
    lean: &FlatTree,
    tol: T::Wide,
    r_idx: usize,
    list: &Vec<(usize, T)>,
    rows: &Vec<Vec<Option<usize>>>,
    a: usize,
) -> (out: Vec<(usize, T)>)
    requires
        rich.wf(),
        lean.wf(),
        rich.is_edge(r_idx as int, a as int),
        are_nodes(lean, list@),
        all_can_stand(rich, lean, r_idx as int, plain_entries(list@)),
        rows@.len() == list@.len(),
        rich.nodes@[r_idx as int].is_player() ==> forall|k: int, b: int|
            #![trigger rows@[k]@[b]]
            0 <= k < rows@.len() && !lean.nodes@[list@[k].0 as int].is_terminal() && 0 <= b
                < rich.arity(r_idx as int) ==> rows@[k]@.len() == rich.arity(r_idx as int)
                && opt_int(rows@[k]@[b]) == claim_of(
                rich,
                lean,
                tol,
                r_idx as int,
                list@[k].0 as int,
                b,
            ),
    ensures
        plain_entries(out@) == all_targets(
            rich,
            lean,
            tol,
            r_idx as int,
            plain_entries(list@),
            a as int,
            list@.len(),
        ),
        are_nodes(lean, out@),
{
    let ghost r = r_idx as int;
    let ghost plain = plain_entries(list@);
    let mut out: Vec<(usize, T)> = Vec::new();
    assert(plain_entries(out@) =~= Seq::empty());
    let mut k: usize = 0;
    while k < list.len()
        invariant
            k <= list@.len(),
            r == r_idx,
            rich.wf(),
            lean.wf(),
            rich.is_edge(r, a as int),
            are_nodes(lean, list@),
            plain == plain_entries(list@),
            all_can_stand(rich, lean, r, plain),
            rows@.len() == list@.len(),
            rich.nodes@[r].is_player() ==> forall|k: int, b: int|
                #![trigger rows@[k]@[b]]
                0 <= k < rows@.len() && !lean.nodes@[list@[k].0 as int].is_terminal() && 0 <= b
                    < rich.arity(r) ==> rows@[k]@.len() == rich.arity(r) && opt_int(rows@[k]@[b])
                    == claim_of(rich, lean, tol, r, list@[k].0 as int, b),
            plain_entries(out@) == all_targets(rich, lean, tol, r, plain, a as int, k as nat),
            are_nodes(lean, out@),
        decreases list@.len() - k,
    {
        let ghost before = out@;
        let (l, w) = list[k];
        assert(plain[k as int] == (l as int, w));
        assert(rows@[k as int]@[a as int] == rows@[k as int]@[a as int]);
        let mut more = targets_of(rich, lean, tol, r_idx, l, w, &rows[k], a);
        let ghost next = more@;
        out.append(&mut more);
        proof {
            assert(plain_entries(out@) =~= plain_entries(before) + plain_entries(next));
            assert forall|i: int| 0 <= i < out@.len() implies lean.is_node(
                (#[trigger] out@[i]).0 as int,
            ) by {
                if i < before.len() {
                    assert(out@[i] == before[i]);
                } else {
                    assert(out@[i] == next[i - before.len()]);
                }
            }
        }
        k += 1;
    }
    out
}

/// The list of node `x` is what stands for it.
pub open spec fn list_right<T: Widen>(
    rich: &FlatTree,
    lean: &FlatTree,
    tol: T::Wide,
    x: int,
    list: Seq<(usize, T)>,
) -> bool {
    plain_entries(list) == stand_ins::<T>(rich, lean, tol, x) && are_nodes(lean, list)
}

/// Fills the lists of the children of node `r_idx`.
fn walk_pair_ph<T: Widen>(
    rich: &FlatTree,
    lean: &FlatTree,
    tol: T::Wide,
    r_idx: usize,
    map: &mut Vec<Vec<(usize, T)>>,
) -> (ok: bool)
    requires
        rich.wf(),
        lean.wf(),
        rich.is_node(r_idx as int),
        old(map)@.len() == rich.size(),
        list_right(rich, lean, tol, r_idx as int, old(map)@[r_idx as int]@),
    ensures
        ok == all_can_stand(
            rich,
            lean,
            r_idx as int,
            stand_ins::<T>(rich, lean, tol, r_idx as int),
        ),
        final(map)@.len() == old(map)@.len(),
        forall|x: int|
            rich.is_node(x) && !rich.kids(r_idx as int).contains(x as u32)
                ==> #[trigger] final(map)@[x] == old(map)@[x],
        ok ==> forall|a: int| #[trigger]
            rich.is_edge(r_idx as int, a) ==> list_right(
                rich,
                lean,
                tol,
                rich.child(r_idx as int, a),
                final(map)@[rich.child(r_idx as int, a)]@,
            ),
{
    let ghost r = r_idx as int;
    if !entries_can_stand(rich, lean, r_idx, &map[r_idx]) {
        return false;
    }
    let rows = entry_claims(rich, lean, tol, r_idx, &map[r_idx]);
    let kids = rich.node_children(r_idx);
    let n: usize = kids.len();
    let ghost list = map@[r];
    let mut a: usize = 0;
    while a < n
        invariant
            a <= n,
            r == r_idx,
            n == rich.arity(r),
            rich.wf(),
            lean.wf(),
            rich.is_node(r),
            kids@ == rich.kids(r),
            forall|b: int| 0 <= b < n ==> (#[trigger] kids@[b]) as int == rich.child(r, b),
            kids@.len() == n,
            map@.len() == rich.size(),
            old(map)@.len() == rich.size(),
            map@[r] == list,
            list_right(rich, lean, tol, r, list@),
            all_can_stand(rich, lean, r, plain_entries(list@)),
            rows@.len() == list@.len(),
            rich.nodes@[r].is_player() ==> forall|k: int, b: int|
                #![trigger rows@[k]@[b]]
                0 <= k < rows@.len() && !lean.nodes@[list@[k].0 as int].is_terminal() && 0 <= b
                    < rich.arity(r) ==> rows@[k]@.len() == rich.arity(r) && opt_int(rows@[k]@[b])
                    == claim_of(rich, lean, tol, r, list@[k].0 as int, b),
            forall|x: int|
                rich.is_node(x) && !rich.kids(r).contains(x as u32) ==> #[trigger] map@[x] == old(
                    map,
                )@[x],
            forall|b: int|
                0 <= b < a ==> list_right(
                    rich,
                    lean,
                    tol,
                    #[trigger] rich.child(r, b),
                    map@[rich.child(r, b)]@,
                ),
        decreases n - a,
    {
        proof {
            assert(rich.is_edge(r, a as int));
            assert(rich.edge_ok(r, a as int));
            lemma_stand_ins_step::<T>(rich, lean, tol, r, a as int);
        }
        let c: usize = kids[a] as usize;
        let out = gather(rich, lean, tol, r_idx, &map[r_idx], &rows, a);
        let ghost before = map@;
        map[c] = out;
        proof {
            assert(rich.kids(r)[a as int] == c as u32);
            assert(map@ == before.update(c as int, out));
            assert forall|b: int| 0 <= b < a + 1 implies list_right(
                rich,
                lean,
                tol,
                #[trigger] rich.child(r, b),
                map@[rich.child(r, b)]@,
            ) by {
                assert(rich.is_edge(r, b));
                assert(rich.edge_ok(r, b));
                if b < a {
                    assert(rich.child(r, b) != c);
                }
            }
        }
        a += 1;
    }
    true
}

/// The lists of all nodes; nothing where some lean node cannot stand for the rich
/// node that it is paired with.
pub fn try_build_pseudo_harmonic_map<T: Widen>(
    rich: &FlatTree,
    lean: &FlatTree,
) -> (out: Option<PseudoHarmonicCrossTreeMap<T>>)
    requires
        rich.wf(),
        lean.wf(),
    ensures
        out is Some <==> stand_ins_agree::<T>(rich, lean, s_fraction_tolerance::<T::Wide>()),
        out matches Some(map) ==> map.pairs(rich, lean, s_fraction_tolerance::<T::Wide>()),
{
    let tol = fraction_tolerance::<T::Wide>();
    let n: usize = rich.nodes.len();
    let mut map: Vec<Vec<(usize, T)>> = Vec::new();
    let mut i: usize = 0;
    while i < n
        invariant
            i <= n,
            map@.len() == i,
        decreases n - i,
    {
        map.push(Vec::new());
        i += 1;
    }
    let mut first: Vec<(usize, T)> = Vec::new();
    first.push((0, T::one()));
    assert(plain_entries(first@) =~= seq![(0int, T::s_one())]);
    map[0] = first;
    assert(list_right(rich, lean, tol, 0, map@[0]@));
    proof {
        assert forall|x: int| rich.is_node(x) && rich.level(x) <= 0 implies list_right(
            rich,
            lean,
            tol,
            x,
            (#[trigger] map@[x])@,
        ) by {
            if x != 0 {
                lemma_parent_edge(rich, x);
                let e = parent_edge(rich, x);
                assert(rich.edge_ok(e.0, e.1));
            }
        }
    }
    let levels: usize = rich.levels.len();
    let mut d: usize = 0;
    while d < levels
        invariant
            d <= levels,
            tol == s_fraction_tolerance::<T::Wide>(),
            levels == rich.levels@.len(),
            rich.wf(),
            lean.wf(),
            map@.len() == rich.size(),
            forall|x: int|
                rich.is_node(x) && rich.level(x) <= d ==> list_right(
                    rich,
                    lean,
                    tol,
                    x,
                    (#[trigger] map@[x])@,
                ),
            forall|x: int|
                rich.is_node(x) && rich.level(x) < d ==> all_can_stand(
                    rich,
                    lean,
                    x,
                    #[trigger] stand_ins::<T>(rich, lean, tol, x),
                ),
        decreases levels - d,
    {
        let row = &rich.levels[d];
        let width: usize = row.len();
        let mut k: usize = 0;
        while k < width
            invariant
                k <= width,
                tol == s_fraction_tolerance::<T::Wide>(),
                d < levels,
                levels == rich.levels@.len(),
                row == rich.levels@[d as int],
                width == row@.len(),
                rich.wf(),
                lean.wf(),
                map@.len() == rich.size(),
                forall|x: int|
                    rich.is_node(x) && rich.level(x) <= d ==> list_right(
                        rich,
                        lean,
                        tol,
                        x,
                        (#[trigger] map@[x])@,
                    ),
                forall|x: int|
                    rich.is_node(x) && rich.level(x) < d ==> all_can_stand(
                        rich,
                        lean,
                        x,
                        #[trigger] stand_ins::<T>(rich, lean, tol, x),
                    ),
                forall|j: int|
                    0 <= j < k ==> all_can_stand(
                        rich,
                        lean,
                        (#[trigger] row@[j]) as int,
                        stand_ins::<T>(rich, lean, tol, row@[j] as int),
                    ),
                forall|j: int, a: int|
                    0 <= j < k && #[trigger] rich.is_edge(row@[j] as int, a) ==> list_right(
                        rich,
                        lean,
                        tol,
                        rich.child(row@[j] as int, a),
                        map@[rich.child(row@[j] as int, a)]@,
                    ),
            decreases width - k,
        {
            assert(rich.level_entry_ok(d as int, k as int));
            let r: usize = row[k] as usize;
            let ghost before = map@;
            let ok = walk_pair_ph(rich, lean, tol, r, &mut map);
            if !ok {
                assert(!stand_ins_agree::<T>(rich, lean, tol));
                return None;
            }
            proof {
                let kids = rich.kids(r as int);
                assert(rich.node_ok(r as int));
                assert forall|x: int| rich.is_node(x) && kids.contains(x as u32) implies rich.level(
                    x,
                ) == d + 1 && exists|a: int| #[trigger]
                    rich.is_edge(r as int, a) && rich.child(r as int, a) == x by {
                    let a = choose|a: int| 0 <= a < kids.len() && kids[a] == x as u32;
                    assert(rich.is_edge(r as int, a));
                    assert(rich.edge_ok(r as int, a));
                }
                assert forall|j: int, a: int|
                    0 <= j < k + 1 && #[trigger] rich.is_edge(row@[j] as int, a) implies list_right(
                    rich,
                    lean,
                    tol,
                    rich.child(row@[j] as int, a),
                    map@[rich.child(row@[j] as int, a)]@,
                ) by {
                    let c = rich.child(row@[j] as int, a);
                    assert(rich.edge_ok(row@[j] as int, a));
                    if j < k {
                        if kids.contains(c as u32) {
                            let b = choose|b: int| #[trigger]
                                rich.is_edge(r as int, b) && rich.child(r as int, b) == c;
                            assert(rich.is_edge(r as int, b) && rich.is_edge(row@[j] as int, a));
                            assert(row@[j] == row@[k as int]);
                        }
                        assert(map@[c] == before[c]);
                    }
                }
            }
            k += 1;
        }
        proof {
            assert forall|x: int| rich.is_node(x) && rich.level(x) < d + 1 implies all_can_stand(
                rich,
                lean,
                x,
                #[trigger] stand_ins::<T>(rich, lean, tol, x),
            ) by {
                if rich.level(x) == d {
                    assert(rich.levels@[rich.level(x)]@.contains(x as u32));
                    let j = choose|j: int| 0 <= j < row@.len() && row@[j] == x as u32;
                    assert(row@[j] as int == x);
                }
            }
            assert forall|x: int| rich.is_node(x) && rich.level(x) <= d + 1 implies list_right(
                rich,
                lean,
                tol,
                x,
                (#[trigger] map@[x])@,
            ) by {
                if rich.level(x) == d + 1 {
                    lemma_parent_edge(rich, x);
                    let e = parent_edge(rich, x);
                    assert(rich.is_edge(e.0, e.1));
                    assert(rich.edge_ok(e.0, e.1));
                    assert(rich.levels@[rich.level(e.0)]@.contains(e.0 as u32));
                    let j = choose|j: int| 0 <= j < row@.len() && row@[j] == e.0 as u32;
                    assert(rich.is_edge(row@[j] as int, e.1));
                }
            }
        }
        d += 1;
    }
    proof {
        assert(forall|x: int| rich.is_node(x) ==> #[trigger] rich.node_ok(x));
        assert forall|x: int| rich.is_node(x) implies all_can_stand(
            rich,
            lean,
            x,
            #[trigger] stand_ins::<T>(rich, lean, tol, x),
        ) by {
            assert(rich.node_ok(x));
        }
        assert forall|x: int| rich.is_node(x) implies list_right(
            rich,
            lean,
            tol,
            x,
            (#[trigger] map@[x])@,
        ) by {
            assert(rich.node_ok(x));
        }
    }
    Some(PseudoHarmonicCrossTreeMap { rich_to_lean_nodes: map })
}

/// The lists of all nodes.
pub fn build_pseudo_harmonic_map<T: Widen>(
    rich: &FlatTree,
    lean: &FlatTree,
) -> (map: PseudoHarmonicCrossTreeMap<T>)
    requires
        rich.wf(),
        lean.wf(),
        stand_ins_agree::<T>(rich, lean, s_fraction_tolerance::<T::Wide>()),
    ensures
        map.pairs(rich, lean, s_fraction_tolerance::<T::Wide>()),
{
    try_build_pseudo_harmonic_map(rich, lean).unwrap()
}

} // verus!
