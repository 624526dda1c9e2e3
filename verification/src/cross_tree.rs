//! Pairing two trees of one game that offer different actions.
//!
//! A strategy solved on a lean tree (few bet sizes) is scored in a rich one
//! (more bet sizes) by pairing the nodes of the two and copying the strategy
//! along the pairs.
use vstd::prelude::*;

use crate::layout::{
    copy_run, count_upto, flat, lemma_flat_row, lemma_other_row, lemma_row_inside, only_row,
    opt_int, row, slot,
};
use crate::scalar::{filled, Scalar};
use crate::tree::{ACTION_LABEL_BET, ACTION_LABEL_RAISE, FlatTree, MAX_NA_POSTFLOP};

verus! {

/// Result of pairing rich-tree nodes to lean-tree nodes.
///
/// `rich_to_lean_node[r]` is the lean node that stands for rich node `r`, if
/// any. `rich_action_to_lean[r][a]` is the lean action that stands for action
/// `a` of a paired player node `r`, if any.
pub struct CrossTreeMap {
    pub rich_to_lean_node: Vec<Option<usize>>,
    pub rich_action_to_lean: Vec<Vec<Option<usize>>>,
}

/// The label and amount by which actions of two trees are told equal.
pub open spec fn same_key(rich: &FlatTree, lean: &FlatTree, rc: int, lc: int) -> bool {
    rich.nodes@[rc].action_label == lean.nodes@[lc].action_label && rich.nodes@[rc].amount
        == lean.nodes@[lc].amount
}

/// The first lean action from `b` on that equals action `a` of `r` and that no
/// entry of `taken` holds.
pub open spec fn first_free(
    rich: &FlatTree,
    lean: &FlatTree,
    r: int,
    l: int,
    a: int,
    taken: Seq<Option<int>>,
    b: int,
) -> Option<int>
    decreases lean.arity(l) - b,
{
    if b >= lean.arity(l) {
        None
    } else if !taken.contains(Some(b)) && same_key(rich, lean, rich.child(r, a), lean.child(l, b)) {
        Some(b)
    } else {
        first_free(rich, lean, r, l, a, taken, b + 1)
    }
}

/// What the first `k` actions of `r` claim at `l`: each the first equal lean
/// action that no earlier one has claimed.
pub open spec fn claims(rich: &FlatTree, lean: &FlatTree, r: int, l: int, k: nat) -> Seq<
    Option<int>,
>
    decreases k,
{
    if k == 0 {
        Seq::empty()
    } else {
        let prev = claims(rich, lean, r, l, (k - 1) as nat);
        prev.push(first_free(rich, lean, r, l, k - 1, prev, 0))
    }
}

/// How far apart two action amounts are.
pub open spec fn amount_gap(rich: &FlatTree, lean: &FlatTree, rc: int, lc: int) -> int {
    let d = lean.nodes@[lc].amount - rich.nodes@[rc].amount;
    if d < 0 {
        -d
    } else {
        d
    }
}

/// Among the first `n` lean actions of the same label, the first one of least
/// gap in amount.
pub open spec fn nearest(rich: &FlatTree, lean: &FlatTree, r: int, l: int, a: int, n: nat) -> Option<
    int,
>
    decreases n,
{
    if n == 0 {
        None
    } else {
        let prev = nearest(rich, lean, r, l, a, (n - 1) as nat);
        let rc = rich.child(r, a);
        let lc = lean.child(l, n - 1);
        if rich.nodes@[rc].action_label != lean.nodes@[lc].action_label {
            prev
        } else {
            match prev {
                Some(p) => if amount_gap(rich, lean, rc, lc) < amount_gap(
                    rich,
                    lean,
                    rc,
                    lean.child(l, p),
                ) {
                    Some(n - 1)
                } else {
                    prev
                },
                None => Some(n - 1),
            }
        }
    }
}

pub open spec fn is_bet_or_raise(label: u8) -> bool {
    label == ACTION_LABEL_BET || label == ACTION_LABEL_RAISE
}

/// The lean action that stands for action `a` of player node `r` at `l`: the
/// claimed one, else for a bet or raise the nearest of its label.
pub open spec fn pair_action(rich: &FlatTree, lean: &FlatTree, r: int, l: int, a: int) -> Option<
    int,
> {
    let claimed = claims(rich, lean, r, l, rich.arity(r) as nat)[a];
    if claimed is Some {
        claimed
    } else if is_bet_or_raise(rich.nodes@[rich.child(r, a)].action_label) {
        nearest(rich, lean, r, l, a, lean.arity(l) as nat)
    } else {
        None
    }
}

/// The lean node paired with child `a` of `r`, when `r` itself is paired as `l`
/// says. Deals pair by outcome, decisions by [`pair_action`].
pub open spec fn child_pair(rich: &FlatTree, lean: &FlatTree, r: int, l: Option<int>, a: int) -> Option<
    int,
> {
    match l {
        None => None,
        Some(l) => if rich.nodes@[r].is_terminal() || lean.nodes@[l].is_terminal() {
            None
        } else if rich.nodes@[r].is_chance() {
            Some(lean.child(l, a))
        } else {
            match pair_action(rich, lean, r, l, a) {
                Some(b) => Some(lean.child(l, b)),
                None => None,
            }
        },
    }
}

/// The lean action paired with action `a` of `r`.
pub open spec fn action_pair(
    rich: &FlatTree,
    lean: &FlatTree,
    r: int,
    l: Option<int>,
    a: int,
) -> Option<int> {
    match l {
        None => None,
        Some(l) => if rich.nodes@[r].is_player() && !lean.nodes@[l].is_terminal() {
            pair_action(rich, lean, r, l, a)
        } else {
            None
        },
    }
}

/// Deals that get paired have the same number of outcomes in both trees, at
/// and below `(r, l)`.
pub open spec fn deals_agree(rich: &FlatTree, lean: &FlatTree, r: int, l: int) -> bool
    decreases rich.max_depth + 1 - rich.level(r),
    when rich.wf() && rich.is_node(r)
{
    if rich.nodes@[r].is_terminal() || lean.nodes@[l].is_terminal() {
        true
    } else {
        &&& rich.nodes@[r].is_chance() ==> rich.arity(r) == lean.arity(l)
        &&& forall|a: int| #[trigger]
            rich.is_edge(r, a) ==> match child_pair(rich, lean, r, Some(l), a) {
                Some(c) => deals_agree(rich, lean, rich.child(r, a), c),
                None => true,
            }
    }
}

pub open spec fn node_of(node_map: Seq<Option<usize>>, x: int) -> Option<int> {
    opt_int(node_map[x])
}

/// The maps hold what the pairing rules say of node `x` and its children.
pub open spec fn paired_at(
    rich: &FlatTree,
    lean: &FlatTree,
    node_map: Seq<Option<usize>>,
    actions: Seq<Option<usize>>,
    x: int,
) -> bool {
    &&& actions.len() == rich.arity(x)
    &&& node_of(node_map, x) matches Some(l) ==> lean.is_node(l)
    &&& forall|a: int|
        rich.is_edge(x, a) ==> {
            &&& opt_int(#[trigger] actions[a]) == action_pair(
                rich,
                lean,
                x,
                node_of(node_map, x),
                a,
            )
            &&& node_of(node_map, rich.child(x, a)) == child_pair(
                rich,
                lean,
                x,
                node_of(node_map, x),
                a,
            )
        }
}

impl CrossTreeMap {
    /// One slot per rich node, and one per action of it.
    pub open spec fn fits(&self, rich: &FlatTree) -> bool {
        &&& self.rich_to_lean_node@.len() == rich.size()
        &&& self.rich_action_to_lean@.len() == rich.size()
        &&& forall|x: int|
            rich.is_node(x) ==> (#[trigger] self.rich_action_to_lean@[x])@.len() == rich.arity(x)
    }

    /// The root pairs with the root, and every other pair follows from it.
    pub open spec fn pairs(&self, rich: &FlatTree, lean: &FlatTree) -> bool {
        &&& self.fits(rich)
        &&& node_of(self.rich_to_lean_node@, 0) == Some(0int)
        &&& forall|x: int|
            rich.is_node(x) ==> #[trigger] paired_at(
                rich,
                lean,
                self.rich_to_lean_node@,
                self.rich_action_to_lean@[x]@,
                x,
            )
    }
}

/// No action of `x` is paired yet.
spec fn untouched(rich: &FlatTree, actions: Seq<Option<usize>>, x: int) -> bool {
    &&& actions.len() == rich.arity(x)
    &&& forall|a: int| 0 <= a < actions.len() ==> (#[trigger] actions[a]) is None
}

/// Nothing at or below `c` is paired yet.
spec fn fresh_under(
    rich: &FlatTree,
    node_map: Seq<Option<usize>>,
    action_map: Seq<Vec<Option<usize>>>,
    c: int,
) -> bool {
    forall|y: int| #[trigger]
        rich.in_subtree(c, y) ==> node_map[y] is None && untouched(rich, action_map[y]@, y)
}

/// `c` is paired with `lc`, and the rules hold at and below it.
spec fn done_under(
    rich: &FlatTree,
    lean: &FlatTree,
    node_map: Seq<Option<usize>>,
    action_map: Seq<Vec<Option<usize>>>,
    c: int,
    lc: int,
) -> bool {
    &&& node_of(node_map, c) == Some(lc)
    &&& forall|y: int| #[trigger]
        rich.in_subtree(c, y) ==> paired_at(rich, lean, node_map, action_map[y]@, y)
}

/// Child `b` of `r` is treated as `k` says.
spec fn branch_ok(
    rich: &FlatTree,
    lean: &FlatTree,
    node_map: Seq<Option<usize>>,
    action_map: Seq<Vec<Option<usize>>>,
    c: int,
    lc: Option<int>,
) -> bool {
    match lc {
        Some(lc) => done_under(rich, lean, node_map, action_map, c, lc),
        None => fresh_under(rich, node_map, action_map, c),
    }
}

/// The maps differ in the subtree of `c` only.
spec fn same_outside(
    rich: &FlatTree,
    nm: Seq<Option<usize>>,
    am: Seq<Vec<Option<usize>>>,
    nm2: Seq<Option<usize>>,
    am2: Seq<Vec<Option<usize>>>,
    c: int,
) -> bool {
    forall|x: int|
        #![trigger nm2[x]]
        #![trigger am2[x]]
        rich.is_node(x) && !rich.in_subtree(c, x) ==> nm2[x] == nm[x] && am2[x] == am[x]
}

proof fn lemma_branch_frame(
    rich: &FlatTree,
    lean: &FlatTree,
    nm: Seq<Option<usize>>,
    am: Seq<Vec<Option<usize>>>,
    nm2: Seq<Option<usize>>,
    am2: Seq<Vec<Option<usize>>>,
    r: int,
    a: int,
    b: int,
    lc: Option<int>,
)
    requires
        rich.wf(),
        rich.is_edge(r, a),
        rich.is_edge(r, b),
        a != b,
        same_outside(rich, nm, am, nm2, am2, rich.child(r, a)),
        branch_ok(rich, lean, nm, am, rich.child(r, b), lc),
    ensures
        branch_ok(rich, lean, nm2, am2, rich.child(r, b), lc),
{
    let c = rich.child(r, a);
    let d = rich.child(r, b);
    assert(rich.edge_ok(r, a) && rich.edge_ok(r, b));
    assert forall|y: int| #[trigger] rich.in_subtree(d, y) implies rich.is_node(y) && nm2[y]
        == nm[y] && am2[y] == am[y] by {
        rich.lemma_subtree_level(d, y);
        if rich.in_subtree(c, y) {
            rich.lemma_subtree_apart(c, d, y);
        }
    }
    match lc {
        Some(lc) => {
            assert(rich.in_subtree(d, d));
            assert forall|y: int| #[trigger] rich.in_subtree(d, y) implies paired_at(
                rich,
                lean,
                nm2,
                am2[y]@,
                y,
            ) by {
                assert(paired_at(rich, lean, nm, am[y]@, y));
                assert forall|e: int| rich.is_edge(y, e) implies node_of(nm2, rich.child(y, e))
                    == node_of(nm, rich.child(y, e)) by {
                    rich.lemma_subtree_step(d, y, e);
                }
                assert forall|e: int| rich.is_edge(y, e) implies opt_int(#[trigger] am2[y]@[e])
                    == action_pair(rich, lean, y, node_of(nm2, y), e) && node_of(
                    nm2,
                    rich.child(y, e),
                ) == child_pair(rich, lean, y, node_of(nm2, y), e) by {
                    assert(opt_int(am[y]@[e]) == action_pair(rich, lean, y, node_of(nm, y), e));
                }
            }
        },
        None => {},
    }
}

proof fn lemma_fresh_paired(
    rich: &FlatTree,
    lean: &FlatTree,
    nm: Seq<Option<usize>>,
    am: Seq<Vec<Option<usize>>>,
    c: int,
)
    requires
        rich.wf(),
        rich.is_node(c),
        fresh_under(rich, nm, am, c),
    ensures
        forall|y: int| #[trigger] rich.in_subtree(c, y) ==> paired_at(rich, lean, nm, am[y]@, y),
{
    assert forall|y: int| #[trigger] rich.in_subtree(c, y) implies paired_at(
        rich,
        lean,
        nm,
        am[y]@,
        y,
    ) by {
        rich.lemma_subtree_level(c, y);
        assert forall|e: int| rich.is_edge(y, e) implies opt_int(#[trigger] am[y]@[e])
            == action_pair(rich, lean, y, node_of(nm, y), e) && node_of(nm, rich.child(y, e))
            == child_pair(rich, lean, y, node_of(nm, y), e) by {
            rich.lemma_subtree_step(c, y, e);
        }
    }
}

/// Assembles what holds below `r` from its own row and its branches.
proof fn lemma_join(
    rich: &FlatTree,
    lean: &FlatTree,
    nm: Seq<Option<usize>>,
    am: Seq<Vec<Option<usize>>>,
    r: int,
    l: int,
)
    requires
        rich.wf(),
        rich.is_node(r),
        lean.is_node(l),
        node_of(nm, r) == Some(l),
        am[r]@.len() == rich.arity(r),
        forall|a: int|
            rich.is_edge(r, a) ==> opt_int(#[trigger] am[r]@[a]) == action_pair(
                rich,
                lean,
                r,
                Some(l),
                a,
            ),
        forall|a: int|
            #[trigger] rich.is_edge(r, a) ==> branch_ok(
                rich,
                lean,
                nm,
                am,
                rich.child(r, a),
                child_pair(rich, lean, r, Some(l), a),
            ),
    ensures
        forall|y: int| #[trigger] rich.in_subtree(r, y) ==> paired_at(rich, lean, nm, am[y]@, y),
{
    assert forall|a: int| rich.is_edge(r, a) implies node_of(nm, rich.child(r, a)) == child_pair(
        rich,
        lean,
        r,
        Some(l),
        a,
    ) by {
        let c = rich.child(r, a);
        assert(rich.in_subtree(c, c));
    }
    assert(paired_at(rich, lean, nm, am[r]@, r)) by {
        assert forall|a: int| rich.is_edge(r, a) implies opt_int(#[trigger] am[r]@[a])
            == action_pair(rich, lean, r, node_of(nm, r), a) && node_of(nm, rich.child(r, a))
            == child_pair(rich, lean, r, node_of(nm, r), a) by {
            assert(rich.is_edge(r, a));
        }
    }
    assert forall|y: int| #[trigger] rich.in_subtree(r, y) implies paired_at(
        rich,
        lean,
        nm,
        am[y]@,
        y,
    ) by {
        if y != r {
            let a = choose|a: int| #[trigger]
                rich.is_edge(r, a) && rich.in_subtree(rich.child(r, a), y);
            let c = rich.child(r, a);
            assert(rich.edge_ok(r, a));
            assert(branch_ok(rich, lean, nm, am, c, child_pair(rich, lean, r, Some(l), a)));
            if child_pair(rich, lean, r, Some(l), a) is None {
                lemma_fresh_paired(rich, lean, nm, am, c);
            }
        }
    }
}

proof fn lemma_claims(rich: &FlatTree, lean: &FlatTree, r: int, l: int, k: nat, m: nat)
    requires
        k <= m,
    ensures
        claims(rich, lean, r, l, k).len() == k,
        claims(rich, lean, r, l, k) == claims(rich, lean, r, l, m).take(k as int),
    decreases m,
{
    if k < m {
        lemma_claims(rich, lean, r, l, k, (m - 1) as nat);
        lemma_claims(rich, lean, r, l, (m - 1) as nat, (m - 1) as nat);
        assert(claims(rich, lean, r, l, m).take(k as int) =~= claims(
            rich,
            lean,
            r,
            l,
            (m - 1) as nat,
        ).take(k as int));
    } else {
        if k > 0 {
            lemma_claims(rich, lean, r, l, (k - 1) as nat, (k - 1) as nat);
        }
        assert(claims(rich, lean, r, l, k).take(k as int) =~= claims(rich, lean, r, l, k));
    }
}

proof fn lemma_first_free_bound(
    rich: &FlatTree,
    lean: &FlatTree,
    r: int,
    l: int,
    a: int,
    taken: Seq<Option<int>>,
    b: int,
)
    requires
        0 <= b,
    ensures
        first_free(rich, lean, r, l, a, taken, b) matches Some(c) ==> b <= c < lean.arity(l)
            && !taken.contains(Some(c)) && same_key(
            rich,
            lean,
            rich.child(r, a),
            lean.child(l, c),
        ),
    decreases lean.arity(l) - b,
{
    if b < lean.arity(l) {
        lemma_first_free_bound(rich, lean, r, l, a, taken, b + 1);
    }
}

proof fn lemma_nearest_bound(rich: &FlatTree, lean: &FlatTree, r: int, l: int, a: int, n: nat)
    ensures
        nearest(rich, lean, r, l, a, n) matches Some(c) ==> 0 <= c < n
            && lean.nodes@[lean.child(l, c)].action_label == rich.nodes@[rich.child(
            r,
            a,
        )].action_label,
    decreases n,
{
    if n > 0 {
        lemma_nearest_bound(rich, lean, r, l, a, (n - 1) as nat);
    }
}

/// A paired action is an action of the lean node, of the same label.
pub proof fn lemma_pair_action(rich: &FlatTree, lean: &FlatTree, r: int, l: int, a: int)
    requires
        rich.is_edge(r, a),
    ensures
        pair_action(rich, lean, r, l, a) matches Some(b) ==> 0 <= b < lean.arity(l)
            && lean.nodes@[lean.child(l, b)].action_label == rich.nodes@[rich.child(
            r,
            a,
        )].action_label,
{
    let k = rich.arity(r) as nat;
    lemma_claims(rich, lean, r, l, (a + 1) as nat, k);
    lemma_claims(rich, lean, r, l, a as nat, a as nat);
    lemma_claims(rich, lean, r, l, k, k);
    let prev = claims(rich, lean, r, l, a as nat);
    assert(claims(rich, lean, r, l, k)[a] == claims(rich, lean, r, l, k).take(a + 1)[a]);
    lemma_first_free_bound(rich, lean, r, l, a, prev, 0);
    lemma_nearest_bound(rich, lean, r, l, a, lean.arity(l) as nat);
}

/// The lean action that equals rich node `rc` and is not used yet.
fn claim_action(
    rich: &FlatTree,
    lean: &FlatTree,
    r_idx: usize,
    l_idx: usize,
    a_r: usize,
    used: &Vec<bool>,
    Ghost(taken): Ghost<Seq<Option<int>>>,
) -> (found: Option<usize>)
    requires
        rich.wf(),
        lean.wf(),
        rich.is_edge(r_idx as int, a_r as int),
        lean.is_node(l_idx as int),
        used@.len() == lean.arity(l_idx as int),
        forall|b: int| 0 <= b < used@.len() ==> #[trigger] used@[b] == taken.contains(Some(b)),
    ensures
        opt_int(found) == first_free(
            rich,
            lean,
            r_idx as int,
            l_idx as int,
            a_r as int,
            taken,
            0,
        ),
        found matches Some(b) ==> b < lean.arity(l_idx as int),
{
    let r_children = rich.node_children(r_idx);
    let l_children = lean.node_children(l_idx);
    let rc: usize = r_children[a_r] as usize;
    assert(rich.edge_ok(r_idx as int, a_r as int));
    let mut b: usize = 0;
    while b < l_children.len()
        invariant
            b <= l_children@.len(),
            l_children@.len() == lean.arity(l_idx as int),
            lean.wf(),
            lean.is_node(l_idx as int),
            forall|i: int|
                0 <= i < l_children@.len() ==> (#[trigger] l_children@[i]) as int == lean.child(
                    l_idx as int,
                    i,
                ),
            rc == rich.child(r_idx as int, a_r as int),
            rich.is_node(rc as int),
            used@.len() == lean.arity(l_idx as int),
            forall|i: int| 0 <= i < used@.len() ==> #[trigger] used@[i] == taken.contains(Some(i)),
            first_free(rich, lean, r_idx as int, l_idx as int, a_r as int, taken, 0) == first_free(
                rich,
                lean,
                r_idx as int,
                l_idx as int,
                a_r as int,
                taken,
                b as int,
            ),
        decreases l_children@.len() - b,
    {
        if !used[b] {
            let lc: usize = l_children[b] as usize;
            assert(lean.is_edge(l_idx as int, b as int));
            assert(lean.edge_ok(l_idx as int, b as int));
            if lean.nodes[lc].action_label == rich.nodes[rc].action_label && lean.nodes[lc].amount
                == rich.nodes[rc].amount {
                return Some(b);
            }
        }
        b += 1;
    }
    None
}

/// The first lean action of node `l_idx` whose label and amount are those of
/// action `a_r` of rich node `r_idx`.
pub fn find_exact_action_in_lean(
    rich: &FlatTree,
    lean: &FlatTree,
    r_idx: usize,
    l_idx: usize,
    a_r: usize,
) -> (found: Option<usize>)
    requires
        rich.wf(),
        lean.wf(),
        rich.is_edge(r_idx as int, a_r as int),
        lean.is_node(l_idx as int),
    ensures
        match found {
            Some(b) => b < lean.arity(l_idx as int) && same_key(
                rich,
                lean,
                rich.child(r_idx as int, a_r as int),
                lean.child(l_idx as int, b as int),
            ) && forall|c: int|
                0 <= c < b ==> !same_key(
                    rich,
                    lean,
                    rich.child(r_idx as int, a_r as int),
                    #[trigger] lean.child(l_idx as int, c),
                ),
            None => forall|c: int|
                0 <= c < lean.arity(l_idx as int) ==> !same_key(
                    rich,
                    lean,
                    rich.child(r_idx as int, a_r as int),
                    #[trigger] lean.child(l_idx as int, c),
                ),
        },
{
    let ghost r = r_idx as int;
    let ghost l = l_idx as int;
    let n_l: usize = lean.nodes[l_idx].num_children as usize;
    let used: Vec<bool> = filled(false, n_l);
    let ghost none = Seq::<Option<int>>::empty();
    let found = claim_action(rich, lean, r_idx, l_idx, a_r, &used, Ghost(none));
    proof {
        lemma_first_free_bound(rich, lean, r, l, a_r as int, none, 0);
        lemma_first_free_least(rich, lean, r, l, a_r as int, 0);
    }
    found
}

proof fn lemma_first_free_least(rich: &FlatTree, lean: &FlatTree, r: int, l: int, a: int, b: int)
    requires
        0 <= b,
    ensures
        forall|c: int|
            b <= c < match first_free(rich, lean, r, l, a, Seq::empty(), b) {
                Some(f) => f,
                None => lean.arity(l),
            } ==> !same_key(rich, lean, rich.child(r, a), #[trigger] lean.child(l, c)),
    decreases lean.arity(l) - b,
{
    if b < lean.arity(l) {
        lemma_first_free_least(rich, lean, r, l, a, b + 1);
    }
}

/// The lean action of the label of rich node `rc` whose amount is nearest.
fn nearest_action(rich: &FlatTree, lean: &FlatTree, r_idx: usize, l_idx: usize, a_r: usize) -> (best:
    Option<usize>)
    requires
        rich.wf(),
        lean.wf(),
        rich.is_edge(r_idx as int, a_r as int),
        lean.is_node(l_idx as int),
    ensures
        opt_int(best) == nearest(
            rich,
            lean,
            r_idx as int,
            l_idx as int,
            a_r as int,
            lean.arity(l_idx as int) as nat,
        ),
        best matches Some(b) ==> b < lean.arity(l_idx as int),
{
    let r_children = rich.node_children(r_idx);
    let l_children = lean.node_children(l_idx);
    let rc: usize = r_children[a_r] as usize;
    assert(rich.edge_ok(r_idx as int, a_r as int));
    let mut best: Option<usize> = None;
    let mut best_gap: i64 = 0;
    let mut b: usize = 0;
    while b < l_children.len()
        invariant
            b <= l_children@.len(),
            l_children@.len() == lean.arity(l_idx as int),
            lean.wf(),
            lean.is_node(l_idx as int),
            forall|i: int|
                0 <= i < l_children@.len() ==> (#[trigger] l_children@[i]) as int == lean.child(
                    l_idx as int,
                    i,
                ),
            rc == rich.child(r_idx as int, a_r as int),
            rich.is_node(rc as int),
            opt_int(best) == nearest(
                rich,
                lean,
                r_idx as int,
                l_idx as int,
                a_r as int,
                b as nat,
            ),
            best matches Some(p) ==> p < b && best_gap == amount_gap(
                rich,
                lean,
                rc as int,
                lean.child(l_idx as int, p as int),
            ),
        decreases l_children@.len() - b,
    {
        let lc: usize = l_children[b] as usize;
        assert(lean.is_edge(l_idx as int, b as int));
        assert(lean.edge_ok(l_idx as int, b as int));
        if lean.nodes[lc].action_label == rich.nodes[rc].action_label {
            let diff: i64 = lean.nodes[lc].amount as i64 - rich.nodes[rc].amount as i64;
            let gap: i64 = if diff < 0 {
                -diff
            } else {
                diff
            };
            if best.is_none() || gap < best_gap {
                best = Some(b);
                best_gap = gap;
            }
        }
        b += 1;
    }
    best
}

/// The lean actions that the actions of node `r_idx` claim.
pub fn claimed_row(rich: &FlatTree, lean: &FlatTree, r_idx: usize, l_idx: usize) -> (row: Vec<
    Option<usize>,
>)
    requires
        rich.wf(),
        lean.wf(),
        rich.is_node(r_idx as int),
        lean.is_node(l_idx as int),
    ensures
        row@.len() == rich.arity(r_idx as int),
        forall|a: int|
            0 <= a < row@.len() ==> opt_int(#[trigger] row@[a]) == claims(
                rich,
                lean,
                r_idx as int,
                l_idx as int,
                rich.arity(r_idx as int) as nat,
            )[a] && (row@[a] matches Some(b) ==> b < lean.arity(l_idx as int)),
{
    let ghost r = r_idx as int;
    let ghost l = l_idx as int;
    let n_r: usize = rich.nodes[r_idx].num_children as usize;
    let n_l: usize = lean.nodes[l_idx].num_children as usize;
    let mut row: Vec<Option<usize>> = Vec::new();
    let mut used: Vec<bool> = filled(false, n_l);
    let mut a: usize = 0;
    while a < n_r
        invariant
            a <= n_r,
            n_r == rich.arity(r),
            n_l == lean.arity(l),
            r == r_idx,
            l == l_idx,
            rich.wf(),
            lean.wf(),
            rich.is_node(r),
            lean.is_node(l),
            row@.len() == a,
            claims(rich, lean, r, l, a as nat).len() == a,
            forall|b: int|
                0 <= b < a ==> opt_int(#[trigger] row@[b]) == claims(rich, lean, r, l, a as nat)[b] && (
                row@[b] matches Some(c) ==> c < n_l),
            used@.len() == n_l,
            forall|b: int|
                0 <= b < n_l ==> #[trigger] used@[b] == claims(rich, lean, r, l, a as nat).contains(
                    Some(b),
                ),
        decreases n_r - a,
    {
        let ghost taken = claims(rich, lean, r, l, a as nat);
        let found = claim_action(rich, lean, r_idx, l_idx, a, &used, Ghost(taken));
        let ghost next = claims(rich, lean, r, l, (a + 1) as nat);
        let ghost old_used = used@;
        assert(next == taken.push(opt_int(found)));
        if let Some(b) = found {
            used[b] = true;
        }
        row.push(found);
        proof {
            assert(next[a as int] == opt_int(found));
            assert forall|b: int| 0 <= b < n_l implies #[trigger] used@[b] == next.contains(
                Some(b),
            ) by {
                if taken.contains(Some(b)) {
                    let i = choose|i: int| 0 <= i < taken.len() && taken[i] == Some(b);
                    assert(next[i] == Some(b));
                }
                if next.contains(Some(b)) {
                    let i = choose|i: int| 0 <= i < next.len() && next[i] == Some(b);
                    if i < a {
                        assert(taken[i] == Some(b));
                    }
                }
                assert(old_used[b] == taken.contains(Some(b)));
            }
        }
        a += 1;
    }
    row
}

/// The lean actions that stand for the actions of player node `r_idx`.
fn pair_row(rich: &FlatTree, lean: &FlatTree, r_idx: usize, l_idx: usize) -> (row: Vec<
    Option<usize>,
>)
    requires
        rich.wf(),
        lean.wf(),
        rich.is_node(r_idx as int),
        lean.is_node(l_idx as int),
    ensures
        row@.len() == rich.arity(r_idx as int),
        forall|a: int|
            0 <= a < row@.len() ==> opt_int(#[trigger] row@[a]) == pair_action(
                rich,
                lean,
                r_idx as int,
                l_idx as int,
                a,
            ),
{
    let ghost r = r_idx as int;
    let ghost l = l_idx as int;
    let n_r: usize = rich.nodes[r_idx].num_children as usize;
    let mut row: Vec<Option<usize>> = claimed_row(rich, lean, r_idx, l_idx);
    let ghost claimed = row@;
    let mut a: usize = 0;
    while a < n_r
        invariant
            a <= n_r,
            n_r == rich.arity(r),
            r == r_idx,
            l == l_idx,
            rich.wf(),
            lean.wf(),
            rich.is_node(r),
            lean.is_node(l),
            row@.len() == n_r,
            claimed.len() == n_r,
            forall|b: int|
                0 <= b < n_r ==> opt_int(#[trigger] claimed[b]) == claims(
                    rich,
                    lean,
                    r,
                    l,
                    n_r as nat,
                )[b],
            forall|b: int| a <= b < n_r ==> #[trigger] row@[b] == claimed[b],
            forall|b: int|
                0 <= b < a ==> opt_int(#[trigger] row@[b]) == pair_action(rich, lean, r, l, b),
        decreases n_r - a,
    {
        assert(rich.is_edge(r, a as int));
        assert(rich.edge_ok(r, a as int));
        assert(row@[a as int] == claimed[a as int]);
        if row[a].is_none() {
            let rc: usize = rich.node_children(r_idx)[a] as usize;
            let label: u8 = rich.nodes[rc].action_label;
            if label == ACTION_LABEL_BET || label == ACTION_LABEL_RAISE {
                let best = nearest_action(rich, lean, r_idx, l_idx, a);
                row[a] = best;
            }
        }
        a += 1;
    }
    row
}

/// Pairs everything below the pair `(r_idx, l_idx)`.
fn walk_pair(
    rich: &FlatTree,
    lean: &FlatTree,
    r_idx: usize,
    l_idx: usize,
    node_map: &mut Vec<Option<usize>>,
    action_map: &mut Vec<Vec<Option<usize>>>,
)
    requires
        rich.wf(),
        lean.wf(),
        rich.is_node(r_idx as int),
        lean.is_node(l_idx as int),
        old(node_map)@.len() == rich.size(),
        old(action_map)@.len() == rich.size(),
        deals_agree(rich, lean, r_idx as int, l_idx as int),
        node_of(old(node_map)@, r_idx as int) == Some(l_idx as int),
        untouched(rich, old(action_map)@[r_idx as int]@, r_idx as int),
        forall|a: int| #[trigger]
            rich.is_edge(r_idx as int, a) ==> fresh_under(
                rich,
                old(node_map)@,
                old(action_map)@,
                rich.child(r_idx as int, a),
            ),
    ensures
        final(node_map)@.len() == rich.size(),
        final(action_map)@.len() == rich.size(),
        same_outside(
            rich,
            old(node_map)@,
            old(action_map)@,
            final(node_map)@,
            final(action_map)@,
            r_idx as int,
        ),
        done_under(
            rich,
            lean,
            final(node_map)@,
            final(action_map)@,
            r_idx as int,
            l_idx as int,
        ),
    decreases rich.max_depth + 1 - rich.level(r_idx as int),
{
    let ghost r = r_idx as int;
    let ghost l = l_idx as int;
    let ghost nm0 = node_map@;
    let ghost am0 = action_map@;
    assert(rich.in_subtree(r, r));
    assert(rich.node_ok(r));
    if rich.nodes[r_idx].is_terminal() || lean.nodes[l_idx].is_terminal() {
        proof {
            assert forall|a: int| rich.is_edge(r, a) implies opt_int(#[trigger] am0[r]@[a])
                == action_pair(rich, lean, r, Some(l), a) by {}
            lemma_join(rich, lean, nm0, am0, r, l);
        }
        return ;
    }
    let deal: bool = rich.nodes[r_idx].is_chance();
    let n_r: usize = rich.nodes[r_idx].num_children as usize;
    let row = if deal {
        let row: Vec<Option<usize>> = filled(None, n_r);
        row
    } else {
        pair_row(rich, lean, r_idx, l_idx)
    };
    let ghost pairs = row@;
    action_map[r_idx] = row;
    proof {
        assert(action_map@ =~= am0.update(r, row));
        assert forall|b: int| #[trigger] rich.is_edge(r, b) implies fresh_under(
            rich,
            node_map@,
            action_map@,
            rich.child(r, b),
        ) by {
            let c = rich.child(r, b);
            assert(rich.edge_ok(r, b));
            assert(fresh_under(rich, nm0, am0, c));
            assert forall|y: int| #[trigger] rich.in_subtree(c, y) implies node_map@[y] is None
                && untouched(rich, action_map@[y]@, y) by {
                rich.lemma_subtree_level(c, y);
            }
        }
        assert forall|b: int| rich.is_edge(r, b) implies opt_int(#[trigger] action_map@[r]@[b])
            == action_pair(rich, lean, r, Some(l), b) by {}
    }
    let mut a: usize = 0;
    while a < n_r
        invariant
            a <= n_r,
            n_r == rich.arity(r),
            r == r_idx,
            l == l_idx,
            rich.wf(),
            lean.wf(),
            rich.is_node(r),
            lean.is_node(l),
            !rich.nodes@[r].is_terminal(),
            !lean.nodes@[l].is_terminal(),
            deal == rich.nodes@[r].is_chance(),
            rich.nodes@[r].node_type <= 2,
            deals_agree(rich, lean, r, l),
            node_map@.len() == rich.size(),
            action_map@.len() == rich.size(),
            node_of(node_map@, r) == Some(l),
            action_map@[r]@.len() == n_r,
            forall|b: int|
                rich.is_edge(r, b) ==> opt_int(#[trigger] action_map@[r]@[b]) == action_pair(
                    rich,
                    lean,
                    r,
                    Some(l),
                    b,
                ),
            same_outside(rich, nm0, am0, node_map@, action_map@, r),
            forall|b: int|
                #![trigger rich.child(r, b)]
                rich.is_edge(r, b) ==> branch_ok(
                    rich,
                    lean,
                    node_map@,
                    action_map@,
                    rich.child(r, b),
                    if b < a {
                        child_pair(rich, lean, r, Some(l), b)
                    } else {
                        None
                    },
                ),
        decreases n_r - a,
    {
        assert(rich.is_edge(r, a as int));
        assert(rich.edge_ok(r, a as int));
        let rc: usize = rich.node_children(r_idx)[a] as usize;
        let target: Option<usize> = if deal {
            proof {
                assert(rich.arity(r) == lean.arity(l));
                assert(lean.is_edge(l, a as int));
                assert(lean.edge_ok(l, a as int));
            }
            Some(lean.node_children(l_idx)[a] as usize)
        } else {
            assert(opt_int(action_map@[r]@[a as int]) == action_pair(
                rich,
                lean,
                r,
                Some(l),
                a as int,
            ));
            proof {
                lemma_pair_action(rich, lean, r, l, a as int);
            }
            match action_map[r_idx][a] {
                Some(b) => {
                    assert(lean.is_edge(l, b as int));
                    assert(lean.edge_ok(l, b as int));
                    Some(lean.node_children(l_idx)[b] as usize)
                },
                None => None,
            }
        };
        assert(opt_int(target) == child_pair(rich, lean, r, Some(l), a as int));
        if let Some(lc) = target {
            let ghost nm1 = node_map@;
            let ghost am1 = action_map@;
            let ghost c = rc as int;
            node_map[rc] = Some(lc);
            proof {
                assert(rich.in_subtree(c, c));
                assert(branch_ok(rich, lean, nm1, am1, c, None));
                assert(untouched(rich, am1[c]@, c));
                assert forall|b: int| #[trigger] rich.is_edge(c, b) implies fresh_under(
                    rich,
                    node_map@,
                    action_map@,
                    rich.child(c, b),
                ) by {
                    let d = rich.child(c, b);
                    assert(rich.edge_ok(c, b));
                    assert forall|y: int| #[trigger] rich.in_subtree(d, y) implies node_map@[y] is None
                        && untouched(rich, action_map@[y]@, y) by {
                        rich.lemma_subtree_level(d, y);
                        assert(rich.in_subtree(c, y));
                    }
                }
            }
            walk_pair(rich, lean, rc, lc, node_map, action_map);
            proof {
                assert(same_outside(rich, nm1, am1, node_map@, action_map@, c));
                assert forall|b: int|
                    #![trigger rich.child(r, b)]
                    rich.is_edge(r, b) implies branch_ok(
                    rich,
                    lean,
                    node_map@,
                    action_map@,
                    rich.child(r, b),
                    if b < a + 1 {
                        child_pair(rich, lean, r, Some(l), b)
                    } else {
                        None
                    },
                ) by {
                    if b != a {
                        let k = if b < a {
                            child_pair(rich, lean, r, Some(l), b)
                        } else {
                            None
                        };
                        assert(branch_ok(rich, lean, nm1, am1, rich.child(r, b), k));
                        lemma_branch_frame(
                            rich,
                            lean,
                            nm1,
                            am1,
                            node_map@,
                            action_map@,
                            r,
                            a as int,
                            b,
                            k,
                        );
                    }
                }
                assert(!rich.in_subtree(c, r)) by {
                    if rich.in_subtree(c, r) {
                        rich.lemma_subtree_level(c, r);
                    }
                }
                assert(node_map@[r] == nm1[r] && action_map@[r] == am1[r]);
                assert forall|x: int|
                    #![trigger node_map@[x]]
                    #![trigger action_map@[x]]
                    rich.is_node(x) && !rich.in_subtree(r, x) implies node_map@[x] == nm0[x]
                    && action_map@[x] == am0[x] by {
                    assert(!rich.in_subtree(c, x));
                    assert(node_map@[x] == nm1[x] && action_map@[x] == am1[x]);
                }
            }
        }
        a += 1;
    }
    proof {
        lemma_join(rich, lean, node_map@, action_map@, r, l);
    }
}

/// Pairs every node of the rich tree that the lean one can stand for, walking
/// both from the root in lockstep.
pub fn build_action_map(rich: &FlatTree, lean: &FlatTree) -> (map: CrossTreeMap)
    requires
        rich.wf(),
        lean.wf(),
        rich.num_players == lean.num_players,
        deals_agree(rich, lean, 0, 0),
    ensures
        map.pairs(rich, lean),
{
    let n_rich: usize = rich.num_nodes();
    let mut node_map: Vec<Option<usize>> = filled(None, n_rich);
    let mut action_map: Vec<Vec<Option<usize>>> = Vec::new();
    let mut i: usize = 0;
    while i < n_rich
        invariant
            i <= n_rich,
            n_rich == rich.size(),
            action_map@.len() == i,
            forall|x: int| 0 <= x < i ==> untouched(rich, (#[trigger] action_map@[x])@, x),
        decreases n_rich - i,
    {
        let n: usize = rich.nodes[i].num_children as usize;
        let row: Vec<Option<usize>> = filled(None, n);
        action_map.push(row);
        i += 1;
    }
    node_map[0] = Some(0);
    proof {
        assert forall|a: int| #[trigger] rich.is_edge(0, a) implies fresh_under(
            rich,
            node_map@,
            action_map@,
            rich.child(0, a),
        ) by {
            let c = rich.child(0, a);
            assert(rich.edge_ok(0, a));
            assert forall|y: int| #[trigger] rich.in_subtree(c, y) implies node_map@[y] is None
                && untouched(rich, action_map@[y]@, y) by {
                rich.lemma_subtree_level(c, y);
                assert(untouched(rich, action_map@[y]@, y));
            }
        }
        assert(untouched(rich, action_map@[0]@, 0));
    }
    walk_pair(rich, lean, 0, 0, &mut node_map, &mut action_map);
    let map = CrossTreeMap { rich_to_lean_node: node_map, rich_action_to_lean: action_map };
    proof {
        assert forall|x: int| rich.is_node(x) implies rich.in_subtree(0, x) by {
            rich.lemma_all_below_root(x);
        }
        assert forall|x: int| rich.is_node(x) implies #[trigger] paired_at(
            rich,
            lean,
            map.rich_to_lean_node@,
            map.rich_action_to_lean@[x]@,
            x,
        ) by {
            assert(rich.in_subtree(0, x));
        }
        assert forall|x: int| rich.is_node(x) implies (
        #[trigger] map.rich_action_to_lean@[x])@.len() == rich.arity(x) by {
            assert(paired_at(
                rich,
                lean,
                map.rich_to_lean_node@,
                map.rich_action_to_lean@[x]@,
                x,
            ));
        }
    }
    map
}

/// Whether every deal that gets paired below `(r_idx, l_idx)` has as many
/// outcomes in the lean tree as in the rich one.
pub fn deals_match(rich: &FlatTree, lean: &FlatTree, r_idx: usize, l_idx: usize) -> (ok: bool)
    requires
        rich.wf(),
        lean.wf(),
        rich.is_node(r_idx as int),
        lean.is_node(l_idx as int),
    ensures
        ok == deals_agree(rich, lean, r_idx as int, l_idx as int),
    decreases rich.max_depth + 1 - rich.level(r_idx as int),
{
    let ghost r = r_idx as int;
    let ghost l = l_idx as int;
    assert(rich.node_ok(r));
    if rich.nodes[r_idx].is_terminal() || lean.nodes[l_idx].is_terminal() {
        return true;
    }
    let n_r: usize = rich.nodes[r_idx].num_children as usize;
    let deal: bool = rich.nodes[r_idx].is_chance();
    if deal && n_r != lean.nodes[l_idx].num_children as usize {
        return false;
    }
    let row = if deal {
        Vec::new()
    } else {
        pair_row(rich, lean, r_idx, l_idx)
    };
    let mut a: usize = 0;
    while a < n_r
        invariant
            a <= n_r,
            n_r == rich.arity(r),
            r == r_idx,
            l == l_idx,
            rich.wf(),
            lean.wf(),
            rich.is_node(r),
            lean.is_node(l),
            !rich.nodes@[r].is_terminal(),
            !lean.nodes@[l].is_terminal(),
            deal == rich.nodes@[r].is_chance(),
            deal ==> n_r == lean.arity(l),
            !deal ==> row@.len() == n_r && forall|b: int|
                0 <= b < n_r ==> opt_int(#[trigger] row@[b]) == pair_action(rich, lean, r, l, b),
            forall|b: int| #[trigger]
                rich.is_edge(r, b) && b < a ==> match child_pair(rich, lean, r, Some(l), b) {
                    Some(c) => deals_agree(rich, lean, rich.child(r, b), c),
                    None => true,
                },
        decreases n_r - a,
    {
        assert(rich.is_edge(r, a as int));
        assert(rich.edge_ok(r, a as int));
        let rc: usize = rich.node_children(r_idx)[a] as usize;
        let target: Option<usize> = if deal {
            assert(lean.is_edge(l, a as int));
            assert(lean.edge_ok(l, a as int));
            Some(lean.node_children(l_idx)[a] as usize)
        } else {
            proof {
                lemma_pair_action(rich, lean, r, l, a as int);
                assert(opt_int(row@[a as int]) == pair_action(rich, lean, r, l, a as int));
            }
            match row[a] {
                Some(b) => {
                    assert(lean.is_edge(l, b as int));
                    assert(lean.edge_ok(l, b as int));
                    Some(lean.node_children(l_idx)[b] as usize)
                },
                None => None,
            }
        };
        assert(opt_int(target) == child_pair(rich, lean, r, Some(l), a as int));
        if let Some(lc) = target {
            if !deals_match(rich, lean, rc, lc) {
                return false;
            }
        }
        a += 1;
    }
    true
}

proof fn lemma_count_grows(q: spec_fn(int) -> bool, m: nat, n: nat)
    requires
        m <= n,
    ensures
        count_upto(q, m) <= count_upto(q, n),
    decreases n,
{
    if m < n {
        lemma_count_grows(q, m, (n - 1) as nat);
    }
}

impl CrossTreeMap {
    /// Node `x` is a paired player node.
    pub open spec fn is_paired_player(&self, rich: &FlatTree, x: int) -> bool {
        self.rich_to_lean_node@[x] is Some && rich.nodes@[x].is_player()
    }

    /// Tells the paired player nodes.
    pub open spec fn paired_players(&self, rich: &FlatTree) -> spec_fn(int) -> bool {
        |x: int| self.is_paired_player(rich, x)
    }

    /// Tells the paired actions of node `x`.
    pub open spec fn paired_slots(&self, x: int) -> spec_fn(int) -> bool {
        |a: int| self.rich_action_to_lean@[x]@[a] is Some
    }

    /// Paired actions of node `x`.
    pub open spec fn paired_actions_at(&self, x: int) -> nat {
        count_upto(self.paired_slots(x), self.rich_action_to_lean@[x]@.len())
    }

    /// Paired actions of the paired player nodes among the first `n` nodes.
    pub open spec fn paired_actions_upto(&self, rich: &FlatTree, n: nat) -> nat
        decreases n,
    {
        if n == 0 {
            0
        } else {
            self.paired_actions_upto(rich, (n - 1) as nat) + if self.is_paired_player(
                rich,
                n - 1,
            ) {
                self.paired_actions_at(n - 1)
            } else {
                0
            }
        }
    }

    /// Number of rich player nodes that are paired.
    pub fn paired_player_count(&self, rich: &FlatTree) -> (n: usize)
        requires
            self.fits(rich),
        ensures
            n == count_upto(self.paired_players(rich), rich.size() as nat),
    {
        let mut n: usize = 0;
        let mut i: usize = 0;
        let ghost p = self.paired_players(rich);
        while i < self.rich_to_lean_node.len()
            invariant
                i <= self.rich_to_lean_node@.len(),
                self.fits(rich),
                n <= i,
                p == self.paired_players(rich),
                n == count_upto(p, i as nat),
            decreases self.rich_to_lean_node@.len() - i,
        {
            if self.rich_to_lean_node[i].is_some() && rich.nodes[i].is_player() {
                n += 1;
            }
            i += 1;
        }
        n
    }

    proof fn lemma_actions_grow(&self, rich: &FlatTree, m: nat, n: nat)
        requires
            m <= n,
        ensures
            self.paired_actions_upto(rich, m) <= self.paired_actions_upto(rich, n),
        decreases n,
    {
        if m < n {
            self.lemma_actions_grow(rich, m, (n - 1) as nat);
        }
    }

    /// Number of paired actions, summed over the paired player nodes.
    pub fn paired_action_count(&self, rich: &FlatTree) -> (n: usize)
        requires
            self.fits(rich),
            self.paired_actions_upto(rich, rich.size() as nat) <= usize::MAX,
        ensures
            n == self.paired_actions_upto(rich, rich.size() as nat),
    {
        let mut n: usize = 0;
        let mut i: usize = 0;
        while i < self.rich_to_lean_node.len()
            invariant
                i <= self.rich_to_lean_node@.len(),
                self.paired_actions_upto(rich, rich.size() as nat) <= usize::MAX,
                self.fits(rich),
                n == self.paired_actions_upto(rich, i as nat),
            decreases self.rich_to_lean_node@.len() - i,
        {
            if self.rich_to_lean_node[i].is_some() && rich.nodes[i].is_player() {
                let row = &self.rich_action_to_lean[i];
                assert(self.rich_action_to_lean@[i as int]@.len() == rich.arity(i as int));
                let ghost q = self.paired_slots(i as int);
                let ghost before = n as nat;
                proof {
                    self.lemma_actions_grow(rich, (i + 1) as nat, rich.size() as nat);
                }
                let mut a: usize = 0;
                while a < row.len()
                    invariant
                        a <= row@.len() <= 255,
                        i < self.rich_to_lean_node@.len(),
                        before + count_upto(q, row@.len()) <= usize::MAX,
                        row@ == self.rich_action_to_lean@[i as int]@,
                        q == self.paired_slots(i as int),
                        n == before + count_upto(q, a as nat),
                    decreases row@.len() - a,
                {
                    proof {
                        lemma_count_grows(q, (a + 1) as nat, row@.len());
                    }
                    if row[a].is_some() {
                        n += 1;
                    }
                    a += 1;
                }
            }
            i += 1;
        }
        n
    }
}

/// Where the strategy of node `x` starts in a buffer laid out by infoset.
pub open spec fn rich_offset(rich: &FlatTree, nh: int, x: int) -> int {
    if rich.nodes@[x].is_player() {
        rich.infoset_offsets@[x] * MAX_NA_POSTFLOP * nh
    } else {
        0
    }
}

/// Start of every decision node's strategy in the flat per-infoset layout: the
/// infoset number times the room of one infoset; 0 for the other nodes.
pub fn compute_rich_offsets(rich: &FlatTree, nh: usize) -> (offsets: Vec<usize>)
    requires
        rich.wf(),
        rich.num_infosets * MAX_NA_POSTFLOP <= usize::MAX,
        rich.num_infosets * MAX_NA_POSTFLOP * nh <= usize::MAX,
    ensures
        offsets@.len() == rich.size(),
        forall|x: int|
            rich.is_node(x) ==> #[trigger] offsets@[x] == rich_offset(rich, nh as int, x),
{
    let n: usize = rich.num_nodes();
    let mut offsets: Vec<usize> = filled(0, n);
    let mut k: usize = 0;
    let ghost ids = rich.decision_node_ids@;
    while k < rich.decision_node_ids.len()
        invariant
            k <= ids.len(),
            ids == rich.decision_node_ids@,
            rich.wf(),
            rich.num_infosets * MAX_NA_POSTFLOP <= usize::MAX,
            rich.num_infosets * MAX_NA_POSTFLOP * nh <= usize::MAX,
            offsets@.len() == rich.size(),
            forall|j: int|
                0 <= j < k ==> offsets@[(#[trigger] ids[j]) as int] == rich_offset(
                    rich,
                    nh as int,
                    ids[j] as int,
                ),
            forall|x: int|
                rich.is_node(x) && !ids.take(k as int).contains(x as u32)
                    ==> #[trigger] offsets@[x] == 0,
        decreases ids.len() - k,
    {
        let id: usize = rich.decision_node_ids[k] as usize;
        let info: usize = rich.infoset_offsets[id] as usize;
        assert(ids[k as int] as int == id);
        proof {
            let m = rich.num_infosets as int;
            assert(info * MAX_NA_POSTFLOP * nh <= m * MAX_NA_POSTFLOP * nh) by (nonlinear_arith)
                requires
                    0 <= info <= m,
                    0 <= nh,
            ;
        }
        offsets[id] = info * MAX_NA_POSTFLOP * nh;
        proof {
            assert(ids.take(k + 1) =~= ids.take(k as int).push(ids[k as int]));
            assert forall|x: int|
                rich.is_node(x) && !ids.take(k + 1).contains(x as u32) implies #[trigger] offsets@[x]
                == 0 by {
                let t = ids.take(k as int);
                if t.contains(x as u32) {
                    let i = choose|i: int| 0 <= i < t.len() && t[i] == x as u32;
                    assert(ids.take(k + 1)[i] == x as u32);
                }
                assert(ids.take(k + 1)[k as int] == ids[k as int]);
            }
        }
        k += 1;
    }
    proof {
        assert(ids.take(ids.len() as int) =~= ids);
        assert forall|x: int| rich.is_node(x) implies #[trigger] offsets@[x] == rich_offset(
            rich,
            nh as int,
            x,
        ) by {
            if rich.nodes@[x].is_player() {
                assert(ids.contains(x as u32));
                let j = choose|j: int| 0 <= j < ids.len() && ids[j] == x as u32;
                assert(offsets@[ids[j] as int] == rich_offset(rich, nh as int, ids[j] as int));
            } else {
                if ids.contains(x as u32) {
                    let j = choose|j: int| 0 <= j < ids.len() && ids[j] == x as u32;
                    assert(rich.nodes@[ids[j] as int].is_player());
                }
            }
        }
    }
    offsets
}

/// What action `a` of rich node `x` gets from a lean buffer: the values of the equal
/// lean action that it claims, zero where it claims none. A bet that is only read as
/// the nearest lean bet gets nothing: the lean strategy never plays it.
pub open spec fn lifted_row<T: Scalar>(
    rich: &FlatTree,
    lean: &FlatTree,
    map: &CrossTreeMap,
    lean_buffer: Seq<T>,
    lean_offsets: Seq<usize>,
    nh: int,
    x: int,
    a: int,
) -> Seq<T> {
    match opt_int(map.rich_to_lean_node@[x]) {
        Some(l) => match claims(rich, lean, x, l, rich.arity(x) as nat)[a] {
            Some(b) => if lean.nodes@[l].is_player() {
                lean_buffer.subrange(lean_offsets[l] + b * nh, lean_offsets[l] + b * nh + nh)
            } else {
                flat(T::s_zero(), nh)
            },
            None => flat(T::s_zero(), nh),
        },
        None => flat(T::s_zero(), nh),
    }
}

/// Infoset `i` is the infoset of one of the first `k` decision nodes.
pub open spec fn is_infoset(tree: &FlatTree, k: int, i: int) -> bool {
    exists|j: int|
        0 <= j < k && tree.infoset_offsets@[(#[trigger] tree.decision_node_ids@[j]) as int] == i
}

/// The rows that infoset `i` of the buffer holds once decision `j` is lifted.
spec fn lifted_at<T: Scalar>(
    rich: &FlatTree,
    lean: &FlatTree,
    map: &CrossTreeMap,
    lean_buffer: Seq<T>,
    lean_offsets: Seq<usize>,
    nh: int,
    lifted: Seq<T>,
    x: int,
    upto: int,
) -> bool {
    forall|a: int|
        0 <= a < MAX_NA_POSTFLOP ==> #[trigger] row(
            lifted,
            nh,
            slot(rich.infoset_offsets@[x] as int, a),
        ) == if a < upto {
            lifted_row(rich, lean, map, lean_buffer, lean_offsets, nh, x, a)
        } else {
            flat(T::s_zero(), nh)
        }
}

/// Lays a lean strategy buffer out against the infosets of the rich tree.
///
/// Each action of a paired decision node gets the values of the equal lean action;
/// every other slot stays zero.
pub fn lift_strategy<T: Scalar>(
    rich: &FlatTree,
    lean: &FlatTree,
    map: &CrossTreeMap,
    lean_buffer: &[T],
    lean_offsets: &[usize],
    rich_offsets: &[usize],
    nh: usize,
) -> (lifted: Vec<T>)
    requires
        rich.wf(),
        lean.wf(),
        rich.fits_postflop(),
        map.pairs(rich, lean),
        rich.num_infosets * MAX_NA_POSTFLOP <= usize::MAX,
        rich.num_infosets * MAX_NA_POSTFLOP * nh <= usize::MAX,
        rich_offsets@.len() == rich.size(),
        forall|x: int|
            rich.is_node(x) ==> #[trigger] rich_offsets@[x] == rich_offset(rich, nh as int, x),
        lean_offsets@.len() == lean.size(),
        forall|l: int|
            lean.is_node(l) && lean.nodes@[l].is_player() ==> #[trigger] lean_offsets@[l]
                + lean.arity(l) * nh <= lean_buffer@.len(),
    ensures
        lifted@.len() == rich.num_infosets * MAX_NA_POSTFLOP * nh,
        forall|x: int, a: int|
            rich.is_node(x) && rich.nodes@[x].is_player() && 0 <= a < MAX_NA_POSTFLOP
                ==> #[trigger] row(
                lifted@,
                nh as int,
                slot(rich.infoset_offsets@[x] as int, a),
            ) == if a < rich.arity(x) {
                lifted_row(rich, lean, map, lean_buffer@, lean_offsets@, nh as int, x, a)
            } else {
                flat(T::s_zero(), nh as int)
            },
        forall|i: int, a: int|
            0 <= i < rich.num_infosets && !is_infoset(
                rich,
                rich.decision_node_ids@.len() as int,
                i,
            ) && 0 <= a < MAX_NA_POSTFLOP ==> #[trigger] row(lifted@, nh as int, slot(i, a))
                == flat(T::s_zero(), nh as int),
{
    let ghost w = nh as int;
    let ghost ids = rich.decision_node_ids@;
    let ghost slots = rich.num_infosets * MAX_NA_POSTFLOP;
    let mut lifted: Vec<T> = filled(
        T::zero(),
        rich.num_infosets as usize * MAX_NA_POSTFLOP * nh,
    );
    proof {
        assert(lifted@ =~= flat(T::s_zero(), slots * w));
        assert forall|i: int, a: int|
            0 <= i < rich.num_infosets && 0 <= a < MAX_NA_POSTFLOP implies #[trigger] row(
            lifted@,
            w,
            slot(i, a),
        ) == flat(T::s_zero(), w) by {
            lemma_flat_row(T::s_zero(), w, slots, slot(i, a));
        }
    }
    let mut k: usize = 0;
    while k < rich.decision_node_ids.len()
        invariant
            k <= ids.len(),
            ids == rich.decision_node_ids@,
            w == nh,
            slots == rich.num_infosets * MAX_NA_POSTFLOP,
            rich.wf(),
            lean.wf(),
            rich.fits_postflop(),
            map.pairs(rich, lean),
            slots * nh <= usize::MAX,
            rich_offsets@.len() == rich.size(),
            forall|x: int|
                rich.is_node(x) ==> #[trigger] rich_offsets@[x] == rich_offset(rich, w, x),
            lean_offsets@.len() == lean.size(),
            forall|l: int|
                lean.is_node(l) && lean.nodes@[l].is_player() ==> #[trigger] lean_offsets@[l]
                    + lean.arity(l) * nh <= lean_buffer@.len(),
            lifted@.len() == slots * w,
            forall|j: int|
                0 <= j < ids.len() ==> lifted_at(
                    rich,
                    lean,
                    map,
                    lean_buffer@,
                    lean_offsets@,
                    w,
                    lifted@,
                    (#[trigger] ids[j]) as int,
                    if j < k {
                        rich.arity(ids[j] as int)
                    } else {
                        0
                    },
                ),
            forall|i: int, a: int|
                0 <= i < rich.num_infosets && !is_infoset(rich, ids.len() as int, i) && 0 <= a
                    < MAX_NA_POSTFLOP ==> #[trigger] row(lifted@, w, slot(i, a)) == flat(
                    T::s_zero(),
                    w,
                ),
        decreases ids.len() - k,
    {
        let r_idx: usize = rich.decision_node_ids[k] as usize;
        let ghost x = ids[k as int] as int;
        assert(rich.nodes@[x].is_player());
        assert(paired_at(
            rich,
            lean,
            map.rich_to_lean_node@,
            map.rich_action_to_lean@[x]@,
            x,
        ));
        assert(map.rich_action_to_lean@[x]@.len() == rich.arity(x));
        let ghost before = lifted@;
        let target = map.rich_to_lean_node[r_idx];
        if let Some(l_idx) = target {
            if lean.nodes[l_idx].is_player() {
                let r_off: usize = rich_offsets[r_idx];
                let l_off: usize = lean_offsets[l_idx];
                let ghost info = rich.infoset_offsets@[x] as int;
                let n_r: usize = rich.nodes[r_idx].num_children as usize;
                let claimed = claimed_row(rich, lean, r_idx, l_idx);
                let mut a: usize = 0;
                while a < n_r
                    invariant
                        a <= n_r,
                        n_r == rich.arity(x),
                        n_r <= MAX_NA_POSTFLOP,
                        claimed@.len() == n_r,
                        forall|b: int|
                            0 <= b < n_r ==> opt_int(#[trigger] claimed@[b]) == claims(
                                rich,
                                lean,
                                x,
                                l_idx as int,
                                rich.arity(x) as nat,
                            )[b] && (claimed@[b] matches Some(c) ==> c < lean.arity(
                                l_idx as int,
                            )),
                        r_idx == x,
                        x == ids[k as int] as int,
                        k < ids.len(),
                        ids == rich.decision_node_ids@,
                        w == nh,
                        slots == rich.num_infosets * MAX_NA_POSTFLOP,
                        slots * nh <= usize::MAX,
                        rich.wf(),
                        lean.wf(),
                        map.pairs(rich, lean),
                        rich.is_node(x),
                        rich.nodes@[x].is_player(),
                        lean.is_node(l_idx as int),
                        lean.nodes@[l_idx as int].is_player(),
                        map.rich_to_lean_node@[x] == Some(l_idx),
                        paired_at(
                            rich,
                            lean,
                            map.rich_to_lean_node@,
                            map.rich_action_to_lean@[x]@,
                            x,
                        ),
                        l_off == lean_offsets@[l_idx as int],
                        l_off + lean.arity(l_idx as int) * nh <= lean_buffer@.len(),
                        info == rich.infoset_offsets@[x],
                        info < rich.num_infosets,
                        r_off == info * MAX_NA_POSTFLOP * nh,
                        lifted@.len() == slots * w,
                        before.len() == slots * w,
                        lifted_at(
                            rich,
                            lean,
                            map,
                            lean_buffer@,
                            lean_offsets@,
                            w,
                            lifted@,
                            x,
                            a as int,
                        ),
                        forall|i: int, b: int|
                            0 <= i < rich.num_infosets && i != info && 0 <= b < MAX_NA_POSTFLOP
                                ==> #[trigger] row(lifted@, w, slot(i, b)) == row(
                                before,
                                w,
                                slot(i, b),
                            ),
                    decreases n_r - a,
                {
                    assert(rich.is_edge(x, a as int));
                    let ghost mid = lifted@;
                    if let Some(b) = claimed[a] {
                        proof {
                            lemma_row_inside(w, lean.arity(l_idx as int), b as int);
                            lemma_row_inside(w, slots, slot(info, a as int));
                            lemma_row_inside(w, MAX_NA_POSTFLOP as int, a as int);
                            assert(info * MAX_NA_POSTFLOP * w + a * w == slot(info, a as int) * w)
                                by (nonlinear_arith)
                                requires
                                    slot(info, a as int) == info * MAX_NA_POSTFLOP + a,
                            ;
                        }
                        let total: usize = lifted.len();
                        let whole: usize = lean_buffer.len();
                        assert(b * nh + nh <= whole);
                        assert(a * nh + nh <= total);
                        copy_run(lean_buffer, l_off + b * nh, &mut lifted, r_off + a * nh, nh);
                        proof {
                            assert(only_row(mid, lifted@, w, slot(info, a as int)));
                        }
                    } else {
                        assert(only_row(mid, lifted@, w, slot(info, a as int)));
                    }
                    proof {
                        assert forall|i: int, b: int|
                            0 <= i < rich.num_infosets && 0 <= b < MAX_NA_POSTFLOP && !(i == info
                                && b == a) implies #[trigger] row(lifted@, w, slot(i, b)) == row(
                            mid,
                            w,
                            slot(i, b),
                        ) by {
                            lemma_row_inside(w, slots, slot(i, b));
                            lemma_other_row(mid, lifted@, w, slot(info, a as int), slot(i, b));
                        }
                        assert forall|b: int| 0 <= b < MAX_NA_POSTFLOP implies #[trigger] row(
                            lifted@,
                            w,
                            slot(info, b),
                        ) == if b < a + 1 {
                            lifted_row(rich, lean, map, lean_buffer@, lean_offsets@, w, x, b)
                        } else {
                            flat(T::s_zero(), w)
                        } by {
                            assert(row(mid, w, slot(info, b)) == if b < a {
                                lifted_row(rich, lean, map, lean_buffer@, lean_offsets@, w, x, b)
                            } else {
                                flat(T::s_zero(), w)
                            });
                        }
                    }
                    a += 1;
                }
            }
        }
        proof {
            assert forall|j: int| 0 <= j < ids.len() implies lifted_at(
                rich,
                lean,
                map,
                lean_buffer@,
                lean_offsets@,
                w,
                lifted@,
                (#[trigger] ids[j]) as int,
                if j < k + 1 {
                    rich.arity(ids[j] as int)
                } else {
                    0
                },
            ) by {
                let y = ids[j] as int;
                assert(rich.infoset_offsets@[y] < rich.num_infosets);
                assert(lifted_at(
                    rich,
                    lean,
                    map,
                    lean_buffer@,
                    lean_offsets@,
                    w,
                    before,
                    y,
                    if j < k {
                        rich.arity(y)
                    } else {
                        0
                    },
                ));
                if j != k {
                    assert(rich.infoset_offsets@[y] != rich.infoset_offsets@[x]);
                } else if lifted@ == before {
                    assert forall|a: int| 0 <= a < MAX_NA_POSTFLOP implies #[trigger] row(
                        lifted@,
                        w,
                        slot(rich.infoset_offsets@[x] as int, a),
                    ) == flat(T::s_zero(), w) by {}
                }
            }
        }
        k += 1;
    }
    proof {
        assert forall|x: int, a: int|
            rich.is_node(x) && rich.nodes@[x].is_player() && 0 <= a < MAX_NA_POSTFLOP implies #[trigger] row(
            lifted@,
            w,
            slot(rich.infoset_offsets@[x] as int, a),
        ) == if a < rich.arity(x) {
            lifted_row(rich, lean, map, lean_buffer@, lean_offsets@, w, x, a)
        } else {
            flat(T::s_zero(), w)
        } by {
            assert(ids.contains(x as u32));
            let j = choose|j: int| 0 <= j < ids.len() && ids[j] == x as u32;
            assert(ids[j] as int == x);
        }
    }
    lifted
}

/// No lean action is claimed by two rich actions.
pub proof fn law_claims_are_distinct(
    rich: &FlatTree,
    lean: &FlatTree,
    r: int,
    l: int,
    k: nat,
    i: int,
    j: int,
)
    requires
        0 <= i < j < k,
        claims(rich, lean, r, l, k)[i] is Some,
    ensures
        claims(rich, lean, r, l, k)[i] != claims(rich, lean, r, l, k)[j],
{
    lemma_claims(rich, lean, r, l, (j + 1) as nat, k);
    lemma_claims(rich, lean, r, l, j as nat, k);
    lemma_claims(rich, lean, r, l, k, k);
    let all = claims(rich, lean, r, l, k);
    let prev = claims(rich, lean, r, l, j as nat);
    assert(all.take(j + 1)[j] == all[j]);
    assert(all.take(j as int)[i] == all[i]);
    assert(prev[i] == all[i]);
    lemma_first_free_bound(rich, lean, r, l, j, prev, 0);
}

proof fn lemma_self_first_free(tree: &FlatTree, r: int, a: int, taken: Seq<Option<int>>, b: int)
    requires
        tree.is_edge(r, a),
        0 <= b <= a,
        !taken.contains(Some(a)),
        forall|i: int| 0 <= i < a ==> #[trigger] taken.contains(Some(i)),
    ensures
        first_free(tree, tree, r, r, a, taken, b) == Some(a),
    decreases a - b,
{
    if b < a {
        assert(taken.contains(Some(b)));
        lemma_self_first_free(tree, r, a, taken, b + 1);
    }
}

pub proof fn lemma_self_claims(tree: &FlatTree, r: int, k: nat)
    requires
        tree.is_node(r),
        k <= tree.arity(r),
    ensures
        claims(tree, tree, r, r, k) == Seq::new(k, |i: int| Some(i)),
    decreases k,
{
    if k > 0 {
        let j = (k - 1) as nat;
        lemma_self_claims(tree, r, j);
        let prev = claims(tree, tree, r, r, j);
        assert forall|i: int| 0 <= i < j implies #[trigger] prev.contains(Some(i)) by {
            assert(prev[i] == Some(i));
        }
        assert(tree.is_edge(r, j as int));
        lemma_self_first_free(tree, r, j as int, prev, 0);
    }
    assert(claims(tree, tree, r, r, k) =~= Seq::new(k, |i: int| Some(i)));
}

/// A tree can always be paired with itself.
pub proof fn law_own_deals_agree(tree: &FlatTree, r: int)
    requires
        tree.wf(),
        tree.is_node(r),
    ensures
        deals_agree(tree, tree, r, r),
    decreases tree.max_depth + 1 - tree.level(r),
{
    assert forall|a: int| #[trigger] tree.is_edge(r, a) implies match child_pair(
        tree,
        tree,
        r,
        Some(r),
        a,
    ) {
        Some(c) => deals_agree(tree, tree, tree.child(r, a), c),
        None => true,
    } by {
        assert(tree.edge_ok(r, a));
        lemma_self_claims(tree, r, tree.arity(r) as nat);
        law_own_deals_agree(tree, tree.child(r, a));
    }
}

/// Paired with itself, a tree pairs every node, and every action of a decision,
/// with itself.
pub proof fn law_identity_pairing(tree: &FlatTree, map: &CrossTreeMap, x: int)
    requires
        tree.wf(),
        map.pairs(tree, tree),
        tree.is_node(x),
    ensures
        opt_int(map.rich_to_lean_node@[x]) == Some(x),
        tree.nodes@[x].is_player() ==> forall|a: int|
            0 <= a < tree.arity(x) ==> opt_int(#[trigger] map.rich_action_to_lean@[x]@[a]) == Some(
                a,
            ),
    decreases tree.level(x),
{
    if x != 0 {
        assert(tree.has_parent(x));
        let (j, b) = choose|j: int, b: int| tree.is_parent(j, b, x);
        assert(tree.is_edge(j, b));
        assert(tree.edge_ok(j, b));
        assert(tree.node_ok(j));
        law_identity_pairing(tree, map, j);
        lemma_self_claims(tree, j, tree.arity(j) as nat);
        assert(paired_at(
            tree,
            tree,
            map.rich_to_lean_node@,
            map.rich_action_to_lean@[j]@,
            j,
        ));
        let row = map.rich_action_to_lean@[j]@[b];
        assert(node_of(map.rich_to_lean_node@, x) == child_pair(tree, tree, j, Some(j), b));
    }
    assert(paired_at(tree, tree, map.rich_to_lean_node@, map.rich_action_to_lean@[x]@, x));
    lemma_self_claims(tree, x, tree.arity(x) as nat);
    if tree.nodes@[x].is_player() {
        assert forall|a: int| 0 <= a < tree.arity(x) implies opt_int(
            #[trigger] map.rich_action_to_lean@[x]@[a],
        ) == Some(a) by {
            assert(tree.is_edge(x, a));
        }
    }
}

/// Lifting a strategy into its own tree gives back every row of it.
pub proof fn law_identity_lift<T: Scalar>(
    tree: &FlatTree,
    map: &CrossTreeMap,
    buffer: Seq<T>,
    offsets: Seq<usize>,
    nh: int,
    x: int,
    a: int,
)
    requires
        tree.wf(),
        map.pairs(tree, tree),
        tree.is_edge(x, a),
        tree.nodes@[x].is_player(),
    ensures
        lifted_row(tree, tree, map, buffer, offsets, nh, x, a) == buffer.subrange(
            offsets[x] + a * nh,
            offsets[x] + a * nh + nh,
        ),
{
    law_identity_pairing(tree, map, x);
    lemma_self_claims(tree, x, tree.arity(x) as nat);
}

} // verus!
