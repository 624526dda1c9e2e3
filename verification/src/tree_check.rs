//! Whether flat arrays form a tree.
use vstd::prelude::*;

use crate::scalar::filled;
use crate::tree::{FlatTree, NODE_TYPE_PLAYER};

verus! {

/// Edge `(j, b)` comes before edge `(i, a)`.
spec fn edge_before(j: int, b: int, i: int, a: int) -> bool {
    j < i || j == i && b < a
}

/// An edge before `(i, a)` leads to `c`.
spec fn is_child_upto(tree: &FlatTree, i: int, a: int, c: int) -> bool {
    exists|j: int, b: int| #[trigger] tree.is_parent(j, b, c) && edge_before(j, b, i, a)
}

/// Place `l` of level list `e` comes before place `k` of list `d`.
spec fn place_before(e: int, l: int, d: int, k: int) -> bool {
    e < d || e == d && l < k
}

/// A place before `(d, k)` holds node `i`.
spec fn is_listed_upto(tree: &FlatTree, d: int, k: int, i: int) -> bool {
    exists|e: int, l: int| #[trigger] tree.at_level(e, l, i) && place_before(e, l, d, k)
}

/// An entry before `k` holds node `i`.
spec fn is_decided_upto(tree: &FlatTree, k: int, i: int) -> bool {
    exists|l: int| #[trigger] tree.at_decision(l, i) && l < k
}

/// A decision before the `k`-th has infoset `s`.
spec fn is_numbered_upto(tree: &FlatTree, k: int, s: int) -> bool {
    exists|l: int|
        0 <= l < k && tree.infoset_offsets@[(#[trigger] tree.decision_node_ids@[l]) as int] == s
}

impl FlatTree {
    /// The arrays have the sizes of a tree, and its nodes and edges are in range.
    fn has_shape(&self) -> (r: bool)
        ensures
            r == self.shape_ok(),
    {
        let n: usize = self.nodes.len();
        let np: u64 = self.num_players as u64;
        if n == 0 || n as u64 > 0xFFFF_FFFF || np == 0 {
            return false;
        }
        proof {
            assert(0 <= n * np <= 0xFFFF_FFFF * 255) by (nonlinear_arith)
                requires
                    0 <= n <= 0xFFFF_FFFF,
                    0 <= np <= 255,
            ;
        }
        if self.contributions.len() as u64 != n as u64 * np || self.folded_masks.len() != n
            || self.infoset_offsets.len() != n || self.levels.len() as u64 != self.max_depth as u64
            + 1 || self.nodes[0].level != 0 {
            return false;
        }
        let mut i: usize = 0;
        while i < n
            invariant
                i <= n,
                n == self.size(),
                forall|j: int| 0 <= j < i ==> #[trigger] self.node_ok(j),
            decreases n - i,
        {
            let node = self.nodes[i];
            let fits = node.node_type <= NODE_TYPE_PLAYER && node.first_child as u64
                + node.num_children as u64 <= self.child_ids.len() as u64 && node.level
                <= self.max_depth && (!node.is_terminal() || node.num_children == 0) && (
            !node.is_player() || node.player_id < self.num_players);
            if !fits {
                assert(!self.node_ok(i as int));
                assert(self.is_node(i as int));
                return false;
            }
            i += 1;
        }
        let mut i: usize = 0;
        while i < n
            invariant
                i <= n,
                n == self.size(),
                forall|j: int| 0 <= j < n ==> #[trigger] self.node_ok(j),
                forall|j: int, b: int| #[trigger] self.is_edge(j, b) && j < i ==> self.edge_ok(j, b),
            decreases n - i,
        {
            assert(self.node_ok(i as int));
            let node = self.nodes[i];
            let na: usize = node.num_children as usize;
            let mut a: usize = 0;
            while a < na
                invariant
                    a <= na,
                    i < n,
                    n == self.size(),
                    node == self.nodes@[i as int],
                    na == self.arity(i as int),
                    self.node_ok(i as int),
                    forall|j: int, b: int| #[trigger]
                        self.is_edge(j, b) && edge_before(j, b, i as int, a as int) ==> self.edge_ok(
                            j,
                            b,
                        ),
                decreases na - a,
            {
                let kids: usize = self.child_ids.len();
                let c: usize = self.child_ids[node.first_child as usize + a] as usize;
                assert(self.is_edge(i as int, a as int));
                assert(c == self.child(i as int, a as int));
                if c >= n || self.nodes[c].level as u64 != node.level as u64 + 1
                    || self.nodes[c].level > self.max_depth {
                    assert(!self.edge_ok(i as int, a as int));
                    return false;
                }
                a += 1;
            }
            i += 1;
        }
        assert forall|j: int, b: int| #[trigger] self.is_edge(j, b) implies self.edge_ok(j, b) by {}
        true
    }

    /// No node hangs under two edges, and every node but the root under one.
    fn has_parents(&self) -> (r: bool)
        requires
            self.shape_ok(),
        ensures
            r == (self.parents_ok() && self.connected_ok()),
    {
        let n: usize = self.nodes.len();
        let mut seen: Vec<bool> = filled(false, n);
        let mut i: usize = 0;
        while i < n
            invariant
                i <= n,
                n == self.size(),
                self.shape_ok(),
                seen@.len() == n,
                forall|c: int| 0 <= c < n ==> #[trigger] seen@[c] == is_child_upto(
                    self,
                    i as int,
                    0,
                    c,
                ),
                forall|j: int, b: int, k: int, d: int|
                    #![trigger self.is_edge(j, b), self.is_edge(k, d)]
                    self.is_edge(j, b) && self.is_edge(k, d) && j < i && k < i && self.child(j, b)
                        == self.child(k, d) ==> j == k && b == d,
            decreases n - i,
        {
            assert(self.node_ok(i as int));
            let node = self.nodes[i];
            let na: usize = node.num_children as usize;
            let mut a: usize = 0;
            while a < na
                invariant
                    a <= na,
                    i < n,
                    n == self.size(),
                    self.shape_ok(),
                    node == self.nodes@[i as int],
                    na == self.arity(i as int),
                    self.node_ok(i as int),
                    seen@.len() == n,
                    forall|c: int| 0 <= c < n ==> #[trigger] seen@[c] == is_child_upto(
                        self,
                        i as int,
                        a as int,
                        c,
                    ),
                    forall|j: int, b: int, k: int, d: int|
                        #![trigger self.is_edge(j, b), self.is_edge(k, d)]
                        self.is_edge(j, b) && self.is_edge(k, d) && edge_before(
                            j,
                            b,
                            i as int,
                            a as int,
                        ) && edge_before(k, d, i as int, a as int) && self.child(j, b)
                            == self.child(k, d) ==> j == k && b == d,
                decreases na - a,
            {
                let kids: usize = self.child_ids.len();
                let c: usize = self.child_ids[node.first_child as usize + a] as usize;
                assert(self.is_edge(i as int, a as int));
                assert(self.edge_ok(i as int, a as int));
                let ghost ci = c as int;
                if seen[c] {
                    proof {
                        let (j, b) = choose|j: int, b: int| #[trigger]
                            self.is_parent(j, b, ci) && edge_before(j, b, i as int, a as int);
                        assert(self.is_edge(j, b) && self.is_edge(i as int, a as int));
                        assert(!self.parents_ok());
                    }
                    return false;
                }
                let ghost was = seen@;
                seen.set(c, true);
                proof {
                    assert(self.is_parent(i as int, a as int, ci));
                    assert forall|x: int| 0 <= x < n implies #[trigger] seen@[x] == is_child_upto(
                        self,
                        i as int,
                        a + 1,
                        x,
                    ) by {
                        assert(was[x] == is_child_upto(self, i as int, a as int, x));
                        if was[x] {
                            let (j, b) = choose|j: int, b: int| #[trigger]
                                self.is_parent(j, b, x) && edge_before(j, b, i as int, a as int);
                            assert(self.is_parent(j, b, x) && edge_before(j, b, i as int, a + 1));
                        }
                        if is_child_upto(self, i as int, a + 1, x) {
                            let (j, b) = choose|j: int, b: int| #[trigger]
                                self.is_parent(j, b, x) && edge_before(j, b, i as int, a + 1);
                            if !(j == i && b == a) {
                                assert(edge_before(j, b, i as int, a as int));
                            }
                        }
                        if x == ci {
                            assert(self.is_parent(i as int, a as int, x) && edge_before(
                                i as int,
                                a as int,
                                i as int,
                                a + 1,
                            ));
                        }
                    }
                    assert forall|j: int, b: int, k: int, d: int|
                        #![trigger self.is_edge(j, b), self.is_edge(k, d)]
                        self.is_edge(j, b) && self.is_edge(k, d) && edge_before(
                            j,
                            b,
                            i as int,
                            a + 1,
                        ) && edge_before(k, d, i as int, a + 1) && self.child(j, b) == self.child(
                            k,
                            d,
                        ) implies j == k && b == d by {
                        if j == i && b == a && !(k == i && d == a) {
                            assert(self.is_parent(k, d, ci) && edge_before(
                                k,
                                d,
                                i as int,
                                a as int,
                            ));
                        }
                        if k == i && d == a && !(j == i && b == a) {
                            assert(self.is_parent(j, b, ci) && edge_before(
                                j,
                                b,
                                i as int,
                                a as int,
                            ));
                        }
                    }
                }
                a += 1;
            }
            proof {
                assert forall|c: int| 0 <= c < n implies #[trigger] seen@[c] == is_child_upto(
                    self,
                    i + 1,
                    0,
                    c,
                ) by {
                    assert(seen@[c] == is_child_upto(self, i as int, na as int, c));
                    if seen@[c] {
                        let (j, b) = choose|j: int, b: int| #[trigger]
                            self.is_parent(j, b, c) && edge_before(j, b, i as int, na as int);
                        assert(self.is_parent(j, b, c) && edge_before(j, b, i + 1, 0));
                    }
                    if is_child_upto(self, i + 1, 0, c) {
                        let (j, b) = choose|j: int, b: int| #[trigger]
                            self.is_parent(j, b, c) && edge_before(j, b, i + 1, 0);
                        assert(edge_before(j, b, i as int, na as int));
                    }
                }
            }
            i += 1;
        }
        let mut c: usize = 1;
        while c < n
            invariant
                1 <= c <= n,
                n == self.size(),
                seen@.len() == n,
                forall|x: int| 0 <= x < n ==> #[trigger] seen@[x] == is_child_upto(
                    self,
                    n as int,
                    0,
                    x,
                ),
                forall|x: int| 0 < x < c ==> #[trigger] self.has_parent(x),
            decreases n - c,
        {
            if !seen[c] {
                proof {
                    if self.has_parent(c as int) {
                        let (j, b) = choose|j: int, b: int| self.is_parent(j, b, c as int);
                        assert(self.is_parent(j, b, c as int) && edge_before(j, b, n as int, 0));
                    }
                    assert(!self.has_parent(c as int));
                }
                return false;
            }
            proof {
                let (j, b) = choose|j: int, b: int| #[trigger]
                    self.is_parent(j, b, c as int) && edge_before(j, b, n as int, 0);
                assert(self.is_parent(j, b, c as int));
                assert(self.has_parent(c as int));
            }
            c += 1;
        }
        true
    }

    /// The level lists hold every node once, at its own level.
    fn has_levels(&self) -> (r: bool)
        requires
            self.shape_ok(),
        ensures
            r == self.levels_ok(),
    {
        let n: usize = self.nodes.len();
        let depth: usize = self.levels.len();
        let mut seen: Vec<bool> = filled(false, n);
        let mut d: usize = 0;
        while d < depth
            invariant
                d <= depth,
                depth == self.levels@.len(),
                n == self.size(),
                n <= 0xFFFF_FFFF,
                seen@.len() == n,
                forall|i: int| 0 <= i < n ==> #[trigger] seen@[i] == is_listed_upto(
                    self,
                    d as int,
                    0,
                    i,
                ),
                forall|e: int, l: int|
                    0 <= e < d && 0 <= l < self.levels@[e]@.len() ==> #[trigger] self.level_entry_ok(
                        e,
                        l,
                    ),
                forall|e: int| 0 <= e < d ==> (#[trigger] self.levels@[e])@.no_duplicates(),
            decreases depth - d,
        {
            let list = &self.levels[d];
            let m: usize = list.len();
            let mut k: usize = 0;
            while k < m
                invariant
                    k <= m,
                    d < depth,
                    depth == self.levels@.len(),
                    list@ == self.levels@[d as int]@,
                    m == list@.len(),
                    n == self.size(),
                    n <= 0xFFFF_FFFF,
                    seen@.len() == n,
                    forall|i: int| 0 <= i < n ==> #[trigger] seen@[i] == is_listed_upto(
                        self,
                        d as int,
                        k as int,
                        i,
                    ),
                    forall|e: int, l: int|
                        0 <= e < d && 0 <= l < self.levels@[e]@.len()
                            ==> #[trigger] self.level_entry_ok(e, l),
                    forall|l: int| 0 <= l < k ==> #[trigger] self.level_entry_ok(d as int, l),
                    forall|l: int, x: int|
                        0 <= l < x < k ==> (#[trigger] list@[l]) != (#[trigger] list@[x]),
                decreases m - k,
            {
                let i: usize = list[k] as usize;
                let ghost di = d as int;
                let ghost ki = k as int;
                assert(self.at_level(di, ki, i as int));
                if i >= n || self.nodes[i].level as usize != d {
                    assert(!self.level_entry_ok(di, ki));
                    return false;
                }
                assert(self.level_entry_ok(di, ki));
                if seen[i] {
                    proof {
                        let (e, l) = choose|e: int, l: int| #[trigger]
                            self.at_level(e, l, i as int) && place_before(e, l, di, ki);
                        if e < d {
                            assert(self.level_entry_ok(e, l));
                        }
                        assert(e == d);
                        assert(list@[l] == list@[ki]);
                        assert(!self.levels@[di]@.no_duplicates());
                    }
                    return false;
                }
                let ghost was = seen@;
                seen.set(i, true);
                proof {
                    assert forall|x: int| 0 <= x < n implies #[trigger] seen@[x] == is_listed_upto(
                        self,
                        di,
                        k + 1,
                        x,
                    ) by {
                        assert(was[x] == is_listed_upto(self, di, ki, x));
                        if was[x] {
                            let (e, l) = choose|e: int, l: int| #[trigger]
                                self.at_level(e, l, x) && place_before(e, l, di, ki);
                            assert(self.at_level(e, l, x) && place_before(e, l, di, k + 1));
                        }
                        if is_listed_upto(self, di, k + 1, x) {
                            let (e, l) = choose|e: int, l: int| #[trigger]
                                self.at_level(e, l, x) && place_before(e, l, di, k + 1);
                            if !(e == d && l == k) {
                                assert(place_before(e, l, di, ki));
                            }
                        }
                        if x == i {
                            assert(self.at_level(di, ki, x) && place_before(di, ki, di, k + 1));
                        }
                    }
                    assert forall|l: int, x: int| 0 <= l < x < k + 1 implies (#[trigger] list@[l])
                        != (#[trigger] list@[x]) by {
                        if x == k && list@[l] == list@[x] {
                            assert(self.at_level(di, l, i as int) && place_before(di, l, di, ki));
                        }
                    }
                }
                k += 1;
            }
            proof {
                assert forall|i: int| 0 <= i < n implies #[trigger] seen@[i] == is_listed_upto(
                    self,
                    d + 1,
                    0,
                    i,
                ) by {
                    let di = d as int;
                    let mi = m as int;
                    assert(seen@[i] == is_listed_upto(self, di, mi, i));
                    if seen@[i] {
                        let (e, l) = choose|e: int, l: int| #[trigger]
                            self.at_level(e, l, i) && place_before(e, l, di, mi);
                        assert(self.at_level(e, l, i) && place_before(e, l, d + 1, 0));
                    }
                    if is_listed_upto(self, d + 1, 0, i) {
                        let (e, l) = choose|e: int, l: int| #[trigger]
                            self.at_level(e, l, i) && place_before(e, l, d + 1, 0);
                        assert(place_before(e, l, di, mi));
                    }
                }
                assert(self.levels@[d as int]@.no_duplicates());
            }
            d += 1;
        }
        let mut i: usize = 0;
        while i < n
            invariant
                i <= n,
                n == self.size(),
                n <= 0xFFFF_FFFF,
                depth == self.levels@.len(),
                seen@.len() == n,
                forall|x: int| 0 <= x < n ==> #[trigger] seen@[x] == is_listed_upto(
                    self,
                    depth as int,
                    0,
                    x,
                ),
                forall|e: int, l: int|
                    0 <= e < depth && 0 <= l < self.levels@[e]@.len()
                        ==> #[trigger] self.level_entry_ok(e, l),
                self.levels@.len() == self.max_depth + 1,
                self.shape_ok(),
                forall|x: int|
                    0 <= x < i ==> #[trigger] self.levels@[self.level(x)]@.contains(x as u32),
            decreases n - i,
        {
            let ghost x = i as int;
            let ghost top = depth as int;
            assert(self.node_ok(x));
            if !seen[i] {
                proof {
                    if self.levels@[self.level(x)]@.contains(x as u32) {
                        let l = choose|l: int|
                            0 <= l < self.levels@[self.level(x)]@.len()
                                && self.levels@[self.level(x)]@[l] == x as u32;
                        assert(self.at_level(self.level(x), l, x) && place_before(
                            self.level(x),
                            l,
                            top,
                            0,
                        ));
                    }
                    assert(self.is_node(x));
                    assert(!self.levels@[self.level(x)]@.contains(x as u32));
                }
                return false;
            }
            proof {
                let (e, l) = choose|e: int, l: int| #[trigger]
                    self.at_level(e, l, x) && place_before(e, l, top, 0);
                assert(self.level_entry_ok(e, l));
                assert(self.levels@[self.level(x)]@[l] == x as u32);
            }
            i += 1;
        }
        true
    }

    /// The decision list holds every player node once, with an infoset of its own.
    fn has_decisions(&self) -> (r: bool)
        requires
            self.shape_ok(),
        ensures
            r == self.decisions_ok(),
    {
        let n: usize = self.nodes.len();
        let m: usize = self.decision_node_ids.len();
        let slots: usize = self.num_infosets as usize;
        let ghost ids = self.decision_node_ids@;
        let mut seen: Vec<bool> = filled(false, n);
        let mut used: Vec<bool> = filled(false, slots);
        let mut k: usize = 0;
        while k < m
            invariant
                k <= m,
                ids == self.decision_node_ids@,
                m == ids.len(),
                n == self.size(),
                n <= 0xFFFF_FFFF,
                self.shape_ok(),
                slots == self.num_infosets,
                seen@.len() == n,
                used@.len() == slots,
                forall|i: int| 0 <= i < n ==> #[trigger] seen@[i] == is_decided_upto(
                    self,
                    k as int,
                    i,
                ),
                forall|s: int| 0 <= s < slots ==> #[trigger] used@[s] == is_numbered_upto(
                    self,
                    k as int,
                    s,
                ),
                forall|l: int|
                    0 <= l < k ==> (#[trigger] ids[l]) < self.size()
                        && self.nodes@[ids[l] as int].is_player()
                        && self.infoset_offsets@[ids[l] as int] < self.num_infosets,
                forall|l: int, x: int|
                    0 <= l < x < k ==> (#[trigger] ids[l]) != (#[trigger] ids[x])
                        && self.infoset_offsets@[ids[l] as int]
                        != self.infoset_offsets@[ids[x] as int],
            decreases m - k,
        {
            let i: usize = self.decision_node_ids[k] as usize;
            let ghost ki = k as int;
            assert(self.at_decision(ki, i as int));
            assert(ids[ki] == i);
            if i >= n || !self.nodes[i].is_player() || self.infoset_offsets[i]
                >= self.num_infosets {
                return false;
            }
            let s: usize = self.infoset_offsets[i] as usize;
            if used[s] {
                proof {
                    let l = choose|l: int|
                        0 <= l < k && self.infoset_offsets@[(
                        #[trigger] self.decision_node_ids@[l]) as int] == s;
                    assert(self.infoset_offsets@[ids[l] as int] == self.infoset_offsets@[ids[ki] as int]);
                    assert(l != ki);
                    assert(!self.decisions_ok());
                }
                return false;
            }
            let ghost was = seen@;
            let ghost used0 = used@;
            seen.set(i, true);
            used.set(s, true);
            proof {
                assert forall|x: int| 0 <= x < n implies #[trigger] seen@[x] == is_decided_upto(
                    self,
                    k + 1,
                    x,
                ) by {
                    assert(was[x] == is_decided_upto(self, ki, x));
                    if was[x] {
                        let l = choose|l: int| #[trigger] self.at_decision(l, x) && l < ki;
                        assert(self.at_decision(l, x) && l < k + 1);
                    }
                    if is_decided_upto(self, k + 1, x) {
                        let l = choose|l: int| #[trigger] self.at_decision(l, x) && l < k + 1;
                        if l < k {
                            assert(self.at_decision(l, x) && l < ki);
                        }
                    }
                    if x == i {
                        assert(self.at_decision(ki, x) && ki < k + 1);
                    }
                }
                assert forall|x: int| 0 <= x < slots implies #[trigger] used@[x]
                    == is_numbered_upto(self, k + 1, x) by {
                    assert(used0[x] == is_numbered_upto(self, ki, x));
                    if x == s {
                        assert(self.infoset_offsets@[self.decision_node_ids@[ki] as int] == x);
                    }
                }
                assert forall|l: int, x: int| 0 <= l < x < k + 1 implies (#[trigger] ids[l])
                    != (#[trigger] ids[x]) && self.infoset_offsets@[ids[l] as int]
                    != self.infoset_offsets@[ids[x] as int] by {
                    if x == k && self.infoset_offsets@[ids[l] as int] == s {
                        assert(is_numbered_upto(self, ki, s as int)) by {
                            assert(self.infoset_offsets@[self.decision_node_ids@[l] as int] == s);
                        }
                    }
                }
            }
            k += 1;
        }
        let mut i: usize = 0;
        while i < n
            invariant
                i <= n,
                ids == self.decision_node_ids@,
                m == ids.len(),
                n == self.size(),
                n <= 0xFFFF_FFFF,
                seen@.len() == n,
                forall|x: int| 0 <= x < n ==> #[trigger] seen@[x] == is_decided_upto(
                    self,
                    m as int,
                    x,
                ),
                forall|x: int|
                    0 <= x < i && (#[trigger] self.nodes@[x]).is_player() ==> ids.contains(x as u32),
            decreases n - i,
        {
            let ghost x = i as int;
            if self.nodes[i].is_player() && !seen[i] {
                proof {
                    if ids.contains(x as u32) {
                        let l = choose|l: int| 0 <= l < ids.len() && ids[l] == x as u32;
                        assert(self.at_decision(l, x) && l < m as int);
                    }
                    assert(self.is_node(x) && self.nodes@[x].is_player());
                    assert(!self.decisions_ok());
                }
                return false;
            }
            proof {
                if self.nodes@[x].is_player() {
                    let l = choose|l: int| #[trigger] self.at_decision(l, x) && l < m as int;
                    assert(ids[l] == x as u32);
                }
            }
            i += 1;
        }
        assert(ids.no_duplicates());
        true
    }

    /// Whether the arrays form a tree.
    pub fn is_tree(&self) -> (r: bool)
        ensures
            r == self.wf(),
    {
        self.has_shape() && self.has_parents() && self.has_levels() && self.has_decisions()
    }
}

} // verus!
