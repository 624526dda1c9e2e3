//! Splitting a tree by street, and numbering the infosets of each part.
use vstd::prelude::*;

use crate::layout::count_upto;
use crate::scalar::filled;
use crate::tree::{BOARD_FLOP, BOARD_PREFLOP, BOARD_RIVER, BOARD_TURN, FlatTree, UNUSED};

verus! {

/// The street whose storage a node belongs to.
#[derive(Clone, Copy, Debug, PartialEq, Eq, Structural)]
pub enum Zone {
    Flop,
    Turn,
    River,
    Preflop,
}

/// Node `c` deals `street`.
pub open spec fn deals(tree: &FlatTree, street: u8, c: int) -> bool {
    tree.is_node(c) && tree.nodes@[c].is_chance() && tree.nodes@[c].board_state == street
}

/// Node `i` lies at or below child `a` of a deal `c` of `street`.
pub open spec fn below_deal(tree: &FlatTree, street: u8, c: int, a: int, i: int) -> bool {
    deals(tree, street, c) && tree.is_edge(c, a) && tree.in_subtree(tree.child(c, a), i)
}

/// Node `i` comes after a deal of `street`.
pub open spec fn dealt(tree: &FlatTree, street: u8, i: int) -> bool {
    exists|c: int, a: int| below_deal(tree, street, c, a, i)
}

/// The zone of node `i`: the last street that was dealt before it, and before
/// any deal the street the tree starts on.
pub open spec fn zone_of(tree: &FlatTree, i: int) -> Zone {
    if dealt(tree, BOARD_RIVER, i) {
        Zone::River
    } else if dealt(tree, BOARD_TURN, i) {
        Zone::Turn
    } else if dealt(tree, BOARD_FLOP, i) {
        Zone::Flop
    } else if tree.nodes@[0].board_state == BOARD_PREFLOP {
        Zone::Preflop
    } else {
        Zone::Flop
    }
}

/// The children of the deals of `street` among the first `n` nodes, in node
/// order.
pub open spec fn deal_children(tree: &FlatTree, street: u8, n: nat) -> Seq<u32>
    decreases n,
{
    if n == 0 {
        Seq::empty()
    } else {
        let prev = deal_children(tree, street, (n - 1) as nat);
        if deals(tree, street, n - 1) {
            prev + tree.kids(n - 1)
        } else {
            prev
        }
    }
}

/// The player nodes of `zone` under `i`, parents first, without entering nodes
/// of another zone.
pub open spec fn zone_players(tree: &FlatTree, zones: Seq<Zone>, zone: Zone, i: int) -> Seq<u32>
    decreases tree.max_depth + 1 - tree.level(i), tree.arity(i) + 1,
    when tree.wf() && tree.is_node(i)
{
    if zones[i] != zone {
        Seq::empty()
    } else {
        let own = if tree.nodes@[i].is_player() {
            seq![i as u32]
        } else {
            Seq::empty()
        };
        own + zone_players_under(tree, zones, zone, i, tree.arity(i))
    }
}

/// The same of the first `n` children of `i`.
pub open spec fn zone_players_under(
    tree: &FlatTree,
    zones: Seq<Zone>,
    zone: Zone,
    i: int,
    n: int,
) -> Seq<u32>
    decreases tree.max_depth + 1 - tree.level(i), n,
    when tree.wf() && tree.is_node(i) && n <= tree.arity(i)
{
    if n <= 0 {
        Seq::empty()
    } else {
        zone_players_under(tree, zones, zone, i, n - 1) + if tree.is_edge(i, n - 1) {
            zone_players(tree, zones, zone, tree.child(i, n - 1))
        } else {
            Seq::empty()
        }
    }
}

/// Marks the subtree of `node_idx`.
pub fn mark_descendants(tree: &FlatTree, node_idx: usize, below: &mut Vec<bool>)
    requires
        tree.wf(),
        tree.is_node(node_idx as int),
        old(below)@.len() == tree.size(),
    ensures
        final(below)@.len() == tree.size(),
        forall|i: int|
            tree.is_node(i) ==> #[trigger] final(below)@[i] == (old(below)@[i] || tree.in_subtree(
                node_idx as int,
                i,
            )),
    decreases tree.max_depth + 1 - tree.level(node_idx as int),
{
    let ghost x = node_idx as int;
    let ghost before = below@;
    below[node_idx] = true;
    let n: usize = tree.nodes[node_idx].num_children as usize;
    let mut a: usize = 0;
    while a < n
        invariant
            a <= n,
            n == tree.arity(x),
            x == node_idx,
            tree.wf(),
            tree.is_node(x),
            below@.len() == tree.size(),
            forall|i: int|
                tree.is_node(i) ==> #[trigger] below@[i] == (before[i] || i == x || exists|b: int|
                    b < a && #[trigger] tree.is_edge(x, b) && tree.in_subtree(tree.child(x, b), i)),
        decreases n - a,
    {
        assert(tree.is_edge(x, a as int));
        assert(tree.edge_ok(x, a as int));
        let child: usize = tree.node_children(node_idx)[a] as usize;
        let ghost mid = below@;
        mark_descendants(tree, child, below);
        proof {
            assert forall|i: int| tree.is_node(i) implies #[trigger] below@[i] == (before[i] || i
                == x || exists|b: int|
                b < a + 1 && #[trigger] tree.is_edge(x, b) && tree.in_subtree(
                    tree.child(x, b),
                    i,
                )) by {
                assert(below@[i] == (mid[i] || tree.in_subtree(tree.child(x, a as int), i)));
                if tree.in_subtree(tree.child(x, a as int), i) {
                    assert(tree.is_edge(x, a as int));
                }
                if exists|b: int|
                    b < a + 1 && #[trigger] tree.is_edge(x, b) && tree.in_subtree(
                        tree.child(x, b),
                        i,
                    ) {
                    let b = choose|b: int|
                        b < a + 1 && #[trigger] tree.is_edge(x, b) && tree.in_subtree(
                            tree.child(x, b),
                            i,
                        );
                    if b < a {
                        assert(tree.is_edge(x, b));
                        assert(mid[i]);
                    }
                }
            }
        }
        a += 1;
    }
    proof {
        assert forall|i: int| tree.is_node(i) implies #[trigger] below@[i] == (before[i]
            || tree.in_subtree(x, i)) by {
            if tree.in_subtree(x, i) && i != x {
                let b = choose|b: int| #[trigger]
                    tree.is_edge(x, b) && tree.in_subtree(tree.child(x, b), i);
                assert(b < a);
            }
        }
    }
}

/// The children of the deals of `street`, and which nodes come after one.
pub fn street_split(tree: &FlatTree, street: u8) -> (split: (Vec<u32>, Vec<bool>))
    requires
        tree.wf(),
    ensures
        split.0@ == deal_children(tree, street, tree.size() as nat),
        split.1@.len() == tree.size(),
        forall|i: int| tree.is_node(i) ==> #[trigger] split.1@[i] == dealt(tree, street, i),
{
    let nn: usize = tree.num_nodes();
    let mut below: Vec<bool> = filled(false, nn);
    let mut kids: Vec<u32> = Vec::new();
    let mut c: usize = 0;
    while c < nn
        invariant
            c <= nn,
            nn == tree.size(),
            tree.wf(),
            kids@ == deal_children(tree, street, c as nat),
            below@.len() == nn,
            forall|i: int|
                tree.is_node(i) ==> #[trigger] below@[i] == exists|d: int, a: int|
                    d < c && #[trigger] below_deal(tree, street, d, a, i),
        decreases nn - c,
    {
        let ghost before = below@;
        let ghost kids0 = kids@;
        if tree.nodes[c].is_chance() && tree.nodes[c].board_state == street {
            assert(tree.node_ok(c as int));
            let n: usize = tree.nodes[c].num_children as usize;
            let mut a: usize = 0;
            while a < n
                invariant
                    a <= n,
                    n == tree.arity(c as int),
                    c < nn,
                    nn == tree.size(),
                    tree.wf(),
                    deals(tree, street, c as int),
                    kids@ == kids0 + tree.kids(c as int).take(a as int),
                    tree.kids(c as int).len() == n,
                    below@.len() == nn,
                    forall|i: int|
                        tree.is_node(i) ==> #[trigger] below@[i] == (before[i] || exists|b: int|
                            b < a && #[trigger] below_deal(tree, street, c as int, b, i)),
                decreases n - a,
            {
                assert(tree.is_edge(c as int, a as int));
                assert(tree.edge_ok(c as int, a as int));
                let child: u32 = tree.node_children(c)[a];
                let ghost mid = below@;
                kids.push(child);
                mark_descendants(tree, child as usize, &mut below);
                proof {
                    assert(tree.kids(c as int).take(a + 1) =~= tree.kids(c as int).take(
                        a as int,
                    ).push(child));
                    assert(kids@ =~= kids0 + tree.kids(c as int).take(a + 1));
                    assert forall|i: int| tree.is_node(i) implies #[trigger] below@[i] == (before[i]
                        || exists|b: int|
                        b < a + 1 && #[trigger] below_deal(tree, street, c as int, b, i)) by {
                        assert(below@[i] == (mid[i] || tree.in_subtree(child as int, i)));
                        if tree.in_subtree(child as int, i) {
                            assert(below_deal(tree, street, c as int, a as int, i));
                        }
                    }
                }
                a += 1;
            }
            assert(tree.kids(c as int).take(n as int) =~= tree.kids(c as int));
        }
        proof {
            assert forall|i: int| tree.is_node(i) implies #[trigger] below@[i] == exists|d: int, a: int|
                d < c + 1 && #[trigger] below_deal(tree, street, d, a, i) by {
                assert(before[i] == exists|d: int, a: int|
                    d < c && #[trigger] below_deal(tree, street, d, a, i));
                if before[i] {
                    let (d, a) = choose|d: int, a: int|
                        d < c && #[trigger] below_deal(tree, street, d, a, i);
                    assert(d < c + 1 && below_deal(tree, street, d, a, i));
                }
                if exists|d: int, a: int|
                    d < c + 1 && #[trigger] below_deal(tree, street, d, a, i) {
                    let (d, a) = choose|d: int, a: int|
                        d < c + 1 && #[trigger] below_deal(tree, street, d, a, i);
                    if d < c {
                        assert(before[i]);
                    } else {
                        assert(tree.is_edge(c as int, a));
                    }
                }
            }
        }
        c += 1;
    }
    proof {
        assert forall|i: int| tree.is_node(i) implies #[trigger] below@[i] == dealt(
            tree,
            street,
            i,
        ) by {
            if dealt(tree, street, i) {
                let (d, a) = choose|d: int, a: int| below_deal(tree, street, d, a, i);
                assert(d < c && below_deal(tree, street, d, a, i));
            }
        }
    }
    (kids, below)
}

/// A tree split by street.
pub struct Split {
    pub zones: Vec<Zone>,
    pub turn_chance_children: Vec<u32>,
    pub river_chance_children: Vec<u32>,
}

/// Classifies every node by street.
pub fn classify(tree: &FlatTree) -> (split: Split)
    requires
        tree.wf(),
    ensures
        split.zones@ == Seq::new(tree.size() as nat, |i: int| zone_of(tree, i)),
        split.turn_chance_children@ == deal_children(tree, BOARD_TURN, tree.size() as nat),
        split.river_chance_children@ == deal_children(tree, BOARD_RIVER, tree.size() as nat),
{
    let (river_cc, below_river) = street_split(tree, BOARD_RIVER);
    let (turn_cc, below_turn) = street_split(tree, BOARD_TURN);
    let (_flop_cc, below_flop) = street_split(tree, BOARD_FLOP);
    let root_is_preflop: bool = tree.nodes[0].board_state == BOARD_PREFLOP;
    let nn: usize = tree.num_nodes();
    let mut zones: Vec<Zone> = Vec::new();
    let mut i: usize = 0;
    while i < nn
        invariant
            i <= nn,
            nn == tree.size(),
            zones@ == Seq::new(i as nat, |j: int| zone_of(tree, j)),
            below_river@.len() == nn,
            below_turn@.len() == nn,
            below_flop@.len() == nn,
            root_is_preflop == (tree.nodes@[0].board_state == BOARD_PREFLOP),
            forall|j: int|
                tree.is_node(j) ==> #[trigger] below_river@[j] == dealt(tree, BOARD_RIVER, j),
            forall|j: int|
                tree.is_node(j) ==> #[trigger] below_turn@[j] == dealt(tree, BOARD_TURN, j),
            forall|j: int|
                tree.is_node(j) ==> #[trigger] below_flop@[j] == dealt(tree, BOARD_FLOP, j),
        decreases nn - i,
    {
        let zone = if below_river[i] {
            Zone::River
        } else if below_turn[i] {
            Zone::Turn
        } else if below_flop[i] {
            Zone::Flop
        } else if root_is_preflop {
            Zone::Preflop
        } else {
            Zone::Flop
        };
        zones.push(zone);
        i += 1;
        assert(zones@ =~= Seq::new(i as nat, |j: int| zone_of(tree, j)));
    }
    Split { zones, turn_chance_children: turn_cc, river_chance_children: river_cc }
}

/// Appends the player nodes of `zone` under `node_idx`, stopping at nodes of
/// another zone.
pub fn collect_zone_nodes(
    tree: &FlatTree,
    node_idx: usize,
    zones: &[Zone],
    zone: Zone,
    nodes: &mut Vec<u32>,
)
    requires
        tree.wf(),
        tree.is_node(node_idx as int),
        zones@.len() == tree.size(),
    ensures
        final(nodes)@ == old(nodes)@ + zone_players(tree, zones@, zone, node_idx as int),
    decreases tree.max_depth + 1 - tree.level(node_idx as int),
{
    let ghost x = node_idx as int;
    let ghost before = nodes@;
    if zones[node_idx] != zone {
        assert(nodes@ =~= before + zone_players(tree, zones@, zone, x));
        return ;
    }
    let ghost own: Seq<u32> = if tree.nodes@[x].is_player() {
        seq![x as u32]
    } else {
        Seq::empty()
    };
    if tree.nodes[node_idx].is_player() {
        nodes.push(node_idx as u32);
    }
    assert(nodes@ =~= before + own + zone_players_under(tree, zones@, zone, x, 0));
    let n: usize = tree.nodes[node_idx].num_children as usize;
    let mut a: usize = 0;
    while a < n
        invariant
            a <= n,
            n == tree.arity(x),
            x == node_idx,
            tree.wf(),
            tree.is_node(x),
            zones@.len() == tree.size(),
            nodes@ == before + own + zone_players_under(tree, zones@, zone, x, a as int),
        decreases n - a,
    {
        assert(tree.is_edge(x, a as int));
        assert(tree.edge_ok(x, a as int));
        let child: usize = tree.node_children(node_idx)[a] as usize;
        collect_zone_nodes(tree, child, zones, zone, nodes);
        assert(nodes@ =~= before + own + zone_players_under(tree, zones@, zone, x, a + 1));
        a += 1;
    }
    assert(nodes@ =~= before + zone_players(tree, zones@, zone, x));
}

/// Tells the decision nodes of `zone`, by their place in the decision list.
pub open spec fn decides_in(tree: &FlatTree, zones: Seq<Zone>, zone: Zone) -> spec_fn(int) -> bool {
    |j: int| zones[tree.decision_node_ids@[j] as int] == zone
}

/// Tells the node ids of `zone`.
pub open spec fn lies_in(zones: Seq<Zone>, zone: Zone) -> spec_fn(u32) -> bool {
    |id: u32| zones[id as int] == zone
}

/// Infosets of `zone` among the first `k` decision nodes.
pub open spec fn zone_count(tree: &FlatTree, zones: Seq<Zone>, zone: Zone, k: nat) -> nat {
    count_upto(decides_in(tree, zones, zone), k)
}

/// The bookkeeping of one zone: its nodes by level, and the numbers of its
/// infosets.
pub struct ZoneBook {
    /// Zone nodes at each level.
    pub nodes: Vec<Vec<u32>>,
    /// Infoset number of each zone decision; `UNUSED` for every other node.
    pub local_offset: Vec<usize>,
    pub infoset_count: usize,
}

impl ZoneBook {
    /// Node `i` is a decision of the zone.
    pub open spec fn owns(tree: &FlatTree, zones: Seq<Zone>, zone: Zone, i: int) -> bool {
        tree.is_node(i) && tree.nodes@[i].is_player() && zones[i] == zone
    }

    pub open spec fn local(&self, i: int) -> int {
        self.local_offset@[i] as int
    }

    /// The book of `zone`: level lists filtered by zone, infosets numbered in
    /// decision order.
    pub open spec fn of(&self, tree: &FlatTree, zones: Seq<Zone>, zone: Zone) -> bool {
        &&& self.nodes@.len() == tree.levels@.len()
        &&& forall|d: int|
            0 <= d < self.nodes@.len() ==> (#[trigger] self.nodes@[d])@ == tree.levels@[d]@.filter(
                lies_in(zones, zone),
            )
        &&& self.local_offset@.len() == tree.size()
        &&& self.infoset_count == zone_count(
            tree,
            zones,
            zone,
            tree.decision_node_ids@.len(),
        )
        &&& forall|k: int|
            0 <= k < tree.decision_node_ids@.len() && zones[(
            #[trigger] tree.decision_node_ids@[k]) as int] == zone ==> self.local(
                tree.decision_node_ids@[k] as int,
            ) == zone_count(tree, zones, zone, k as nat)
        &&& forall|i: int|
            tree.is_node(i) && !ZoneBook::owns(tree, zones, zone, i)
                ==> #[trigger] self.local_offset@[i] == UNUSED
    }

    /// Builds the book of `zone`.
    pub fn build(tree: &FlatTree, zones: &Vec<Zone>, zone: Zone) -> (book: ZoneBook)
        requires
            tree.wf(),
            zones@.len() == tree.size(),
        ensures
            book.of(tree, zones@, zone),
    {
        let ghost keep = lies_in(zones@, zone);
        let ghost ids = tree.decision_node_ids@;
        let mut nodes: Vec<Vec<u32>> = Vec::new();
        let mut d: usize = 0;
        while d < tree.levels.len()
            invariant
                d <= tree.levels@.len(),
                tree.wf(),
                zones@.len() == tree.size(),
                keep == lies_in(zones@, zone),
                nodes@.len() == d,
                forall|e: int|
                    0 <= e < d ==> (#[trigger] nodes@[e])@ == tree.levels@[e]@.filter(keep),
            decreases tree.levels@.len() - d,
        {
            let level = &tree.levels[d];
            let mut list: Vec<u32> = Vec::new();
            let mut k: usize = 0;
            proof {
                reveal(Seq::filter);
                assert(level@.take(0) =~= Seq::<u32>::empty());
            }
            while k < level.len()
                invariant
                    k <= level@.len(),
                    d < tree.levels@.len(),
                    level@ == tree.levels@[d as int]@,
                    tree.wf(),
                    zones@.len() == tree.size(),
                    keep == lies_in(zones@, zone),
                    list@ == level@.take(k as int).filter(keep),
                decreases level@.len() - k,
            {
                let id: u32 = level[k];
                proof {
                    assert(tree.level_entry_ok(d as int, k as int));
                    reveal(Seq::filter);
                    assert(level@.take(k + 1).drop_last() =~= level@.take(k as int));
                    assert(level@.take(k + 1).last() == id);
                }
                if zones[id as usize] == zone {
                    list.push(id);
                }
                k += 1;
            }
            assert(level@.take(level@.len() as int) =~= level@);
            nodes.push(list);
            d += 1;
        }
        let nn: usize = tree.num_nodes();
        let mut local_offset: Vec<usize> = filled(UNUSED, nn);
        let mut count: usize = 0;
        let mut k: usize = 0;
        while k < tree.decision_node_ids.len()
            invariant
                k <= ids.len(),
                ids == tree.decision_node_ids@,
                tree.wf(),
                zones@.len() == tree.size(),
                local_offset@.len() == tree.size(),
                count <= k,
                count == zone_count(tree, zones@, zone, k as nat),
                forall|j: int|
                    0 <= j < k && zones@[(#[trigger] ids[j]) as int] == zone
                        ==> local_offset@[ids[j] as int] == zone_count(
                        tree,
                        zones@,
                        zone,
                        j as nat,
                    ),
                forall|i: int|
                    tree.is_node(i) && !ZoneBook::owns(tree, zones@, zone, i)
                        ==> #[trigger] local_offset@[i] == UNUSED,
            decreases ids.len() - k,
        {
            let id: usize = tree.decision_node_ids[k] as usize;
            assert(ids[k as int] as int == id);
            if zones[id] == zone {
                assert(ZoneBook::owns(tree, zones@, zone, id as int));
                local_offset[id] = count;
                count += 1;
            }
            k += 1;
        }
        ZoneBook { nodes, local_offset, infoset_count: count }
    }

    /// Infoset numbers of a zone are distinct and cover `0..infoset_count`.
    pub proof fn lemma_local(&self, tree: &FlatTree, zones: Seq<Zone>, zone: Zone, i: int)
        requires
            tree.wf(),
            self.of(tree, zones, zone),
            ZoneBook::owns(tree, zones, zone, i),
        ensures
            0 <= self.local(i) < self.infoset_count,
            self.local_offset@[i] != UNUSED,
            forall|j: int| #[trigger]
                ZoneBook::owns(tree, zones, zone, j) && self.local(j) == self.local(i) ==> j == i,
    {
        let ids = tree.decision_node_ids@;
        let p = decides_in(tree, zones, zone);
        assert(ids.contains(i as u32));
        let k = choose|k: int| 0 <= k < ids.len() && ids[k] == i as u32;
        assert(ids[k] as int == i);
        lemma_count_step(p, k as nat, ids.len());
        assert forall|j: int| #[trigger]
            ZoneBook::owns(tree, zones, zone, j) && self.local(j) == self.local(i) implies j == i by {
            assert(ids.contains(j as u32));
            let l = choose|l: int| 0 <= l < ids.len() && ids[l] == j as u32;
            assert(ids[l] as int == j);
            if l < k {
                lemma_count_step(p, l as nat, k as nat);
            } else if k < l {
                lemma_count_step(p, k as nat, l as nat);
            }
        }
    }

    /// Every infoset number belongs to a decision of the zone.
    pub proof fn lemma_local_onto(&self, tree: &FlatTree, zones: Seq<Zone>, zone: Zone, g: int) -> (i:
        int)
        requires
            tree.wf(),
            self.of(tree, zones, zone),
            0 <= g < self.infoset_count,
        ensures
            ZoneBook::owns(tree, zones, zone, i),
            self.local(i) == g,
    {
        let ids = tree.decision_node_ids@;
        let p = decides_in(tree, zones, zone);
        let k = lemma_count_hits(p, ids.len(), g);
        assert(tree.nodes@[ids[k] as int].is_player());
        ids[k] as int
    }
}

/// `g` is the number of a decision of the zone.
pub open spec fn is_number(
    book: &ZoneBook,
    tree: &FlatTree,
    zones: Seq<Zone>,
    zone: Zone,
    g: int,
) -> bool {
    exists|i: int| #[trigger] ZoneBook::owns(tree, zones, zone, i) && book.local(i) == g
}

/// The decisions of a zone are numbered without a gap: each has a number of its own
/// below the zone's count, and each such number is some decision's.
pub proof fn law_zone_infosets_are_numbered(
    book: &ZoneBook,
    tree: &FlatTree,
    zones: Seq<Zone>,
    zone: Zone,
)
    requires
        tree.wf(),
        book.of(tree, zones, zone),
    ensures
        forall|i: int| #[trigger]
            ZoneBook::owns(tree, zones, zone, i) ==> 0 <= book.local(i) < book.infoset_count,
        forall|i: int, j: int|
            (#[trigger] ZoneBook::owns(tree, zones, zone, i) && #[trigger] ZoneBook::owns(
                tree,
                zones,
                zone,
                j,
            ) && i != j) ==> book.local(i) != book.local(j),
        forall|g: int|
            0 <= g < book.infoset_count ==> #[trigger] is_number(book, tree, zones, zone, g),
{
    assert forall|i: int| #[trigger] ZoneBook::owns(tree, zones, zone, i) implies 0 <= book.local(i)
        < book.infoset_count by {
        book.lemma_local(tree, zones, zone, i);
    }
    assert forall|i: int, j: int|
        (#[trigger] ZoneBook::owns(tree, zones, zone, i) && #[trigger] ZoneBook::owns(
            tree,
            zones,
            zone,
            j,
        ) && i != j) implies book.local(i) != book.local(j) by {
        book.lemma_local(tree, zones, zone, i);
    }
    assert forall|g: int| 0 <= g < book.infoset_count implies #[trigger] is_number(
        book,
        tree,
        zones,
        zone,
        g,
    ) by {
        let i = book.lemma_local_onto(tree, zones, zone, g);
        assert(ZoneBook::owns(tree, zones, zone, i) && book.local(i) == g);
    }
}

/// A counted index raises every later count.
proof fn lemma_count_step(p: spec_fn(int) -> bool, k: nat, n: nat)
    requires
        k < n,
        p(k as int),
    ensures
        count_upto(p, k) < count_upto(p, n),
    decreases n,
{
    if k + 1 < n {
        lemma_count_step(p, k, (n - 1) as nat);
    }
}

/// Every value below a count is the count before some counted index.
proof fn lemma_count_hits(p: spec_fn(int) -> bool, n: nat, g: int) -> (k: int)
    requires
        0 <= g < count_upto(p, n),
    ensures
        0 <= k < n,
        p(k),
        count_upto(p, k as nat) == g,
    decreases n,
{
    if g < count_upto(p, (n - 1) as nat) {
        lemma_count_hits(p, (n - 1) as nat, g)
    } else {
        n - 1
    }
}

proof fn lemma_filter_from<A>(s: Seq<A>, pred: spec_fn(A) -> bool, m: int) -> (i: int)
    requires
        0 <= m < s.filter(pred).len(),
    ensures
        0 <= i < s.len(),
        s[i] == s.filter(pred)[m],
        pred(s[i]),
    decreases s.len(),
{
    reveal(Seq::filter);
    let init = s.drop_last();
    if m < init.filter(pred).len() {
        let i = lemma_filter_from(init, pred, m);
        assert(init[i] == s[i]);
        i
    } else {
        s.len() - 1
    }
}

proof fn lemma_filter_keeps<A>(s: Seq<A>, pred: spec_fn(A) -> bool, i: int) -> (m: int)
    requires
        0 <= i < s.len(),
        pred(s[i]),
    ensures
        0 <= m < s.filter(pred).len(),
        s.filter(pred)[m] == s[i],
    decreases s.len(),
{
    reveal(Seq::filter);
    let init = s.drop_last();
    if i < init.len() {
        assert(init[i] == s[i]);
        lemma_filter_keeps(init, pred, i)
    } else {
        s.filter(pred).len() - 1
    }
}

impl ZoneBook {
    /// `m` locates node `i` in the zone list of level `d`.
    pub open spec fn lists(&self, d: int, m: int, i: int) -> bool {
        0 <= d < self.nodes@.len() && 0 <= m < self.nodes@[d]@.len() && self.nodes@[d]@[m] == i
    }

    /// A listed node is a zone node of its level.
    pub proof fn lemma_listed(
        &self,
        tree: &FlatTree,
        zones: Seq<Zone>,
        zone: Zone,
        d: int,
        m: int,
        i: int,
    )
        requires
            tree.wf(),
            self.of(tree, zones, zone),
            self.lists(d, m, i),
        ensures
            tree.is_node(i),
            tree.level(i) == d,
            zones[i] == zone,
    {
        let k = lemma_filter_from(tree.levels@[d]@, lies_in(zones, zone), m);
        assert(tree.level_entry_ok(d, k));
    }

    /// Every zone node is listed at its level.
    pub proof fn lemma_lists(&self, tree: &FlatTree, zones: Seq<Zone>, zone: Zone, i: int) -> (m:
        int)
        requires
            tree.wf(),
            self.of(tree, zones, zone),
            tree.is_node(i),
            zones[i] == zone,
        ensures
            self.lists(tree.level(i), m, i),
    {
        let d = tree.level(i);
        assert(tree.node_ok(i));
        assert(tree.levels@[tree.level(i)]@.contains(i as u32));
        let k = choose|k: int|
            0 <= k < tree.levels@[d]@.len() && tree.levels@[d]@[k] == i as u32;
        lemma_filter_keeps(tree.levels@[d]@, lies_in(zones, zone), k)
    }
}

/// The children of deals are listed once each, and nothing else is.
pub proof fn lemma_deal_children(tree: &FlatTree, street: u8, n: nat)
    requires
        tree.wf(),
        n <= tree.size(),
    ensures
        deal_children(tree, street, n).no_duplicates(),
        forall|k: int|
            0 <= k < deal_children(tree, street, n).len() ==> tree.is_node(
                (#[trigger] deal_children(tree, street, n)[k]) as int,
            ),
        forall|c: u32| #[trigger]
            deal_children(tree, street, n).contains(c) <==> exists|i: int, a: int|
                0 <= i < n && deals(tree, street, i) && #[trigger] tree.is_parent(i, a, c as int),
    decreases n,
{
    let all = deal_children(tree, street, n);
    if n == 0 {
        assert forall|c: u32| !#[trigger] all.contains(c) by {}
    } else {
        let prev = deal_children(tree, street, (n - 1) as nat);
        let i = n - 1;
        lemma_deal_children(tree, street, (n - 1) as nat);
        if deals(tree, street, i) {
            let kids = tree.kids(i);
            assert(tree.node_ok(i));
            assert forall|a: int| 0 <= a < kids.len() implies (#[trigger] kids[a]) as int
                == tree.child(i, a) && tree.is_node(kids[a] as int) && tree.is_parent(
                i,
                a,
                kids[a] as int,
            ) by {
                assert(tree.is_edge(i, a));
                assert(tree.edge_ok(i, a));
            }
            assert forall|k: int| 0 <= k < all.len() implies tree.is_node(
                (#[trigger] all[k]) as int,
            ) by {
                if k >= prev.len() {
                    assert(all[k] == kids[k - prev.len()]);
                } else {
                    assert(all[k] == prev[k]);
                }
            }
            assert forall|k: int, l: int| 0 <= k < all.len() && 0 <= l < all.len() && k != l implies all[k]
                != all[l] by {
                if k < prev.len() && l >= prev.len() {
                    lemma_kid_is_new(tree, street, prev, n, k, l - prev.len());
                    assert(all[k] == prev[k]);
                    assert(all[l] == kids[l - prev.len()]);
                } else if l < prev.len() && k >= prev.len() {
                    lemma_kid_is_new(tree, street, prev, n, l, k - prev.len());
                    assert(all[l] == prev[l]);
                    assert(all[k] == kids[k - prev.len()]);
                } else if k >= prev.len() {
                    let a = k - prev.len();
                    let b = l - prev.len();
                    assert(all[k] == kids[a] && all[l] == kids[b]);
                    assert(tree.is_edge(i, a) && tree.is_edge(i, b));
                } else {
                    assert(all[k] == prev[k] && all[l] == prev[l]);
                }
            }
            assert forall|c: u32| #[trigger] all.contains(c) <==> exists|j: int, a: int|
                0 <= j < n && deals(tree, street, j) && #[trigger] tree.is_parent(
                    j,
                    a,
                    c as int,
                ) by {
                if all.contains(c) {
                    let k = choose|k: int| 0 <= k < all.len() && all[k] == c;
                    if k < prev.len() {
                        assert(prev[k] == c);
                        assert(prev.contains(c));
                    } else {
                        assert(kids[k - prev.len()] == c);
                        assert(tree.is_parent(i, k - prev.len(), c as int));
                    }
                }
                if exists|j: int, a: int|
                    0 <= j < n && deals(tree, street, j) && #[trigger] tree.is_parent(
                        j,
                        a,
                        c as int,
                    ) {
                    let (j, a) = choose|j: int, a: int|
                        0 <= j < n && deals(tree, street, j) && #[trigger] tree.is_parent(
                            j,
                            a,
                            c as int,
                        );
                    if j == i {
                        assert(kids[a] as int == tree.child(i, a));
                        assert(all[prev.len() + a] == c);
                    } else {
                        assert(prev.contains(c));
                        let k = choose|k: int| 0 <= k < prev.len() && prev[k] == c;
                        assert(all[k] == c);
                    }
                }
            }
        } else {
            assert forall|c: u32| #[trigger] all.contains(c) <==> exists|j: int, a: int|
                0 <= j < n && deals(tree, street, j) && #[trigger] tree.is_parent(
                    j,
                    a,
                    c as int,
                ) by {
                assert(all.contains(c) == prev.contains(c));
            }
        }
    }
}

proof fn lemma_kid_is_new(tree: &FlatTree, street: u8, prev: Seq<u32>, n: nat, k: int, a: int)
    requires
        tree.wf(),
        0 < n <= tree.size(),
        prev == deal_children(tree, street, (n - 1) as nat),
        forall|c: u32| #[trigger]
            prev.contains(c) <==> exists|i: int, a: int|
                0 <= i < n - 1 && deals(tree, street, i) && #[trigger] tree.is_parent(
                    i,
                    a,
                    c as int,
                ),
        0 <= k < prev.len(),
        0 <= a < tree.arity(n - 1),
    ensures
        prev[k] != tree.kids(n - 1)[a],
{
    assert(tree.node_ok(n - 1));
    let c = prev[k];
    assert(prev.contains(c));
    let (j, b) = choose|j: int, b: int|
        0 <= j < n - 1 && deals(tree, street, j) && #[trigger] tree.is_parent(j, b, c as int);
    assert(tree.is_edge(n - 1, a));
    assert(tree.kids(n - 1)[a] as int == tree.child(n - 1, a));
}

} // verus!
