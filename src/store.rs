use crate::geometry::{Cell, MAX_LEVEL};
use std::collections::HashMap;
use vstd::arithmetic::power2::{lemma_pow2_pos, lemma_pow2_unfold, pow2};
use vstd::prelude::*;

verus! {

broadcast use vstd::std_specs::hash::group_hash_axioms;

/// A node of the quadtree, with its children named by their index in a
/// `NodeStore`.
#[derive(Debug, Clone, Copy, PartialEq, Eq, Structural, Hash)]
pub enum Node {
    Leaf(Cell),
    Inner { level: u8, nw: usize, ne: usize, sw: usize, se: usize },
}

pub open spec fn level_of(n: Node) -> nat {
    match n {
        Node::Leaf(_) => 0,
        Node::Inner { level, .. } => level as nat,
    }
}

/// Node `i` of `s` is a leaf, or an inner node of a level in `1..=MAX_LEVEL`
/// whose four children come before it and lie one level below it.
pub open spec fn node_ok(s: Seq<Node>, i: int) -> bool {
    match s[i] {
        Node::Leaf(_) => true,
        Node::Inner { level, nw, ne, sw, se } => {
            &&& 1 <= level <= MAX_LEVEL
            &&& nw < i && ne < i && sw < i && se < i
            &&& level_of(s[nw as int]) == level - 1
            &&& level_of(s[ne as int]) == level - 1
            &&& level_of(s[sw as int]) == level - 1
            &&& level_of(s[se as int]) == level - 1
        },
    }
}

/// Every node is well formed and no node is stored twice: two indices are
/// equal exactly when the nodes at them are.
pub open spec fn nodes_wf(s: Seq<Node>) -> bool {
    &&& forall|i: int| 0 <= i < s.len() ==> #[trigger] node_ok(s, i)
    &&& forall|i: int, j: int| 0 <= i < s.len() && 0 <= j < s.len() && i != j ==> s[i] != s[j]
}

/// Half the side of the square of an inner node.
pub open spec fn half_of(n: Node) -> int {
    pow2((n->level - 1) as nat) as int
}

/// The child of an inner node whose square holds column `x`, row `y`.
pub open spec fn child_for(n: Node, x: int, y: int) -> usize {
    let h = half_of(n);
    if y < h {
        if x < h { n->nw } else { n->ne }
    } else {
        if x < h { n->sw } else { n->se }
    }
}

/// A column or row of an inner node, counted in the child that holds it.
pub open spec fn local(n: Node, v: int) -> int {
    if v < half_of(n) { v } else { v - half_of(n) }
}

/// Inner node `n` with the child that holds column `x`, row `y` replaced by `c`.
pub open spec fn with_child(n: Node, x: int, y: int, c: usize) -> Node {
    let h = half_of(n);
    match n {
        Node::Leaf(_) => n,
        Node::Inner { level, nw, ne, sw, se } => if y < h {
            if x < h {
                Node::Inner { level, nw: c, ne, sw, se }
            } else {
                Node::Inner { level, nw, ne: c, sw, se }
            }
        } else {
            if x < h {
                Node::Inner { level, nw, ne, sw: c, se }
            } else {
                Node::Inner { level, nw, ne, sw, se: c }
            }
        },
    }
}

/// The cell at column `x`, row `y` of the square of node `id`, counted from its
/// north-west corner; `Dead` outside the square.
pub open spec fn cell_at(s: Seq<Node>, id: int, x: int, y: int) -> Cell
    decreases id,
{
    if 0 <= id < s.len() {
        match s[id] {
            Node::Leaf(c) => if x == 0 && y == 0 {
                c
            } else {
                Cell::Dead
            },
            Node::Inner { .. } => {
                let child = child_for(s[id], x, y);
                let h = half_of(s[id]);
                if child < id && 0 <= x < 2 * h && 0 <= y < 2 * h {
                    cell_at(s, child as int, local(s[id], x), local(s[id], y))
                } else {
                    Cell::Dead
                }
            },
        }
    } else {
        Cell::Dead
    }
}

/// Node `id` holds no live cell.
pub open spec fn all_dead(s: Seq<Node>, id: int) -> bool {
    forall|x: int, y: int| #[trigger] cell_at(s, id, x, y) == Cell::Dead
}

/// `t` keeps every node of `s` at its index.
pub open spec fn extends(s: Seq<Node>, t: Seq<Node>) -> bool {
    s.len() <= t.len() && forall|i: int| 0 <= i < s.len() ==> #[trigger] t[i] == s[i]
}

/// A node keeps its cells when the store grows.
pub proof fn lemma_cell_at_extends(s: Seq<Node>, t: Seq<Node>, id: int, x: int, y: int)
    requires
        extends(s, t),
        0 <= id < s.len(),
    ensures
        cell_at(t, id, x, y) == cell_at(s, id, x, y),
    decreases id,
{
    if s[id] is Inner {
        let child = child_for(s[id], x, y);
        if child < id {
            lemma_cell_at_extends(s, t, child as int, local(s[id], x), local(s[id], y));
        }
    }
}

pub proof fn lemma_all_dead_extends(s: Seq<Node>, t: Seq<Node>, id: int)
    requires
        extends(s, t),
        0 <= id < s.len(),
    ensures
        all_dead(t, id) == all_dead(s, id),
{
    assert forall|x: int, y: int|
        #![trigger cell_at(t, id, x, y)]
        #![trigger cell_at(s, id, x, y)]
        cell_at(t, id, x, y) == cell_at(s, id, x, y) by {
        lemma_cell_at_extends(s, t, id, x, y);
    }
}

/// An inner node whose four children hold no live cell holds none either.
pub proof fn lemma_inner_dead(s: Seq<Node>, id: int)
    requires
        0 <= id < s.len(),
        node_ok(s, id),
        s[id] is Inner,
        all_dead(s, s[id]->nw as int),
        all_dead(s, s[id]->ne as int),
        all_dead(s, s[id]->sw as int),
        all_dead(s, s[id]->se as int),
    ensures
        all_dead(s, id),
{
    assert forall|x: int, y: int| #[trigger] cell_at(s, id, x, y) == Cell::Dead by {
        let cx = local(s[id], x);
        let cy = local(s[id], y);
        assert(cell_at(s, child_for(s[id], x, y) as int, cx, cy) == Cell::Dead);
    }
}

proof fn lemma_quadrant_dead(s: Seq<Node>, id: int, c: int, dx: int, dy: int)
    requires
        nodes_wf(s),
        0 <= id < s.len(),
        s[id] is Inner,
        all_dead(s, id),
        (c == s[id]->nw && dx == 0 && dy == 0) || (c == s[id]->ne && dx == half_of(s[id]) && dy
            == 0) || (c == s[id]->sw && dx == 0 && dy == half_of(s[id])) || (c == s[id]->se && dx
            == half_of(s[id]) && dy == half_of(s[id])),
    ensures
        all_dead(s, c),
{
    let n = s[id];
    assert(node_ok(s, id));
    assert(node_ok(s, c));
    lemma_pow2_pos((n->level - 1) as nat);
    if n->level >= 2 {
        lemma_pow2_unfold((n->level - 1) as nat);
    }
    assert forall|a: int, b: int| #[trigger] cell_at(s, c, a, b) == Cell::Dead by {
        assert(cell_at(s, id, a + dx, b + dy) == Cell::Dead);
    }
}

/// The children of an inner node that holds no live cell hold none either.
pub proof fn lemma_child_dead(s: Seq<Node>, id: int)
    requires
        nodes_wf(s),
        0 <= id < s.len(),
        s[id] is Inner,
        all_dead(s, id),
    ensures
        all_dead(s, s[id]->nw as int),
        all_dead(s, s[id]->ne as int),
        all_dead(s, s[id]->sw as int),
        all_dead(s, s[id]->se as int),
{
    let n = s[id];
    let h = half_of(n);
    lemma_quadrant_dead(s, id, n->nw as int, 0, 0);
    lemma_quadrant_dead(s, id, n->ne as int, h, 0);
    lemma_quadrant_dead(s, id, n->sw as int, 0, h);
    lemma_quadrant_dead(s, id, n->se as int, h, h);
}

/// The nodes of a store hold exactly the tuples given to them: equal tuples
/// share one index, and distinct tuples have distinct indices.
pub proof fn lemma_canonical(store: &NodeStore, i: int, j: int)
    requires
        store.wf(),
        0 <= i < store@.len(),
        0 <= j < store@.len(),
    ensures
        (i == j) == (store@[i] == store@[j]),
{
}

fn same_node(a: &Node, b: &Node) -> (r: bool)
    ensures
        r == (*a == *b),
{
    match (a, b) {
        (Node::Leaf(c), Node::Leaf(d)) => match (c, d) {
            (Cell::Dead, Cell::Dead) | (Cell::Alive, Cell::Alive) => true,
            _ => false,
        },
        (
            Node::Inner { level: l1, nw: a1, ne: b1, sw: c1, se: d1 },
            Node::Inner { level: l2, nw: a2, ne: b2, sw: c2, se: d2 },
        ) => *l1 == *l2 && *a1 == *a2 && *b1 == *b2 && *c1 == *c2 && *d1 == *d2,
        _ => false,
    }
}

/// The hash key under which a node is filed.
#[verifier::opaque]
pub open spec fn key_of(n: Node) -> u64 {
    match n {
        Node::Leaf(Cell::Dead) => 0,
        Node::Leaf(Cell::Alive) => 1,
        Node::Inner { level, nw, ne, sw, se } => {
            let k: u64 = 0x9e37_79b9_7f4a_7c15;
            (level as u64).wrapping_mul(k).wrapping_add(nw as u64).wrapping_mul(k).wrapping_add(
                ne as u64,
            ).wrapping_mul(k).wrapping_add(sw as u64).wrapping_mul(k).wrapping_add(se as u64)
        },
    }
}

fn node_key(n: &Node) -> (r: u64)
    ensures
        r == key_of(*n),
{
    proof {
        reveal(key_of);
    }
    match n {
        Node::Leaf(Cell::Dead) => 0,
        Node::Leaf(Cell::Alive) => 1,
        Node::Inner { level, nw, ne, sw, se } => {
            let k: u64 = 0x9e37_79b9_7f4a_7c15;
            (*level as u64).wrapping_mul(k).wrapping_add(*nw as u64).wrapping_mul(k).wrapping_add(
                *ne as u64,
            ).wrapping_mul(k).wrapping_add(*sw as u64).wrapping_mul(k).wrapping_add(*se as u64)
        },
    }
}

/// The number of indices filed under `key`.
pub open spec fn filed_count(idx: Map<u64, Vec<usize>>, key: u64) -> int {
    if idx.contains_key(key) { idx[key]@.len() as int } else { 0 }
}

/// The shared pool of canonical nodes, and the results of evolutions already
/// computed.
pub struct NodeStore {
    nodes: Vec<Node>,
    by_key: HashMap<u64, Vec<usize>>,
    evolved: HashMap<usize, usize>,
}

impl View for NodeStore {
    type V = Seq<Node>;

    closed spec fn view(&self) -> Seq<Node> {
        self.nodes@
    }
}

impl NodeStore {
    /// The remembered evolutions: from a node of level at least 2 to a node one
    /// level below it, which is empty if the first one is.
    pub closed spec fn evolutions(&self) -> Map<usize, usize> {
        self.evolved@
    }

    /// Each node is filed under its key, and every filed index is a node.
    pub closed spec fn index_ok(&self) -> bool {
        &&& forall|i: int|
            0 <= i < self.nodes@.len() ==> #[trigger] self.by_key@.contains_key(
                key_of(self.nodes@[i]),
            ) && self.by_key@[key_of(self.nodes@[i])]@.contains(i as usize)
        &&& forall|k: u64, j: int|
            self.by_key@.contains_key(k) && 0 <= j < self.by_key@[k]@.len() ==> #[trigger] self.by_key@[k]@[j]
                < self.nodes@.len()
    }

    pub open spec fn evolution_ok(&self, from: usize, to: usize) -> bool {
        &&& from < self@.len()
        &&& to < self@.len()
        &&& level_of(self@[from as int]) >= 2
        &&& level_of(self@[to as int]) == level_of(self@[from as int]) - 1
        &&& all_dead(self@, from as int) ==> all_dead(self@, to as int)
    }

    pub open spec fn wf(&self) -> bool {
        &&& nodes_wf(self@)
        &&& self@.len() >= 2
        &&& self@[0] == Node::Leaf(Cell::Dead)
        &&& self@[1] == Node::Leaf(Cell::Alive)
        &&& self.index_ok()
        &&& forall|k: usize| #[trigger]
            self.evolutions().contains_key(k) ==> self.evolution_ok(k, self.evolutions()[k])
    }

    /// A store that holds the two leaves.
    pub fn new() -> (r: NodeStore)
        ensures
            r.wf(),
            r@ == seq![Node::Leaf(Cell::Dead), Node::Leaf(Cell::Alive)],
    {
        let mut nodes: Vec<Node> = Vec::new();
        nodes.push(Node::Leaf(Cell::Dead));
        nodes.push(Node::Leaf(Cell::Alive));
        let mut by_key: HashMap<u64, Vec<usize>> = HashMap::new();
        by_key.insert(0, vec![0]);
        by_key.insert(1, vec![1]);
        let r = NodeStore { nodes, by_key, evolved: HashMap::new() };
        assert(r@[0] != r@[1]);
        assert(r.by_key@[0]@[0] == 0);
        assert(r.by_key@[1]@[0] == 1);
        assert(key_of(Node::Leaf(Cell::Dead)) == 0 && key_of(Node::Leaf(Cell::Alive)) == 1) by {
            reveal(key_of);
        }
        assert(r.by_key@[0]@.contains(0));
        assert(r.by_key@[1]@.contains(1));
        assert(r.index_ok());
        r
    }

    pub fn len(&self) -> (r: usize)
        ensures
            r == self@.len(),
    {
        self.nodes.len()
    }

    pub fn get(&self, id: usize) -> (r: Node)
        requires
            id < self@.len(),
        ensures
            r == self@[id as int],
    {
        self.nodes[id]
    }

    pub fn level(&self, id: usize) -> (r: u8)
        requires
            self.wf(),
            id < self@.len(),
        ensures
            r == level_of(self@[id as int]),
            r <= MAX_LEVEL,
    {
        proof {
            assert(node_ok(self@, id as int));
        }
        match self.nodes[id] {
            Node::Leaf(_) => 0,
            Node::Inner { level, .. } => level,
        }
    }

    /// The index at which `node` is stored, if it is.
    fn find(&self, node: &Node) -> (r: Option<usize>)
        requires
            self.index_ok(),
        ensures
            r is Some ==> r->0 < self@.len() && self@[r->0 as int] == *node,
            r is None ==> !self@.contains(*node),
    {
        let key = node_key(node);
        let len = self.nodes.len();
        match self.by_key.get(&key) {
            None => {
                proof {
                    assert forall|i: int| 0 <= i < self@.len() implies self@[i] != *node by {
                        assert(self.by_key@.contains_key(key_of(self.nodes@[i])));
                    }
                }
                None
            },
            Some(bucket) => {
                let mut j: usize = 0;
                while j < bucket.len()
                    invariant
                        self.index_ok(),
                        len == self@.len(),
                        self.by_key@.contains_key(key),
                        bucket@ == self.by_key@[key]@,
                        key == key_of(*node),
                        j <= bucket@.len(),
                        forall|m: int| 0 <= m < j ==> self@[bucket@[m] as int] != *node,
                    decreases bucket@.len() - j,
                {
                    let id = bucket[j];
                    assert(self.by_key@[key]@[j as int] < self.nodes@.len());
                    if same_node(&self.nodes[id], node) {
                        return Some(id);
                    }
                    j = j + 1;
                }
                proof {
                    assert forall|i: int| 0 <= i < self@.len() implies self@[i] != *node by {
                        assert(self.by_key@.contains_key(key_of(self.nodes@[i])));
                        if self@[i] == *node {
                            assert(bucket@.contains(i as usize));
                            let m = choose|m: int|
                                0 <= m < bucket@.len() && bucket@[m] == i as usize;
                            assert(self@[bucket@[m] as int] != *node);
                        }
                    }
                }
                None
            },
        }
    }

    /// Adds `node` at the end and files it under its key.
    fn file(&mut self, node: Node)
        requires
            old(self).index_ok(),
        ensures
            final(self).nodes@ == old(self).nodes@.push(node),
            final(self).evolved@ == old(self).evolved@,
            final(self).index_ok(),
    {
        let ghost s0 = self.nodes@;
        let ghost idx0 = self.by_key@;
        let key = node_key(&node);
        let r = self.nodes.len();
        let mut bucket = match self.by_key.remove(&key) {
            Some(b) => b,
            None => Vec::new(),
        };
        bucket.push(r);
        self.by_key.insert(key, bucket);
        self.nodes.push(node);
        proof {
            assert forall|i: int| 0 <= i < self.nodes@.len() implies #[trigger] self.by_key@.contains_key(
                key_of(self.nodes@[i]),
            ) && self.by_key@[key_of(self.nodes@[i])]@.contains(i as usize) by {
                if i < r {
                    assert(s0[i] == self.nodes@[i]);
                    assert(old(self).by_key@.contains_key(key_of(old(self).nodes@[i])));
                    assert(idx0.contains_key(key_of(s0[i])) && idx0[key_of(s0[i])]@.contains(i as usize));
                    if key_of(s0[i]) == key {
                        let m = choose|m: int| 0 <= m < idx0[key]@.len() && idx0[key]@[m] == i as usize;
                        assert(self.by_key@[key]@[m] == i as usize);
                    }
                } else {
                    assert(self.by_key@[key]@[filed_count(idx0, key)] == r);
                }
            }
            assert forall|k: u64, j: int|
                self.by_key@.contains_key(k) && 0 <= j < self.by_key@[k]@.len() implies #[trigger] self.by_key@[k]@[j]
                    < self.nodes@.len() by {
                if k != key {
                    assert(idx0.contains_key(k));
                    assert(idx0[k]@[j] < s0.len());
                } else if j < filed_count(idx0, key) {
                    assert(idx0[k]@[j] < s0.len());
                }
            }
        }
    }

    /// The canonical leaf of `cell`.
    pub fn leaf(&self, cell: Cell) -> (r: usize)
        requires
            self.wf(),
        ensures
            r < self@.len(),
            self@[r as int] == Node::Leaf(cell),
    {
        match cell {
            Cell::Dead => 0,
            Cell::Alive => 1,
        }
    }

    /// The canonical inner node with these children: the one already stored,
    /// or else a new one added at the end.
    pub fn inner(&mut self, level: u8, nw: usize, ne: usize, sw: usize, se: usize) -> (r: usize)
        requires
            old(self).wf(),
            1 <= level <= MAX_LEVEL,
            nw < old(self)@.len(),
            ne < old(self)@.len(),
            sw < old(self)@.len(),
            se < old(self)@.len(),
            level_of(old(self)@[nw as int]) == level - 1,
            level_of(old(self)@[ne as int]) == level - 1,
            level_of(old(self)@[sw as int]) == level - 1,
            level_of(old(self)@[se as int]) == level - 1,
        ensures
            final(self).wf(),
            final(self).evolutions() == old(self).evolutions(),
            r < final(self)@.len(),
            final(self)@[r as int] == (Node::Inner { level, nw, ne, sw, se }),
            old(self)@.contains(Node::Inner { level, nw, ne, sw, se }) ==> final(self)@ == old(
                self,
            )@,
            !old(self)@.contains(Node::Inner { level, nw, ne, sw, se }) ==> final(self)@ == old(
                self,
            )@.push(Node::Inner { level, nw, ne, sw, se }),
    {
        let node = Node::Inner { level, nw, ne, sw, se };
        if let Some(i) = self.find(&node) {
            return i;
        }
        let ghost s0 = self@;
        let ghost ev = self.evolutions();
        assert(!s0.contains(node));
        let r = self.nodes.len();
        self.file(node);
        proof {
            assert(extends(s0, self@));
            assert(node_ok(self@, r as int));
            assert forall|k: int| 0 <= k < self@.len() implies #[trigger] node_ok(self@, k) by {
                if k < r {
                    assert(node_ok(s0, k));
                }
            }
            assert forall|k: usize| #[trigger]
                self.evolutions().contains_key(k) implies self.evolution_ok(
                k,
                self.evolutions()[k],
            ) by {
                assert(old(self).evolution_ok(k, ev[k]));
                lemma_all_dead_extends(s0, self@, k as int);
                lemma_all_dead_extends(s0, self@, ev[k] as int);
            }
        }
        r
    }

    /// The remembered evolution of node `id`, if there is one.
    pub fn evolution_of(&self, id: usize) -> (r: Option<usize>)
        requires
            self.wf(),
        ensures
            r is Some ==> self.evolutions().contains_key(id) && r->0 == self.evolutions()[id],
            r is None ==> !self.evolutions().contains_key(id),
            r is Some ==> self.evolution_ok(id, r->0),
    {
        match self.evolved.get(&id) {
            Some(to) => {
                assert(self.evolutions().contains_key(id));
                Some(*to)
            },
            None => None,
        }
    }

    /// Remembers that node `from` evolves into node `to`.
    pub fn remember(&mut self, from: usize, to: usize)
        requires
            old(self).wf(),
            old(self).evolution_ok(from, to),
        ensures
            final(self).wf(),
            final(self)@ == old(self)@,
            final(self).evolutions() == old(self).evolutions().insert(from, to),
    {
        self.evolved.insert(from, to);
        assert forall|k: usize| #[trigger]
            self.evolutions().contains_key(k) implies self.evolution_ok(
            k,
            self.evolutions()[k],
        ) by {
            if k != from {
                assert(old(self).evolutions().contains_key(k));
            }
        }
    }
}

} // verus!
