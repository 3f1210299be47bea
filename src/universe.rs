use crate::evolution::{cell_in, center, evolve, is_empty, quads};
use crate::geometry::{half_side_of, lemma_pow2_small, pow2_u64, Cell, Level, Position, MAX_LEVEL};
use crate::store::{
    all_dead, cell_at, child_for, extends, half_of, lemma_all_dead_extends, lemma_cell_at_extends, lemma_inner_dead,
    level_of, local, node_ok, with_child, Node, NodeStore,
};
use vstd::arithmetic::power2::{lemma_pow2_pos, lemma_pow2_unfold, pow2};
use vstd::prelude::*;

verus! {

/// Why a universe could not take a change.
#[derive(Debug, Clone, Copy, PartialEq, Eq, Structural)]
pub enum LevelError {
    /// The root would have to grow beyond `MAX_LEVEL`.
    AddressSpaceExceeded,
}

/// A board: a root node of a `NodeStore`, centered on the origin.
#[derive(Debug, Clone, Copy, PartialEq, Eq, Structural)]
pub struct Universe {
    pub root: usize,
    pub level: Level,
}

/// A universe holds no live cell exactly when its root holds none.
pub proof fn lemma_universe_dead(u: Universe, s: Seq<Node>)
    ensures
        (forall|x: int, y: int| #[trigger] u.cell(s, x, y) == Cell::Dead) == all_dead(
            s,
            u.root as int,
        ),
{
    let h = half_side_of(u.level.0 as nat);
    if forall|x: int, y: int| #[trigger] u.cell(s, x, y) == Cell::Dead {
        assert forall|a: int, b: int| #[trigger] cell_at(s, u.root as int, a, b) == Cell::Dead by {
            assert(u.cell(s, a - h, b - h) == Cell::Dead);
        }
    }
}

/// A universe keeps every cell while the store it lives in grows: an older
/// universe stays valid after later changes and advances.
pub proof fn lemma_universe_persists(u: Universe, s: Seq<Node>, t: Seq<Node>)
    requires
        u.wf(s),
        extends(s, t),
    ensures
        u.wf(t),
        forall|x: int, y: int| #[trigger] u.cell(t, x, y) == u.cell(s, x, y),
{
    let h = half_side_of(u.level.0 as nat);
    assert forall|x: int, y: int| #[trigger] u.cell(t, x, y) == u.cell(s, x, y) by {
        lemma_cell_at_extends(s, t, u.root as int, x + h, y + h);
    }
}

/// The largest `j` up to 60 with `2^j <= n`.
fn chunk_exponent(n: u64) -> (j: u8)
    requires
        n >= 1,
    ensures
        j <= 60,
        pow2(j as nat) <= n,
        j < 60 ==> n < pow2(j as nat + 1),
{
    let mut j: u8 = 0;
    proof {
        vstd::arithmetic::power2::lemma2_to64();
    }
    while j < 60 && pow2_u64(j + 1) <= n
        invariant
            j <= 60,
            pow2(j as nat) <= n,
        decreases 60 - j,
    {
        j = j + 1;
    }
    j
}

/// The canonical empty node of `level`.
pub fn dead_node(store: &mut NodeStore, level: u8) -> (r: usize)
    requires
        old(store).wf(),
        level <= MAX_LEVEL,
    ensures
        final(store).wf(),
        extends(old(store)@, final(store)@),
        r < final(store)@.len(),
        level_of(final(store)@[r as int]) == level,
        all_dead(final(store)@, r as int),
{
    let mut id = store.leaf(Cell::Dead);
    let mut l: u8 = 0;
    while l < level
        invariant
            store.wf(),
            extends(old(store)@, store@),
            l <= level <= MAX_LEVEL,
            id < store@.len(),
            level_of(store@[id as int]) == l,
            all_dead(store@, id as int),
        decreases level - l,
    {
        let ghost s0 = store@;
        let next = store.inner(l + 1, id, id, id, id);
        proof {
            lemma_all_dead_extends(s0, store@, id as int);
            assert(node_ok(store@, next as int));
            lemma_inner_dead(store@, next as int);
        }
        id = next;
        l = l + 1;
    }
    id
}

/// Node `r` is node `id` of `s0` with the child that holds `(x, y)` replaced
/// by `changed`, which differs from that child in the one cell `(x, y)`
/// points to: so `r` differs from `id` in cell `(x, y)` alone.
proof fn lemma_replaced(
    s0: Seq<Node>,
    s1: Seq<Node>,
    s2: Seq<Node>,
    id: int,
    r: int,
    changed: usize,
    x: int,
    y: int,
    cell: Cell,
)
    requires
        extends(s0, s1),
        extends(s1, s2),
        0 <= id < s0.len(),
        0 <= r < s2.len(),
        s0[id] is Inner,
        node_ok(s0, id),
        node_ok(s2, r),
        0 <= x < 2 * half_of(s0[id]),
        0 <= y < 2 * half_of(s0[id]),
        s2[r] == with_child(s0[id], x, y, changed),
        changed < s1.len(),
        forall|a: int, b: int|
            #[trigger] cell_at(s1, changed as int, a, b) == if a == local(s0[id], x) && b == local(
                s0[id],
                y,
            ) {
                cell
            } else {
                cell_at(s0, child_for(s0[id], x, y) as int, a, b)
            },
    ensures
        forall|a: int, b: int|
            #[trigger] cell_at(s2, r, a, b) == if a == x && b == y {
                cell
            } else {
                cell_at(s0, id, a, b)
            },
{
    let n = s0[id];
    assert(half_of(s2[r]) == half_of(n));
    assert forall|a: int, b: int| #[trigger]
        cell_at(s2, r, a, b) == if a == x && b == y {
            cell
        } else {
            cell_at(s0, id, a, b)
        } by {
        let ca = local(n, a);
        let cb = local(n, b);
        let old_child = child_for(n, a, b);
        lemma_cell_at_extends(s0, s2, old_child as int, ca, cb);
        lemma_cell_at_extends(s1, s2, changed as int, ca, cb);
        if 0 <= a < 2 * half_of(n) && 0 <= b < 2 * half_of(n) {
            if (a < half_of(n)) == (x < half_of(n)) && (b < half_of(n)) == (y < half_of(n)) {
                assert(child_for(s2[r], a, b) == changed);
                assert(cell_at(s1, changed as int, ca, cb) == if ca == local(n, x) && cb == local(
                    n,
                    y,
                ) {
                    cell
                } else {
                    cell_at(s0, child_for(n, x, y) as int, ca, cb)
                });
            } else {
                assert(child_for(s2[r], a, b) == old_child);
            }
        }
    }
}

/// The node built by `grow` holds the cells of the old root at the same
/// distance from its center, and nothing else.
proof fn lemma_grown(s: Seq<Node>, o: int, r: int, d: usize, x: int, y: int)
    requires
        0 <= o < s.len(),
        0 <= r < s.len(),
        d < s.len(),
        node_ok(s, o),
        node_ok(s, r),
        s[o] is Inner,
        all_dead(s, d as int),
        s[r] is Inner,
        s[r]->level == s[o]->level + 1,
        s[s[r]->nw as int] == (Node::Inner {
            level: s[o]->level,
            nw: d,
            ne: d,
            sw: d,
            se: s[o]->nw,
        }),
        s[s[r]->ne as int] == (Node::Inner {
            level: s[o]->level,
            nw: d,
            ne: d,
            sw: s[o]->ne,
            se: d,
        }),
        s[s[r]->sw as int] == (Node::Inner {
            level: s[o]->level,
            nw: d,
            ne: s[o]->sw,
            sw: d,
            se: d,
        }),
        s[s[r]->se as int] == (Node::Inner {
            level: s[o]->level,
            nw: s[o]->se,
            ne: d,
            sw: d,
            se: d,
        }),
        node_ok(s, s[r]->nw as int),
        node_ok(s, s[r]->ne as int),
        node_ok(s, s[r]->sw as int),
        node_ok(s, s[r]->se as int),
    ensures
        cell_at(s, r, x + half_of(s[r]), y + half_of(s[r])) == cell_at(
            s,
            o,
            x + half_of(s[o]),
            y + half_of(s[o]),
        ),
{
    let h = half_of(s[o]);
    let big = half_of(s[r]);
    lemma_pow2_pos((s[o]->level - 1) as nat);
    lemma_pow2_unfold(s[o]->level as nat);
    assert(big == 2 * h);
    let xx = x + big;
    let yy = y + big;
    if 0 <= xx < 2 * big && 0 <= yy < 2 * big {
        let q = child_for(s[r], xx, yy);
        let qx = local(s[r], xx);
        let qy = local(s[r], yy);
        assert(cell_at(s, r, xx, yy) == cell_at(s, q as int, qx, qy));
        assert(half_of(s[q as int]) == h);
        let c = child_for(s[q as int], qx, qy);
        let cx = local(s[q as int], qx);
        let cy = local(s[q as int], qy);
        assert(cell_at(s, q as int, qx, qy) == cell_at(s, c as int, cx, cy));
        assert(cell_at(s, d as int, cx, cy) == Cell::Dead);
        if -h <= x < h && -h <= y < h {
            assert(c == child_for(s[o], x + h, y + h));
            assert(cx == local(s[o], x + h));
            assert(cy == local(s[o], y + h));
        } else {
            assert(c == d);
        }
    }
}

/// Whether nothing lives in the twelve grandchildren of a node of level 3 or
/// more that touch its edge.
fn ring_empty(store: &NodeStore, id: usize) -> (r: bool)
    requires
        store.wf(),
        id < store@.len(),
        level_of(store@[id as int]) >= 2,
    ensures
        all_dead(store@, id as int) ==> r,
{
    let (nw, ne, sw, se) = quads(store, id);
    let (a, b, c, _) = quads(store, nw);
    let (d, e, _, f) = quads(store, ne);
    let (g, _, h, i) = quads(store, sw);
    let (_, j, k, l) = quads(store, se);
    is_empty(store, a) && is_empty(store, b) && is_empty(store, c) && is_empty(store, d)
        && is_empty(store, e) && is_empty(store, f) && is_empty(store, g) && is_empty(store, h)
        && is_empty(store, i) && is_empty(store, j) && is_empty(store, k) && is_empty(store, l)
}

/// Replaces the cell at column `x`, row `y` of node `id` with `cell`, and
/// returns the canonical node that results.
fn set_in(store: &mut NodeStore, id: usize, x: i64, y: i64, cell: Cell) -> (r: usize)
    requires
        old(store).wf(),
        id < old(store)@.len(),
        0 <= x < pow2(level_of(old(store)@[id as int])),
        0 <= y < pow2(level_of(old(store)@[id as int])),
    ensures
        final(store).wf(),
        extends(old(store)@, final(store)@),
        r < final(store)@.len(),
        level_of(final(store)@[r as int]) == level_of(old(store)@[id as int]),
        forall|a: int, b: int|
            #[trigger] cell_at(final(store)@, r as int, a, b) == if a == x && b == y {
                cell
            } else {
                cell_at(old(store)@, id as int, a, b)
            },
    decreases id,
{
    let ghost s0 = store@;
    proof {
        assert(node_ok(s0, id as int));
    }
    match store.get(id) {
        Node::Leaf(_) => {
            proof {
                vstd::arithmetic::power2::lemma2_to64();
            }
            store.leaf(cell)
        },
        Node::Inner { level, nw, ne, sw, se } => {
            let h = pow2_u64(level - 1) as i64;
            proof {
                lemma_pow2_unfold(level as nat);
                lemma_pow2_pos((level - 1) as nat);
                lemma_pow2_small((level - 1) as nat);
            }
            let west = x < h;
            let north = y < h;
            let cx = if west { x } else { x - h };
            let cy = if north { y } else { y - h };
            let child = if north {
                if west { nw } else { ne }
            } else {
                if west { sw } else { se }
            };
            let changed = set_in(store, child, cx, cy, cell);
            let ghost s1 = store@;
            let r = if north {
                if west {
                    store.inner(level, changed, ne, sw, se)
                } else {
                    store.inner(level, nw, changed, sw, se)
                }
            } else {
                if west {
                    store.inner(level, nw, ne, changed, se)
                } else {
                    store.inner(level, nw, ne, sw, changed)
                }
            };
            proof {
                assert(store@[r as int] == with_child(s0[id as int], x as int, y as int, changed));
                assert(node_ok(store@, r as int));
                lemma_replaced(s0, s1, store@, id as int, r as int, changed, x as int, y as int, cell);
            }
            r
        },
    }
}

impl Universe {
    pub open spec fn wf(self, s: Seq<Node>) -> bool {
        &&& self.root < s.len()
        &&& self.level.wf()
        &&& self.level.0 >= 1
        &&& level_of(s[self.root as int]) == self.level.0
    }

    /// The cell at `(x, y)`: `Dead` outside the square of the root.
    pub open spec fn cell(self, s: Seq<Node>, x: int, y: int) -> Cell {
        let h = half_side_of(self.level.0 as nat);
        cell_at(s, self.root as int, x + h, y + h)
    }

    /// An empty universe.
    pub fn new(store: &mut NodeStore) -> (r: Universe)
        requires
            old(store).wf(),
        ensures
            final(store).wf(),
            extends(old(store)@, final(store)@),
            r.wf(final(store)@),
            r.level.0 == 3,
            forall|x: int, y: int| #[trigger] r.cell(final(store)@, x, y) == Cell::Dead,
    {
        let root = dead_node(store, 3);
        let r = Universe { root, level: Level::new(3) };
        proof {
            assert forall|x: int, y: int| #[trigger] r.cell(store@, x, y) == Cell::Dead by {
                let h = half_side_of(3);
                assert(cell_at(store@, root as int, x + h, y + h) == Cell::Dead);
            }
        }
        r
    }

    /// The same cells under a root one level higher, with the old root at its
    /// center.
    pub fn grow(self, store: &mut NodeStore) -> (r: Universe)
        requires
            old(store).wf(),
            self.wf(old(store)@),
            self.level.0 < MAX_LEVEL,
        ensures
            final(store).wf(),
            extends(old(store)@, final(store)@),
            r.wf(final(store)@),
            r.level.0 == self.level.0 + 1,
            forall|x: int, y: int| #[trigger]
                r.cell(final(store)@, x, y) == self.cell(old(store)@, x, y),
    {
        let ghost s0 = store@;
        proof {
            assert(node_ok(s0, self.root as int));
        }
        let l = self.level.0;
        match store.get(self.root) {
            Node::Leaf(_) => {
                proof {
                    assert(false);
                }
                self
            },
            Node::Inner { level, nw, ne, sw, se } => {
                let d = dead_node(store, l - 1);
                let ghost sd = store@;
                let qnw = store.inner(l, d, d, d, nw);
                let qne = store.inner(l, d, d, ne, d);
                let qsw = store.inner(l, d, sw, d, d);
                let qse = store.inner(l, se, d, d, d);
                let root = store.inner(l + 1, qnw, qne, qsw, qse);
                let r = Universe { root, level: Level::new(l + 1) };
                proof {
                    let s = store@;
                    lemma_all_dead_extends(sd, s, d as int);
                    assert forall|x: int, y: int| #[trigger]
                        r.cell(s, x, y) == self.cell(s0, x, y) by {
                        lemma_cell_at_extends(
                            s0,
                            s,
                            self.root as int,
                            x + half_of(s0[self.root as int]),
                            y + half_of(s0[self.root as int]),
                        );
                        assert(node_ok(s, root as int));
                        assert(node_ok(s, qnw as int));
                        assert(node_ok(s, qne as int));
                        assert(node_ok(s, qsw as int));
                        assert(node_ok(s, qse as int));
                        lemma_grown(s, self.root as int, root as int, d, x, y);
                    }
                }
                r
            },
        }
    }

    /// The universe with the cell at `pos` set to `cell`. Where `pos` lies
    /// outside the root's square, the root first grows until it holds `pos`;
    /// that fails only where no level up to `MAX_LEVEL` holds it.
    pub fn set_cell(self, store: &mut NodeStore, pos: Position, cell: Cell) -> (r: Result<
        Universe,
        LevelError,
    >)
        requires
            old(store).wf(),
            self.wf(old(store)@),
        ensures
            final(store).wf(),
            extends(old(store)@, final(store)@),
            r is Err <==> !(Level(MAX_LEVEL).in_range(pos.x as int) && Level(MAX_LEVEL).in_range(
                pos.y as int,
            )),
            r is Ok ==> ({
                let v = r->Ok_0;
                &&& v.wf(final(store)@)
                &&& forall|x: int, y: int| #[trigger]
                    v.cell(final(store)@, x, y) == if x == pos.x && y == pos.y {
                        cell
                    } else {
                        self.cell(old(store)@, x, y)
                    }
                &&& self.level.in_range(pos.x as int) && self.level.in_range(pos.y as int)
                    ==> v.level == self.level
                &&& !(self.level.in_range(pos.x as int) && self.level.in_range(pos.y as int))
                    ==> v.level.0 > self.level.0
            }),
    {
        let ghost s0 = store@;
        let mut u = self;
        while !pos.in_bounds(u.level)
            invariant
                s0 == old(store)@,
                store.wf(),
                extends(s0, store@),
                u.wf(store@),
                u.level.0 >= self.level.0,
                u.level.0 > self.level.0 ==> !(self.level.in_range(pos.x as int)
                    && self.level.in_range(pos.y as int)),
                forall|x: int, y: int| #[trigger] u.cell(store@, x, y) == self.cell(s0, x, y),
            decreases MAX_LEVEL - u.level.0,
        {
            if u.level.0 >= MAX_LEVEL {
                return Err(LevelError::AddressSpaceExceeded);
            }
            let ghost prev = u;
            let ghost sp = store@;
            u = u.grow(store);
            assert forall|x: int, y: int| #[trigger] u.cell(store@, x, y) == self.cell(s0, x, y) by {
                assert(prev.cell(sp, x, y) == self.cell(s0, x, y));
            }
        }
        proof {
            lemma_pow2_small((u.level.0 - 1) as nat);
            lemma_pow2_unfold(u.level.0 as nat);
            vstd::arithmetic::power2::lemma2_to64_rest();
        }
        let half = -u.level.min_coord();
        let ghost s1 = store@;
        let root = set_in(store, u.root, pos.x + half, pos.y + half, cell);
        let v = Universe { root, level: u.level };
        proof {
            assert forall|x: int, y: int| #[trigger]
                v.cell(store@, x, y) == if x == pos.x && y == pos.y {
                    cell
                } else {
                    self.cell(s0, x, y)
                } by {
                assert(u.cell(s1, x, y) == self.cell(s0, x, y));
            }
        }
        Ok(v)
    }

    /// The universe advanced `generations` generations. The root first grows
    /// so that no live cell can reach its edge, and shrinks again while its
    /// outer ring is empty. It fails where the root would have to grow beyond
    /// `MAX_LEVEL`. An empty universe stays empty.
    pub fn step(self, store: &mut NodeStore, generations: u64) -> (r: Result<Universe, LevelError>)
        requires
            old(store).wf(),
            self.wf(old(store)@),
        ensures
            final(store).wf(),
            extends(old(store)@, final(store)@),
            r is Ok ==> r->Ok_0.wf(final(store)@),
            generations == 0 ==> r == Ok::<Universe, LevelError>(self),
            (forall|x: int, y: int| #[trigger] self.cell(old(store)@, x, y) == Cell::Dead) ==> ({
                &&& r is Ok
                &&& forall|x: int, y: int| #[trigger] r->Ok_0.cell(final(store)@, x, y) == Cell::Dead
            }),
    {
        let ghost s0 = store@;
        let ghost dead = all_dead(s0, self.root as int);
        proof {
            lemma_universe_dead(self, s0);
        }
        let mut u = self;
        let mut remaining = generations;
        while remaining > 0
            invariant
                s0 == old(store)@,
                store.wf(),
                extends(s0, store@),
                u.wf(store@),
                dead ==> all_dead(store@, u.root as int),
                generations == 0 ==> u == self,
                dead == all_dead(s0, self.root as int),
                remaining <= generations,
            decreases remaining,
        {
            let j = chunk_exponent(remaining);
            u = u.shrink(store);
            while u.level.0 < j + 1
                invariant
                    s0 == old(store)@,
                    store.wf(),
                    extends(s0, store@),
                    u.wf(store@),
                    dead ==> all_dead(store@, u.root as int),
                    j <= 60,
                    dead == all_dead(s0, self.root as int),
                    dead ==> u.level.0 <= 3 || u.level.0 <= j + 1,
                    pow2(j as nat) <= remaining,
                    0 < remaining <= generations,
                decreases MAX_LEVEL - u.level.0,
            {
                if u.level.0 >= MAX_LEVEL {
                    proof {
                        lemma_universe_dead(self, s0);
                    }
                    return Err(LevelError::AddressSpaceExceeded);
                }
                u = u.grow_keeping_dead(store);
            }
            if u.level.0 > MAX_LEVEL - 2 {
                proof {
                    lemma_universe_dead(self, s0);
                }
                return Err(LevelError::AddressSpaceExceeded);
            }
            u = u.grow_keeping_dead(store);
            u = u.grow_keeping_dead(store);
            let ghost sp = store@;
            let root = evolve(store, u.root, j);
            proof {
                lemma_pow2_small(j as nat);
            }
            let chunk = pow2_u64(j);
            u = Universe { root, level: Level::new(u.level.0 - 1) };
            remaining = remaining - chunk;
        }
        proof {
            lemma_universe_dead(u, store@);
        }
        Ok(u)
    }

    /// `grow`, stated over whether the root is empty.
    fn grow_keeping_dead(self, store: &mut NodeStore) -> (r: Universe)
        requires
            old(store).wf(),
            self.wf(old(store)@),
            self.level.0 < MAX_LEVEL,
        ensures
            final(store).wf(),
            extends(old(store)@, final(store)@),
            r.wf(final(store)@),
            r.level.0 == self.level.0 + 1,
            all_dead(old(store)@, self.root as int) ==> all_dead(final(store)@, r.root as int),
    {
        let ghost s0 = store@;
        let r = self.grow(store);
        proof {
            lemma_universe_dead(self, s0);
            lemma_universe_dead(r, store@);
            if all_dead(s0, self.root as int) {
                assert forall|x: int, y: int| #[trigger] r.cell(store@, x, y) == Cell::Dead by {
                    assert(self.cell(s0, x, y) == Cell::Dead);
                }
            }
        }
        r
    }

    /// Replaces the root by its center while the root is above level 3 and
    /// nothing lives outside its center.
    fn shrink(self, store: &mut NodeStore) -> (r: Universe)
        requires
            old(store).wf(),
            self.wf(old(store)@),
        ensures
            final(store).wf(),
            extends(old(store)@, final(store)@),
            r.wf(final(store)@),
            r.level.0 <= self.level.0,
            all_dead(old(store)@, self.root as int) ==> all_dead(final(store)@, r.root as int),
            all_dead(old(store)@, self.root as int) ==> r.level.0 <= 3,
    {
        let ghost s0 = store@;
        let mut u = self;
        while u.level.0 > 3 && ring_empty(store, u.root)
            invariant
                s0 == old(store)@,
                store.wf(),
                extends(s0, store@),
                u.wf(store@),
                u.level.0 <= self.level.0,
                all_dead(s0, self.root as int) ==> all_dead(store@, u.root as int),
            decreases u.level.0,
        {
            let root = center(store, u.root);
            u = Universe { root, level: Level::new(u.level.0 - 1) };
        }
        u
    }

    /// The state of the cell at `pos`; `Dead` outside the root's square.
    pub fn get_cell(self, store: &NodeStore, pos: Position) -> (r: Cell)
        requires
            store.wf(),
            self.wf(store@),
        ensures
            r == self.cell(store@, pos.x as int, pos.y as int),
    {
        let ghost s = store@;
        proof {
            assert(node_ok(s, self.root as int));
            lemma_pow2_unfold(self.level.0 as nat);
            lemma_pow2_small((self.level.0 - 1) as nat);
        }
        if !pos.in_bounds(self.level) {
            return Cell::Dead;
        }
        let half = -self.level.min_coord();
        cell_in(store, self.root, pos.x + half, pos.y + half)
    }
}

} // verus!
