use crate::geometry::{lemma_pow2_small, pow2_u64, quarter_side_of, Cell};
use crate::store::{
    all_dead, cell_at, child_for, extends, half_of, lemma_all_dead_extends, lemma_cell_at_extends,
    local, nodes_wf, lemma_child_dead, lemma_inner_dead,
    level_of, node_ok, Node, NodeStore,
};
use vstd::arithmetic::power2::{lemma2_to64, lemma_pow2_pos, lemma_pow2_unfold, pow2};
use vstd::prelude::*;

verus! {

/// One for a live cell, zero for a dead one.
pub open spec fn alive(c: Cell) -> int {
    if c == Cell::Alive { 1 } else { 0 }
}

/// The number of live cells among the eight neighbours of column `x`, row `y`
/// of node `id`.
pub open spec fn live_neighbours(s: Seq<Node>, id: int, x: int, y: int) -> int {
    alive(cell_at(s, id, x - 1, y - 1)) + alive(cell_at(s, id, x, y - 1)) + alive(
        cell_at(s, id, x + 1, y - 1),
    ) + alive(cell_at(s, id, x - 1, y)) + alive(cell_at(s, id, x + 1, y)) + alive(
        cell_at(s, id, x - 1, y + 1),
    ) + alive(cell_at(s, id, x, y + 1)) + alive(cell_at(s, id, x + 1, y + 1))
}

/// Conway's rule: a cell with three live neighbours is alive next, a live cell
/// with two stays alive, every other cell is dead.
pub open spec fn next_cell(current: Cell, neighbours: int) -> Cell {
    if neighbours == 3 || (current == Cell::Alive && neighbours == 2) {
        Cell::Alive
    } else {
        Cell::Dead
    }
}

/// Every node that held no live cell in `s` holds none in `t`, and the other
/// way round.
pub open spec fn dead_kept(s: Seq<Node>, t: Seq<Node>) -> bool {
    forall|i: int| 0 <= i < s.len() ==> #[trigger] all_dead(t, i) == all_dead(s, i)
}

proof fn lemma_dead_kept(s: Seq<Node>, t: Seq<Node>)
    requires
        extends(s, t),
    ensures
        dead_kept(s, t),
{
    assert forall|i: int| 0 <= i < s.len() implies #[trigger] all_dead(t, i) == all_dead(s, i) by {
        lemma_all_dead_extends(s, t, i);
    }
}

/// The cell at column `x`, row `y` of node `id`, found by descending the tree.
pub fn cell_in(store: &NodeStore, id: usize, x: i64, y: i64) -> (r: Cell)
    requires
        store.wf(),
        id < store@.len(),
        0 <= x < pow2(level_of(store@[id as int])),
        0 <= y < pow2(level_of(store@[id as int])),
    ensures
        r == cell_at(store@, id as int, x as int, y as int),
{
    let ghost s = store@;
    let ghost target = cell_at(s, id as int, x as int, y as int);
    let mut cur = id;
    let mut cx = x;
    let mut cy = y;
    loop
        invariant
            store.wf(),
            s == store@,
            cur < s.len(),
            0 <= cx < pow2(level_of(s[cur as int])),
            0 <= cy < pow2(level_of(s[cur as int])),
            cell_at(s, cur as int, cx as int, cy as int) == target,
            target == cell_at(s, id as int, x as int, y as int),
        decreases cur,
    {
        proof {
            assert(node_ok(s, cur as int));
        }
        match store.get(cur) {
            Node::Leaf(c) => {
                proof {
                    lemma2_to64();
                }
                return c;
            },
            Node::Inner { level, nw, ne, sw, se } => {
                proof {
                    lemma_pow2_unfold(level as nat);
                    lemma_pow2_pos((level - 1) as nat);
                    lemma_pow2_small((level - 1) as nat);
                }
                let h = pow2_u64(level - 1) as i64;
                let west = cx < h;
                let north = cy < h;
                cur =
                if north {
                    if west { nw } else { ne }
                } else {
                    if west { sw } else { se }
                };
                if !west {
                    cx = cx - h;
                }
                if !north {
                    cy = cy - h;
                }
            },
        }
    }
}

/// The four children of an inner node.
pub fn quads(store: &NodeStore, id: usize) -> (r: (usize, usize, usize, usize))
    requires
        store.wf(),
        id < store@.len(),
        level_of(store@[id as int]) >= 1,
    ensures
        store@[id as int] == (Node::Inner {
            level: level_of(store@[id as int]) as u8,
            nw: r.0,
            ne: r.1,
            sw: r.2,
            se: r.3,
        }),
        r.0 < id && r.1 < id && r.2 < id && r.3 < id,
        level_of(store@[r.0 as int]) == level_of(store@[id as int]) - 1,
        level_of(store@[r.1 as int]) == level_of(store@[id as int]) - 1,
        level_of(store@[r.2 as int]) == level_of(store@[id as int]) - 1,
        level_of(store@[r.3 as int]) == level_of(store@[id as int]) - 1,
        all_dead(store@, id as int) ==> all_dead(store@, r.0 as int) && all_dead(
            store@,
            r.1 as int,
        ) && all_dead(store@, r.2 as int) && all_dead(store@, r.3 as int),
{
    proof {
        assert(node_ok(store@, id as int));
        if all_dead(store@, id as int) {
            lemma_child_dead(store@, id as int);
        }
    }
    match store.get(id) {
        Node::Leaf(_) => (0, 0, 0, 0),
        Node::Inner { nw, ne, sw, se, .. } => (nw, ne, sw, se),
    }
}

/// The canonical node with these children, empty when all four are.
fn join(store: &mut NodeStore, level: u8, nw: usize, ne: usize, sw: usize, se: usize) -> (r: usize)
    requires
        old(store).wf(),
        1 <= level <= 63,
        nw < old(store)@.len(),
        ne < old(store)@.len(),
        sw < old(store)@.len(),
        se < old(store)@.len(),
        level_of(old(store)@[nw as int]) == level - 1,
        level_of(old(store)@[ne as int]) == level - 1,
        level_of(old(store)@[sw as int]) == level - 1,
        level_of(old(store)@[se as int]) == level - 1,
    ensures
        final(store).wf(),
        extends(old(store)@, final(store)@),
        dead_kept(old(store)@, final(store)@),
        r < final(store)@.len(),
        final(store)@[r as int] == (Node::Inner { level, nw, ne, sw, se }),
        level_of(final(store)@[r as int]) == level,
        all_dead(old(store)@, nw as int) && all_dead(old(store)@, ne as int) && all_dead(
            old(store)@,
            sw as int,
        ) && all_dead(old(store)@, se as int) ==> all_dead(final(store)@, r as int),
{
    let ghost s0 = store@;
    let r = store.inner(level, nw, ne, sw, se);
    proof {
        assert(extends(s0, store@));
        lemma_dead_kept(s0, store@);
        assert(node_ok(store@, r as int));
        if all_dead(s0, nw as int) && all_dead(s0, ne as int) && all_dead(s0, sw as int)
            && all_dead(s0, se as int) {
            lemma_inner_dead(store@, r as int);
        }
    }
    r
}

/// The next state of column `x`, row `y` of node `id`.
pub open spec fn next_at(s: Seq<Node>, id: int, x: int, y: int) -> Cell {
    next_cell(cell_at(s, id, x, y), live_neighbours(s, id, x, y))
}

fn alive_count(c: Cell) -> (r: u8)
    ensures
        r == alive(c),
{
    match c {
        Cell::Alive => 1,
        Cell::Dead => 0,
    }
}

/// The next state of an inner cell of a node of level 2.
fn next_in(store: &NodeStore, id: usize, x: i64, y: i64) -> (r: Cell)
    requires
        store.wf(),
        id < store@.len(),
        level_of(store@[id as int]) == 2,
        1 <= x <= 2,
        1 <= y <= 2,
    ensures
        r == next_at(store@, id as int, x as int, y as int),
{
    proof {
        lemma2_to64();
    }
    let n = alive_count(cell_in(store, id, x - 1, y - 1)) + alive_count(
        cell_in(store, id, x, y - 1),
    ) + alive_count(cell_in(store, id, x + 1, y - 1)) + alive_count(
        cell_in(store, id, x - 1, y),
    ) + alive_count(cell_in(store, id, x + 1, y)) + alive_count(
        cell_in(store, id, x - 1, y + 1),
    ) + alive_count(cell_in(store, id, x, y + 1)) + alive_count(
        cell_in(store, id, x + 1, y + 1),
    );
    let current = cell_in(store, id, x, y);
    let stays = match current {
        Cell::Alive => n == 2,
        Cell::Dead => false,
    };
    if n == 3 || stays {
        Cell::Alive
    } else {
        Cell::Dead
    }
}

/// One generation of the 4 by 4 square of a node of level 2: its central 2 by
/// 2 square, as a node of level 1.
fn evolve_base(store: &mut NodeStore, id: usize) -> (r: usize)
    requires
        old(store).wf(),
        id < old(store)@.len(),
        level_of(old(store)@[id as int]) == 2,
    ensures
        final(store).wf(),
        extends(old(store)@, final(store)@),
        dead_kept(old(store)@, final(store)@),
        r < final(store)@.len(),
        level_of(final(store)@[r as int]) == 1,
        cell_at(final(store)@, r as int, 0, 0) == next_at(old(store)@, id as int, 1, 1),
        cell_at(final(store)@, r as int, 1, 0) == next_at(old(store)@, id as int, 2, 1),
        cell_at(final(store)@, r as int, 0, 1) == next_at(old(store)@, id as int, 1, 2),
        cell_at(final(store)@, r as int, 1, 1) == next_at(old(store)@, id as int, 2, 2),
        all_dead(old(store)@, id as int) ==> all_dead(final(store)@, r as int),
{
    let ghost s0 = store@;
    let a = next_in(store, id, 1, 1);
    let b = next_in(store, id, 2, 1);
    let c = next_in(store, id, 1, 2);
    let d = next_in(store, id, 2, 2);
    let la = store.leaf(a);
    let lb = store.leaf(b);
    let lc = store.leaf(c);
    let ld = store.leaf(d);
    proof {
        assert forall|x: int, y: int| #[trigger] cell_at(s0, 0, x, y) == Cell::Dead by {}
    }
    let r = join(store, 1, la, lb, lc, ld);
    proof {
        lemma2_to64();
        assert(node_ok(store@, r as int));
        assert(store@[r as int] == Node::Inner { level: 1, nw: la, ne: lb, sw: lc, se: ld });
        assert(half_of(store@[r as int]) == 1);
        assert(store@[la as int] == Node::Leaf(a));
        assert(store@[lb as int] == Node::Leaf(b));
        assert(store@[lc as int] == Node::Leaf(c));
        assert(store@[ld as int] == Node::Leaf(d));
        assert(cell_at(store@, r as int, 0, 0) == cell_at(store@, la as int, 0, 0));
        assert(cell_at(store@, r as int, 1, 0) == cell_at(store@, lb as int, 0, 0));
        assert(cell_at(store@, r as int, 0, 1) == cell_at(store@, lc as int, 0, 0));
        assert(cell_at(store@, r as int, 1, 1) == cell_at(store@, ld as int, 0, 0));
    }
    r
}

/// Cell `(x, y)` of node `r`, made of the inner grandchildren of node `id`, is
/// cell `(x + q, y + q)` of `id`, where `q` is a quarter of the side of `id`.
proof fn lemma_center_cell(s: Seq<Node>, id: int, r: int, x: int, y: int)
    requires
        nodes_wf(s),
        0 <= id < s.len(),
        0 <= r < s.len(),
        s[id] is Inner,
        s[id]->level >= 2,
        s[r] is Inner,
        s[r]->level == s[id]->level - 1,
        s[r]->nw == s[s[id]->nw as int]->se,
        s[r]->ne == s[s[id]->ne as int]->sw,
        s[r]->sw == s[s[id]->sw as int]->ne,
        s[r]->se == s[s[id]->se as int]->nw,
        0 <= x < 2 * quarter_side_of(s[id]->level as nat),
        0 <= y < 2 * quarter_side_of(s[id]->level as nat),
    ensures
        cell_at(s, r, x, y) == cell_at(
            s,
            id,
            x + quarter_side_of(s[id]->level as nat),
            y + quarter_side_of(s[id]->level as nat),
        ),
{
    let n = s[id];
    let q = quarter_side_of(n->level as nat);
    assert(node_ok(s, id));
    assert(node_ok(s, r));
    lemma_pow2_unfold((n->level - 1) as nat);
    lemma_pow2_pos((n->level - 2) as nat);
    assert(half_of(n) == 2 * q);
    assert(half_of(s[r]) == q);
    let c = child_for(n, x + q, y + q);
    assert(node_ok(s, c as int));
    assert(s[c as int] is Inner);
    assert(half_of(s[c as int]) == q);
    assert(cell_at(s, id, x + q, y + q) == cell_at(s, c as int, local(n, x + q), local(n, y + q)));
    assert(cell_at(s, r, x, y) == cell_at(s, child_for(s[r], x, y) as int, local(s[r], x), local(s[r], y)));
    assert(child_for(s[c as int], local(n, x + q), local(n, y + q)) == child_for(s[r], x, y));
}

/// The central square, half as wide, of a node of level 2 or more, as it is
/// now: cell `(x, y)` of the result is cell `(x + q, y + q)` of node `id`,
/// where `q` is a quarter of its side.
pub fn center(store: &mut NodeStore, id: usize) -> (r: usize)
    requires
        old(store).wf(),
        id < old(store)@.len(),
        level_of(old(store)@[id as int]) >= 2,
    ensures
        final(store).wf(),
        extends(old(store)@, final(store)@),
        dead_kept(old(store)@, final(store)@),
        r < final(store)@.len(),
        level_of(final(store)@[r as int]) == level_of(old(store)@[id as int]) - 1,
        all_dead(old(store)@, id as int) ==> all_dead(final(store)@, r as int),
        forall|x: int, y: int|
            0 <= x < 2 * quarter_side_of(level_of(old(store)@[id as int]))
                && 0 <= y < 2 * quarter_side_of(level_of(old(store)@[id as int]))
                ==> #[trigger] cell_at(final(store)@, r as int, x, y) == cell_at(
                old(store)@,
                id as int,
                x + quarter_side_of(level_of(old(store)@[id as int])),
                y + quarter_side_of(level_of(old(store)@[id as int])),
            ),
{
    let ghost s0 = store@;
    let level = store.level(id);
    let (nw, ne, sw, se) = quads(store, id);
    let (_, _, _, a) = quads(store, nw);
    let (_, _, b, _) = quads(store, ne);
    let (_, c, _, _) = quads(store, sw);
    let (d, _, _, _) = quads(store, se);
    let r = join(store, level - 1, a, b, c, d);
    proof {
        let s = store@;
        let q = quarter_side_of(level as nat);
        assert(s[id as int] == s0[id as int]);
        assert(s[nw as int] == s0[nw as int]);
        assert(s[ne as int] == s0[ne as int]);
        assert(s[sw as int] == s0[sw as int]);
        assert(s[se as int] == s0[se as int]);
        assert forall|x: int, y: int|
            0 <= x < 2 * q && 0 <= y < 2 * q implies #[trigger] cell_at(s, r as int, x, y)
                == cell_at(s0, id as int, x + q, y + q) by {
            lemma_center_cell(s, id as int, r as int, x, y);
            lemma_cell_at_extends(s0, s, id as int, x + q, y + q);
        }
    }
    r
}

/// The central square, half as wide, of node `id`, advanced `2^steps`
/// generations; the full advance of a node of level `n` is `2^(n - 2)`
/// generations. A full advance is remembered in the store and looked up there
/// first.
#[verifier::rlimit(100)]
pub fn evolve(store: &mut NodeStore, id: usize, steps: u8) -> (r: usize)
    requires
        old(store).wf(),
        id < old(store)@.len(),
        level_of(old(store)@[id as int]) >= 2,
        steps + 2 <= level_of(old(store)@[id as int]),
    ensures
        final(store).wf(),
        extends(old(store)@, final(store)@),
        dead_kept(old(store)@, final(store)@),
        r < final(store)@.len(),
        level_of(final(store)@[r as int]) == level_of(old(store)@[id as int]) - 1,
        all_dead(old(store)@, id as int) ==> all_dead(final(store)@, r as int),
        level_of(old(store)@[id as int]) == 2 ==> {
            &&& cell_at(final(store)@, r as int, 0, 0) == next_at(old(store)@, id as int, 1, 1)
            &&& cell_at(final(store)@, r as int, 1, 0) == next_at(old(store)@, id as int, 2, 1)
            &&& cell_at(final(store)@, r as int, 0, 1) == next_at(old(store)@, id as int, 1, 2)
            &&& cell_at(final(store)@, r as int, 1, 1) == next_at(old(store)@, id as int, 2, 2)
        },
    decreases level_of(old(store)@[id as int]), 2nat,
{
    let level = store.level(id);
    if level == 2 {
        return evolve_base(store, id);
    }
    let full = steps + 2 == level;
    if full {
        if let Some(r) = store.evolution_of(id) {
            return r;
        }
    }
    let l = level - 1;
    let (nw, ne, sw, se) = quads(store, id);
    let (n01, n10, n11, n12, n21) = overlaps(store, id);
    let first = if full { level - 3 } else { steps };
    let r00 = first_half(store, nw, first, full);
    let r01 = first_half(store, n01, first, full);
    let r02 = first_half(store, ne, first, full);
    let r10 = first_half(store, n10, first, full);
    let r11 = first_half(store, n11, first, full);
    let r12 = first_half(store, n12, first, full);
    let r20 = first_half(store, sw, first, full);
    let r21 = first_half(store, n21, first, full);
    let r22 = first_half(store, se, first, full);
    let a = second_half(store, l, r00, r01, r10, r11, first);
    let b = second_half(store, l, r01, r02, r11, r12, first);
    let c = second_half(store, l, r10, r11, r20, r21, first);
    let d = second_half(store, l, r11, r12, r21, r22, first);
    let r = join(store, l, a, b, c, d);
    if full {
        store.remember(id, r);
    }
    r
}

/// The first half of an evolution: node `id` advanced `2^steps` generations
/// where `advance` holds, and as it is now otherwise.
fn first_half(store: &mut NodeStore, id: usize, steps: u8, advance: bool) -> (r: usize)
    requires
        old(store).wf(),
        id < old(store)@.len(),
        level_of(old(store)@[id as int]) >= 2,
        steps + 2 <= level_of(old(store)@[id as int]),
    ensures
        final(store).wf(),
        extends(old(store)@, final(store)@),
        dead_kept(old(store)@, final(store)@),
        r < final(store)@.len(),
        level_of(final(store)@[r as int]) == level_of(old(store)@[id as int]) - 1,
        all_dead(old(store)@, id as int) ==> all_dead(final(store)@, r as int),
    decreases level_of(old(store)@[id as int]) + 1, 1nat,
{
    if advance {
        evolve(store, id, steps)
    } else {
        center(store, id)
    }
}

/// The five squares of the level of the children of node `id` that straddle
/// its children: north, west, center, east and south.
fn overlaps(store: &mut NodeStore, id: usize) -> (r: (usize, usize, usize, usize, usize))
    requires
        old(store).wf(),
        id < old(store)@.len(),
        level_of(old(store)@[id as int]) >= 3,
    ensures
        final(store).wf(),
        extends(old(store)@, final(store)@),
        dead_kept(old(store)@, final(store)@),
        r.0 < final(store)@.len(),
        r.1 < final(store)@.len(),
        r.2 < final(store)@.len(),
        r.3 < final(store)@.len(),
        r.4 < final(store)@.len(),
        level_of(final(store)@[r.0 as int]) == level_of(old(store)@[id as int]) - 1,
        level_of(final(store)@[r.1 as int]) == level_of(old(store)@[id as int]) - 1,
        level_of(final(store)@[r.2 as int]) == level_of(old(store)@[id as int]) - 1,
        level_of(final(store)@[r.3 as int]) == level_of(old(store)@[id as int]) - 1,
        level_of(final(store)@[r.4 as int]) == level_of(old(store)@[id as int]) - 1,
        all_dead(old(store)@, id as int) ==> all_dead(final(store)@, r.0 as int) && all_dead(
            final(store)@,
            r.1 as int,
        ) && all_dead(final(store)@, r.2 as int) && all_dead(final(store)@, r.3 as int)
            && all_dead(final(store)@, r.4 as int),
{
    let l = store.level(id) - 1;
    let (nw, ne, sw, se) = quads(store, id);
    let (_, nw_ne, nw_sw, nw_se) = quads(store, nw);
    let (ne_nw, _, ne_sw, ne_se) = quads(store, ne);
    let (sw_nw, sw_ne, _, sw_se) = quads(store, sw);
    let (se_nw, se_ne, se_sw, _) = quads(store, se);
    let n01 = join(store, l, nw_ne, ne_nw, nw_se, ne_sw);
    let n10 = join(store, l, nw_sw, nw_se, sw_nw, sw_ne);
    let n11 = join(store, l, nw_se, ne_sw, sw_ne, se_nw);
    let n12 = join(store, l, ne_sw, ne_se, se_nw, se_ne);
    let n21 = join(store, l, sw_ne, se_nw, sw_se, se_sw);
    (n01, n10, n11, n12, n21)
}

/// The second half of an evolution: the square made of four results of the
/// first half, advanced `2^steps` generations.
fn second_half(
    store: &mut NodeStore,
    l: u8,
    nw: usize,
    ne: usize,
    sw: usize,
    se: usize,
    steps: u8,
) -> (r: usize)
    requires
        old(store).wf(),
        3 <= l + 1 <= 63,
        steps + 2 <= l,
        nw < old(store)@.len(),
        ne < old(store)@.len(),
        sw < old(store)@.len(),
        se < old(store)@.len(),
        level_of(old(store)@[nw as int]) == l - 1,
        level_of(old(store)@[ne as int]) == l - 1,
        level_of(old(store)@[sw as int]) == l - 1,
        level_of(old(store)@[se as int]) == l - 1,
    ensures
        final(store).wf(),
        extends(old(store)@, final(store)@),
        dead_kept(old(store)@, final(store)@),
        r < final(store)@.len(),
        level_of(final(store)@[r as int]) == l - 1,
        all_dead(old(store)@, nw as int) && all_dead(old(store)@, ne as int) && all_dead(
            old(store)@,
            sw as int,
        ) && all_dead(old(store)@, se as int) ==> all_dead(final(store)@, r as int),
    decreases l + 1, 1nat,
{
    let joined = join(store, l, nw, ne, sw, se);
    evolve(store, joined, steps)
}

/// Whether node `id` holds no live cell.
pub fn is_empty(store: &NodeStore, id: usize) -> (r: bool)
    requires
        store.wf(),
        id < store@.len(),
    ensures
        r == all_dead(store@, id as int),
    decreases id,
{
    proof {
        assert(node_ok(store@, id as int));
    }
    match store.get(id) {
        Node::Leaf(c) => {
            proof {
                assert(cell_at(store@, id as int, 0, 0) == c);
                assert forall|x: int, y: int| #[trigger] cell_at(store@, id as int, x, y) == c
                    || cell_at(store@, id as int, x, y) == Cell::Dead by {}
            }
            match c {
                Cell::Dead => true,
                Cell::Alive => false,
            }
        },
        Node::Inner { nw, ne, sw, se, .. } => {
            proof {
                if all_dead(store@, id as int) {
                    lemma_child_dead(store@, id as int);
                }
            }
            let r = if nw == ne && ne == sw && sw == se {
                is_empty(store, nw)
            } else {
                is_empty(store, nw) && is_empty(store, ne) && is_empty(store, sw) && is_empty(
                    store,
                    se,
                )
            };
            proof {
                if r {
                    lemma_inner_dead(store@, id as int);
                }
            }
            r
        },
    }
}

} // verus!
