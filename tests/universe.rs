use lifeash::geometry::{Cell, Position};
use lifeash::store::{Node, NodeStore};
use lifeash::universe::{LevelError, Universe};

fn live_cells(u: Universe, store: &NodeStore, from: i64, to: i64) -> Vec<(i64, i64)> {
    let mut out = Vec::new();
    for y in from..to {
        for x in from..to {
            if u.get_cell(store, Position::new(x, y)) == Cell::Alive {
                out.push((x, y));
            }
        }
    }
    out.sort();
    out
}

fn with_cells(store: &mut NodeStore, cells: &[(i64, i64)]) -> Universe {
    let mut u = Universe::new(store);
    for &(x, y) in cells {
        u = u.set_cell(store, Position::new(x, y), Cell::Alive).unwrap();
    }
    u
}

fn sorted(mut v: Vec<(i64, i64)>) -> Vec<(i64, i64)> {
    v.sort();
    v
}

#[test]
fn equal_children_give_one_node() {
    let mut store = NodeStore::new();
    let dead = store.leaf(Cell::Dead);
    let alive = store.leaf(Cell::Alive);
    assert_ne!(dead, alive);
    assert_eq!(store.get(dead), Node::Leaf(Cell::Dead));
    let a = store.inner(1, dead, alive, dead, dead);
    let b = store.inner(1, dead, alive, dead, dead);
    let c = store.inner(1, alive, dead, dead, dead);
    assert_eq!(a, b);
    assert_ne!(a, c);
    let len = store.len();
    let d = store.inner(1, dead, alive, dead, dead);
    assert_eq!(d, a);
    assert_eq!(store.len(), len);
    assert_eq!(store.level(a), 1);
}

#[test]
fn empty_universe_reads_dead() {
    let mut store = NodeStore::new();
    let u = Universe::new(&mut store);
    assert_eq!(u.get_cell(&store, Position::new(0, 0)), Cell::Dead);
    assert_eq!(u.get_cell(&store, Position::new(i64::MIN, i64::MAX)), Cell::Dead);
    assert!(live_cells(u, &store, -8, 8).is_empty());
}

#[test]
fn queries_repeat() {
    let mut store = NodeStore::new();
    let u = with_cells(&mut store, &[(1, 2)]);
    let len = store.len();
    for _ in 0..3 {
        assert_eq!(u.get_cell(&store, Position::new(1, 2)), Cell::Alive);
        assert_eq!(u.get_cell(&store, Position::new(2, 1)), Cell::Dead);
    }
    assert_eq!(store.len(), len);
}

#[test]
fn set_cell_changes_one_cell() {
    let mut store = NodeStore::new();
    let u = with_cells(&mut store, &[(0, 0), (-2, 3)]);
    let v = u.set_cell(&mut store, Position::new(1, 1), Cell::Alive).unwrap();
    assert_eq!(v.get_cell(&store, Position::new(1, 1)), Cell::Alive);
    assert_eq!(sorted(live_cells(v, &store, -8, 8)), vec![(-2, 3), (0, 0), (1, 1)]);
    let w = v.set_cell(&mut store, Position::new(0, 0), Cell::Dead).unwrap();
    assert_eq!(live_cells(w, &store, -8, 8), vec![(-2, 3), (1, 1)]);
    // the older universes are unchanged
    assert_eq!(live_cells(u, &store, -8, 8), vec![(-2, 3), (0, 0)]);
}

#[test]
fn set_cell_outside_grows_the_root() {
    let mut store = NodeStore::new();
    let u = with_cells(&mut store, &[(0, 0), (3, -4)]);
    let level = u.level.0;
    let v = u.set_cell(&mut store, Position::new(100, -50), Cell::Alive).unwrap();
    assert!(v.level.0 > level);
    assert_eq!(v.get_cell(&store, Position::new(100, -50)), Cell::Alive);
    assert_eq!(v.get_cell(&store, Position::new(0, 0)), Cell::Alive);
    assert_eq!(v.get_cell(&store, Position::new(3, -4)), Cell::Alive);
    assert_eq!(v.get_cell(&store, Position::new(99, -50)), Cell::Dead);
}

#[test]
fn set_cell_at_the_edge_of_the_plane() {
    let mut store = NodeStore::new();
    let u = Universe::new(&mut store);
    let edge = (1i64 << 62) - 1;
    let v = u.set_cell(&mut store, Position::new(edge, -(1i64 << 62)), Cell::Alive).unwrap();
    assert_eq!(v.level.0, 63);
    assert_eq!(v.get_cell(&store, Position::new(edge, -(1i64 << 62))), Cell::Alive);
    assert_eq!(
        u.set_cell(&mut store, Position::new(1i64 << 62, 0), Cell::Alive),
        Err(LevelError::AddressSpaceExceeded)
    );
    assert_eq!(
        u.set_cell(&mut store, Position::new(0, i64::MIN), Cell::Alive),
        Err(LevelError::AddressSpaceExceeded)
    );
}

#[test]
fn block_is_still() {
    let mut store = NodeStore::new();
    let block = [(0, 0), (1, 0), (0, 1), (1, 1)];
    let u = with_cells(&mut store, &block);
    let v = u.step(&mut store, 1).unwrap();
    assert_eq!(live_cells(v, &store, -16, 16), sorted(block.to_vec()));
}

#[test]
fn blinker_turns() {
    let mut store = NodeStore::new();
    let u = with_cells(&mut store, &[(-1, 0), (0, 0), (1, 0)]);
    let v = u.step(&mut store, 1).unwrap();
    assert_eq!(live_cells(v, &store, -16, 16), vec![(0, -1), (0, 0), (0, 1)]);
    let w = u.step(&mut store, 2).unwrap();
    assert_eq!(live_cells(w, &store, -16, 16), vec![(-1, 0), (0, 0), (1, 0)]);
}

#[test]
fn glider_moves_diagonally() {
    let mut store = NodeStore::new();
    let seed = [(1, 0), (2, 1), (0, 2), (1, 2), (2, 2)];
    let u = with_cells(&mut store, &seed);
    let v = u.step(&mut store, 4).unwrap();
    let moved: Vec<(i64, i64)> = seed.iter().map(|&(x, y)| (x + 1, y + 1)).collect();
    assert_eq!(live_cells(v, &store, -32, 32), sorted(moved));
}

#[test]
fn glider_far_away() {
    let mut store = NodeStore::new();
    let seed = [(1, 0), (2, 1), (0, 2), (1, 2), (2, 2)];
    let u = with_cells(&mut store, &seed);
    let v = u.step(&mut store, 40).unwrap();
    let moved: Vec<(i64, i64)> = seed.iter().map(|&(x, y)| (x + 10, y + 10)).collect();
    assert_eq!(live_cells(v, &store, -64, 64), sorted(moved));
}

#[test]
fn steps_add_up() {
    let mut store = NodeStore::new();
    let seed = [(1, 0), (2, 1), (0, 2), (1, 2), (2, 2), (-5, -5), (-5, -4), (-5, -6)];
    let u = with_cells(&mut store, &seed);
    let a = u.step(&mut store, 3).unwrap().step(&mut store, 6).unwrap();
    let b = u.step(&mut store, 9).unwrap();
    assert_eq!(live_cells(a, &store, -64, 64), live_cells(b, &store, -64, 64));
}

#[test]
fn empty_stays_empty() {
    let mut store = NodeStore::new();
    let u = Universe::new(&mut store);
    for n in [1u64, 7, 1000, u64::MAX] {
        let v = u.step(&mut store, n).unwrap();
        assert!(live_cells(v, &store, -32, 32).is_empty());
    }
}

#[test]
fn zero_steps_change_nothing() {
    let mut store = NodeStore::new();
    let u = with_cells(&mut store, &[(0, 0)]);
    assert_eq!(u.step(&mut store, 0), Ok(u));
}

#[test]
fn lone_cell_dies() {
    let mut store = NodeStore::new();
    let u = with_cells(&mut store, &[(0, 0)]);
    let v = u.step(&mut store, 1).unwrap();
    assert!(live_cells(v, &store, -16, 16).is_empty());
}
