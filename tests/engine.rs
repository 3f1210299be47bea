use lifeash::evolution::{cell_in, evolve, is_empty};
use lifeash::geometry::{Cell, Position};
use lifeash::store::NodeStore;
use lifeash::universe::{dead_node, Universe};

#[test]
fn evolve_applies_the_rule_on_a_small_node() {
    let mut store = NodeStore::new();
    // a 2 by 2 block in the middle of a 4 by 4 square
    let dead0 = dead_node(&mut store, 0);
    let alive = store.leaf(Cell::Alive);
    let nw = store.inner(1, dead0, dead0, dead0, alive);
    let ne = store.inner(1, dead0, dead0, alive, dead0);
    let sw = store.inner(1, dead0, alive, dead0, dead0);
    let se = store.inner(1, alive, dead0, dead0, dead0);
    let block = store.inner(2, nw, ne, sw, se);
    let r = evolve(&mut store, block, 0);
    assert_eq!(store.level(r), 1);
    for (x, y) in [(0, 0), (1, 0), (0, 1), (1, 1)] {
        assert_eq!(cell_in(&store, r, x, y), Cell::Alive);
    }
    let d1 = dead_node(&mut store, 1);
    let single = store.inner(2, nw, d1, d1, d1);
    let gone = evolve(&mut store, single, 0);
    assert!(is_empty(&store, gone));
}

#[test]
fn dead_nodes_are_shared_and_empty() {
    let mut store = NodeStore::new();
    let a = dead_node(&mut store, 5);
    let b = dead_node(&mut store, 5);
    assert_eq!(a, b);
    assert_eq!(store.level(a), 5);
    assert!(is_empty(&store, a));
    let c = dead_node(&mut store, 4);
    assert_ne!(a, c);
    let big = evolve(&mut store, a, 3);
    assert_eq!(big, c);
}

#[test]
fn grow_keeps_cells() {
    let mut store = NodeStore::new();
    let u = Universe::new(&mut store)
        .set_cell(&mut store, Position::new(-4, 3), Cell::Alive)
        .unwrap();
    let v = u.grow(&mut store);
    assert_eq!(v.level.0, u.level.0 + 1);
    assert_eq!(v.get_cell(&store, Position::new(-4, 3)), Cell::Alive);
    assert_eq!(v.get_cell(&store, Position::new(-5, 3)), Cell::Dead);
    assert!(!is_empty(&store, v.root));
}
