use lifeash::geometry::{Cell, Level, Offset, Position, Quadrant, LEAF_LEVEL, MAX_LEVEL};

#[test]
fn position_new_and_from_agree() {
    let p = Position::new(3, -7);
    assert_eq!(p.x, 3);
    assert_eq!(p.y, -7);
    assert_eq!(Position::from((3, -7)), p);
    assert_eq!(Offset::from((2, 5)), Offset::new(2, 5));
}

#[test]
fn quadrant_by_sign() {
    assert_eq!(Position::new(-1, -1).quadrant(), Quadrant::NorthWest);
    assert_eq!(Position::new(0, -1).quadrant(), Quadrant::NorthEast);
    assert_eq!(Position::new(-1, 0).quadrant(), Quadrant::SouthWest);
    assert_eq!(Position::new(0, 0).quadrant(), Quadrant::SouthEast);
    assert_eq!(Position::new(i64::MIN, i64::MAX).quadrant(), Quadrant::SouthWest);
}

#[test]
fn relative_to_subtracts() {
    let p = Position::new(5, -3).relative_to(Position::new(2, 4));
    assert_eq!(p, Position::new(3, -7));
}

#[test]
fn offsets_add_and_subtract_per_axis() {
    let a = Offset::new(1, 10);
    let b = Offset::new(2, 20);
    assert_eq!(a + b, Offset::new(3, 30));
    assert_eq!(b - a, Offset::new(1, 10));
    assert_eq!(Position::new(1, 1) + Offset::new(2, 3), Position::new(3, 4));
    assert_eq!(Position::new(1, 1) - Offset::new(2, 3), Position::new(-1, -2));
}

#[test]
fn level_sizes() {
    assert_eq!(Level::new(0).side_len(), 1);
    assert_eq!(Level::new(3).side_len(), 8);
    assert_eq!(Level::new(MAX_LEVEL).side_len(), 1u64 << 63);
    assert_eq!(Level::new(LEAF_LEVEL).0, 0);
    assert_eq!(Level::new(2).max_steps(), 1);
    assert_eq!(Level::new(5).max_steps(), 8);
}

#[test]
fn level_coordinates() {
    let l = Level::new(3);
    assert_eq!(l.min_coord(), -4);
    assert_eq!(l.max_coord(), 3);
    assert_eq!(l.coord_range(), -4..4);
    assert_eq!(l.min_pos(), Position::new(-4, -4));
    assert_eq!(l.max_pos(), Position::new(3, 3));
    let top = Level::new(MAX_LEVEL);
    assert_eq!(top.min_coord(), -(1i64 << 62));
    assert_eq!(top.max_coord(), (1i64 << 62) - 1);
    let one = Level::new(1);
    assert_eq!(one.min_coord(), -1);
    assert_eq!(one.max_coord(), 0);
}

#[test]
fn in_bounds_includes_both_ends() {
    let l = Level::new(3);
    assert!(Position::new(-4, -4).in_bounds(l));
    assert!(Position::new(3, 3).in_bounds(l));
    assert!(!Position::new(4, 0).in_bounds(l));
    assert!(!Position::new(0, -5).in_bounds(l));
}

#[test]
fn quadrant_centers_are_a_quarter_side_away() {
    let l = Level::new(4);
    assert_eq!(l.quadrant_center(Quadrant::NorthWest), Position::new(-4, -4));
    assert_eq!(l.quadrant_center(Quadrant::NorthEast), Position::new(4, -4));
    assert_eq!(l.quadrant_center(Quadrant::SouthWest), Position::new(-4, 4));
    assert_eq!(l.quadrant_center(Quadrant::SouthEast), Position::new(4, 4));
    assert_eq!(Level::new(2).quadrant_center(Quadrant::NorthWest), Position::new(-1, -1));
}

#[test]
fn level_arithmetic_and_validity() {
    assert_eq!(Level::new(3) + Level::new(4), Level::new(7));
    assert_eq!(Level::new(3) + 2u8, Level::new(5));
    assert_eq!(Level::new(9) - Level::new(4), Level::new(5));
    assert_eq!(Level::new(9) - 9u8, Level::new(0));
    Level::new(MAX_LEVEL).check_validity();
    (Level::new(60) + 3u8).check_validity();
}

#[test]
fn cells_compare() {
    assert_ne!(Cell::Dead, Cell::Alive);
}

#[test]
fn levels_compare_with_numbers() {
    assert!(Level::new(3) == 3u8);
    assert!(Level::new(3) != 4u8);
    assert!(Level::new(3) < 4u8);
    assert!(Level::new(3) > 2u8);
    assert!(Level::new(MAX_LEVEL) >= 63u8);
}
