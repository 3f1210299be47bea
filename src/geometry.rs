use vstd::arithmetic::power2::{
    lemma2_to64, lemma2_to64_rest, lemma_pow2_adds, lemma_pow2_pos, lemma_pow2_strictly_increases,
    pow2,
};
use vstd::bits::lemma_u64_shl_is_mul;
use vstd::prelude::*;

verus! {

/// The state of one cell of the board.
#[derive(Debug, Clone, Copy, PartialEq, Eq, Structural, PartialOrd, Ord, Hash)]
pub enum Cell {
    Dead,
    Alive,
}

/// An absolute point of the board.
#[derive(Debug, Clone, Copy, PartialEq, Eq, Structural, PartialOrd, Ord, Hash)]
pub struct Position {
    pub x: i64,
    pub y: i64,
}

/// A displacement between two positions.
#[derive(Debug, Clone, Copy, PartialEq, Eq, Structural, PartialOrd, Ord, Hash)]
pub struct Offset {
    pub dx: i64,
    pub dy: i64,
}

/// One of the four equal squares into which a square splits around its center.
#[derive(Debug, Clone, Copy, PartialEq, Eq, Structural, PartialOrd, Ord, Hash)]
pub enum Quadrant {
    NorthWest,
    NorthEast,
    SouthWest,
    SouthEast,
}

/// The quadrant around the origin that holds the point `(x, y)`: negative
/// coordinates lie to the west and to the north.
pub open spec fn quadrant_of(x: int, y: int) -> Quadrant {
    if x < 0 {
        if y < 0 { Quadrant::NorthWest } else { Quadrant::SouthWest }
    } else {
        if y < 0 { Quadrant::NorthEast } else { Quadrant::SouthEast }
    }
}

/// Whether `v` is a value of `i64`.
pub open spec fn fits_i64(v: int) -> bool {
    i64::MIN <= v <= i64::MAX
}

impl Position {
    pub fn new(x: i64, y: i64) -> (r: Position)
        ensures
            r.x == x,
            r.y == y,
    {
        Position { x, y }
    }

    /// The quadrant around the origin in which this position lies.
    pub fn quadrant(self) -> (r: Quadrant)
        ensures
            r == quadrant_of(self.x as int, self.y as int),
    {
        if self.x < 0 {
            if self.y < 0 { Quadrant::NorthWest } else { Quadrant::SouthWest }
        } else {
            if self.y < 0 { Quadrant::NorthEast } else { Quadrant::SouthEast }
        }
    }

    /// This position seen from a frame whose origin is `other`.
    pub fn relative_to(self, other: Position) -> (r: Position)
        requires
            fits_i64(self.x - other.x),
            fits_i64(self.y - other.y),
        ensures
            r.x == self.x - other.x,
            r.y == self.y - other.y,
    {
        self - Offset::new(other.x, other.y)
    }

    /// Whether both coordinates lie in the square addressed by a node of `level`.
    pub fn in_bounds(self, level: Level) -> (r: bool)
        requires
            level.wf(),
            level.0 >= 1,
        ensures
            r == (level.in_range(self.x as int) && level.in_range(self.y as int)),
    {
        let bounds = level.coord_range();
        bounds.start <= self.x && self.x < bounds.end && bounds.start <= self.y && self.y
            < bounds.end
    }
}

impl From<(i64, i64)> for Position {
    fn from(t: (i64, i64)) -> (r: Position) {
        Position::new(t.0, t.1)
    }
}

impl vstd::std_specs::convert::FromSpecImpl<(i64, i64)> for Position {
    open spec fn obeys_from_spec() -> bool {
        true
    }

    open spec fn from_spec(t: (i64, i64)) -> Position {
        Position { x: t.0, y: t.1 }
    }
}

impl Offset {
    pub fn new(dx: i64, dy: i64) -> (r: Offset)
        ensures
            r.dx == dx,
            r.dy == dy,
    {
        Offset { dx, dy }
    }
}

impl From<(i64, i64)> for Offset {
    fn from(t: (i64, i64)) -> (r: Offset) {
        Offset::new(t.0, t.1)
    }
}

impl vstd::std_specs::convert::FromSpecImpl<(i64, i64)> for Offset {
    open spec fn obeys_from_spec() -> bool {
        true
    }

    open spec fn from_spec(t: (i64, i64)) -> Offset {
        Offset { dx: t.0, dy: t.1 }
    }
}

impl core::ops::Add for Offset {
    type Output = Offset;

    fn add(self, other: Offset) -> (r: Offset) {
        Offset::new(self.dx + other.dx, self.dy + other.dy)
    }
}

impl vstd::std_specs::ops::AddSpecImpl for Offset {
    open spec fn obeys_add_spec() -> bool {
        true
    }

    open spec fn add_req(self, other: Offset) -> bool {
        fits_i64(self.dx + other.dx) && fits_i64(self.dy + other.dy)
    }

    open spec fn add_spec(self, other: Offset) -> Offset {
        Offset { dx: (self.dx + other.dx) as i64, dy: (self.dy + other.dy) as i64 }
    }
}

impl core::ops::Sub for Offset {
    type Output = Offset;

    fn sub(self, other: Offset) -> (r: Offset) {
        Offset::new(self.dx - other.dx, self.dy - other.dy)
    }
}

impl vstd::std_specs::ops::SubSpecImpl for Offset {
    open spec fn obeys_sub_spec() -> bool {
        true
    }

    open spec fn sub_req(self, other: Offset) -> bool {
        fits_i64(self.dx - other.dx) && fits_i64(self.dy - other.dy)
    }

    open spec fn sub_spec(self, other: Offset) -> Offset {
        Offset { dx: (self.dx - other.dx) as i64, dy: (self.dy - other.dy) as i64 }
    }
}

impl core::ops::Add<Offset> for Position {
    type Output = Position;

    fn add(self, other: Offset) -> (r: Position) {
        Position::new(self.x + other.dx, self.y + other.dy)
    }
}

impl vstd::std_specs::ops::AddSpecImpl<Offset> for Position {
    open spec fn obeys_add_spec() -> bool {
        true
    }

    open spec fn add_req(self, other: Offset) -> bool {
        fits_i64(self.x + other.dx) && fits_i64(self.y + other.dy)
    }

    open spec fn add_spec(self, other: Offset) -> Position {
        Position { x: (self.x + other.dx) as i64, y: (self.y + other.dy) as i64 }
    }
}

impl core::ops::Sub<Offset> for Position {
    type Output = Position;

    fn sub(self, other: Offset) -> (r: Position) {
        Position::new(self.x - other.dx, self.y - other.dy)
    }
}

impl vstd::std_specs::ops::SubSpecImpl<Offset> for Position {
    open spec fn obeys_sub_spec() -> bool {
        true
    }

    open spec fn sub_req(self, other: Offset) -> bool {
        fits_i64(self.x - other.dx) && fits_i64(self.y - other.dy)
    }

    open spec fn sub_spec(self, other: Offset) -> Position {
        Position { x: (self.x - other.dx) as i64, y: (self.y - other.dy) as i64 }
    }
}

/// The largest level: its squares span the whole signed 64-bit plane.
pub const MAX_LEVEL: u8 = 63;

/// The level of a single cell.
pub const LEAF_LEVEL: u8 = 0;

/// The depth of a node of the quadtree: a node of level `n` covers a square
/// whose side is `2^n` cells.
#[derive(Debug, Clone, Copy, PartialEq, Eq, Structural, PartialOrd, Ord, Hash)]
pub struct Level(pub u8);

/// The side of a square of level `n`.
pub open spec fn side_of(n: nat) -> int {
    pow2(n) as int
}

/// Half the side of a square of level `n >= 1`: its coordinates run from
/// `-half_side_of(n)` to `half_side_of(n) - 1`, both included.
pub open spec fn half_side_of(n: nat) -> int {
    pow2((n - 1) as nat) as int
}

/// A quarter of the side of a square of level `n >= 2`.
pub open spec fn quarter_side_of(n: nat) -> int {
    pow2((n - 2) as nat) as int
}

/// The powers of two up to `2^63`, which bounds the squares of every level.
pub proof fn lemma_pow2_small(n: nat)
    requires
        n <= 63,
    ensures
        0 < pow2(n) <= pow2(63),
        pow2(63) == 0x8000_0000_0000_0000,
        n < 63 ==> pow2(n) <= 0x4000_0000_0000_0000,
{
    lemma_pow2_pos(n);
    lemma2_to64();
    lemma2_to64_rest();
    if n < 62 {
        lemma_pow2_strictly_increases(n, 62);
    }
    if n < 63 {
        lemma_pow2_strictly_increases(n, 63);
    }
}

/// Computes `2^n` as a machine integer.
pub(crate) fn pow2_u64(n: u8) -> (r: u64)
    requires
        n <= 63,
    ensures
        r == pow2(n as nat),
{
    proof {
        lemma_pow2_small(n as nat);
        lemma_u64_shl_is_mul(1, n as u64);
    }
    1u64 << (n as u64)
}

impl Level {
    /// A level is at most `MAX_LEVEL`.
    pub open spec fn wf(self) -> bool {
        self.0 <= MAX_LEVEL
    }

    /// Whether a coordinate lies in the range addressed at this level.
    pub open spec fn in_range(self, c: int) -> bool {
        -half_side_of(self.0 as nat) <= c < half_side_of(self.0 as nat)
    }

    pub fn new(n: u8) -> (r: Level)
        requires
            n <= MAX_LEVEL,
        ensures
            r.0 == n,
            r.wf(),
    {
        Level(n)
    }

    /// The number of cells along a side of a square of this level.
    pub fn side_len(self) -> (r: u64)
        requires
            self.wf(),
        ensures
            r == side_of(self.0 as nat),
    {
        pow2_u64(self.0)
    }

    /// The offset from the center of a square of this level to the center of
    /// its quadrant `quadrant`: a quarter of the side along each axis.
    pub fn quadrant_center(self, quadrant: Quadrant) -> (r: Position)
        requires
            self.wf(),
            self.0 >= 2,
        ensures
            ({
                let d = quarter_side_of(self.0 as nat);
                match quadrant {
                    Quadrant::NorthWest => r.x == -d && r.y == -d,
                    Quadrant::NorthEast => r.x == d && r.y == -d,
                    Quadrant::SouthWest => r.x == -d && r.y == d,
                    Quadrant::SouthEast => r.x == d && r.y == d,
                }
            }),
    {
        let side = self.side_len();
        proof {
            lemma_pow2_small((self.0 - 2) as nat);
            lemma_pow2_adds((self.0 - 2) as nat, 2);
            lemma2_to64();
        }
        let delta = (side / 4) as i64;
        match quadrant {
            Quadrant::NorthWest => Position::from((-delta, -delta)),
            Quadrant::NorthEast => Position::from((delta, -delta)),
            Quadrant::SouthWest => Position::from((-delta, delta)),
            Quadrant::SouthEast => Position::from((delta, delta)),
        }
    }

    /// The smallest coordinate addressed at this level.
    pub fn min_coord(self) -> (r: i64)
        requires
            self.wf(),
            self.0 >= 1,
        ensures
            r == -half_side_of(self.0 as nat),
    {
        proof {
            lemma_pow2_small((self.0 - 1) as nat);
        }
        -(pow2_u64(self.0 - 1) as i64)
    }

    /// The largest coordinate addressed at this level.
    pub fn max_coord(self) -> (r: i64)
        requires
            self.wf(),
            self.0 >= 1,
        ensures
            r == half_side_of(self.0 as nat) - 1,
    {
        proof {
            lemma_pow2_small((self.0 - 1) as nat);
        }
        (pow2_u64(self.0 - 1) as i64) - 1
    }

    /// The coordinates addressed at this level, `min_coord()` to `max_coord()`
    /// both included, as a half-open range.
    pub fn coord_range(self) -> (r: core::ops::Range<i64>)
        requires
            self.wf(),
            self.0 >= 1,
        ensures
            r.start == -half_side_of(self.0 as nat),
            r.end == half_side_of(self.0 as nat),
    {
        proof {
            lemma_pow2_small((self.0 - 1) as nat);
        }
        let max = self.max_coord();
        self.min_coord()..max + 1
    }

    /// The north-west corner of the square of this level.
    pub fn min_pos(self) -> (r: Position)
        requires
            self.wf(),
            self.0 >= 1,
        ensures
            r.x == -half_side_of(self.0 as nat),
            r.y == -half_side_of(self.0 as nat),
    {
        let min = self.min_coord();
        Position::from((min, min))
    }

    /// The south-east corner of the square of this level.
    pub fn max_pos(self) -> (r: Position)
        requires
            self.wf(),
            self.0 >= 1,
        ensures
            r.x == half_side_of(self.0 as nat) - 1,
            r.y == half_side_of(self.0 as nat) - 1,
    {
        let max = self.max_coord();
        Position::from((max, max))
    }

    /// The number of generations that one evolution of a node of this level
    /// advances its center.
    pub fn max_steps(self) -> (r: u64)
        requires
            self.wf(),
            self.0 >= 2,
        ensures
            r == quarter_side_of(self.0 as nat),
    {
        pow2_u64(self.0 - 2)
    }

    /// Fails fast on a level beyond `MAX_LEVEL`: no caller may pass one.
    pub fn check_validity(self)
        requires
            self.wf(),
    {
    }
}

impl PartialEq<u8> for Level {
    fn eq(&self, n: &u8) -> (r: bool) {
        self.0 == *n
    }
}

impl vstd::std_specs::cmp::PartialEqSpecImpl<u8> for Level {
    open spec fn obeys_eq_spec() -> bool {
        true
    }

    open spec fn eq_spec(&self, n: &u8) -> bool {
        self.0 == *n
    }
}

impl PartialOrd<u8> for Level {
    fn partial_cmp(&self, n: &u8) -> (r: Option<core::cmp::Ordering>) {
        if self.0 < *n {
            Some(core::cmp::Ordering::Less)
        } else if self.0 == *n {
            Some(core::cmp::Ordering::Equal)
        } else {
            Some(core::cmp::Ordering::Greater)
        }
    }
}

impl vstd::std_specs::cmp::PartialOrdSpecImpl<u8> for Level {
    open spec fn obeys_partial_cmp_spec() -> bool {
        true
    }

    open spec fn partial_cmp_spec(&self, n: &u8) -> Option<core::cmp::Ordering> {
        if self.0 < *n {
            Some(core::cmp::Ordering::Less)
        } else if self.0 == *n {
            Some(core::cmp::Ordering::Equal)
        } else {
            Some(core::cmp::Ordering::Greater)
        }
    }
}

impl core::ops::Add for Level {
    type Output = Level;

    fn add(self, other: Level) -> (r: Level) {
        Level(self.0 + other.0)
    }
}

impl vstd::std_specs::ops::AddSpecImpl for Level {
    open spec fn obeys_add_spec() -> bool {
        true
    }

    open spec fn add_req(self, other: Level) -> bool {
        self.0 + other.0 <= MAX_LEVEL
    }

    open spec fn add_spec(self, other: Level) -> Level {
        Level((self.0 + other.0) as u8)
    }
}

impl core::ops::Add<u8> for Level {
    type Output = Level;

    fn add(self, n: u8) -> (r: Level) {
        Level(self.0 + n)
    }
}

impl vstd::std_specs::ops::AddSpecImpl<u8> for Level {
    open spec fn obeys_add_spec() -> bool {
        true
    }

    open spec fn add_req(self, n: u8) -> bool {
        self.0 + n <= MAX_LEVEL
    }

    open spec fn add_spec(self, n: u8) -> Level {
        Level((self.0 + n) as u8)
    }
}

impl core::ops::Sub for Level {
    type Output = Level;

    fn sub(self, other: Level) -> (r: Level) {
        Level(self.0 - other.0)
    }
}

impl vstd::std_specs::ops::SubSpecImpl for Level {
    open spec fn obeys_sub_spec() -> bool {
        true
    }

    open spec fn sub_req(self, other: Level) -> bool {
        self.0 >= other.0
    }

    open spec fn sub_spec(self, other: Level) -> Level {
        Level((self.0 - other.0) as u8)
    }
}

impl core::ops::Sub<u8> for Level {
    type Output = Level;

    fn sub(self, n: u8) -> (r: Level) {
        Level(self.0 - n)
    }
}

impl vstd::std_specs::ops::SubSpecImpl<u8> for Level {
    open spec fn obeys_sub_spec() -> bool {
        true
    }

    open spec fn sub_req(self, n: u8) -> bool {
        self.0 >= n
    }

    open spec fn sub_spec(self, n: u8) -> Level {
        Level((self.0 - n) as u8)
    }
}

} // verus!
