//! Grid coordinates and their relation to world space.
use vstd::prelude::*;

verus! {

/// Side of one tile in world units.
pub const TILE_SIZE: i64 = 16;

/// A cell of the integer grid that every world query is addressed by.
#[derive(Clone, Copy, PartialEq, Eq, Hash, Debug, Structural)]
pub struct GridPos {
    pub x: i32,
    pub y: i32,
}

/// Another name for a grid cell, used by the pathfinding entry points.
pub type GridPosition = GridPos;

/// A point in world space, in whole world units.
#[derive(Clone, Copy, PartialEq, Eq, Hash, Debug, Structural)]
pub struct WorldPos {
    pub x: i64,
    pub y: i64,
}

/// Grid cell containing world coordinate `w` along one axis.
pub open spec fn cell_of(w: int) -> int {
    w / (TILE_SIZE as int)
}

/// World coordinates whose cell is addressable by an `i32`.
pub open spec fn world_in_range(w: int) -> bool {
    i32::MIN as int <= cell_of(w) <= i32::MAX as int
}

/// Absolute value of an integer.
pub open spec fn abs(v: int) -> nat {
    if v < 0 { (-v) as nat } else { v as nat }
}

/// Number of unit steps between two cells when moving orthogonally.
pub open spec fn manhattan(a: GridPos, b: GridPos) -> nat {
    abs(a.x - b.x) + abs(a.y - b.y)
}

/// Two cells that share an edge.
pub open spec fn adjacent(a: GridPos, b: GridPos) -> bool {
    manhattan(a, b) == 1
}

/// Floor division of a world coordinate by the tile size.
fn floor_to_cell(w: i64) -> (r: i32)
    requires
        world_in_range(w as int),
    ensures
        r == cell_of(w as int),
{
    let q = w.checked_div_euclid(TILE_SIZE);
    match q {
        Some(v) => v as i32,
        None => 0,
    }
}

impl GridPos {
    pub fn new(x: i32, y: i32) -> (r: GridPos)
        ensures
            r.x == x && r.y == y,
    {
        GridPos { x, y }
    }

    /// The grid cell that contains a world position.
    pub fn from_world_pos(world_pos: WorldPos) -> (r: GridPos)
        requires
            world_in_range(world_pos.x as int),
            world_in_range(world_pos.y as int),
        ensures
            r.x == cell_of(world_pos.x as int),
            r.y == cell_of(world_pos.y as int),
    {
        GridPos { x: floor_to_cell(world_pos.x), y: floor_to_cell(world_pos.y) }
    }

    /// The world position of the cell's origin corner.
    pub fn to_world_pos(&self) -> (r: WorldPos)
        ensures
            r.x == self.x * TILE_SIZE,
            r.y == self.y * TILE_SIZE,
    {
        WorldPos { x: self.x as i64 * TILE_SIZE, y: self.y as i64 * TILE_SIZE }
    }

    /// Orthogonal step count between two cells.
    pub fn manhattan_distance(&self, other: &GridPos) -> (r: u64)
        ensures
            r == manhattan(*self, *other),
    {
        let dx: i64 = self.x as i64 - other.x as i64;
        let dy: i64 = self.y as i64 - other.y as i64;
        let ax: u64 = if dx < 0 { (-dx) as u64 } else { dx as u64 };
        let ay: u64 = if dy < 0 { (-dy) as u64 } else { dy as u64 };
        ax + ay
    }
}

impl From<(isize, isize)> for GridPos {
    /// The cell with these coordinates, each truncated to 32 bits.
    fn from(tuple: (isize, isize)) -> (r: GridPos) {
        GridPos { x: tuple.0 as i32, y: tuple.1 as i32 }
    }
}

impl vstd::std_specs::convert::FromSpecImpl<(isize, isize)> for GridPos {
    open spec fn obeys_from_spec() -> bool {
        true
    }

    open spec fn from_spec(v: (isize, isize)) -> GridPos {
        GridPos { x: v.0 as i32, y: v.1 as i32 }
    }
}

impl From<GridPos> for (isize, isize) {
    fn from(pos: GridPos) -> (r: (isize, isize)) {
        (pos.x as isize, pos.y as isize)
    }
}

impl vstd::std_specs::convert::FromSpecImpl<GridPos> for (isize, isize) {
    open spec fn obeys_from_spec() -> bool {
        true
    }

    open spec fn from_spec(v: GridPos) -> (isize, isize) {
        (v.x as isize, v.y as isize)
    }
}

/// Converting a cell to world space and back gives the same cell: the world
/// position of every cell is a valid argument of `GridPos::from_world_pos`, and
/// the cell it names is the one it came from.
pub proof fn lemma_world_round_trip(p: GridPos)
    ensures
        world_in_range(p.x * TILE_SIZE),
        world_in_range(p.y * TILE_SIZE),
        cell_of(p.x * TILE_SIZE) == p.x,
        cell_of(p.y * TILE_SIZE) == p.y,
{
    let (x, y) = (p.x as int, p.y as int);
    assert((x * 16) / 16 == x) by (nonlinear_arith);
    assert((y * 16) / 16 == y) by (nonlinear_arith);
}

} // verus!
