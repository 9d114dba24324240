//! Straight lines between cells, and whether a line is blocked.
use vstd::prelude::*;

use crate::grid::{abs, GridPos};
use crate::terrain::{walkable, ChunkPos, GameGrid, Tile};

verus! {

/// The points that the bresenham crate's line iterator yields from `(x0, y0)`
/// towards `(x1, y1)`.
pub uninterp spec fn bresenham_points(x0: int, y0: int, x1: int, y1: int) -> Seq<(isize, isize)>;

/// Steps between two cells when moving along the longer axis.
pub open spec fn chebyshev(a: GridPos, b: GridPos) -> nat {
    if abs(a.x - b.x) < abs(a.y - b.y) { abs(a.y - b.y) } else { abs(a.x - b.x) }
}

/// The cells of the line from `from` towards `to`: `from` first, `to` left out.
pub open spec fn line_cells(from: GridPos, to: GridPos) -> Seq<GridPos> {
    bresenham_points(from.x as int, from.y as int, to.x as int, to.y as int).map_values(
        |p: (isize, isize)| GridPos { x: p.0 as i32, y: p.1 as i32 },
    )
}

/// Relies on bresenham's `Bresenham` iterator, which yields the points of the line
/// from the start towards the end, the start included and the end left out: one
/// point per unit step along the longer axis, the first being the start. Every point
/// has a coordinate along the longer axis strictly before the end's (the loop stops
/// at `x >= x1` in its normalised octant), so the end is never among them; all points
/// lie between the two ends, so the conversion to `i32` keeps them.
#[verifier::external_body]
fn bresenham_line(from: GridPos, to: GridPos) -> (r: Vec<GridPos>)
    ensures
        r@ == bresenham_points(from.x as int, from.y as int, to.x as int, to.y as int).map_values(
            |p: (isize, isize)| GridPos { x: p.0 as i32, y: p.1 as i32 },
        ),
        r@.len() == chebyshev(from, to),
        r@.len() > 0 ==> r@[0] == from,
        !r@.contains(to),
{
    bresenham::Bresenham::new(from.into(), to.into()).map(|p| GridPos::from(p)).collect()
}

/// Whether cell `i` of `line` is the first that cannot be entered.
pub open spec fn first_blocked_at(grid: Map<ChunkPos, Seq<Tile>>, line: Seq<GridPos>, i: int) -> bool {
    &&& 0 <= i < line.len()
    &&& !walkable(grid, line[i])
    &&& forall|j: int| 0 <= j < i ==> walkable(grid, #[trigger] line[j])
}

impl GameGrid {
    /// The cells of the straight line from `from` towards `to`, `from` included and
    /// `to` left out.
    pub fn raycast(from: GridPos, to: GridPos) -> (r: Vec<GridPos>)
        ensures
            r@ == line_cells(from, to),
            r@.len() == chebyshev(from, to),
            r@.len() > 0 ==> r@[0] == from,
            !line_cells(from, to).contains(to),
    {
        bresenham_line(from, to)
    }

    /// The first cell of the line from `from` towards `to` that cannot be entered;
    /// `None` when every cell of it can.
    pub fn raycast_hit(&self, from: GridPos, to: GridPos) -> (r: Option<GridPos>)
        requires
            self.wf(),
        ensures
            !line_cells(from, to).contains(to),
            match r {
                Some(p) => exists|i: int|
                    #[trigger] first_blocked_at(self@, line_cells(from, to), i) && line_cells(
                        from,
                        to,
                    )[i] == p,
                None => forall|i: int|
                    0 <= i < line_cells(from, to).len() ==> walkable(
                        self@,
                        #[trigger] line_cells(from, to)[i],
                    ),
            },
    {
        let positions = Self::raycast(from, to);
        let mut k: usize = 0;
        while k < positions.len()
            invariant
                self.wf(),
                positions@ == line_cells(from, to),
                !line_cells(from, to).contains(to),
                0 <= k <= positions@.len(),
                forall|j: int| 0 <= j < k ==> walkable(self@, #[trigger] positions@[j]),
            decreases positions@.len() - k,
        {
            if !self.is_walkable(&positions[k]) {
                assert(first_blocked_at(self@, line_cells(from, to), k as int));
                return Some(positions[k]);
            }
            k = k + 1;
        }
        None
    }

    /// Whether `to` can be seen from `from`: they are the same cell, or no cell of the
    /// line between them blocks the view, or the first that does is `to` itself.
    pub fn has_line_of_sight(&self, from: GridPos, to: GridPos) -> (r: bool)
        requires
            self.wf(),
        ensures
            r == (from == to || forall|i: int| #[trigger]
                first_blocked_at(self@, line_cells(from, to), i) ==> line_cells(from, to)[i] == to),
            r == (from == to || forall|i: int|
                0 <= i < line_cells(from, to).len() && #[trigger] line_cells(from, to)[i] != to
                    ==> walkable(self@, line_cells(from, to)[i])),
    {
        if from.is_at(&to) {
            return true;
        }
        let ghost line = line_cells(from, to);
        match self.raycast_hit(from, to) {
            None => {
                assert forall|i: int| #[trigger] first_blocked_at(self@, line, i) implies line[i] == to by {
                    assert(walkable(self@, line[i]));
                }
                true
            },
            Some(hit) => {
                let ghost i = choose|i: int| #[trigger] first_blocked_at(self@, line, i) && line[i] == hit;
                assert forall|j: int| #[trigger] first_blocked_at(self@, line, j) implies j == i by {
                    if j < i {
                        assert(walkable(self@, line[j]));
                    } else if j > i {
                        assert(walkable(self@, line[i]));
                    }
                }
                hit.is_at(&to)
            },
        }
    }
}

} // verus!
