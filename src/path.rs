//! Shortest walks over walkable cells, found by A* search.
use vstd::prelude::*;

use crate::grid::{adjacent, manhattan, GridPos};
use crate::movement::{offset, step, Direction};
use crate::terrain::{walkable, ChunkPos, GameGrid, Tile};

verus! {

/// `w` leads from `from` to `to`: it starts at `from`, ends at `to`, and every later
/// cell is walkable and shares an edge with the one before it. The first cell need
/// not be walkable.
pub open spec fn is_walk(
    grid: Map<ChunkPos, Seq<Tile>>,
    from: GridPos,
    to: GridPos,
    w: Seq<GridPos>,
) -> bool {
    &&& w.len() >= 1
    &&& w[0] == from
    &&& w.last() == to
    &&& forall|i: int|
        1 <= i < w.len() ==> walkable(grid, #[trigger] w[i]) && adjacent(w[i - 1], w[i])
}

/// Some walk leads from `from` to `to`.
pub open spec fn reachable(grid: Map<ChunkPos, Seq<Tile>>, from: GridPos, to: GridPos) -> bool {
    exists|w: Seq<GridPos>| is_walk(grid, from, to, w)
}

/// `w` is a walk from `from` to `to` with no more cells than any other.
pub open spec fn is_shortest_walk(
    grid: Map<ChunkPos, Seq<Tile>>,
    from: GridPos,
    to: GridPos,
    w: Seq<GridPos>,
) -> bool {
    &&& is_walk(grid, from, to, w)
    &&& forall|v: Seq<GridPos>| is_walk(grid, from, to, v) ==> w.len() <= v.len()
}

/// What the pathfinder owes for a query from `from` to `to`: a shortest walk
/// when one exists, and `None` exactly when none does.
pub open spec fn path_answer(
    grid: Map<ChunkPos, Seq<Tile>>,
    from: GridPos,
    to: GridPos,
    r: Option<Seq<GridPos>>,
) -> bool {
    match r {
        Some(w) => is_shortest_walk(grid, from, to, w),
        None => !reachable(grid, from, to),
    }
}

/// The order in which neighbours are expanded: up, right, down, left.
pub open spec fn expansion_order() -> Seq<Direction> {
    seq![Direction::Up, Direction::Right, Direction::Down, Direction::Left]
}

/// The successors of `p` when the directions `dirs` are tried in order: each step
/// that lands on a walkable cell, with cost one.
pub open spec fn successor_list(
    grid: Map<ChunkPos, Seq<Tile>>,
    p: GridPos,
    dirs: Seq<Direction>,
) -> Seq<(GridPos, u64)>
    decreases dirs.len(),
{
    if dirs.len() == 0 {
        Seq::empty()
    } else {
        let rest = successor_list(grid, p, dirs.drop_last());
        match step(p, dirs.last()) {
            Some(q) if walkable(grid, q) => rest.push((q, 1u64)),
            _ => rest,
        }
    }
}

/// The walk that pathfinding's A* search returns from `start` to `goal` on the given
/// terrain, with successors in expansion order and the Manhattan heuristic.
pub uninterp spec fn astar_path(
    grid: Map<ChunkPos, Seq<Tile>>,
    start: GridPos,
    goal: GridPos,
) -> Option<Seq<GridPos>>;

proof fn lemma_successor_list(grid: Map<ChunkPos, Seq<Tile>>, p: GridPos, k: int)
    requires
        0 <= k <= 4,
    ensures
        ({
            let eo = expansion_order();
            let s = successor_list(grid, p, eo.subrange(0, k));
            &&& forall|i: int| 0 <= i < s.len() ==> (#[trigger] s[i]).1 == 1
            &&& forall|i: int| 0 <= i < s.len() ==> walkable(grid, (#[trigger] s[i]).0) && adjacent(p, s[i].0)
            &&& forall|i: int| 0 <= i < s.len() ==> exists|m: int| 0 <= m < k && step(p, eo[m]) == Some(#[trigger] s[i].0)
            &&& forall|i: int, j: int| 0 <= i < j < s.len() ==> (#[trigger] s[i]).0 != (#[trigger] s[j]).0
            &&& forall|m: int| 0 <= m < k && step(p, #[trigger] eo[m]) is Some && walkable(grid, step(p, eo[m])->Some_0)
                ==> exists|i: int| 0 <= i < s.len() && (#[trigger] s[i]).0 == step(p, eo[m])->Some_0
        }),
    decreases k,
{
    let eo = expansion_order();
    if k > 0 {
        lemma_successor_list(grid, p, k - 1);
        let pre = eo.subrange(0, k);
        assert(pre.drop_last() =~= eo.subrange(0, k - 1));
        assert(pre.last() == eo[k - 1]);
        let s0 = successor_list(grid, p, eo.subrange(0, k - 1));
        let s = successor_list(grid, p, pre);
        match step(p, eo[k - 1]) {
            Some(q) => {
                if walkable(grid, q) {
                    assert(s == s0.push((q, 1u64)));
                    assert forall|i: int| 0 <= i < s.len() implies exists|m: int| 0 <= m < k && step(p, eo[m]) == Some(#[trigger] s[i].0) by {
                        if i < s0.len() {
                            assert(s[i] == s0[i]);
                        } else {
                            assert(step(p, eo[k - 1]) == Some(s[i].0));
                        }
                    }
                    assert forall|i: int, j: int| 0 <= i < j < s.len() implies (#[trigger] s[i]).0 != (#[trigger] s[j]).0 by {
                        if j == s0.len() {
                            assert(s[i] == s0[i]);
                            let m = choose|m: int| 0 <= m < k - 1 && step(p, eo[m]) == Some(#[trigger] s0[i].0);
                            assert(eo[m] != eo[k - 1]);
                        } else {
                            assert(s[i] == s0[i] && s[j] == s0[j]);
                        }
                    }
                    assert forall|m: int| 0 <= m < k && step(p, #[trigger] eo[m]) is Some && walkable(grid, step(p, eo[m])->Some_0)
                        implies exists|i: int| 0 <= i < s.len() && (#[trigger] s[i]).0 == step(p, eo[m])->Some_0 by {
                        if m < k - 1 {
                            let i = choose|i: int| 0 <= i < s0.len() && (#[trigger] s0[i]).0 == step(p, eo[m])->Some_0;
                            assert(s[i] == s0[i]);
                        } else {
                            assert(s[s0.len() as int].0 == q);
                        }
                    }
                    assert forall|i: int| 0 <= i < s.len() implies walkable(grid, (#[trigger] s[i]).0) && adjacent(p, s[i].0) && s[i].1 == 1 by {
                        if i < s0.len() {
                            assert(s[i] == s0[i]);
                        }
                    }
                } else {
                    assert(s == s0);
                }
            },
            None => {
                assert(s == s0);
            },
        }
    }
}

impl GridPos {
    /// Whether two positions name the same cell.
    pub fn is_at(&self, other: &GridPos) -> (r: bool)
        ensures
            r == (*self == *other),
    {
        self.x == other.x && self.y == other.y
    }
}

impl GameGrid {
    /// The walkable orthogonal neighbours of `pos`, tried up, right, down, left,
    /// each with a step cost of one; no cell appears twice.
    pub fn get_successors(&self, pos: &GridPos) -> (r: Vec<(GridPos, u64)>)
        requires
            self.wf(),
        ensures
            r@ == successor_list(self@, *pos, expansion_order()),
            forall|i: int, j: int| 0 <= i < j < r@.len() ==> (#[trigger] r@[i]).0 != (#[trigger] r@[j]).0,
            forall|i: int| 0 <= i < r@.len() ==> (#[trigger] r@[i]).1 == 1,
            forall|i: int| 0 <= i < r@.len() ==> walkable(self@, (#[trigger] r@[i]).0) && adjacent(*pos, r@[i].0),
            forall|q: GridPos| adjacent(*pos, q) && walkable(self@, q) ==> exists|i: int|
                0 <= i < r@.len() && (#[trigger] r@[i]).0 == q,
    {
        let dirs = [Direction::Up, Direction::Right, Direction::Down, Direction::Left];
        let mut r: Vec<(GridPos, u64)> = Vec::new();
        let mut k: usize = 0;
        assert(dirs@ == expansion_order());
        while k < 4
            invariant
                self.wf(),
                0 <= k <= 4,
                dirs@ == expansion_order(),
                r@ == successor_list(self@, *pos, expansion_order().subrange(0, k as int)),
            decreases 4 - k,
        {
            let d = dirs[k];
            proof {
                assert(expansion_order().subrange(0, k as int + 1).drop_last() =~= expansion_order().subrange(0, k as int));
                assert(expansion_order().subrange(0, k as int + 1).last() == d);
            }
            match d.apply(*pos) {
                Some(q) => {
                    if self.is_walkable(&q) {
                        r.push((q, 1));
                    }
                },
                None => {},
            }
            k = k + 1;
        }
        proof {
            assert(expansion_order().subrange(0, 4) =~= expansion_order());
            lemma_successor_list(self@, *pos, 4);
            let eo = expansion_order();
            assert forall|q: GridPos| adjacent(*pos, q) && walkable(self@, q) implies exists|i: int|
                0 <= i < r@.len() && (#[trigger] r@[i]).0 == q by {
                if q.x == pos.x + 1 {
                    assert(step(*pos, eo[1]) == Some(q));
                } else if q.x == pos.x - 1 {
                    assert(step(*pos, eo[3]) == Some(q));
                } else if q.y == pos.y + 1 {
                    assert(step(*pos, eo[0]) == Some(q));
                } else {
                    assert(step(*pos, eo[2]) == Some(q));
                }
            }
        }
        r
    }

    /// A shortest walk from `from` to `to` over walkable cells, both ends included,
    /// moving orthogonally one cell at a time; `None` when `to` cannot be reached.
    pub fn find_path(&self, from: GridPos, to: GridPos) -> (r: Option<Vec<GridPos>>)
        requires
            self.wf(),
        ensures
            path_answer(
                self@,
                from,
                to,
                match r {
                    Some(w) => Some(w@),
                    None => None,
                },
            ),
            astar_path(self@, from, to) == match r {
                Some(w) => Some(w@),
                None => None,
            },
    {
        astar_search(self, &from, &to)
    }
}

/// A shortest walk from `from` to `to` on `grid`; see `GameGrid::find_path`.
pub fn find_path(grid: &GameGrid, from: GridPos, to: GridPos) -> (r: Option<Vec<GridPos>>)
    requires
        grid.wf(),
    ensures
        path_answer(
            grid@,
            from,
            to,
            match r {
                Some(w) => Some(w@),
                None => None,
            },
        ),
        astar_path(grid@, from, to) == match r {
            Some(w) => Some(w@),
            None => None,
        },
{
    grid.find_path(from, to)
}

/// Relies on pathfinding's `astar`: given non-negative step costs and a heuristic
/// that never exceeds the true remaining cost (here unit steps between orthogonal
/// neighbours and the Manhattan distance), it returns a cheapest path from the start
/// to a node accepted by the goal test, start and end included, each node after the
/// first one of its predecessor's successors; or `None` when no such path exists.
/// The search ends because the walkable cells lie in finitely many loaded chunks. It
/// is deterministic (a binary heap and an index map with a fixed hasher, fed
/// successors in a fixed order), so its result depends on the terrain and the two
/// ends alone.
#[verifier::external_body]
fn astar_search(grid: &GameGrid, start: &GridPos, goal: &GridPos) -> (r: Option<Vec<GridPos>>)
    requires
        grid.wf(),
    ensures
        match r {
            Some(w) => astar_path(grid@, *start, *goal) == Some(w@),
            None => astar_path(grid@, *start, *goal) is None,
        },
        match r {
            Some(w) => is_shortest_walk(grid@, *start, *goal, w@),
            None => !reachable(grid@, *start, *goal),
        },
{
    pathfinding::prelude::astar(
        start,
        |p| grid.get_successors(p),
        |p| p.manhattan_distance(goal),
        |p| p.is_at(goal),
    ).map(|(path, _cost)| path)
}

/// Every walk from `from` to `to` has at least `manhattan(from, to) + 1` cells.
pub proof fn lemma_walk_length_bound(
    grid: Map<ChunkPos, Seq<Tile>>,
    from: GridPos,
    to: GridPos,
    w: Seq<GridPos>,
)
    requires
        is_walk(grid, from, to, w),
    ensures
        w.len() >= manhattan(from, to) + 1,
    decreases w.len(),
{
    if w.len() > 1 {
        let v = w.drop_last();
        let mid = v.last();
        assert(is_walk(grid, from, mid, v)) by {
            assert forall|i: int| 1 <= i < v.len() implies walkable(grid, #[trigger] v[i])
                && adjacent(v[i - 1], v[i]) by {
                assert(v[i] == w[i] && v[i - 1] == w[i - 1]);
            }
        }
        lemma_walk_length_bound(grid, from, mid, v);
        assert(adjacent(w[w.len() - 2], w[w.len() - 1]));
    }
}

/// On open ground the pathfinder's walks are as short as they can be: when every cell
/// of the rectangle spanned by `from` and `to` is walkable, the answer is a walk of
/// exactly `manhattan(from, to) + 1` cells.
pub proof fn lemma_open_ground_path_length(
    grid: Map<ChunkPos, Seq<Tile>>,
    from: GridPos,
    to: GridPos,
    r: Option<Seq<GridPos>>,
)
    requires
        forall|p: GridPos|
            #![trigger walkable(grid, p)]
            (from.x <= p.x <= to.x || to.x <= p.x <= from.x) && (from.y <= p.y <= to.y || to.y
                <= p.y <= from.y) ==> walkable(grid, p),
        path_answer(grid, from, to, r),
    ensures
        r is Some,
        r->Some_0.len() == manhattan(from, to) + 1,
{
    let w = straight_walk(from, to);
    lemma_straight_walk(grid, from, to);
    assert(is_walk(grid, from, to, w));
    let found = r->Some_0;
    lemma_walk_length_bound(grid, from, to, found);
}

/// Steps along x from `from`, then along y, to `to`.
pub open spec fn straight_walk(from: GridPos, to: GridPos) -> Seq<GridPos> {
    let dx = crate::grid::abs(to.x - from.x) as int;
    let dy = crate::grid::abs(to.y - from.y) as int;
    Seq::new((dx + dy + 1) as nat, |i: int| straight_walk_cell(from, to, i))
}

/// Cell `i` of `straight_walk(from, to)`.
pub open spec fn straight_walk_cell(from: GridPos, to: GridPos, i: int) -> GridPos {
    let dx = crate::grid::abs(to.x - from.x) as int;
    if i <= dx {
        GridPos { x: (if to.x >= from.x { from.x + i } else { from.x - i }) as i32, y: from.y }
    } else {
        GridPos {
            x: to.x,
            y: (if to.y >= from.y { from.y + (i - dx) } else { from.y - (i - dx) }) as i32,
        }
    }
}

proof fn lemma_straight_walk_cell(from: GridPos, to: GridPos, i: int)
    requires
        0 <= i <= crate::grid::abs(to.x - from.x) + crate::grid::abs(to.y - from.y),
    ensures
        ({
            let p = straight_walk_cell(from, to, i);
            &&& from.x <= p.x <= to.x || to.x <= p.x <= from.x
            &&& from.y <= p.y <= to.y || to.y <= p.y <= from.y
        }),
        i >= 1 ==> adjacent(straight_walk_cell(from, to, i - 1), straight_walk_cell(from, to, i)),
{
}

proof fn lemma_straight_walk(grid: Map<ChunkPos, Seq<Tile>>, from: GridPos, to: GridPos)
    requires
        forall|p: GridPos|
            #![trigger walkable(grid, p)]
            (from.x <= p.x <= to.x || to.x <= p.x <= from.x) && (from.y <= p.y <= to.y || to.y
                <= p.y <= from.y) ==> walkable(grid, p),
    ensures
        is_walk(grid, from, to, straight_walk(from, to)),
        straight_walk(from, to).len() == manhattan(from, to) + 1,
{
    let w = straight_walk(from, to);
    let n = crate::grid::abs(to.x - from.x) + crate::grid::abs(to.y - from.y);
    assert(w.len() == n + 1);
    assert(w[0] == from);
    assert(w[n as int] == to);
    assert forall|i: int| 1 <= i < w.len() implies walkable(grid, #[trigger] w[i]) && adjacent(
        w[i - 1],
        w[i],
    ) by {
        let p = straight_walk_cell(from, to, i);
        assert(w[i] == p);
        assert(w[i - 1] == straight_walk_cell(from, to, i - 1));
        lemma_straight_walk_cell(from, to, i);
        assert(walkable(grid, p));
    }
}

/// A goal walled in on all four sides cannot be reached from any other cell that is
/// not itself one of those four, so the pathfinder answers `None`.
pub proof fn lemma_walled_goal_unreachable(
    grid: Map<ChunkPos, Seq<Tile>>,
    from: GridPos,
    to: GridPos,
    r: Option<Seq<GridPos>>,
)
    requires
        forall|q: GridPos| adjacent(q, to) ==> !#[trigger] walkable(grid, q),
        from != to,
        !adjacent(from, to),
        path_answer(grid, from, to, r),
    ensures
        r is None,
{
    assert forall|w: Seq<GridPos>| !is_walk(grid, from, to, w) by {
        if is_walk(grid, from, to, w) {
            assert(w.len() >= 2);
            let k = w.len() - 1;
            assert(adjacent(w[k - 1], w[k]));
            if k - 1 >= 1 {
                assert(walkable(grid, w[k - 1]));
            }
        }
    }
}

} // verus!
