//! Field of view: the cells an observer can see, computed by restrictive precise
//! angle shadowcasting over a square window centred on the observer.
use doryen_fov::{FovAlgorithm, FovRestrictive, MapData};
use vstd::prelude::*;

use crate::grid::GridPos;
use crate::terrain::{walkable, ChunkPos, GameGrid, Tile};

verus! {

#[verifier::external_type_specification]
#[verifier::external_body]
pub struct ExMapData(MapData);

#[verifier::external_type_specification]
#[verifier::external_body]
pub struct ExFovRestrictive(FovRestrictive);

/// Width, in cells, of a `MapData`.
pub uninterp spec fn map_width(m: MapData) -> nat;

/// Height, in cells, of a `MapData`.
pub uninterp spec fn map_height(m: MapData) -> nat;

/// Transparency flags of a `MapData`, row by row (index `x + y * width`).
pub uninterp spec fn map_transparency(m: MapData) -> Seq<bool>;

/// Field-of-view flags of a `MapData`, row by row (index `x + y * width`).
pub uninterp spec fn map_fov(m: MapData) -> Seq<bool>;

/// The field-of-view flags that doryen-fov's restrictive shadowcasting computes on a
/// map with the given transparency and size, from observer `(x, y)`, out to
/// `max_radius`, starting from a map with no cell in view.
pub uninterp spec fn restrictive_fov(
    transparent: Seq<bool>,
    width: nat,
    height: nat,
    x: nat,
    y: nat,
    max_radius: nat,
    light_walls: bool,
) -> Seq<bool>;

/// Relies on doryen-fov's `MapData::new`: a `width` by `height` map, every cell
/// transparent and none in view.
pub assume_specification[ MapData::new ](width: usize, height: usize) -> (r: MapData)
    requires
        width * height <= usize::MAX,
    ensures
        map_width(r) == width,
        map_height(r) == height,
        map_transparency(r) == Seq::new((width * height) as nat, |i: int| true),
        map_fov(r) == Seq::new((width * height) as nat, |i: int| false),
;

/// Relies on doryen-fov's `MapData::clear_fov`: sets the first `width * height`
/// field-of-view flags to false and changes nothing else.
pub assume_specification[ MapData::clear_fov ](m: &mut MapData)
    requires
        map_fov(*old(m)).len() == map_width(*old(m)) * map_height(*old(m)),
    ensures
        map_width(*final(m)) == map_width(*old(m)),
        map_height(*final(m)) == map_height(*old(m)),
        map_transparency(*final(m)) == map_transparency(*old(m)),
        map_fov(*final(m)) == Seq::new(map_fov(*old(m)).len(), |i: int| false),
;

/// Relies on doryen-fov's `MapData::set_transparent`: writes the flag of cell
/// `x + y * width` (indexing panics past the end, which `requires` rules out).
pub assume_specification[ MapData::set_transparent ](
    m: &mut MapData,
    x: usize,
    y: usize,
    is_transparent: bool,
)
    requires
        x + y * map_width(*old(m)) < map_transparency(*old(m)).len(),
    ensures
        map_width(*final(m)) == map_width(*old(m)),
        map_height(*final(m)) == map_height(*old(m)),
        map_fov(*final(m)) == map_fov(*old(m)),
        map_transparency(*final(m)) == map_transparency(*old(m)).update(
            x + y * map_width(*old(m)),
            is_transparent,
        ),
;

/// Relies on doryen-fov's `MapData::is_in_fov`: reads the flag of cell
/// `x + y * width`.
pub assume_specification[ MapData::is_in_fov ](m: &MapData, x: usize, y: usize) -> (r: bool)
    requires
        x + y * map_width(*m) < map_fov(*m).len(),
    ensures
        r == map_fov(*m)[x + y * map_width(*m)],
;

/// Relies on doryen-fov's `FovRestrictive::new`: an engine with no state that
/// affects results.
pub assume_specification[ FovRestrictive::new ]() -> FovRestrictive;

/// Relies on doryen-fov's `FovAlgorithm::compute_fov` for `FovRestrictive`: it only
/// sets field-of-view flags, reading the transparency, the size and the flags it set
/// itself, so from a map with none in view the result depends on its arguments
/// alone; the observer's own cell is always set. Its obstacle buffer holds
/// `width * height / 7` entries, enough for a square map of side `2 * max_radius + 1`
/// centred on the observer, and on such a map its `i32` offsets cannot overflow for
/// the sizes admitted here.
#[verifier::external_body]
fn compute_restrictive(
    engine: &mut FovRestrictive,
    map: &mut MapData,
    center: usize,
    radius: usize,
    light_walls: bool,
)
    requires
        radius <= MAX_VIEW_RANGE,
        center == radius,
        map_width(*old(map)) == 2 * radius + 1,
        map_height(*old(map)) == 2 * radius + 1,
        map_transparency(*old(map)).len() == map_width(*old(map)) * map_height(*old(map)),
        map_fov(*old(map)) == Seq::new(map_transparency(*old(map)).len(), |i: int| false),
    ensures
        map_width(*final(map)) == map_width(*old(map)),
        map_height(*final(map)) == map_height(*old(map)),
        map_transparency(*final(map)) == map_transparency(*old(map)),
        map_fov(*final(map)) == restrictive_fov(
            map_transparency(*old(map)),
            map_width(*old(map)),
            map_height(*old(map)),
            center as nat,
            center as nat,
            radius as nat,
            light_walls,
        ),
        map_fov(*final(map)).len() == map_transparency(*old(map)).len(),
        map_fov(*final(map))[center + center * map_width(*old(map))],
{
    engine.compute_fov(map, center, center, radius, light_walls)
}

/// The largest view range accepted. doryen-fov addresses the window with `i32`
/// offsets up to `side * side` for `side = 2 * range + 1`; `46339 * 46339 =
/// 2147302921` is the largest such square below `2^31`.
pub const MAX_VIEW_RANGE: usize = 23169;

/// Side of the square window for a view range.
pub open spec fn window_side(range: nat) -> nat {
    2 * range + 1
}

/// Cell `k` of the window of side `2 * range + 1` centred on `center`, counted row
/// by row from the lowest row and leftmost column.
pub open spec fn window_cell(center: GridPos, range: nat, k: int) -> GridPos {
    GridPos {
        x: (center.x - range + k % window_side(range) as int) as i32,
        y: (center.y - range + k / window_side(range) as int) as i32,
    }
}

/// Every cell of the window around `center`, row by row.
pub open spec fn window(center: GridPos, range: nat) -> Seq<GridPos> {
    Seq::new(window_side(range) * window_side(range), |k: int| window_cell(center, range, k))
}

/// Whether the window of `range` around `center` lies within the addressable grid.
pub open spec fn window_fits(center: GridPos, range: nat) -> bool {
    &&& i32::MIN + range <= center.x <= i32::MAX - range
    &&& i32::MIN + range <= center.y <= i32::MAX - range
}

/// Transparency of the window: a cell lets light through exactly when it is walkable.
pub open spec fn window_transparency(
    grid: Map<ChunkPos, Seq<Tile>>,
    center: GridPos,
    range: nat,
) -> Seq<bool> {
    Seq::new(
        window_side(range) * window_side(range),
        |k: int| walkable(grid, window_cell(center, range, k)),
    )
}

/// The window cells among the first `n` whose flag in `fov` is set, in window order.
pub open spec fn visible_cells(center: GridPos, range: nat, fov: Seq<bool>, n: int) -> Seq<GridPos>
    decreases n,
{
    if n <= 0 {
        Seq::empty()
    } else if fov[n - 1] {
        visible_cells(center, range, fov, n - 1).push(window_cell(center, range, n - 1))
    } else {
        visible_cells(center, range, fov, n - 1)
    }
}

/// What the observer at `center` sees with view range `range`: the window cells
/// that restrictive shadowcasting over the window's transparency reaches, walls
/// that light reaches included.
pub open spec fn field_of_view(
    grid: Map<ChunkPos, Seq<Tile>>,
    center: GridPos,
    range: nat,
) -> Seq<GridPos> {
    let side = window_side(range);
    visible_cells(
        center,
        range,
        restrictive_fov(window_transparency(grid, center, range), side, side, range, range, range, true),
        (side * side) as int,
    )
}

/// An observer's view: the view range, the cells seen from where it was last
/// computed, and that position.
pub struct FieldOfView {
    view_range: usize,
    fov: FovRestrictive,
    fov_map: MapData,
    visible_positions: Vec<GridPos>,
    computed_at: Option<GridPos>,
    computed_on: Ghost<Map<ChunkPos, Seq<Tile>>>,
}

proof fn lemma_window_index(range: nat, fx: int, fy: int)
    requires
        0 <= fx < window_side(range),
        0 <= fy,
    ensures
        (fx + fy * window_side(range)) % window_side(range) as int == fx,
        (fx + fy * window_side(range)) / window_side(range) as int == fy,
{
    vstd::arithmetic::div_mod::lemma_fundamental_div_mod_converse(
        fx + fy * window_side(range),
        window_side(range) as int,
        fy,
        fx,
    );
}

proof fn lemma_visible_cells_contains(center: GridPos, range: nat, fov: Seq<bool>, n: int, k: int)
    requires
        0 <= k < n,
        k < fov.len(),
        fov[k],
    ensures
        visible_cells(center, range, fov, n).contains(window_cell(center, range, k)),
    decreases n,
{
    let prev = visible_cells(center, range, fov, n - 1);
    if k == n - 1 {
        assert(visible_cells(center, range, fov, n)[prev.len() as int] == window_cell(center, range, k));
    } else {
        lemma_visible_cells_contains(center, range, fov, n - 1, k);
        let j = choose|j: int| 0 <= j < prev.len() && prev[j] == window_cell(center, range, k);
        if fov[n - 1] {
            assert(visible_cells(center, range, fov, n)[j] == window_cell(center, range, k));
        }
    }
}

/// Every cell the view shows lies within its window: at most `range` cells from the
/// observer along each axis. (Which cells of the window are shown is up to the
/// shadowcasting.)
pub proof fn lemma_field_of_view_within_window(
    grid: Map<ChunkPos, Seq<Tile>>,
    center: GridPos,
    range: nat,
    p: GridPos,
)
    requires
        window_fits(center, range),
        field_of_view(grid, center, range).contains(p),
    ensures
        center.x - range <= p.x <= center.x + range,
        center.y - range <= p.y <= center.y + range,
{
    let side = window_side(range);
    let fov = restrictive_fov(window_transparency(grid, center, range), side, side, range, range, range, true);
    lemma_visible_cells_in_window(center, range, fov, (side * side) as int, p);
}

proof fn lemma_visible_cells_in_window(center: GridPos, range: nat, fov: Seq<bool>, n: int, p: GridPos)
    requires
        window_fits(center, range),
        n <= window_side(range) * window_side(range),
        visible_cells(center, range, fov, n).contains(p),
    ensures
        center.x - range <= p.x <= center.x + range,
        center.y - range <= p.y <= center.y + range,
    decreases n,
{
    if n > 0 {
        let prev = visible_cells(center, range, fov, n - 1);
        if prev.contains(p) {
            lemma_visible_cells_in_window(center, range, fov, n - 1, p);
        } else {
            let j = choose|j: int| 0 <= j < visible_cells(center, range, fov, n).len()
                && visible_cells(center, range, fov, n)[j] == p;
            if j < prev.len() {
                assert(prev[j] == p);
            }
            assert(p == window_cell(center, range, n - 1));
            let side = window_side(range) as int;
            let k = n - 1;
            assert(0 <= k % side < side) by {
                vstd::arithmetic::div_mod::lemma_mod_bound(k, side);
            }
            assert(0 <= k / side < side) by {
                vstd::arithmetic::div_mod::lemma_fundamental_div_mod(k, side);
                let (q, rem) = (k / side, k % side);
                assert(0 <= q < side) by (nonlinear_arith)
                    requires
                        k == side * q + rem,
                        0 <= rem < side,
                        0 <= k < side * side,
                ;
            }
        }
    }
}

/// Row-major position of `p` in the window around `center`.
pub open spec fn window_index(center: GridPos, range: nat, p: GridPos) -> int {
    (p.y - center.y + range) * window_side(range) + (p.x - center.x + range)
}

/// `v` lies inside the window around `center`, in strictly increasing row-major
/// order.
pub open spec fn window_ordered(center: GridPos, range: nat, v: Seq<GridPos>) -> bool {
    &&& forall|i: int|
        0 <= i < v.len() ==> center.x - range <= (#[trigger] v[i]).x <= center.x + range
            && center.y - range <= v[i].y <= center.y + range
    &&& forall|i: int, j: int|
        0 <= i < j < v.len() ==> window_index(center, range, #[trigger] v[i]) < window_index(
            center,
            range,
            #[trigger] v[j],
        )
}

proof fn lemma_window_cell_index(center: GridPos, range: nat, k: int)
    requires
        window_fits(center, range),
        0 <= k < window_side(range) * window_side(range),
    ensures
        window_index(center, range, window_cell(center, range, k)) == k,
        0 <= k / (window_side(range) as int) < window_side(range),
        0 <= k % (window_side(range) as int) < window_side(range),
        center.x - range <= window_cell(center, range, k).x <= center.x + range,
        center.y - range <= window_cell(center, range, k).y <= center.y + range,
{
    let side = window_side(range) as int;
    vstd::arithmetic::div_mod::lemma_fundamental_div_mod(k, side);
    vstd::arithmetic::div_mod::lemma_mod_bound(k, side);
    let (q, rem) = (k / side, k % side);
    assert(0 <= q < side) by (nonlinear_arith)
        requires
            k == side * q + rem,
            0 <= rem < side,
            0 <= k < side * side,
    ;
    assert(q * side == side * q) by (nonlinear_arith);
}

proof fn lemma_visible_cells_ordered(center: GridPos, range: nat, fov: Seq<bool>, n: int)
    requires
        window_fits(center, range),
        n <= window_side(range) * window_side(range),
    ensures
        window_ordered(center, range, visible_cells(center, range, fov, n)),
        forall|i: int|
            0 <= i < visible_cells(center, range, fov, n).len() ==> window_index(
                center,
                range,
                #[trigger] visible_cells(center, range, fov, n)[i],
            ) < n,
    decreases n,
{
    if n > 0 {
        lemma_visible_cells_ordered(center, range, fov, n - 1);
        lemma_window_cell_index(center, range, n - 1);
    }
}

proof fn lemma_ordered_no_duplicates(center: GridPos, range: nat, v: Seq<GridPos>)
    requires
        window_ordered(center, range, v),
    ensures
        v.no_duplicates(),
{
    assert forall|i: int, j: int| 0 <= i < v.len() && 0 <= j < v.len() && i != j implies v[i] != v[j] by {
        if i < j {
            assert(window_index(center, range, v[i]) < window_index(center, range, v[j]));
        } else {
            assert(window_index(center, range, v[j]) < window_index(center, range, v[i]));
        }
    }
}

/// Any field of view lies inside its window in strict row-major order, with no cell
/// twice.
pub proof fn lemma_field_of_view_shape(grid: Map<ChunkPos, Seq<Tile>>, center: GridPos, range: nat)
    requires
        window_fits(center, range),
    ensures
        window_ordered(center, range, field_of_view(grid, center, range)),
        field_of_view(grid, center, range).no_duplicates(),
{
    let side = window_side(range);
    let fov = restrictive_fov(window_transparency(grid, center, range), side, side, range, range, range, true);
    lemma_visible_cells_ordered(center, range, fov, (side * side) as int);
    lemma_ordered_no_duplicates(center, range, field_of_view(grid, center, range));
}

proof fn lemma_range_zero_view(c: GridPos, v: Seq<GridPos>)
    requires
        window_ordered(c, 0, v),
        v.contains(c),
    ensures
        v == seq![c],
{
    lemma_ordered_no_duplicates(c, 0, v);
    if v.len() > 1 {
        assert(v[0] == c && v[1] == c);
    }
    assert(v =~= seq![c]);
}

/// The view moves with the observer: when the terrain around `c2 = c1 + (dx, dy)` in
/// `g2` is the terrain around `c1` in `g1`, shifted by `(dx, dy)`, the field of view
/// from `c2` is the one from `c1` shifted by `(dx, dy)`.
pub proof fn lemma_field_of_view_translates(
    g1: Map<ChunkPos, Seq<Tile>>,
    g2: Map<ChunkPos, Seq<Tile>>,
    c1: GridPos,
    c2: GridPos,
    range: nat,
)
    requires
        window_fits(c1, range),
        window_fits(c2, range),
        forall|k: int|
            0 <= k < window_side(range) * window_side(range) ==> walkable(
                g2,
                #[trigger] window_cell(c2, range, k),
            ) == walkable(g1, window_cell(c1, range, k)),
    ensures
        field_of_view(g2, c2, range) == field_of_view(g1, c1, range).map_values(
            |p: GridPos| GridPos { x: (p.x + (c2.x - c1.x)) as i32, y: (p.y + (c2.y - c1.y)) as i32 },
        ),
{
    let side = window_side(range);
    assert(window_transparency(g2, c2, range) =~= window_transparency(g1, c1, range));
    let fov = restrictive_fov(window_transparency(g1, c1, range), side, side, range, range, range, true);
    lemma_visible_cells_translate(c1, c2, range, fov, (side * side) as int);
}

proof fn lemma_visible_cells_translate(c1: GridPos, c2: GridPos, range: nat, fov: Seq<bool>, n: int)
    requires
        window_fits(c1, range),
        window_fits(c2, range),
        n <= window_side(range) * window_side(range),
    ensures
        visible_cells(c2, range, fov, n) == visible_cells(c1, range, fov, n).map_values(
            |p: GridPos| GridPos { x: (p.x + (c2.x - c1.x)) as i32, y: (p.y + (c2.y - c1.y)) as i32 },
        ),
    decreases n,
{
    let f = |p: GridPos| GridPos { x: (p.x + (c2.x - c1.x)) as i32, y: (p.y + (c2.y - c1.y)) as i32 };
    if n <= 0 {
        assert(visible_cells(c1, range, fov, n).map_values(f) =~= Seq::<GridPos>::empty());
    } else {
        lemma_visible_cells_translate(c1, c2, range, fov, n - 1);
        let prev = visible_cells(c1, range, fov, n - 1);
        if fov[n - 1] {
            lemma_window_cell_index(c1, range, n - 1);
            lemma_window_cell_index(c2, range, n - 1);
            let w1 = window_cell(c1, range, n - 1);
            let w2 = window_cell(c2, range, n - 1);
            let side = window_side(range) as int;
            assert(w1.x == c1.x - range + (n - 1) % side);
            assert(w2.x == c2.x - range + (n - 1) % side);
            assert(w1.y == c1.y - range + (n - 1) / side);
            assert(w2.y == c2.y - range + (n - 1) / side);
            assert(f(w1) == w2);
            assert(prev.push(window_cell(c1, range, n - 1)).map_values(f) =~= prev.map_values(f).push(
                f(window_cell(c1, range, n - 1)),
            ));
        }
    }
}

impl FieldOfView {
    /// The scratch map matches the view range, and a computed view is the field of
    /// view from where it was computed over the terrain it was computed on.
    pub closed spec fn wf(&self) -> bool {
        &&& self.computed_at matches Some(c) ==> {
            &&& window_fits(c, self.view_range as nat)
            &&& self.visible_positions@ == field_of_view(self.computed_on@, c, self.view_range as nat)
            &&& self.visible_positions@.contains(c)
        }
        &&& self.view_range <= MAX_VIEW_RANGE
        &&& map_width(self.fov_map) == window_side(self.view_range as nat)
        &&& map_height(self.fov_map) == window_side(self.view_range as nat)
        &&& map_transparency(self.fov_map).len() == window_side(self.view_range as nat)
            * window_side(self.view_range as nat)
        &&& map_fov(self.fov_map).len() == map_transparency(self.fov_map).len()
    }

    /// Where the current `visible_positions` were computed, if anywhere.
    pub closed spec fn computed_at(&self) -> Option<GridPos> {
        self.computed_at
    }

    /// The terrain the current view was computed on.
    pub closed spec fn computed_on(&self) -> Map<ChunkPos, Seq<Tile>> {
        self.computed_on@
    }

    /// What a computed view is: the field of view from where it was computed, over
    /// the terrain it was computed on; it holds the observer's cell, lies inside the
    /// window in strict row-major order (so no cell twice), and with view range 0 it
    /// is the observer's cell alone.
    pub proof fn lemma_computed_view(&self)
        requires
            self.wf(),
            self.computed_at() is Some,
        ensures
            ({
                let c = self.computed_at()->Some_0;
                let v = self.visible();
                &&& v == field_of_view(self.computed_on(), c, self.range())
                &&& v.contains(c)
                &&& window_ordered(c, self.range(), v)
                &&& v.no_duplicates()
                &&& self.range() == 0 ==> v == seq![c]
            }),
    {
        let c = self.computed_at()->Some_0;
        lemma_field_of_view_shape(self.computed_on(), c, self.range());
        if self.range() == 0 {
            lemma_range_zero_view(c, self.visible());
        }
    }

    /// How far the observer sees, in cells along each axis.
    pub closed spec fn range(&self) -> nat {
        self.view_range as nat
    }

    /// The cells seen, in window order.
    pub closed spec fn visible(&self) -> Seq<GridPos> {
        self.visible_positions@
    }

    /// How far the observer sees, in cells along each axis.
    pub fn view_range(&self) -> (r: usize)
        ensures
            r == self.range(),
    {
        self.view_range
    }

    /// The cells seen from where the view was last computed.
    pub fn visible_positions(&self) -> (r: &Vec<GridPos>)
        ensures
            r@ == self.visible(),
    {
        &self.visible_positions
    }

    /// A view of the given range that has not been computed yet.
    pub fn new(view_range: usize) -> (r: FieldOfView)
        requires
            view_range <= MAX_VIEW_RANGE,
        ensures
            r.wf(),
            r.range() == view_range,
            r.visible().len() == 0,
            r.computed_at() is None,
    {
        let grid_size = view_range * 2 + 1;
        assert(grid_size * grid_size <= 46339 * 46339) by (nonlinear_arith)
            requires
                grid_size <= 46339,
        ;
        FieldOfView {
            view_range,
            fov: FovRestrictive::new(),
            fov_map: MapData::new(grid_size, grid_size),
            visible_positions: Vec::new(),
            computed_at: None,
            computed_on: Ghost(Map::empty()),
        }
    }

    /// Every cell within the view range of `center` on both axes, row by row from
    /// the lowest row, each row from the leftmost column.
    pub fn get_positions_in_view_range(&self, center: &GridPos) -> (r: Vec<GridPos>)
        requires
            self.wf(),
            window_fits(*center, self.range()),
        ensures
            r@ == window(*center, self.range()),
    {
        let range = self.view_range as i32;
        let ghost n = self.view_range as nat;
        let side = self.view_range * 2 + 1;
        let mut positions: Vec<GridPos> = Vec::new();
        let mut y: i32 = -range;
        assert(y + range == 0);
        assert((y + range) * side == 0) by (nonlinear_arith)
            requires
                y + range == 0,
        ;
        while y <= range
            invariant
                range == n,
                n <= MAX_VIEW_RANGE,
                side == window_side(n),
                window_fits(*center, n),
                -range <= y <= range + 1,
                positions@.len() == (y + range) * side,
                forall|k: int| 0 <= k < positions@.len() ==> #[trigger] positions@[k] == window_cell(*center, n, k),
            decreases range + 1 - y,
        {
            let mut x: i32 = -range;
            while x <= range
                invariant
                    range == n,
                    n <= MAX_VIEW_RANGE,
                    side == window_side(n),
                    window_fits(*center, n),
                    -range <= y <= range,
                    -range <= x <= range + 1,
                    positions@.len() == (y + range) * side + (x + range),
                    forall|k: int| 0 <= k < positions@.len() ==> #[trigger] positions@[k] == window_cell(*center, n, k),
                decreases range + 1 - x,
            {
                proof {
                    lemma_window_index(n, (x + range) as int, (y + range) as int);
                }
                positions.push(GridPos { x: center.x + x, y: center.y + y });
                x = x + 1;
            }
            assert((y + 1 + range) * side == (y + range) * side + side) by (nonlinear_arith);
            y = y + 1;
        }
        assert(positions@ =~= window(*center, n));
        positions
    }

    /// Brings the view up to date for an observer at `center`. The view is computed
    /// again only when `center` differs from where it was last computed; otherwise
    /// nothing changes (call `invalidate` first to force a recomputation after the
    /// terrain changed). Either way the result is the field of view from `center`
    /// over the terrain it was computed on, which is `grid` unless the view was kept.
    pub fn update(&mut self, center: GridPos, grid: &GameGrid)
        requires
            old(self).wf(),
            grid.wf(),
            window_fits(center, old(self).range()),
        ensures
            final(self).wf(),
            final(self).range() == old(self).range(),
            final(self).computed_at() == Some(center),
            final(self).visible() == field_of_view(final(self).computed_on(), center, old(self).range()),
            final(self).visible().contains(center),
            old(self).computed_at() == Some(center) ==> final(self).visible() == old(self).visible()
                && final(self).computed_on() == old(self).computed_on(),
            old(self).computed_at() != Some(center) ==> final(self).computed_on() == grid@,
    {
        match self.computed_at {
            Some(c) => {
                if c.is_at(&center) {
                    return;
                }
            },
            None => {},
        }
        self.recompute(center, grid);
    }

    /// Marks the view as stale, so that the next `update` computes it again.
    pub fn invalidate(&mut self)
        requires
            old(self).wf(),
        ensures
            final(self).wf(),
            final(self).range() == old(self).range(),
            final(self).visible() == old(self).visible(),
            final(self).computed_at() is None,
            final(self).computed_on() == old(self).computed_on(),
    {
        self.computed_at = None;
    }

    /// Whether `pos` was seen when the view was last computed.
    pub fn is_visible(&self, pos: &GridPos) -> (r: bool)
        ensures
            r == self.visible().contains(*pos),
    {
        let mut k: usize = 0;
        while k < self.visible_positions.len()
            invariant
                0 <= k <= self.visible_positions@.len(),
                forall|j: int| 0 <= j < k ==> self.visible_positions@[j] != *pos,
            decreases self.visible_positions@.len() - k,
        {
            if self.visible_positions[k].is_at(pos) {
                return true;
            }
            k = k + 1;
        }
        false
    }

    /// Computes the view from `center` over the current terrain.
    fn recompute(&mut self, center: GridPos, grid: &GameGrid)
        requires
            old(self).wf(),
            grid.wf(),
            window_fits(center, old(self).range()),
        ensures
            final(self).wf(),
            final(self).range() == old(self).range(),
            final(self).computed_at() == Some(center),
            final(self).computed_on() == grid@,
            final(self).visible() == field_of_view(grid@, center, old(self).range()),
            final(self).visible().contains(center),
    {
        let range = self.view_range;
        let side = range * 2 + 1;
        let ghost n = range as nat;
        let ghost cells = (side * side) as nat;
        self.fov_map.clear_fov();
        let positions = self.get_positions_in_view_range(&center);
        let mut k: usize = 0;
        while k < positions.len()
            invariant
                self.wf(),
                grid.wf(),
                self.view_range == range,
                side == window_side(n),
                n == range,
                positions@ == window(center, n),
                cells == side * side,
                positions@.len() == cells,
                0 <= k <= cells,
                map_fov(self.fov_map) == Seq::new(cells, |i: int| false),
                forall|j: int| 0 <= j < k ==> #[trigger] map_transparency(self.fov_map)[j] == walkable(
                    grid@,
                    window_cell(center, n, j),
                ),
            decreases cells - k,
        {
            let fx = k % side;
            let fy = k / side;
            proof {
                vstd::arithmetic::div_mod::lemma_fundamental_div_mod(k as int, side as int);
                assert(fx + fy * side == k) by (nonlinear_arith)
                    requires
                        k == side * (k as int / side as int) + k as int % side as int,
                        fx == k as int % side as int,
                        fy == k as int / side as int,
                ;
            }
            let open = grid.is_walkable(&positions[k]);
            self.fov_map.set_transparent(fx, fy, open);
            k = k + 1;
        }
        assert(map_transparency(self.fov_map) =~= window_transparency(grid@, center, n));
        compute_restrictive(&mut self.fov, &mut self.fov_map, range, range, true);
        let ghost seen = map_fov(self.fov_map);
        let mut visible: Vec<GridPos> = Vec::new();
        let mut k: usize = 0;
        while k < positions.len()
            invariant
                self.wf(),
                self.view_range == range,
                side == window_side(n),
                n == range,
                positions@ == window(center, n),
                cells == side * side,
                positions@.len() == cells,
                0 <= k <= cells,
                map_fov(self.fov_map) == seen,
                visible@ == visible_cells(center, n, seen, k as int),
            decreases cells - k,
        {
            let fx = k % side;
            let fy = k / side;
            proof {
                vstd::arithmetic::div_mod::lemma_fundamental_div_mod(k as int, side as int);
                assert(fx + fy * side == k) by (nonlinear_arith)
                    requires
                        k == side * (k as int / side as int) + k as int % side as int,
                        fx == k as int % side as int,
                        fy == k as int / side as int,
                ;
            }
            if self.fov_map.is_in_fov(fx, fy) {
                visible.push(positions[k]);
            }
            k = k + 1;
        }
        proof {
            let mid = range as int + range as int * side as int;
            lemma_window_index(n, range as int, range as int);
            assert(0 <= mid < cells) by (nonlinear_arith)
                requires
                    side == 2 * range + 1,
                    cells == side * side,
                    mid == range + range * side,
            ;
            assert(window_cell(center, n, mid) == center);
            lemma_visible_cells_contains(center, n, seen, cells as int, mid);
        }
        self.visible_positions = visible;
        self.computed_at = Some(center);
        self.computed_on = Ghost(grid@);
    }
}

} // verus!
