//! Chunked terrain: tile classifications grouped into fixed-size chunks, and the
//! store of loaded chunks that answers walkability queries.
use std::collections::HashMap;
use vstd::prelude::*;

use crate::grid::{GridPos, WorldPos, TILE_SIZE};

verus! {

broadcast use vstd::std_specs::hash::group_hash_axioms;

/// Side of a chunk, in tiles.
pub const CHUNK_SIZE: i32 = 30;

/// Number of tiles in a chunk.
pub const CHUNK_TILES: usize = 900;

/// Classification of one terrain cell.
#[derive(Clone, Copy, PartialEq, Eq, Debug, Structural)]
pub enum Tile {
    Floor,
    Wall,
}

/// Coordinate of a chunk: `floor(grid_pos / CHUNK_SIZE)` on each axis.
#[derive(Clone, Copy, PartialEq, Eq, Hash, Debug, Structural)]
pub struct ChunkPos {
    pub x: i32,
    pub y: i32,
}

/// The chunk that holds a grid cell.
pub open spec fn chunk_of(p: GridPos) -> ChunkPos {
    ChunkPos { x: (p.x as int / CHUNK_SIZE as int) as i32, y: (p.y as int / CHUNK_SIZE as int) as i32 }
}

/// Row-major index of a grid cell inside its chunk.
pub open spec fn local_index(p: GridPos) -> int {
    (p.x as int % CHUNK_SIZE as int) + (p.y as int % CHUNK_SIZE as int) * CHUNK_SIZE as int
}

/// Whether a cell can be entered, given the tiles of every loaded chunk.
/// A cell in a chunk that is not loaded is not walkable.
pub open spec fn walkable(chunks: Map<ChunkPos, Seq<Tile>>, p: GridPos) -> bool {
    &&& chunks.contains_key(chunk_of(p))
    &&& chunks[chunk_of(p)][local_index(p)] == Tile::Floor
}

/// Distance between two chunks in whole chunks along the farther axis.
pub open spec fn chunk_distance(a: ChunkPos, b: ChunkPos) -> nat {
    let dx = crate::grid::abs(a.x - b.x);
    let dy = crate::grid::abs(a.y - b.y);
    if dx < dy { dy } else { dx }
}

/// Chunks within this distance of the anchor's chunk are kept loaded.
pub const SPAWN_RADIUS: i32 = 2;

/// Chunks farther than this from the anchor's chunk are unloaded. It is larger than
/// `SPAWN_RADIUS`, so a chunk is never loaded and unloaded by the same move.
pub const DESPAWN_RADIUS: i32 = 3;

/// Whether a chunk is within the spawn radius of the anchor chunk `a`.
pub open spec fn in_spawn_range(a: ChunkPos, c: ChunkPos) -> bool {
    chunk_distance(a, c) <= SPAWN_RADIUS
}

/// Whether a chunk is beyond the despawn radius of the anchor chunk `a`.
pub open spec fn beyond_despawn_range(a: ChunkPos, c: ChunkPos) -> bool {
    chunk_distance(a, c) > DESPAWN_RADIUS
}

/// Out of every hundred tiles of fresh terrain, how many are walls on average.
pub const OBSTACLE_PERCENT: u32 = 20;

/// The tile that a roll in `0..100` makes.
pub open spec fn tile_for_roll(roll: u32) -> Tile {
    if roll < OBSTACLE_PERCENT { Tile::Wall } else { Tile::Floor }
}

/// Whether chunk `c` is loaded after a sync around anchor chunk `a`, given the
/// chunks `before` loaded before it.
pub open spec fn sync_keeps(before: Map<ChunkPos, Seq<Tile>>, a: ChunkPos, c: ChunkPos) -> bool {
    in_spawn_range(a, c) || (before.contains_key(c) && !beyond_despawn_range(a, c))
}

/// The chunks that a sync around `a` loads anew.
pub open spec fn spawned_by(before: Map<ChunkPos, Seq<Tile>>, a: ChunkPos) -> Set<ChunkPos> {
    Set::new(|c: ChunkPos| in_spawn_range(a, c) && !before.contains_key(c))
}

/// The chunks that a sync around `a` unloads.
pub open spec fn despawned_by(before: Map<ChunkPos, Seq<Tile>>, a: ChunkPos) -> Set<ChunkPos> {
    Set::new(|c: ChunkPos| before.contains_key(c) && beyond_despawn_range(a, c))
}

/// `after` is what a sync around anchor chunk `a` makes of `before`: the loaded set
/// is exactly `sync_keeps`, chunks that stay loaded keep their tiles, and new ones
/// are whole.
pub open spec fn sync_step(
    before: Map<ChunkPos, Seq<Tile>>,
    after: Map<ChunkPos, Seq<Tile>>,
    a: ChunkPos,
) -> bool {
    &&& forall|c: ChunkPos| #[trigger] after.contains_key(c) <==> sync_keeps(before, a, c)
    &&& forall|c: ChunkPos| #[trigger] after.contains_key(c) && before.contains_key(c) ==> after[c]
        == before[c]
    &&& forall|c: ChunkPos| #[trigger] after.contains_key(c) ==> after[c].len() == CHUNK_TILES
}

/// A `CHUNK_SIZE` by `CHUNK_SIZE` block of tiles, stored row by row.
#[derive(Debug)]
pub struct Chunk {
    tiles: Vec<Tile>,
}

impl View for Chunk {
    type V = Seq<Tile>;

    closed spec fn view(&self) -> Seq<Tile> {
        self.tiles@
    }
}

impl Chunk {
    pub open spec fn wf(&self) -> bool {
        self@.len() == CHUNK_TILES
    }

    /// A chunk of open ground.
    pub fn open() -> (r: Chunk)
        ensures
            r.wf(),
            forall|i: int| 0 <= i < CHUNK_TILES ==> r@[i] == Tile::Floor,
    {
        let mut tiles: Vec<Tile> = Vec::new();
        let mut i: usize = 0;
        while i < CHUNK_TILES
            invariant
                i <= CHUNK_TILES,
                tiles@.len() == i,
                forall|j: int| 0 <= j < i ==> tiles@[j] == Tile::Floor,
            decreases CHUNK_TILES - i,
        {
            tiles.push(Tile::Floor);
            i = i + 1;
        }
        Chunk { tiles }
    }

    /// Terrain made from one roll in `0..100` per tile, row by row: a roll under
    /// `OBSTACLE_PERCENT` makes a wall.
    pub fn from_rolls(rolls: &Vec<u32>) -> (r: Chunk)
        requires
            rolls@.len() == CHUNK_TILES,
        ensures
            r.wf(),
            forall|i: int| 0 <= i < CHUNK_TILES ==> r@[i] == tile_for_roll(rolls@[i]),
    {
        let mut tiles: Vec<Tile> = Vec::new();
        let mut i: usize = 0;
        while i < CHUNK_TILES
            invariant
                i <= CHUNK_TILES,
                rolls@.len() == CHUNK_TILES,
                tiles@.len() == i,
                forall|j: int| 0 <= j < i ==> tiles@[j] == tile_for_roll(rolls@[j]),
            decreases CHUNK_TILES - i,
        {
            let t = if rolls[i] < OBSTACLE_PERCENT { Tile::Wall } else { Tile::Floor };
            tiles.push(t);
            i = i + 1;
        }
        Chunk { tiles }
    }

    /// Fresh random terrain: each tile independently a wall with probability
    /// `OBSTACLE_PERCENT` in a hundred. Terrain is not derived from the chunk's
    /// coordinate, so a chunk that is unloaded and later loaded again gets new terrain.
    pub fn generate() -> (r: Chunk)
        ensures
            r.wf(),
    {
        let mut rolls: Vec<u32> = Vec::new();
        let mut i: usize = 0;
        while i < CHUNK_TILES
            invariant
                i <= CHUNK_TILES,
                rolls@.len() == i,
            decreases CHUNK_TILES - i,
        {
            rolls.push(random_below(100));
            i = i + 1;
        }
        Self::from_rolls(&rolls)
    }

    /// The tile at local column `x` and row `y`.
    pub fn tile(&self, x: usize, y: usize) -> (r: Tile)
        requires
            self.wf(),
            x < CHUNK_SIZE,
            y < CHUNK_SIZE,
        ensures
            r == self@[x + y * CHUNK_SIZE],
    {
        self.tiles[x + y * 30]
    }

    /// Replaces the tile at local column `x` and row `y`.
    pub fn set_tile(&mut self, x: usize, y: usize, tile: Tile)
        requires
            old(self).wf(),
            x < CHUNK_SIZE,
            y < CHUNK_SIZE,
        ensures
            final(self)@ == old(self)@.update(x + y * CHUNK_SIZE, tile),
    {
        self.tiles.set(x + y * 30, tile);
    }
}

proof fn lemma_push_contains<T>(s: Seq<T>, x: T, y: T)
    ensures
        s.push(x).contains(y) <==> s.contains(y) || y == x,
{
    if s.push(x).contains(y) && y != x {
        let j = choose|j: int| 0 <= j < s.push(x).len() && s.push(x)[j] == y;
        assert(s[j] == y);
    }
    if s.contains(y) {
        let j = choose|j: int| 0 <= j < s.len() && s[j] == y;
        assert(s.push(x)[j] == y);
    }
    if y == x {
        assert(s.push(x)[s.len() as int] == y);
    }
}

proof fn lemma_push_no_duplicates<T>(s: Seq<T>, x: T)
    requires
        s.no_duplicates(),
        !s.contains(x),
    ensures
        s.push(x).no_duplicates(),
{
    assert forall|i: int, j: int|
        0 <= i < s.len() + 1 && 0 <= j < s.len() + 1 && i != j implies s.push(x)[i] != s.push(x)[j] by {
        if i < s.len() && j < s.len() {
        } else if i < s.len() {
            assert(s.contains(s[i]));
        } else {
            assert(s.contains(s[j]));
        }
    }
}

/// Relies on rand's `Rng::random_range` on the thread-local generator: a value drawn
/// from `0..bound` (the call panics on an empty range, which `requires` rules out).
#[verifier::external_body]
pub(crate) fn random_below(bound: u32) -> (r: u32)
    requires
        bound > 0,
    ensures
        r < bound,
{
    rand::Rng::random_range(&mut rand::rng(), 0..bound)
}

proof fn lemma_chunk_of_bounds(p: GridPos)
    ensures
        i32::MIN + SPAWN_RADIUS <= chunk_of(p).x <= i32::MAX - SPAWN_RADIUS,
        i32::MIN + SPAWN_RADIUS <= chunk_of(p).y <= i32::MAX - SPAWN_RADIUS,
{
    let (x, y) = (p.x as int, p.y as int);
    assert(-0x8000_0000 <= x < 0x8000_0000);
    assert(-71582789 <= x / 30 <= 71582788) by (nonlinear_arith)
        requires
            -0x8000_0000 <= x < 0x8000_0000,
    ;
    assert(-71582789 <= y / 30 <= 71582788) by (nonlinear_arith)
        requires
            -0x8000_0000 <= y < 0x8000_0000,
    ;
}

/// Key of a chunk in the store's hash map; distinct chunks get distinct keys.
pub open spec fn chunk_key(c: ChunkPos) -> int {
    c.x * 0x1_0000_0000 + (c.y + 0x8000_0000)
}

proof fn lemma_chunk_key_injective(a: ChunkPos, b: ChunkPos)
    ensures
        chunk_key(a) == chunk_key(b) ==> a == b,
        (chunk_key(a) as i64) == chunk_key(a),
{
    let (ax, ay, bx, by) = (a.x as int, a.y as int, b.x as int, b.y as int);
    assert(-0x8000_0000 <= ax < 0x8000_0000);
    assert(ax * 0x1_0000_0000 + (ay + 0x8000_0000) == bx * 0x1_0000_0000 + (by + 0x8000_0000)
        ==> ax == bx) by (nonlinear_arith)
        requires
            -0x8000_0000 <= ay < 0x8000_0000,
            -0x8000_0000 <= by < 0x8000_0000,
    ;
    assert(-0x8000_0000_0000_0000 <= ax * 0x1_0000_0000 + (ay + 0x8000_0000)
        < 0x8000_0000_0000_0000) by (nonlinear_arith)
        requires
            -0x8000_0000 <= ax < 0x8000_0000,
            -0x8000_0000 <= ay < 0x8000_0000,
    ;
}

fn key_of(c: ChunkPos) -> (r: i64)
    ensures
        r == chunk_key(c),
{
    proof {
        lemma_chunk_key_injective(c, c);
    }
    c.x as i64 * 0x1_0000_0000 + (c.y as i64 + 0x8000_0000)
}

/// What a call of `GameGrid::sync` loaded and unloaded.
pub struct SyncReport {
    pub spawned: Vec<ChunkPos>,
    pub despawned: Vec<ChunkPos>,
}

/// The loaded chunks of the world, addressed by chunk coordinate.
pub struct GameGrid {
    chunks: HashMap<i64, Chunk>,
    order: Vec<ChunkPos>,
}

impl View for GameGrid {
    type V = Map<ChunkPos, Seq<Tile>>;

    closed spec fn view(&self) -> Map<ChunkPos, Seq<Tile>> {
        Map::new(
            |c: ChunkPos| self.chunks@.contains_key(chunk_key(c) as i64),
            |c: ChunkPos| self.chunks@[chunk_key(c) as i64]@,
        )
    }
}

impl GameGrid {
    /// Loaded chunks are whole, and the list of loaded coordinates matches the map.
    pub closed spec fn wf(&self) -> bool {
        &&& self.order@.no_duplicates()
        &&& forall|c: ChunkPos| #[trigger]
            self.chunks@.contains_key(chunk_key(c) as i64) <==> self.order@.contains(c)
        &&& forall|k: i64| #[trigger] self.chunks@.contains_key(k) ==> self.chunks@[k].wf()
    }

    /// Every loaded chunk is whole.
    pub proof fn lemma_chunks_whole(&self)
        requires
            self.wf(),
        ensures
            forall|c: ChunkPos| #[trigger] self@.contains_key(c) ==> self@[c].len() == CHUNK_TILES,
    {
        assert forall|c: ChunkPos| #[trigger] self@.contains_key(c) implies self@[c].len() == CHUNK_TILES by {
            assert(self.chunks@.contains_key(chunk_key(c) as i64));
        }
    }

    /// An empty world: nothing is loaded.
    pub fn new() -> (r: GameGrid)
        ensures
            r.wf(),
            r@ == Map::<ChunkPos, Seq<Tile>>::empty(),
    {
        let r = GameGrid { chunks: HashMap::new(), order: Vec::new() };
        assert(r@ =~= Map::<ChunkPos, Seq<Tile>>::empty());
        r
    }

    /// Whether the chunk at `c` is loaded.
    pub fn is_loaded(&self, c: ChunkPos) -> (r: bool)
        requires
            self.wf(),
        ensures
            r == self@.contains_key(c),
    {
        self.chunks.contains_key(&key_of(c))
    }

    /// The chunk that holds `pos`.
    pub fn chunk_pos(pos: GridPos) -> (r: ChunkPos)
        ensures
            r == chunk_of(pos),
    {
        let x = pos.x.checked_div_euclid(CHUNK_SIZE);
        let y = pos.y.checked_div_euclid(CHUNK_SIZE);
        match (x, y) {
            (Some(x), Some(y)) => ChunkPos { x, y },
            _ => ChunkPos { x: 0, y: 0 },
        }
    }

    /// World position of the origin corner of chunk `c`.
    pub fn chunk_pos_to_world_pos(c: ChunkPos) -> (r: WorldPos)
        ensures
            r.x == c.x * CHUNK_SIZE * TILE_SIZE,
            r.y == c.y * CHUNK_SIZE * TILE_SIZE,
    {
        WorldPos { x: c.x as i64 * 30 * TILE_SIZE, y: c.y as i64 * 30 * TILE_SIZE }
    }

    /// Whether `pos` can be entered: its chunk is loaded and its tile is floor.
    pub fn is_walkable(&self, pos: &GridPos) -> (r: bool)
        requires
            self.wf(),
        ensures
            r == walkable(self@, *pos),
    {
        let c = Self::chunk_pos(*pos);
        match self.chunks.get(&key_of(c)) {
            None => false,
            Some(chunk) => {
                let lx = pos.x.checked_rem_euclid(CHUNK_SIZE);
                let ly = pos.y.checked_rem_euclid(CHUNK_SIZE);
                match (lx, ly) {
                    (Some(lx), Some(ly)) => {
                        let t = chunk.tile(lx as usize, ly as usize);
                        t == Tile::Floor
                    },
                    _ => false,
                }
            },
        }
    }

    /// Loads `chunk` at `c`, replacing what was there.
    pub fn insert_chunk(&mut self, c: ChunkPos, chunk: Chunk)
        requires
            old(self).wf(),
            chunk.wf(),
        ensures
            final(self).wf(),
            final(self)@ == old(self)@.insert(c, chunk@),
    {
        let k = key_of(c);
        let ghost old_order = self.order@;
        if !self.chunks.contains_key(&k) {
            proof {
                lemma_chunk_key_injective(c, c);
                assert(!old_order.contains(c));
            }
            self.order.push(c);
            assert(self.order@.no_duplicates()) by {
                assert forall|i: int, j: int|
                    0 <= i < self.order@.len() && 0 <= j < self.order@.len() && i != j implies
                    self.order@[i] != self.order@[j] by {
                    if i < old_order.len() && j < old_order.len() {
                    } else if i < old_order.len() {
                        assert(old_order.contains(old_order[i]));
                    } else {
                        assert(old_order.contains(old_order[j]));
                    }
                }
            }
        }
        self.chunks.insert(k, chunk);
        assert forall|d: ChunkPos|
            #[trigger] self.chunks@.contains_key(chunk_key(d) as i64)
                <==> self.order@.contains(d) by {
            lemma_chunk_key_injective(c, d);
            lemma_chunk_key_injective(d, c);
            if d != c {
                assert(self.order@.contains(d) <==> old_order.contains(d)) by {
                    if self.order@.contains(d) {
                        let i = choose|i: int| 0 <= i < self.order@.len() && self.order@[i] == d;
                        assert(old_order[i] == d);
                    }
                    if old_order.contains(d) {
                        let i = choose|i: int| 0 <= i < old_order.len() && old_order[i] == d;
                        assert(self.order@[i] == d);
                    }
                }
            } else {
                assert(self.order@.contains(c)) by {
                    if old_order.contains(c) {
                        let i = choose|i: int| 0 <= i < old_order.len() && old_order[i] == c;
                        assert(self.order@[i] == c);
                    } else {
                        assert(self.order@[self.order@.len() - 1] == c);
                    }
                }
            }
        }
        assert forall|j: i64| #[trigger] self.chunks@.contains_key(j) implies self.chunks@[j].wf() by {
            if j != k {
                assert(old(self).chunks@.contains_key(j));
            }
        }
        assert(self@ =~= old(self)@.insert(c, chunk@)) by {
            assert forall|d: ChunkPos| #[trigger] self@.contains_key(d)
                == old(self)@.insert(c, chunk@).contains_key(d) by {
                lemma_chunk_key_injective(c, d);
                lemma_chunk_key_injective(d, c);
            }
            assert forall|d: ChunkPos| #[trigger] self@.contains_key(d) implies self@[d]
                == old(self)@.insert(c, chunk@)[d] by {
                lemma_chunk_key_injective(c, d);
                lemma_chunk_key_injective(d, c);
            }
        }
    }

    /// Unloads every chunk beyond the despawn radius of `a`; returns their coordinates.
    fn despawn_far(&mut self, a: ChunkPos) -> (r: Vec<ChunkPos>)
        requires
            old(self).wf(),
        ensures
            final(self).wf(),
            forall|c: ChunkPos| #[trigger] final(self)@.contains_key(c)
                <==> old(self)@.contains_key(c) && !beyond_despawn_range(a, c),
            forall|c: ChunkPos| #[trigger] final(self)@.contains_key(c) ==> final(self)@[c]
                == old(self)@[c],
            r@.no_duplicates(),
            forall|c: ChunkPos| #[trigger] r@.contains(c)
                <==> old(self)@.contains_key(c) && beyond_despawn_range(a, c),
    {
        let ghost old_chunks = self.chunks@;
        let ghost old_order = self.order@;
        let mut kept: Vec<ChunkPos> = Vec::new();
        let mut gone: Vec<ChunkPos> = Vec::new();
        let mut i: usize = 0;
        while i < self.order.len()
            invariant
                self.order@ == old_order,
                old_order.no_duplicates(),
                0 <= i <= old_order.len(),
                forall|c: ChunkPos| #[trigger]
                    old_chunks.contains_key(chunk_key(c) as i64) <==> old_order.contains(c),
                forall|k: i64| #[trigger] old_chunks.contains_key(k) ==> old_chunks[k].wf(),
                forall|c: ChunkPos| #[trigger] kept@.contains(c)
                    <==> old_order.subrange(0, i as int).contains(c) && !beyond_despawn_range(a, c),
                forall|c: ChunkPos| #[trigger] gone@.contains(c)
                    <==> old_order.subrange(0, i as int).contains(c) && beyond_despawn_range(a, c),
                kept@.no_duplicates(),
                gone@.no_duplicates(),
                forall|k: i64| #[trigger] self.chunks@.contains_key(k) <==> old_chunks.contains_key(k)
                    && !(exists|c: ChunkPos| #[trigger] gone@.contains(c) && chunk_key(c) == k),
                forall|k: i64| #[trigger] self.chunks@.contains_key(k) ==> self.chunks@[k]
                    == old_chunks[k],
            decreases old_order.len() - i,
        {
            let c = self.order[i];
            let ghost pre = old_order.subrange(0, i as int);
            assert(old_order.subrange(0, i as int + 1) == pre.push(c));
            assert(!pre.contains(c)) by {
                if pre.contains(c) {
                    let j = choose|j: int| 0 <= j < pre.len() && pre[j] == c;
                    assert(old_order[j] == old_order[i as int]);
                }
            }
            let dx: i64 = c.x as i64 - a.x as i64;
            let dy: i64 = c.y as i64 - a.y as i64;
            let far = dx > 3 || dx < -3 || dy > 3 || dy < -3;
            if far {
                let ghost before = gone@;
                let ghost pre_chunks = self.chunks@;
                self.chunks.remove(&key_of(c));
                gone.push(c);
                proof {
                    lemma_chunk_key_injective(c, c);
                    assert forall|d: ChunkPos| #[trigger] gone@.contains(d)
                        <==> before.contains(d) || d == c by {
                        lemma_push_contains(before, c, d);
                    }
                    assert forall|k: i64| #[trigger] self.chunks@.contains_key(k)
                        <==> old_chunks.contains_key(k) && !(exists|d: ChunkPos| #[trigger]
                        gone@.contains(d) && chunk_key(d) == k) by {
                        if exists|d: ChunkPos| #[trigger] gone@.contains(d) && chunk_key(d) == k {
                            let d = choose|d: ChunkPos| #[trigger] gone@.contains(d) && chunk_key(d) == k;
                            if d != c {
                                assert(before.contains(d));
                                assert(!pre_chunks.contains_key(k));
                            }
                        } else {
                            assert(gone@.contains(c));
                            assert(k != chunk_key(c));
                            assert(!(exists|d: ChunkPos| #[trigger] before.contains(d) && chunk_key(d) == k)) by {
                                if exists|d: ChunkPos| #[trigger] before.contains(d) && chunk_key(d) == k {
                                    let d = choose|d: ChunkPos| #[trigger] before.contains(d) && chunk_key(d) == k;
                                    assert(gone@.contains(d));
                                }
                            }
                        }
                    }
                    assert forall|d: ChunkPos| #[trigger] gone@.contains(d)
                        <==> old_order.subrange(0, i as int + 1).contains(d) && beyond_despawn_range(a, d) by {
                        if d == c {
                            assert(old_order.subrange(0, i as int + 1)[i as int] == c);
                        }
                        lemma_push_contains(pre, c, d);
                    }
                    assert forall|d: ChunkPos| #[trigger] kept@.contains(d)
                        <==> old_order.subrange(0, i as int + 1).contains(d) && !beyond_despawn_range(a, d) by {
                        lemma_push_contains(pre, c, d);
                    }
                    lemma_push_no_duplicates(before, c);
                }
            } else {
                let ghost before = kept@;
                kept.push(c);
                proof {
                    assert forall|d: ChunkPos| #[trigger] kept@.contains(d)
                        <==> before.contains(d) || d == c by {
                        lemma_push_contains(before, c, d);
                    }
                    assert forall|d: ChunkPos| #[trigger] kept@.contains(d)
                        <==> old_order.subrange(0, i as int + 1).contains(d) && !beyond_despawn_range(a, d) by {
                        if d == c {
                            assert(old_order.subrange(0, i as int + 1)[i as int] == c);
                        }
                        lemma_push_contains(pre, c, d);
                    }
                    assert forall|d: ChunkPos| #[trigger] gone@.contains(d)
                        <==> old_order.subrange(0, i as int + 1).contains(d) && beyond_despawn_range(a, d) by {
                        lemma_push_contains(pre, c, d);
                    }
                    lemma_push_no_duplicates(before, c);
                }
            }
            i = i + 1;
        }
        assert(old_order.subrange(0, old_order.len() as int) == old_order);
        self.order = kept;
        proof {
            assert forall|c: ChunkPos| #[trigger]
                self.chunks@.contains_key(chunk_key(c) as i64) <==> self.order@.contains(c) by {
                lemma_chunk_key_injective(c, c);
                if exists|d: ChunkPos| #[trigger] gone@.contains(d) && chunk_key(d) == chunk_key(c) as i64 {
                    let d = choose|d: ChunkPos| #[trigger] gone@.contains(d) && chunk_key(d) == chunk_key(c) as i64;
                    lemma_chunk_key_injective(d, c);
                }
                if gone@.contains(c) {
                    assert(gone@.contains(c) && chunk_key(c) == chunk_key(c) as i64);
                }
            }
            assert forall|c: ChunkPos| #[trigger] self@.contains_key(c)
                <==> old(self)@.contains_key(c) && !beyond_despawn_range(a, c) by {
                lemma_chunk_key_injective(c, c);
                if exists|d: ChunkPos| #[trigger] gone@.contains(d) && chunk_key(d) == chunk_key(c) as i64 {
                    let d = choose|d: ChunkPos| #[trigger] gone@.contains(d) && chunk_key(d) == chunk_key(c) as i64;
                    lemma_chunk_key_injective(d, c);
                }
            }
        }
        gone
    }

    /// Loads fresh terrain into every chunk within the spawn radius of `a` that is not
    /// loaded yet; returns their coordinates.
    fn spawn_near(&mut self, a: ChunkPos) -> (r: Vec<ChunkPos>)
        requires
            old(self).wf(),
            i32::MIN + SPAWN_RADIUS <= a.x <= i32::MAX - SPAWN_RADIUS,
            i32::MIN + SPAWN_RADIUS <= a.y <= i32::MAX - SPAWN_RADIUS,
        ensures
            final(self).wf(),
            forall|c: ChunkPos| #[trigger] final(self)@.contains_key(c)
                <==> old(self)@.contains_key(c) || in_spawn_range(a, c),
            forall|c: ChunkPos| #[trigger] old(self)@.contains_key(c) ==> final(self)@[c]
                == old(self)@[c],
            r@.no_duplicates(),
            forall|c: ChunkPos| #[trigger] r@.contains(c)
                <==> !old(self)@.contains_key(c) && in_spawn_range(a, c),
    {
        let mut spawned: Vec<ChunkPos> = Vec::new();
        let mut dy: i32 = -2;
        while dy <= 2
            invariant
                -2 <= dy <= 3,
                i32::MIN + SPAWN_RADIUS <= a.x <= i32::MAX - SPAWN_RADIUS,
                i32::MIN + SPAWN_RADIUS <= a.y <= i32::MAX - SPAWN_RADIUS,
                self.wf(),
                spawned@.no_duplicates(),
                forall|c: ChunkPos| #[trigger] self@.contains_key(c)
                    <==> old(self)@.contains_key(c) || (in_spawn_range(a, c) && c.y - a.y < dy),
                forall|c: ChunkPos| #[trigger] old(self)@.contains_key(c) ==> self@[c]
                    == old(self)@[c],
                forall|c: ChunkPos| #[trigger] spawned@.contains(c)
                    <==> !old(self)@.contains_key(c) && in_spawn_range(a, c) && c.y - a.y < dy,
            decreases 3 - dy,
        {
            let mut dx: i32 = -2;
            while dx <= 2
                invariant
                    -2 <= dy <= 2,
                    -2 <= dx <= 3,
                    i32::MIN + SPAWN_RADIUS <= a.x <= i32::MAX - SPAWN_RADIUS,
                    i32::MIN + SPAWN_RADIUS <= a.y <= i32::MAX - SPAWN_RADIUS,
                    self.wf(),
                    spawned@.no_duplicates(),
                    forall|c: ChunkPos| #[trigger] self@.contains_key(c)
                        <==> old(self)@.contains_key(c) || (in_spawn_range(a, c) && (c.y - a.y
                        < dy || (c.y - a.y == dy && c.x - a.x < dx))),
                    forall|c: ChunkPos| #[trigger] old(self)@.contains_key(c) ==> self@[c]
                        == old(self)@[c],
                    forall|c: ChunkPos| #[trigger] spawned@.contains(c)
                        <==> !old(self)@.contains_key(c) && in_spawn_range(a, c) && (c.y - a.y
                        < dy || (c.y - a.y == dy && c.x - a.x < dx)),
                decreases 3 - dx,
            {
                let c = ChunkPos { x: a.x + dx, y: a.y + dy };
                if !self.is_loaded(c) {
                    let ghost before = spawned@;
                    let chunk = Chunk::generate();
                    self.insert_chunk(c, chunk);
                    spawned.push(c);
                    proof {
                        assert forall|d: ChunkPos| #[trigger] spawned@.contains(d)
                            <==> before.contains(d) || d == c by {
                            lemma_push_contains(before, c, d);
                        }
                        lemma_push_no_duplicates(before, c);
                    }
                }
                dx = dx + 1;
            }
            dy = dy + 1;
        }
        spawned
    }

    /// Brings the loaded chunks in line with an anchor at `anchor`: every chunk within
    /// `SPAWN_RADIUS` of the anchor's chunk is loaded (fresh terrain where it was not
    /// loaded), every chunk beyond `DESPAWN_RADIUS` is unloaded, and every other
    /// chunk stays as it was.
    pub fn sync(&mut self, anchor: GridPos) -> (r: SyncReport)
        requires
            old(self).wf(),
        ensures
            final(self).wf(),
            sync_step(old(self)@, final(self)@, chunk_of(anchor)),
            r.spawned@.no_duplicates(),
            r.despawned@.no_duplicates(),
            r.spawned@.to_set() == spawned_by(old(self)@, chunk_of(anchor)),
            r.despawned@.to_set() == despawned_by(old(self)@, chunk_of(anchor)),
    {
        let a = Self::chunk_pos(anchor);
        proof {
            lemma_chunk_of_bounds(anchor);
        }
        let despawned = self.despawn_far(a);
        let ghost mid = self@;
        let spawned = self.spawn_near(a);
        proof {
            assert(spawned@.to_set() =~= spawned_by(old(self)@, a));
            assert(despawned@.to_set() =~= despawned_by(old(self)@, a));
            assert forall|c: ChunkPos| #[trigger] self@.contains_key(c)
                <==> sync_keeps(old(self)@, a, c) by {
            }
            assert forall|c: ChunkPos| #[trigger] old(self)@.contains_key(c) && self@.contains_key(c)
                implies self@[c] == old(self)@[c] by {
                assert(mid.contains_key(c));
            }
        }
        SyncReport { spawned, despawned }
    }
}

/// Streaming has hysteresis. Take two syncs in a row, around anchors `p1` then `p2`.
/// If both anchors lie in the same chunk, the second sync loads nothing, unloads
/// nothing and leaves every tile as it was. Otherwise it loads exactly the chunks
/// that came into the spawn radius and were not loaded, all of them outside the
/// first anchor's spawn radius, and unloads exactly the loaded chunks that fell
/// beyond the despawn radius; no chunk is both loaded and unloaded. When exactly the
/// first anchor's spawn square was loaded and the anchor moved by at most one chunk,
/// the loaded chunks afterwards are the union of the two spawn squares.
pub proof fn lemma_sync_hysteresis(
    m0: Map<ChunkPos, Seq<Tile>>,
    m1: Map<ChunkPos, Seq<Tile>>,
    m2: Map<ChunkPos, Seq<Tile>>,
    p1: GridPos,
    p2: GridPos,
)
    requires
        sync_step(m0, m1, chunk_of(p1)),
        sync_step(m1, m2, chunk_of(p2)),
    ensures
        chunk_of(p1) == chunk_of(p2) ==> {
            &&& m2 == m1
            &&& spawned_by(m1, chunk_of(p2)) == Set::<ChunkPos>::empty()
            &&& despawned_by(m1, chunk_of(p2)) == Set::<ChunkPos>::empty()
        },
        forall|c: ChunkPos| #[trigger] spawned_by(m1, chunk_of(p2)).contains(c) <==> in_spawn_range(
            chunk_of(p2),
            c,
        ) && !m1.contains_key(c),
        forall|c: ChunkPos| #[trigger] spawned_by(m1, chunk_of(p2)).contains(c) ==> !in_spawn_range(
            chunk_of(p1),
            c,
        ),
        forall|c: ChunkPos| #[trigger] despawned_by(m1, chunk_of(p2)).contains(c) <==> m1.contains_key(
            c,
        ) && beyond_despawn_range(chunk_of(p2), c),
        spawned_by(m1, chunk_of(p2)).disjoint(despawned_by(m1, chunk_of(p2))),
        (forall|c: ChunkPos| #[trigger] m1.contains_key(c) <==> in_spawn_range(chunk_of(p1), c))
            && chunk_distance(chunk_of(p1), chunk_of(p2)) <= 1 ==> forall|c: ChunkPos|
            #[trigger] m2.contains_key(c) <==> in_spawn_range(chunk_of(p1), c) || in_spawn_range(
                chunk_of(p2),
                c,
            ),
{
    let (a1, a2) = (chunk_of(p1), chunk_of(p2));
    if a1 == a2 {
        assert(m2 =~= m1);
        assert(spawned_by(m1, a2) =~= Set::<ChunkPos>::empty());
        assert(despawned_by(m1, a2) =~= Set::<ChunkPos>::empty());
    }
}

} // verus!
