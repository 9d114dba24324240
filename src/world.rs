//! The simulation state as one value: terrain, the actor table and the phase, with
//! the tick that a host loop drives.
use rand::seq::SliceRandom;
use vstd::prelude::*;

use crate::grid::GridPos;
use crate::movement::{resolve, take_turn, Actor, Direction};
use crate::terrain::{
    chunk_of, random_below, spawned_by, sync_step, ChunkPos, GameGrid, SyncReport, Tile,
    CHUNK_SIZE, CHUNK_TILES,
};
use crate::turns::{advance, advance_turn_state, TurnState};

verus! {

/// Out of every hundred floor tiles of fresh terrain, how many get a devil on average.
pub const DEVIL_PERCENT: u32 = 5;

/// The four directions in the order a devil considers them before shuffling.
pub open spec fn all_directions() -> Seq<Direction> {
    seq![Direction::Right, Direction::Left, Direction::Up, Direction::Down]
}

/// Relies on rand's `SliceRandom::shuffle` with the thread-local generator: the
/// slice is reordered in place (a permutation of what it held).
#[verifier::external_body]
fn shuffle_directions(dirs: &mut Vec<Direction>)
    ensures
        final(dirs)@.len() == old(dirs)@.len(),
        final(dirs)@.to_multiset() == old(dirs)@.to_multiset(),
{
    dirs.shuffle(&mut rand::rng())
}

/// The grid coordinates of tile `i` of chunk `c`.
pub open spec fn tile_cell(c: ChunkPos, i: int) -> (int, int) {
    (c.x * CHUNK_SIZE + i % CHUNK_SIZE as int, c.y * CHUNK_SIZE + i / CHUNK_SIZE as int)
}

/// Whether a pair of integers addresses a grid cell.
pub open spec fn addressable(p: (int, int)) -> bool {
    i32::MIN <= p.0 <= i32::MAX && i32::MIN <= p.1 <= i32::MAX
}

/// The cells among tiles `0..n` of chunk `c` that get a devil: addressable floor
/// tiles whose roll is under `DEVIL_PERCENT`, in tile order.
pub open spec fn devil_cells(c: ChunkPos, tiles: Seq<Tile>, rolls: Seq<u32>, n: int) -> Seq<GridPos>
    decreases n,
{
    if n <= 0 {
        Seq::empty()
    } else {
        let p = tile_cell(c, n - 1);
        if tiles[n - 1] == Tile::Floor && rolls[n - 1] < DEVIL_PERCENT && addressable(p) {
            devil_cells(c, tiles, rolls, n - 1).push(GridPos { x: p.0 as i32, y: p.1 as i32 })
        } else {
            devil_cells(c, tiles, rolls, n - 1)
        }
    }
}

/// The devils that land on chunk `c` for the given rolls, one per tile.
pub fn place_devils(c: ChunkPos, grid: &GameGrid, rolls: &Vec<u32>) -> (r: Vec<GridPos>)
    requires
        grid.wf(),
        grid@.contains_key(c),
        rolls@.len() == CHUNK_TILES,
    ensures
        r@ == devil_cells(c, grid@[c], rolls@, CHUNK_TILES as int),
{
    let mut cells: Vec<GridPos> = Vec::new();
    let mut i: usize = 0;
    while i < CHUNK_TILES
        invariant
            grid.wf(),
            grid@.contains_key(c),
            rolls@.len() == CHUNK_TILES,
            0 <= i <= CHUNK_TILES,
            cells@ == devil_cells(c, grid@[c], rolls@, i as int),
        decreases CHUNK_TILES - i,
    {
        let lx = (i % 30) as i64;
        let ly = (i / 30) as i64;
        let x = c.x as i64 * 30 + lx;
        let y = c.y as i64 * 30 + ly;
        let fits = -0x8000_0000 <= x && x <= 0x7fff_ffff && -0x8000_0000 <= y && y <= 0x7fff_ffff;
        if fits && rolls[i] < DEVIL_PERCENT {
            let pos = GridPos { x: x as i32, y: y as i32 };
            proof {
                grid.lemma_chunks_whole();
            }
            if grid.is_walkable(&pos) {
                proof {
                    lemma_tile_cell_walkable(c, i as int);
                }
                cells.push(pos);
            } else {
                proof {
                    lemma_tile_cell_walkable(c, i as int);
                }
            }
        }
        i = i + 1;
    }
    cells
}

/// Tile `i` of chunk `c`, when addressable, lies in `c` at local index `i`.
proof fn lemma_tile_cell_walkable(c: ChunkPos, i: int)
    requires
        0 <= i < CHUNK_TILES,
        addressable(tile_cell(c, i)),
    ensures
        ({
            let p = GridPos { x: tile_cell(c, i).0 as i32, y: tile_cell(c, i).1 as i32 };
            &&& chunk_of(p) == c
            &&& crate::terrain::local_index(p) == i
        }),
{
    let lx = i % 30;
    let ly = i / 30;
    vstd::arithmetic::div_mod::lemma_fundamental_div_mod(i, 30);
    let (x, y) = (c.x * 30 + lx, c.y * 30 + ly);
    vstd::arithmetic::div_mod::lemma_fundamental_div_mod_converse(x, 30, c.x as int, lx);
    vstd::arithmetic::div_mod::lemma_fundamental_div_mod_converse(y, 30, c.y as int, ly);
}

/// What actor `a` tries in the player phase, given the player's input: the input
/// direction for the player, nothing for anyone else.
pub open spec fn player_intent(a: Actor, input: Option<Direction>) -> Seq<Direction> {
    match input {
        Some(d) if a.is_player => seq![d],
        _ => Seq::empty(),
    }
}

/// Whether `intents` is a valid draw of the environment's decisions for `actors`:
/// every non-player actor tries all four directions in some order, the player none.
pub open spec fn environment_draw(actors: Seq<Actor>, intents: Seq<Vec<Direction>>) -> bool {
    &&& intents.len() == actors.len()
    &&& forall|i: int|
        0 <= i < actors.len() ==> if (#[trigger] actors[i]).is_player {
            intents[i]@.len() == 0
        } else {
            intents[i]@.to_multiset() == all_directions().to_multiset()
        }
}

/// Terrain, actors and the current phase.
pub struct World {
    pub grid: GameGrid,
    pub actors: Vec<Actor>,
    pub turn: TurnState,
}

impl World {
    pub open spec fn wf(&self) -> bool {
        self.grid.wf()
    }

    /// A world with nothing loaded, one player at `player_pos` with
    /// `actions_per_turn` actions, and the player to move.
    pub fn new(player_pos: GridPos, actions_per_turn: u32) -> (r: World)
        ensures
            r.wf(),
            r.grid@ == Map::<ChunkPos, Seq<Tile>>::empty(),
            r.actors@ == seq![Actor::spec_player(player_pos, actions_per_turn)],
            r.turn == TurnState::Player,
    {
        let mut actors: Vec<Actor> = Vec::new();
        actors.push(Actor::player(player_pos, actions_per_turn));
        World { grid: GameGrid::new(), actors, turn: TurnState::Player }
    }

    /// Adds a devil at `pos`: a non-player actor with one action per turn.
    pub fn spawn_devil(&mut self, pos: GridPos)
        ensures
            final(self).grid == old(self).grid,
            final(self).turn == old(self).turn,
            final(self).actors@ == old(self).actors@.push(Actor::spec_npc(pos, 1)),
    {
        self.actors.push(Actor::npc(pos, 1));
    }

    /// Streams terrain around `anchor` as `GameGrid::sync` does, then rolls for
    /// devils on every chunk it loaded and adds them, chunk by chunk, after the
    /// actors already there.
    pub fn sync(&mut self, anchor: GridPos) -> (r: SyncReport)
        requires
            old(self).wf(),
        ensures
            final(self).wf(),
            final(self).turn == old(self).turn,
            sync_step(old(self).grid@, final(self).grid@, chunk_of(anchor)),
            r.spawned@.to_set() == spawned_by(old(self).grid@, chunk_of(anchor)),
            final(self).actors@.len() >= old(self).actors@.len(),
            final(self).actors@.subrange(0, old(self).actors@.len() as int) == old(self).actors@,
            forall|i: int|
                old(self).actors@.len() <= i < final(self).actors@.len() ==> {
                    let a = #[trigger] final(self).actors@[i];
                    &&& !a.is_player
                    &&& a.turn.actions_per_turn == 1
                    &&& a.turn.actions_remaining == 1
                    &&& a.movement.target_pos is None
                    &&& crate::terrain::walkable(final(self).grid@, a.movement.current_pos)
                },
    {
        let report = self.grid.sync(anchor);
        let ghost start = self.actors@;
        let mut k: usize = 0;
        while k < report.spawned.len()
            invariant
                self.grid.wf(),
                self.turn == old(self).turn,
                sync_step(old(self).grid@, self.grid@, chunk_of(anchor)),
                report.spawned@.to_set() == spawned_by(old(self).grid@, chunk_of(anchor)),
                start == old(self).actors@,
                self.actors@.len() >= start.len(),
                self.actors@.subrange(0, start.len() as int) == start,
                forall|i: int|
                    start.len() <= i < self.actors@.len() ==> {
                        let a = #[trigger] self.actors@[i];
                        &&& !a.is_player
                        &&& a.turn.actions_per_turn == 1
                        &&& a.turn.actions_remaining == 1
                        &&& a.movement.target_pos is None
                        &&& crate::terrain::walkable(self.grid@, a.movement.current_pos)
                    },
            decreases report.spawned@.len() - k,
        {
            let c = report.spawned[k];
            proof {
                assert(report.spawned@.to_set().contains(c));
            }
            let mut rolls: Vec<u32> = Vec::new();
            let mut i: usize = 0;
            while i < CHUNK_TILES
                invariant
                    i <= CHUNK_TILES,
                    rolls@.len() == i,
                decreases CHUNK_TILES - i,
            {
                rolls.push(random_below(100));
                i = i + 1;
            }
            let cells = place_devils(c, &self.grid, &rolls);
            let mut j: usize = 0;
            while j < cells.len()
                invariant
                    self.grid.wf(),
                    self.turn == old(self).turn,
                    sync_step(old(self).grid@, self.grid@, chunk_of(anchor)),
                    self.grid@.contains_key(c),
                    rolls@.len() == CHUNK_TILES,
                    cells@ == devil_cells(c, self.grid@[c], rolls@, CHUNK_TILES as int),
                    0 <= j <= cells@.len(),
                    self.actors@.len() >= start.len(),
                    self.actors@.subrange(0, start.len() as int) == start,
                    forall|i: int|
                        start.len() <= i < self.actors@.len() ==> {
                            let a = #[trigger] self.actors@[i];
                            &&& !a.is_player
                            &&& a.turn.actions_per_turn == 1
                            &&& a.turn.actions_remaining == 1
                            &&& a.movement.target_pos is None
                            &&& crate::terrain::walkable(self.grid@, a.movement.current_pos)
                        },
                decreases cells@.len() - j,
            {
                proof {
                    lemma_devil_cells_walkable(c, self.grid@, rolls@, CHUNK_TILES as int, j as int);
                }
                let ghost before = self.actors@;
                self.actors.push(Actor::npc(cells[j], 1));
                assert(self.actors@.subrange(0, start.len() as int) =~= before.subrange(0, start.len() as int));
                j = j + 1;
            }
            k = k + 1;
        }
        report
    }

    /// The intents of the player phase: the input direction for the player.
    pub fn player_intents(&self, input: Option<Direction>) -> (r: Vec<Vec<Direction>>)
        ensures
            r@.len() == self.actors@.len(),
            forall|i: int| 0 <= i < r@.len() ==> (#[trigger] r@[i])@ == player_intent(self.actors@[i], input),
    {
        let mut r: Vec<Vec<Direction>> = Vec::new();
        let mut i: usize = 0;
        while i < self.actors.len()
            invariant
                0 <= i <= self.actors@.len(),
                r@.len() == i,
                forall|j: int| 0 <= j < i ==> (#[trigger] r@[j])@ == player_intent(self.actors@[j], input),
            decreases self.actors@.len() - i,
        {
            let mut dirs: Vec<Direction> = Vec::new();
            if self.actors[i].is_player {
                match input {
                    Some(d) => {
                        dirs.push(d);
                    },
                    None => {},
                }
            }
            assert(dirs@ =~= player_intent(self.actors@[i as int], input));
            r.push(dirs);
            i = i + 1;
        }
        r
    }

    /// The intents of the environment phase: each non-player actor tries the four
    /// directions in a freshly shuffled order.
    pub fn environment_intents(&self) -> (r: Vec<Vec<Direction>>)
        ensures
            environment_draw(self.actors@, r@),
    {
        let mut r: Vec<Vec<Direction>> = Vec::new();
        let mut i: usize = 0;
        while i < self.actors.len()
            invariant
                0 <= i <= self.actors@.len(),
                r@.len() == i,
                forall|j: int|
                    0 <= j < i ==> if (#[trigger] self.actors@[j]).is_player {
                        r@[j]@.len() == 0
                    } else {
                        r@[j]@.to_multiset() == all_directions().to_multiset()
                    },
            decreases self.actors@.len() - i,
        {
            let mut dirs: Vec<Direction> = Vec::new();
            if !self.actors[i].is_player {
                dirs.push(Direction::Right);
                dirs.push(Direction::Left);
                dirs.push(Direction::Up);
                dirs.push(Direction::Down);
                assert(dirs@ =~= all_directions());
                shuffle_directions(&mut dirs);
            }
            r.push(dirs);
            i = i + 1;
        }
        r
    }

    /// One tick of the simulation: the actors of the current phase act (the player
    /// with `input`, the others each trying the four directions in a random order),
    /// then the scheduler evaluates the phase once.
    pub fn tick(&mut self, input: Option<Direction>)
        requires
            old(self).wf(),
        ensures
            final(self).wf(),
            final(self).grid == old(self).grid,
            exists|intents: Seq<Vec<Direction>>| #[trigger]
                intents_for(old(self).turn, old(self).actors@, input, intents) && (
                final(self).turn,
                final(self).actors@,
            ) == advance(
                old(self).turn,
                resolve(
                    old(self).grid@,
                    old(self).actors@,
                    old(self).turn,
                    intents,
                    old(self).actors@.len() as int,
                ),
            ),
    {
        let intents = match self.turn {
            TurnState::Player => self.player_intents(input),
            TurnState::Environment => self.environment_intents(),
        };
        let ghost before = self.actors@;
        take_turn(&mut self.actors, &self.grid, self.turn, &intents);
        self.turn = advance_turn_state(self.turn, &mut self.actors);
        assert(intents_for(old(self).turn, before, input, intents@));
    }

    /// Ends actor `i`'s move in flight, as the presentation layer reports when the
    /// actor has arrived.
    pub fn finish_move(&mut self, i: usize)
        requires
            i < old(self).actors@.len(),
        ensures
            final(self).grid == old(self).grid,
            final(self).turn == old(self).turn,
            final(self).actors@.len() == old(self).actors@.len(),
            forall|j: int| 0 <= j < old(self).actors@.len() && j != i ==> final(self).actors@[j] == old(self).actors@[j],
            ({
                let (a, b) = (old(self).actors@[i as int], final(self).actors@[i as int]);
                &&& b.turn == a.turn
                &&& b.is_player == a.is_player
                &&& match a.movement.target_pos {
                    Some(t) => b.movement.current_pos == t && b.movement.target_pos is None,
                    None => b.movement == a.movement,
                }
            }),
    {
        let mut a = self.actors[i];
        a.movement.arrive();
        self.actors.set(i, a);
    }
}

/// Whether `intents` is what a tick in `phase` hands to the resolver.
pub open spec fn intents_for(
    phase: TurnState,
    actors: Seq<Actor>,
    input: Option<Direction>,
    intents: Seq<Vec<Direction>>,
) -> bool {
    match phase {
        TurnState::Player => intents.len() == actors.len() && forall|i: int|
            0 <= i < actors.len() ==> (#[trigger] intents[i])@ == player_intent(actors[i], input),
        TurnState::Environment => environment_draw(actors, intents),
    }
}

proof fn lemma_devil_cells_walkable(
    c: ChunkPos,
    grid: Map<ChunkPos, Seq<Tile>>,
    rolls: Seq<u32>,
    n: int,
    j: int,
)
    requires
        grid.contains_key(c),
        0 <= n <= CHUNK_TILES,
        0 <= j < devil_cells(c, grid[c], rolls, n).len(),
    ensures
        crate::terrain::walkable(grid, devil_cells(c, grid[c], rolls, n)[j]),
    decreases n,
{
    if n > 0 {
        let prev = devil_cells(c, grid[c], rolls, n - 1);
        if j < prev.len() {
            lemma_devil_cells_walkable(c, grid, rolls, n - 1, j);
        } else {
            lemma_tile_cell_walkable(c, n - 1);
        }
    }
}

} // verus!
