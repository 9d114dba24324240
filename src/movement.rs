//! Actors, their movement intents, and the resolver that turns a batch of
//! intents into moves without two actors claiming the same cell.
use vstd::prelude::*;

use crate::grid::GridPos;
use crate::terrain::{walkable, GameGrid, Tile};
use crate::turns::{actor_spent, budgets_wf, TurnState, TurnTaker};

verus! {

/// One of the four orthogonal steps.
#[derive(Clone, Copy, PartialEq, Eq, Hash, Debug, Structural)]
pub enum Direction {
    Up,
    Right,
    Down,
    Left,
}

/// The grid offset of a step.
pub open spec fn offset(d: Direction) -> (int, int) {
    match d {
        Direction::Up => (0, 1),
        Direction::Right => (1, 0),
        Direction::Down => (0, -1),
        Direction::Left => (-1, 0),
    }
}

/// The cell one step from `p`, if it is addressable.
pub open spec fn step(p: GridPos, d: Direction) -> Option<GridPos> {
    let x = p.x + offset(d).0;
    let y = p.y + offset(d).1;
    if i32::MIN <= x <= i32::MAX && i32::MIN <= y <= i32::MAX {
        Some(GridPos { x: x as i32, y: y as i32 })
    } else {
        None
    }
}

impl Direction {
    /// The cell one step from `p` in this direction, or `None` at the edge of the
    /// addressable grid.
    pub fn apply(&self, p: GridPos) -> (r: Option<GridPos>)
        ensures
            r == step(p, *self),
    {
        match self {
            Direction::Up => match p.y.checked_add(1) {
                Some(y) => Some(GridPos { x: p.x, y }),
                None => None,
            },
            Direction::Right => match p.x.checked_add(1) {
                Some(x) => Some(GridPos { x, y: p.y }),
                None => None,
            },
            Direction::Down => match p.y.checked_sub(1) {
                Some(y) => Some(GridPos { x: p.x, y }),
                None => None,
            },
            Direction::Left => match p.x.checked_sub(1) {
                Some(x) => Some(GridPos { x, y: p.y }),
                None => None,
            },
        }
    }
}

/// Where an actor stands, and the cell it is moving into, if any.
#[derive(Clone, Copy, PartialEq, Eq, Hash, Debug, Structural)]
pub struct GridMovement {
    pub current_pos: GridPos,
    pub target_pos: Option<GridPos>,
}

impl GridMovement {
    /// Standing still at `pos`.
    pub fn at(pos: GridPos) -> (r: GridMovement)
        ensures
            r.current_pos == pos,
            r.target_pos is None,
    {
        GridMovement { current_pos: pos, target_pos: None }
    }

    /// Ends a move in flight: the actor now stands on its target. Without a target
    /// nothing changes.
    pub fn arrive(&mut self)
        ensures
            match old(self).target_pos {
                Some(t) => final(self).current_pos == t && final(self).target_pos is None,
                None => *final(self) == *old(self),
            },
    {
        if let Some(t) = self.target_pos {
            self.current_pos = t;
            self.target_pos = None;
        }
    }
}

/// An entry of the actor table.
#[derive(Clone, Copy, PartialEq, Eq, Hash, Debug, Structural)]
pub struct Actor {
    pub turn: TurnTaker,
    pub movement: GridMovement,
    pub is_player: bool,
}

impl Actor {
    /// A player actor standing at `pos` with a full budget.
    pub open spec fn spec_player(pos: GridPos, actions_per_turn: u32) -> Actor {
        Actor {
            turn: TurnTaker { actions_per_turn, actions_remaining: actions_per_turn },
            movement: GridMovement { current_pos: pos, target_pos: None },
            is_player: true,
        }
    }

    /// A non-player actor standing at `pos` with a full budget.
    pub open spec fn spec_npc(pos: GridPos, actions_per_turn: u32) -> Actor {
        Actor {
            turn: TurnTaker { actions_per_turn, actions_remaining: actions_per_turn },
            movement: GridMovement { current_pos: pos, target_pos: None },
            is_player: false,
        }
    }

    /// A player actor standing at `pos` with a full budget.
    pub fn player(pos: GridPos, actions_per_turn: u32) -> (r: Actor)
        ensures
            r == Actor::spec_player(pos, actions_per_turn),
    {
        Actor { turn: TurnTaker::new(actions_per_turn), movement: GridMovement::at(pos), is_player: true }
    }

    /// A non-player actor standing at `pos` with a full budget.
    pub fn npc(pos: GridPos, actions_per_turn: u32) -> (r: Actor)
        ensures
            r == Actor::spec_npc(pos, actions_per_turn),
    {
        Actor { turn: TurnTaker::new(actions_per_turn), movement: GridMovement::at(pos), is_player: false }
    }
}

/// Whether actor `a` may be given a move in phase `phase`: it is on the side whose
/// phase it is, is not in transit, and has an action left.
pub open spec fn may_act(a: Actor, phase: TurnState) -> bool {
    &&& a.is_player == (phase == TurnState::Player)
    &&& a.movement.target_pos is None
    &&& a.turn.actions_remaining > 0
}

/// Whether an actor other than `i` stands on `c` or is moving into it.
pub open spec fn occupied_by_other(actors: Seq<Actor>, i: int, c: GridPos) -> bool {
    exists|j: int|
        0 <= j < actors.len() && j != i && (#[trigger] actors[j]).movement.current_pos == c
            || (0 <= j < actors.len() && j != i && actors[j].movement.target_pos == Some(c))
}

/// Whether actor `i` may step into `c`.
pub open spec fn free_for(
    grid: Map<crate::terrain::ChunkPos, Seq<Tile>>,
    actors: Seq<Actor>,
    i: int,
    c: GridPos,
) -> bool {
    walkable(grid, c) && !occupied_by_other(actors, i, c)
}

/// The first of `dirs`, tried in order, whose step from `from` lands on a cell
/// that actor `i` may step into; `None` if there is none.
pub open spec fn first_free(
    grid: Map<crate::terrain::ChunkPos, Seq<Tile>>,
    actors: Seq<Actor>,
    i: int,
    from: GridPos,
    dirs: Seq<Direction>,
) -> Option<GridPos>
    decreases dirs.len(),
{
    if dirs.len() == 0 {
        None
    } else {
        match step(from, dirs[0]) {
            Some(c) if free_for(grid, actors, i, c) => Some(c),
            _ => first_free(grid, actors, i, from, dirs.drop_first()),
        }
    }
}

/// The table after actor `i` has tried the directions `dirs`, in order. An actor
/// that may act and tries at least one direction spends one action whether or
/// not it moves; it moves into the first free cell, if any.
pub open spec fn act(
    grid: Map<crate::terrain::ChunkPos, Seq<Tile>>,
    actors: Seq<Actor>,
    i: int,
    phase: TurnState,
    dirs: Seq<Direction>,
) -> Seq<Actor> {
    let a = actors[i];
    if may_act(a, phase) && dirs.len() > 0 {
        actors.update(
            i,
            Actor {
                movement: GridMovement {
                    target_pos: first_free(grid, actors, i, a.movement.current_pos, dirs),
                    ..a.movement
                },
                ..actor_spent(a)
            },
        )
    } else {
        actors
    }
}

/// The table after actors `0..n` have acted in index order, each seeing the moves
/// assigned to the earlier ones.
pub open spec fn resolve(
    grid: Map<crate::terrain::ChunkPos, Seq<Tile>>,
    actors: Seq<Actor>,
    phase: TurnState,
    intents: Seq<Vec<Direction>>,
    n: int,
) -> Seq<Actor>
    decreases n,
{
    if n <= 0 {
        actors
    } else {
        act(grid, resolve(grid, actors, phase, intents, n - 1), n - 1, phase, intents[n - 1]@)
    }
}

/// Whether an actor other than `i` stands on `c` or is moving into it.
fn is_occupied(actors: &Vec<Actor>, i: usize, c: GridPos) -> (r: bool)
    ensures
        r == occupied_by_other(actors@, i as int, c),
{
    let mut j: usize = 0;
    while j < actors.len()
        invariant
            0 <= j <= actors@.len(),
            forall|k: int|
                0 <= k < j && k != i ==> !((#[trigger] actors@[k]).movement.current_pos == c
                    || actors@[k].movement.target_pos == Some(c)),
        decreases actors@.len() - j,
    {
        if j != i {
            let m = actors[j].movement;
            if m.current_pos == c {
                return true;
            }
            match m.target_pos {
                Some(t) => {
                    if t == c {
                        return true;
                    }
                },
                None => {},
            }
        }
        j = j + 1;
    }
    false
}

/// The first direction of `dirs` that leads actor `i` from `from` into a free cell.
fn find_free(
    grid: &GameGrid,
    actors: &Vec<Actor>,
    i: usize,
    from: GridPos,
    dirs: &Vec<Direction>,
) -> (r: Option<GridPos>)
    requires
        grid.wf(),
    ensures
        r == first_free(grid@, actors@, i as int, from, dirs@),
{
    let mut k: usize = 0;
    assert(dirs@.subrange(0, dirs@.len() as int) =~= dirs@);
    while k < dirs.len()
        invariant
            grid.wf(),
            0 <= k <= dirs@.len(),
            first_free(grid@, actors@, i as int, from, dirs@) == first_free(
                grid@,
                actors@,
                i as int,
                from,
                dirs@.subrange(k as int, dirs@.len() as int),
            ),
        decreases dirs@.len() - k,
    {
        let ghost rest = dirs@.subrange(k as int, dirs@.len() as int);
        assert(rest.drop_first() =~= dirs@.subrange(k as int + 1, dirs@.len() as int));
        assert(rest[0] == dirs@[k as int]);
        match dirs[k].apply(from) {
            Some(c) => {
                if grid.is_walkable(&c) && !is_occupied(actors, i, c) {
                    return Some(c);
                }
            },
            None => {},
        }
        k = k + 1;
    }
    assert(dirs@.subrange(k as int, dirs@.len() as int).len() == 0);
    None
}

/// Resolves one batch of movement intents. Actors act in table order; `intents[i]`
/// lists the directions actor `i` tries, in order (empty: it does not act). An
/// actor acts only in its own side's phase, when it is not in transit and has an
/// action left. It moves into the first of its directions that leads onto a
/// walkable cell that no other actor stands on or is moving into (moves assigned
/// earlier in the batch count), and it spends one action whether or not it moved.
/// The table itself serves as the batch's occupancy snapshot: while the batch runs,
/// only the targets it assigns change.
pub fn take_turn(
    actors: &mut Vec<Actor>,
    grid: &GameGrid,
    phase: TurnState,
    intents: &Vec<Vec<Direction>>,
)
    requires
        grid.wf(),
        intents@.len() == old(actors)@.len(),
    ensures
        final(actors)@ == resolve(grid@, old(actors)@, phase, intents@, old(actors)@.len() as int),
        budgets_wf(old(actors)@) ==> budgets_wf(final(actors)@),
{
    let mut i: usize = 0;
    while i < actors.len()
        invariant
            grid.wf(),
            0 <= i <= actors@.len(),
            actors@.len() == old(actors)@.len(),
            intents@.len() == old(actors)@.len(),
            actors@ == resolve(grid@, old(actors)@, phase, intents@, i as int),
            budgets_wf(old(actors)@) ==> budgets_wf(actors@),
        decreases actors@.len() - i,
    {
        let ghost before = actors@;
        proof {
            lemma_resolve_len(grid@, old(actors)@, phase, intents@, i as int);
        }
        let a = actors[i];
        let dirs = &intents[i];
        let eligible = (a.is_player == (phase == TurnState::Player)) && a.movement.target_pos.is_none()
            && a.turn.actions_remaining > 0;
        if eligible && dirs.len() > 0 {
            let target = find_free(grid, actors, i, a.movement.current_pos, dirs);
            let mut b = a;
            b.turn.actions_remaining = a.turn.actions_remaining - 1;
            b.movement.target_pos = target;
            actors.set(i, b);
        }
        proof {
            assert(actors@ =~= act(grid@, before, i as int, phase, intents@[i as int]@));
            if budgets_wf(old(actors)@) {
                assert forall|j: int| 0 <= j < actors@.len() implies (#[trigger] actors@[j]).turn.wf() by {
                    assert(before[j].turn.wf());
                }
            }
        }
        i = i + 1;
    }
}

/// Two actors `a` and `b`, `a` earlier in the table, both try only to step into
/// the same empty walkable cell `c` in one batch of the environment phase, and no
/// other actor tries to step into `c`: `a` gets it, `b` stays where it is, and each
/// spends exactly one action.
pub proof fn lemma_move_collision(
    grid: Map<crate::terrain::ChunkPos, Seq<Tile>>,
    actors: Seq<Actor>,
    intents: Seq<Vec<Direction>>,
    a: int,
    b: int,
    c: GridPos,
)
    requires
        0 <= a < b < actors.len(),
        intents.len() == actors.len(),
        may_act(actors[a], TurnState::Environment),
        may_act(actors[b], TurnState::Environment),
        intents[a]@ == seq![intents[a]@[0]],
        intents[b]@ == seq![intents[b]@[0]],
        step(actors[a].movement.current_pos, intents[a]@[0]) == Some(c),
        step(actors[b].movement.current_pos, intents[b]@[0]) == Some(c),
        walkable(grid, c),
        forall|k: int|
            0 <= k < actors.len() ==> (#[trigger] actors[k]).movement.current_pos != c
                && actors[k].movement.target_pos != Some(c),
        forall|k: int, m: int|
            0 <= k < actors.len() && k != a && k != b && 0 <= m < intents[k]@.len() ==> step(
                actors[k].movement.current_pos,
                #[trigger] intents[k]@[m],
            ) != Some(c),
    ensures
        ({
            let r = resolve(grid, actors, TurnState::Environment, intents, actors.len() as int);
            &&& r[a].movement.target_pos == Some(c)
            &&& r[b].movement.target_pos is None
            &&& r[a].movement.current_pos == actors[a].movement.current_pos
            &&& r[b].movement.current_pos == actors[b].movement.current_pos
            &&& r[a].turn.actions_remaining == actors[a].turn.actions_remaining - 1
            &&& r[b].turn.actions_remaining == actors[b].turn.actions_remaining - 1
        }),
{
    lemma_collision_prefix(grid, actors, intents, a, b, c, actors.len() as int);
    lemma_batch_targets_unshared(grid, actors, TurnState::Environment, intents, actors.len() as int);
}

proof fn lemma_first_free_from_dirs(
    grid: Map<crate::terrain::ChunkPos, Seq<Tile>>,
    actors: Seq<Actor>,
    i: int,
    from: GridPos,
    dirs: Seq<Direction>,
)
    ensures
        first_free(grid, actors, i, from, dirs) matches Some(q) ==> exists|m: int|
            0 <= m < dirs.len() && step(from, #[trigger] dirs[m]) == Some(q),
    decreases dirs.len(),
{
    if dirs.len() > 0 {
        lemma_first_free_from_dirs(grid, actors, i, from, dirs.drop_first());
        if let Some(q) = first_free(grid, actors, i, from, dirs) {
            if step(from, dirs[0]) != Some(q) {
                let m = choose|m: int| 0 <= m < dirs.drop_first().len() && step(from, #[trigger] dirs.drop_first()[m]) == Some(q);
                assert(dirs[m + 1] == dirs.drop_first()[m]);
            }
        }
    }
}

proof fn lemma_collision_prefix(
    grid: Map<crate::terrain::ChunkPos, Seq<Tile>>,
    actors: Seq<Actor>,
    intents: Seq<Vec<Direction>>,
    a: int,
    b: int,
    c: GridPos,
    n: int,
)
    requires
        0 <= a < b < actors.len(),
        0 <= n <= actors.len(),
        intents.len() == actors.len(),
        may_act(actors[a], TurnState::Environment),
        may_act(actors[b], TurnState::Environment),
        intents[a]@ == seq![intents[a]@[0]],
        intents[b]@ == seq![intents[b]@[0]],
        step(actors[a].movement.current_pos, intents[a]@[0]) == Some(c),
        step(actors[b].movement.current_pos, intents[b]@[0]) == Some(c),
        walkable(grid, c),
        forall|k: int|
            0 <= k < actors.len() ==> (#[trigger] actors[k]).movement.current_pos != c
                && actors[k].movement.target_pos != Some(c),
        forall|k: int, m: int|
            0 <= k < actors.len() && k != a && k != b && 0 <= m < intents[k]@.len() ==> step(
                actors[k].movement.current_pos,
                #[trigger] intents[k]@[m],
            ) != Some(c),
    ensures
        ({
            let s = resolve(grid, actors, TurnState::Environment, intents, n);
            &&& forall|k: int|
                0 <= k < actors.len() && k != a && k != b ==> (#[trigger] s[k]).movement.target_pos != Some(c)
            &&& n > a ==> s[a].movement.target_pos == Some(c) && s[a].turn.actions_remaining
                == actors[a].turn.actions_remaining - 1
            &&& n > b ==> s[b].movement.target_pos is None && s[b].turn.actions_remaining
                == actors[b].turn.actions_remaining - 1
        }),
    decreases n,
{
    let phase = TurnState::Environment;
    lemma_batch_targets_unshared(grid, actors, phase, intents, n);
    lemma_resolve_len(grid, actors, phase, intents, n);
    if n > 0 {
        lemma_collision_prefix(grid, actors, intents, a, b, c, n - 1);
        lemma_batch_targets_unshared(grid, actors, phase, intents, n - 1);
        lemma_resolve_len(grid, actors, phase, intents, n - 1);
        let s = resolve(grid, actors, phase, intents, n - 1);
        let k = n - 1;
        let r = resolve(grid, actors, phase, intents, n);
        assert(r == act(grid, s, k, phase, intents[k]@));
        assert(s[k] == actors[k]);
        let cur = actors[k].movement.current_pos;
        if k == a {
            assert(!occupied_by_other(s, a, c)) by {
                if occupied_by_other(s, a, c) {
                    let j = choose|j: int|
                        0 <= j < s.len() && j != a && (#[trigger] s[j]).movement.current_pos == c
                            || (0 <= j < s.len() && j != a && s[j].movement.target_pos == Some(c));
                    assert(s[j].movement.current_pos == actors[j].movement.current_pos);
                    if j == b {
                        assert(s[b] == actors[b]);
                    }
                }
            }
            assert(first_free(grid, s, a, cur, intents[a]@) == Some(c));
        } else if k == b {
            assert(occupied_by_other(s, b, c)) by {
                assert(s[a].movement.target_pos == Some(c));
            }
            assert(intents[b]@.drop_first().len() == 0);
            assert(first_free(grid, s, b, cur, intents[b]@.drop_first()) == None::<GridPos>);
            assert(first_free(grid, s, b, cur, intents[b]@) == None::<GridPos>);
        } else {
            lemma_first_free_from_dirs(grid, s, k, cur, intents[k]@);
        }
    }
}

proof fn lemma_first_free_is_free(
    grid: Map<crate::terrain::ChunkPos, Seq<Tile>>,
    actors: Seq<Actor>,
    i: int,
    from: GridPos,
    dirs: Seq<Direction>,
)
    ensures
        first_free(grid, actors, i, from, dirs) matches Some(c) ==> free_for(grid, actors, i, c),
    decreases dirs.len(),
{
    if dirs.len() > 0 {
        lemma_first_free_is_free(grid, actors, i, from, dirs.drop_first());
    }
}

/// A batch never lets two actors claim one cell: every target it assigns is a cell
/// that, once the batch is over, no other actor stands on or is moving into.
pub proof fn lemma_batch_targets_unshared(
    grid: Map<crate::terrain::ChunkPos, Seq<Tile>>,
    actors: Seq<Actor>,
    phase: TurnState,
    intents: Seq<Vec<Direction>>,
    n: int,
)
    requires
        0 <= n <= actors.len(),
    ensures
        ({
            let r = resolve(grid, actors, phase, intents, n);
            forall|i: int, j: int|
                0 <= i < actors.len() && 0 <= j < actors.len() && i != j && actors[i].movement.target_pos is None
                    && (#[trigger] r[i]).movement.target_pos is Some ==> {
                    let t = r[i].movement.target_pos->Some_0;
                    &&& (#[trigger] r[j]).movement.current_pos != t
                    &&& r[j].movement.target_pos != Some(t)
                }
        }),
        forall|k: int| n <= k < actors.len() ==> #[trigger] resolve(grid, actors, phase, intents, n)[k] == actors[k],
        forall|k: int| 0 <= k < actors.len() ==> (#[trigger] resolve(grid, actors, phase, intents, n)[k]).movement.current_pos == actors[k].movement.current_pos,
    decreases n,
{
    lemma_resolve_len(grid, actors, phase, intents, n);
    if n > 0 {
        lemma_batch_targets_unshared(grid, actors, phase, intents, n - 1);
        lemma_resolve_len(grid, actors, phase, intents, n - 1);
        let s = resolve(grid, actors, phase, intents, n - 1);
        let k = n - 1;
        let r = resolve(grid, actors, phase, intents, n);
        assert(r == act(grid, s, k, phase, intents[k]@));
        lemma_first_free_is_free(grid, s, k, s[k].movement.current_pos, intents[k]@);
        assert forall|i: int, j: int|
            0 <= i < actors.len() && 0 <= j < actors.len() && i != j && actors[i].movement.target_pos is None
                && (#[trigger] r[i]).movement.target_pos is Some implies {
                let t = r[i].movement.target_pos->Some_0;
                &&& (#[trigger] r[j]).movement.current_pos != t
                &&& r[j].movement.target_pos != Some(t)
            } by {
            let t = r[i].movement.target_pos->Some_0;
            if r != s {
                if i == k {
                    assert(r[j] == s[j]);
                    assert(free_for(grid, s, k, t));
                    if s[j].movement.current_pos == t || s[j].movement.target_pos == Some(t) {
                        assert(occupied_by_other(s, k, t));
                    }
                } else if j == k {
                    assert(r[i] == s[i]);
                    assert(s[k].movement.current_pos != t);
                    if r[k].movement.target_pos == Some(t) {
                        assert(free_for(grid, s, k, t));
                        assert(occupied_by_other(s, k, t)) by {
                            assert(s[i].movement.target_pos == Some(t));
                        }
                    }
                } else {
                    assert(r[i] == s[i] && r[j] == s[j]);
                }
            }
        }
    }
}

proof fn lemma_resolve_len(
    grid: Map<crate::terrain::ChunkPos, Seq<Tile>>,
    actors: Seq<Actor>,
    phase: TurnState,
    intents: Seq<Vec<Direction>>,
    n: int,
)
    requires
        n <= actors.len(),
    ensures
        resolve(grid, actors, phase, intents, n).len() == actors.len(),
    decreases n,
{
    if n > 0 {
        lemma_resolve_len(grid, actors, phase, intents, n - 1);
    }
}

} // verus!
