use grid_core::grid::GridPos;
use grid_core::movement::{take_turn, Actor, Direction, GridMovement};
use grid_core::terrain::{Chunk, ChunkPos, GameGrid, Tile};
use grid_core::turns::{advance_turn_state, TurnState, TurnTaker};
use grid_core::world::World;

fn p(x: i32, y: i32) -> GridPos {
    GridPos { x, y }
}

fn open_grid() -> GameGrid {
    let mut grid = GameGrid::new();
    grid.insert_chunk(ChunkPos { x: 0, y: 0 }, Chunk::open());
    grid
}

#[test]
fn defaults() {
    assert_eq!(TurnState::default(), TurnState::Player);
    let t = TurnTaker::default();
    assert_eq!((t.actions_per_turn, t.actions_remaining), (1, 1));
    assert_eq!(TurnTaker::new(3), TurnTaker { actions_per_turn: 3, actions_remaining: 3 });
}

#[test]
fn direction_steps() {
    assert_eq!(Direction::Up.apply(p(0, 0)), Some(p(0, 1)));
    assert_eq!(Direction::Right.apply(p(0, 0)), Some(p(1, 0)));
    assert_eq!(Direction::Down.apply(p(0, 0)), Some(p(0, -1)));
    assert_eq!(Direction::Left.apply(p(0, 0)), Some(p(-1, 0)));
    assert_eq!(Direction::Right.apply(p(i32::MAX, 0)), None);
    assert_eq!(Direction::Down.apply(p(0, i32::MIN)), None);
}

#[test]
fn two_actors_contending_for_one_cell() {
    let grid = open_grid();
    let mut actors = vec![Actor::npc(p(4, 5), 1), Actor::npc(p(6, 5), 1)];
    let intents = vec![vec![Direction::Right], vec![Direction::Left]];
    take_turn(&mut actors, &grid, TurnState::Environment, &intents);
    assert_eq!(actors[0].movement.target_pos, Some(p(5, 5)));
    assert_eq!(actors[1].movement.target_pos, None);
    assert_eq!(actors[0].turn.actions_remaining, 0);
    assert_eq!(actors[1].turn.actions_remaining, 0);
}

#[test]
fn blocked_actor_still_spends_an_action() {
    let mut chunk = Chunk::open();
    chunk.set_tile(5, 6, Tile::Wall);
    let mut grid = GameGrid::new();
    grid.insert_chunk(ChunkPos { x: 0, y: 0 }, chunk);
    let mut actors = vec![Actor::player(p(5, 5), 2), Actor::npc(p(6, 5), 1)];
    take_turn(&mut actors, &grid, TurnState::Player, &vec![vec![Direction::Up], vec![]]);
    assert_eq!(actors[0].movement.target_pos, None);
    assert_eq!(actors[0].turn.actions_remaining, 1);
    take_turn(&mut actors, &grid, TurnState::Player, &vec![vec![Direction::Right], vec![]]);
    assert_eq!(actors[0].movement.target_pos, None);
    assert_eq!(actors[0].turn.actions_remaining, 0);
    assert_eq!(actors[1].turn.actions_remaining, 1);
}

#[test]
fn actors_outside_their_phase_or_in_transit_do_not_act() {
    let grid = open_grid();
    let mut moving = Actor::npc(p(2, 2), 1);
    moving.movement.target_pos = Some(p(2, 3));
    let mut actors = vec![Actor::player(p(5, 5), 2), moving];
    let intents = vec![vec![Direction::Up], vec![Direction::Right]];
    take_turn(&mut actors, &grid, TurnState::Environment, &intents);
    assert_eq!(actors[0], Actor::player(p(5, 5), 2));
    assert_eq!(actors[1], moving);
}

#[test]
fn later_choices_are_tried_when_the_first_is_taken() {
    let grid = open_grid();
    let mut actors = vec![Actor::npc(p(4, 5), 1), Actor::npc(p(5, 5), 1)];
    let intents = vec![vec![Direction::Right, Direction::Up], vec![Direction::Down]];
    take_turn(&mut actors, &grid, TurnState::Environment, &intents);
    assert_eq!(actors[0].movement.target_pos, Some(p(4, 6)));
    assert_eq!(actors[1].movement.target_pos, Some(p(5, 4)));
}

#[test]
fn arriving_clears_the_target() {
    let mut m = GridMovement::at(p(1, 1));
    m.arrive();
    assert_eq!(m, GridMovement::at(p(1, 1)));
    m.target_pos = Some(p(1, 2));
    m.arrive();
    assert_eq!(m, GridMovement { current_pos: p(1, 2), target_pos: None });
}

#[test]
fn turn_phase_cycle() {
    let grid = open_grid();
    let mut actors = vec![Actor::player(p(5, 5), 2), Actor::npc(p(9, 9), 1), Actor::npc(p(12, 9), 1)];
    let mut state = TurnState::Player;
    take_turn(&mut actors, &grid, state, &vec![vec![Direction::Up], vec![], vec![]]);
    state = advance_turn_state(state, &mut actors);
    assert_eq!(state, TurnState::Player);
    actors[0].movement.arrive();
    take_turn(&mut actors, &grid, state, &vec![vec![Direction::Up], vec![], vec![]]);
    state = advance_turn_state(state, &mut actors);
    assert_eq!(state, TurnState::Environment);
    assert_eq!(actors[0].turn.actions_remaining, 2);
    let env = vec![vec![], vec![Direction::Left], vec![Direction::Right]];
    take_turn(&mut actors, &grid, state, &env);
    assert_eq!(actors[1].turn.actions_remaining, 0);
    assert_eq!(actors[2].turn.actions_remaining, 0);
    state = advance_turn_state(state, &mut actors);
    assert_eq!(state, TurnState::Player);
    assert_eq!(actors[0].turn.actions_remaining, 2);
    assert_eq!(actors[1].turn.actions_remaining, 1);
    assert_eq!(actors[2].turn.actions_remaining, 1);
}

#[test]
fn environment_waits_for_every_actor() {
    let mut actors = vec![Actor::npc(p(0, 0), 1), Actor::npc(p(3, 0), 2)];
    actors[0].turn.actions_remaining = 0;
    actors[1].turn.actions_remaining = 1;
    assert_eq!(advance_turn_state(TurnState::Environment, &mut actors), TurnState::Environment);
    assert_eq!(actors[0].turn.actions_remaining, 0);
}

#[test]
fn missing_player_or_environment_does_not_deadlock() {
    let mut none: Vec<Actor> = vec![Actor::npc(p(0, 0), 1)];
    assert_eq!(advance_turn_state(TurnState::Player, &mut none), TurnState::Environment);
    assert_eq!(none[0].turn.actions_remaining, 1);
    let mut only_player = vec![Actor::player(p(0, 0), 2)];
    assert_eq!(advance_turn_state(TurnState::Environment, &mut only_player), TurnState::Player);
    assert_eq!(only_player[0].turn.actions_remaining, 2);
}

#[test]
fn zero_action_budget_passes_the_turn_at_once() {
    let grid = open_grid();
    let mut actors = vec![Actor::player(p(1, 1), 0)];
    take_turn(&mut actors, &grid, TurnState::Player, &vec![vec![Direction::Up]]);
    assert_eq!(actors[0].movement.target_pos, None);
    assert_eq!(advance_turn_state(TurnState::Player, &mut actors), TurnState::Environment);
}

#[test]
fn world_ticks_through_both_phases() {
    let mut world = World::new(p(5, 5), 1);
    world.grid.insert_chunk(ChunkPos { x: 0, y: 0 }, Chunk::open());
    world.spawn_devil(p(20, 20));
    world.tick(None);
    assert_eq!(world.turn, TurnState::Player);
    world.tick(Some(Direction::Right));
    assert_eq!(world.actors[0].movement.target_pos, Some(p(6, 5)));
    assert_eq!(world.turn, TurnState::Environment);
    world.finish_move(0);
    assert_eq!(world.actors[0].movement.current_pos, p(6, 5));
    world.tick(None);
    assert_eq!(world.turn, TurnState::Player);
    let devil = world.actors[1];
    let target = devil.movement.target_pos.expect("the devil has room to move");
    assert_eq!(target.manhattan_distance(&p(20, 20)), 1);
    assert_eq!(devil.turn.actions_remaining, 1);
}

#[test]
fn environment_intents_are_shuffled_permutations() {
    let mut world = World::new(p(0, 0), 1);
    world.spawn_devil(p(3, 3));
    world.spawn_devil(p(4, 3));
    let mut orders = std::collections::HashSet::new();
    for _ in 0..40 {
        let intents = world.environment_intents();
        assert!(intents[0].is_empty());
        for dirs in intents.iter().skip(1) {
            let mut sorted: Vec<u8> = dirs.iter().map(|d| *d as u8).collect();
            sorted.sort();
            assert_eq!(sorted, vec![0, 1, 2, 3]);
            orders.insert(dirs.clone());
        }
    }
    assert!(orders.len() > 1);
    let player = world.player_intents(Some(Direction::Left));
    assert_eq!(player, vec![vec![Direction::Left], vec![], vec![]]);
}
