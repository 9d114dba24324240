use std::collections::HashSet;

use grid_core::grid::GridPos;
use grid_core::terrain::{ChunkPos, GameGrid};
use grid_core::world::{place_devils, World};

fn loaded(grid: &GameGrid) -> HashSet<(i32, i32)> {
    let mut s = HashSet::new();
    for y in -10..=10 {
        for x in -10..=10 {
            if grid.is_loaded(ChunkPos { x, y }) {
                s.insert((x, y));
            }
        }
    }
    s
}

fn as_set(v: &[ChunkPos]) -> HashSet<(i32, i32)> {
    v.iter().map(|c| (c.x, c.y)).collect()
}

#[test]
fn first_sync_loads_the_square_around_the_anchor() {
    let mut grid = GameGrid::new();
    let report = grid.sync(GridPos { x: 5, y: 5 });
    assert_eq!(report.spawned.len(), 25);
    assert!(report.despawned.is_empty());
    let expected: HashSet<(i32, i32)> = (-2..=2).flat_map(|y| (-2..=2).map(move |x| (x, y))).collect();
    assert_eq!(loaded(&grid), expected);
    assert_eq!(as_set(&report.spawned), expected);
}

#[test]
fn moving_within_a_chunk_changes_nothing() {
    let mut grid = GameGrid::new();
    grid.sync(GridPos { x: 5, y: 5 });
    let before = loaded(&grid);
    let wall_map: Vec<bool> = (0..30).map(|i| grid.is_walkable(&GridPos { x: i, y: 3 })).collect();
    let report = grid.sync(GridPos { x: 6, y: 5 });
    assert!(report.spawned.is_empty());
    assert!(report.despawned.is_empty());
    assert_eq!(loaded(&grid), before);
    let after: Vec<bool> = (0..30).map(|i| grid.is_walkable(&GridPos { x: i, y: 3 })).collect();
    assert_eq!(wall_map, after);
}

#[test]
fn crossing_a_chunk_boundary_spawns_the_new_column_only() {
    let mut grid = GameGrid::new();
    grid.sync(GridPos { x: 29, y: 5 });
    let report = grid.sync(GridPos { x: 30, y: 5 });
    let expected: HashSet<(i32, i32)> = (-2..=2).map(|y| (3, y)).collect();
    assert_eq!(as_set(&report.spawned), expected);
    assert!(report.despawned.is_empty());
    assert_eq!(loaded(&grid).len(), 30);
}

#[test]
fn chunks_beyond_the_despawn_radius_are_unloaded() {
    let mut grid = GameGrid::new();
    grid.sync(GridPos { x: 0, y: 0 });
    grid.sync(GridPos { x: 30, y: 0 });
    let report = grid.sync(GridPos { x: 60, y: 0 });
    let gone: HashSet<(i32, i32)> = (-2..=2).map(|y| (-2, y)).collect();
    let new: HashSet<(i32, i32)> = (-2..=2).map(|y| (4, y)).collect();
    assert_eq!(as_set(&report.despawned), gone);
    assert_eq!(as_set(&report.spawned), new);
    assert!(!grid.is_loaded(ChunkPos { x: -2, y: 0 }));
    assert!(grid.is_loaded(ChunkPos { x: -1, y: 0 }));
}

#[test]
fn negative_anchor_uses_floor_chunks() {
    let mut grid = GameGrid::new();
    grid.sync(GridPos { x: -1, y: -1 });
    assert!(grid.is_loaded(ChunkPos { x: -3, y: -3 }));
    assert!(grid.is_loaded(ChunkPos { x: 1, y: 1 }));
    assert!(!grid.is_loaded(ChunkPos { x: 2, y: 2 }));
}

#[test]
fn devils_land_on_floor_with_low_rolls() {
    let mut grid = GameGrid::new();
    grid.sync(GridPos { x: 0, y: 0 });
    let c = ChunkPos { x: 1, y: -1 };
    let mut rolls = vec![99u32; 900];
    let mut expected = Vec::new();
    for i in 0..900usize {
        let p = GridPos { x: 30 + (i % 30) as i32, y: -30 + (i / 30) as i32 };
        if i % 7 == 0 {
            rolls[i] = 4;
            if grid.is_walkable(&p) {
                expected.push(p);
            }
        } else if i % 11 == 0 {
            rolls[i] = 5;
        }
    }
    assert_eq!(place_devils(c, &grid, &rolls), expected);
}

#[test]
fn world_sync_adds_devils_on_walkable_cells() {
    let mut world = World::new(GridPos { x: 0, y: 0 }, 2);
    world.sync(GridPos { x: 0, y: 0 });
    assert!(world.actors[0].is_player);
    for a in world.actors.iter().skip(1) {
        assert!(!a.is_player);
        assert_eq!(a.turn.actions_per_turn, 1);
        assert!(world.grid.is_walkable(&a.movement.current_pos));
    }
    // 25 chunks of 900 tiles, four fifths floor, one in twenty of those: about 900.
    let devils = world.actors.len() - 1;
    assert!(devils > 400 && devils < 1500, "devils: {}", devils);
}
