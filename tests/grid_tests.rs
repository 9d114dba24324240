use grid_core::grid::{GridPos, WorldPos};
use grid_core::terrain::{Chunk, ChunkPos, GameGrid, Tile};

fn open_grid(chunks: &[(i32, i32)]) -> GameGrid {
    let mut grid = GameGrid::new();
    for &(x, y) in chunks {
        grid.insert_chunk(ChunkPos { x, y }, Chunk::open());
    }
    grid
}

#[test]
fn world_round_trip_holds_for_sample_cells() {
    let cells = [(0, 0), (1, 2), (-1, -1), (-17, 33), (i32::MAX, i32::MIN), (i32::MIN, i32::MAX)];
    for &(x, y) in cells.iter() {
        let p = GridPos { x, y };
        assert_eq!(GridPos::from_world_pos(p.to_world_pos()), p);
    }
}

#[test]
fn from_world_pos_floors_toward_negative_infinity() {
    assert_eq!(GridPos::from_world_pos(WorldPos { x: -1, y: 15 }), GridPos { x: -1, y: 0 });
    assert_eq!(GridPos::from_world_pos(WorldPos { x: 16, y: -16 }), GridPos { x: 1, y: -1 });
    assert_eq!(GridPos::from_world_pos(WorldPos { x: -17, y: 31 }), GridPos { x: -2, y: 1 });
}

#[test]
fn to_world_pos_scales_by_tile_size() {
    assert_eq!(GridPos { x: 3, y: -2 }.to_world_pos(), WorldPos { x: 48, y: -32 });
}

#[test]
fn manhattan_distance_sums_axis_gaps() {
    let a = GridPos { x: 0, y: 0 };
    assert_eq!(a.manhattan_distance(&GridPos { x: 3, y: 4 }), 7);
    assert_eq!(GridPos { x: -2, y: 5 }.manhattan_distance(&GridPos { x: 3, y: -1 }), 11);
    let far = GridPos { x: i32::MIN, y: i32::MIN }.manhattan_distance(&GridPos { x: i32::MAX, y: i32::MAX });
    assert_eq!(far, 2 * (u32::MAX as u64));
}

#[test]
fn grid_pos_converts_from_and_to_isize_pairs() {
    assert_eq!(GridPos::from((5isize, -7isize)), GridPos { x: 5, y: -7 });
    let t: (isize, isize) = GridPos { x: -3, y: 9 }.into();
    assert_eq!(t, (-3, 9));
}

#[test]
fn chunk_pos_floors_cells_into_chunks() {
    assert_eq!(GameGrid::chunk_pos(GridPos { x: 0, y: 29 }), ChunkPos { x: 0, y: 0 });
    assert_eq!(GameGrid::chunk_pos(GridPos { x: 30, y: -1 }), ChunkPos { x: 1, y: -1 });
    assert_eq!(GameGrid::chunk_pos(GridPos { x: -30, y: -31 }), ChunkPos { x: -1, y: -2 });
}

#[test]
fn chunk_origin_in_world_space() {
    let w = GameGrid::chunk_pos_to_world_pos(ChunkPos { x: 1, y: -1 });
    assert_eq!(w, WorldPos { x: 480, y: -480 });
}

#[test]
fn unloaded_cells_are_not_walkable() {
    let grid = GameGrid::new();
    assert!(!grid.is_walkable(&GridPos { x: 0, y: 0 }));
    let grid = open_grid(&[(0, 0)]);
    assert!(grid.is_walkable(&GridPos { x: 0, y: 0 }));
    assert!(grid.is_walkable(&GridPos { x: 29, y: 29 }));
    assert!(!grid.is_walkable(&GridPos { x: 30, y: 0 }));
    assert!(!grid.is_walkable(&GridPos { x: -1, y: 0 }));
}

#[test]
fn walls_are_not_walkable() {
    let mut chunk = Chunk::open();
    chunk.set_tile(4, 7, Tile::Wall);
    assert_eq!(chunk.tile(4, 7), Tile::Wall);
    assert_eq!(chunk.tile(7, 4), Tile::Floor);
    let mut grid = GameGrid::new();
    grid.insert_chunk(ChunkPos { x: -1, y: 0 }, chunk);
    assert!(!grid.is_walkable(&GridPos { x: -26, y: 7 }));
    assert!(grid.is_walkable(&GridPos { x: -23, y: 4 }));
}

#[test]
fn rolls_under_twenty_make_walls() {
    let mut rolls = vec![50u32; 900];
    rolls[0] = 19;
    rolls[1] = 20;
    rolls[899] = 0;
    let chunk = Chunk::from_rolls(&rolls);
    assert_eq!(chunk.tile(0, 0), Tile::Wall);
    assert_eq!(chunk.tile(1, 0), Tile::Floor);
    assert_eq!(chunk.tile(29, 29), Tile::Wall);
    assert_eq!(chunk.tile(5, 5), Tile::Floor);
}

#[test]
fn generated_terrain_mixes_walls_and_floor() {
    let mut walls = 0;
    for _ in 0..4 {
        let chunk = Chunk::generate();
        for y in 0..30 {
            for x in 0..30 {
                if chunk.tile(x, y) == Tile::Wall {
                    walls += 1;
                }
            }
        }
    }
    // 3600 tiles at one in five: far from both none and all.
    assert!(walls > 300 && walls < 1200, "walls: {}", walls);
}

#[test]
fn grid_position_names_the_same_cell_type() {
    let a = grid_core::grid::GridPosition::new(4, -9);
    assert_eq!(a, GridPos { x: 4, y: -9 });
    assert!(a.is_at(&GridPos::new(4, -9)));
    assert!(!a.is_at(&GridPos::new(-9, 4)));
}
