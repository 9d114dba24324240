use grid_core::grid::GridPos;
use grid_core::path::find_path;
use grid_core::terrain::{Chunk, ChunkPos, GameGrid, Tile};

fn grid_with_walls(walls: &[(usize, usize)]) -> GameGrid {
    let mut chunk = Chunk::open();
    for &(x, y) in walls {
        chunk.set_tile(x, y, Tile::Wall);
    }
    let mut grid = GameGrid::new();
    grid.insert_chunk(ChunkPos { x: 0, y: 0 }, chunk);
    grid
}

fn p(x: i32, y: i32) -> GridPos {
    GridPos { x, y }
}

fn assert_walk(grid: &GameGrid, path: &[GridPos], from: GridPos, to: GridPos) {
    assert_eq!(path[0], from);
    assert_eq!(*path.last().unwrap(), to);
    for w in path.windows(2) {
        assert_eq!(w[0].manhattan_distance(&w[1]), 1);
        assert!(grid.is_walkable(&w[1]));
    }
}

#[test]
fn open_ground_path_is_manhattan_optimal() {
    let grid = grid_with_walls(&[]);
    let path = grid.find_path(p(0, 0), p(3, 4)).expect("reachable");
    assert_eq!(path.len(), 8);
    assert_walk(&grid, &path, p(0, 0), p(3, 4));
}

#[test]
fn walled_in_goal_is_unreachable() {
    let grid = grid_with_walls(&[(10, 11), (11, 10), (10, 9), (9, 10)]);
    assert_eq!(grid.find_path(p(2, 2), p(10, 10)), None);
}

#[test]
fn unwalkable_goal_is_unreachable() {
    let grid = grid_with_walls(&[(5, 5)]);
    assert_eq!(grid.find_path(p(0, 0), p(5, 5)), None);
    assert_eq!(grid.find_path(p(0, 0), p(40, 0)), None);
}

#[test]
fn path_to_self_is_one_cell() {
    let grid = grid_with_walls(&[]);
    assert_eq!(grid.find_path(p(7, 7), p(7, 7)), Some(vec![p(7, 7)]));
}

#[test]
fn path_goes_around_a_wall() {
    let grid = grid_with_walls(&[(5, 4), (5, 5), (5, 6)]);
    let path = find_path(&grid, p(3, 5), p(7, 5)).expect("reachable");
    assert_walk(&grid, &path, p(3, 5), p(7, 5));
    assert_eq!(path.len(), 9);
}

#[test]
fn successors_are_walkable_neighbours_in_order() {
    let grid = grid_with_walls(&[(3, 4)]);
    let s = grid.get_successors(&p(3, 3));
    assert_eq!(s, vec![(p(4, 3), 1), (p(3, 2), 1), (p(2, 3), 1)]);
    let corner = grid.get_successors(&p(0, 0));
    assert_eq!(corner, vec![(p(0, 1), 1), (p(1, 0), 1)]);
}

#[test]
fn raycast_follows_bresenham() {
    let line = GameGrid::raycast(p(0, 1), p(6, 4));
    assert_eq!(line, vec![p(0, 1), p(1, 1), p(2, 2), p(3, 2), p(4, 3), p(5, 3)]);
    let back = GameGrid::raycast(p(2, 6), p(2, 3));
    assert_eq!(back, vec![p(2, 6), p(2, 5), p(2, 4)]);
    assert!(GameGrid::raycast(p(1, 1), p(1, 1)).is_empty());
}

#[test]
fn raycast_hit_reports_the_first_blocked_cell() {
    let grid = grid_with_walls(&[(4, 1), (6, 1)]);
    assert_eq!(grid.raycast_hit(p(1, 1), p(9, 1)), Some(p(4, 1)));
    assert_eq!(grid.raycast_hit(p(1, 1), p(4, 1)), None);
    assert_eq!(grid.raycast_hit(p(1, 1), p(1, 9)), None);
}

#[test]
fn line_of_sight_stops_at_walls() {
    let grid = grid_with_walls(&[(4, 1)]);
    assert!(grid.has_line_of_sight(p(1, 1), p(3, 1)));
    assert!(grid.has_line_of_sight(p(1, 1), p(4, 1)));
    assert!(!grid.has_line_of_sight(p(1, 1), p(6, 1)));
    assert!(grid.has_line_of_sight(p(4, 1), p(4, 1)));
    assert!(!grid.has_line_of_sight(p(4, 1), p(4, 3)));
}

#[test]
fn equal_queries_give_equal_paths() {
    let grid = grid_with_walls(&[(5, 5), (6, 3), (2, 7)]);
    let first = grid.find_path(p(0, 0), p(9, 9));
    for _ in 0..5 {
        assert_eq!(grid.find_path(p(0, 0), p(9, 9)), first);
    }
    assert_eq!(first.map(|w| w.len()), Some(19));
}
