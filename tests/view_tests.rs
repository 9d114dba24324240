use std::collections::HashSet;

use grid_core::fog::{FogOfWar, TileShade};
use grid_core::fov::FieldOfView;
use grid_core::grid::GridPos;
use grid_core::terrain::{Chunk, ChunkPos, GameGrid, Tile};

fn grid_with_walls(walls: &[(usize, usize)]) -> GameGrid {
    let mut chunk = Chunk::open();
    for &(x, y) in walls {
        chunk.set_tile(x, y, Tile::Wall);
    }
    let mut grid = GameGrid::new();
    grid.insert_chunk(ChunkPos { x: 0, y: 0 }, chunk);
    grid
}

fn seen(fov: &FieldOfView) -> HashSet<(i32, i32)> {
    fov.visible_positions().iter().map(|p| (p.x, p.y)).collect()
}

#[test]
fn open_ground_shows_the_whole_window() {
    let grid = grid_with_walls(&[]);
    for r in 0..6usize {
        let mut fov = FieldOfView::new(r);
        fov.update(GridPos { x: 15, y: 15 }, &grid);
        let expected: HashSet<(i32, i32)> = (-(r as i32)..=r as i32)
            .flat_map(|dy| (-(r as i32)..=r as i32).map(move |dx| (15 + dx, 15 + dy)))
            .collect();
        assert_eq!(fov.visible_positions().len(), (2 * r + 1) * (2 * r + 1));
        assert_eq!(seen(&fov), expected);
    }
}

#[test]
fn a_wall_hides_the_cells_behind_it() {
    let grid = grid_with_walls(&[(17, 15)]);
    let mut fov = FieldOfView::new(5);
    fov.update(GridPos { x: 15, y: 15 }, &grid);
    let s = seen(&fov);
    assert!(s.contains(&(17, 15)), "the wall itself is seen");
    assert!(!s.contains(&(18, 15)));
    assert!(!s.contains(&(19, 15)));
    assert!(!s.contains(&(20, 15)));
    assert!(s.contains(&(17, 16)));
    assert!(s.contains(&(17, 14)));
    assert!(s.contains(&(16, 15)));
}

#[test]
fn window_positions_run_row_by_row() {
    let fov = FieldOfView::new(1);
    let cells = fov.get_positions_in_view_range(&GridPos { x: 0, y: 0 });
    let expected = vec![
        GridPos { x: -1, y: -1 },
        GridPos { x: 0, y: -1 },
        GridPos { x: 1, y: -1 },
        GridPos { x: -1, y: 0 },
        GridPos { x: 0, y: 0 },
        GridPos { x: 1, y: 0 },
        GridPos { x: -1, y: 1 },
        GridPos { x: 0, y: 1 },
        GridPos { x: 1, y: 1 },
    ];
    assert_eq!(cells, expected);
}

#[test]
fn view_is_kept_until_the_observer_moves() {
    let mut grid = grid_with_walls(&[]);
    let mut fov = FieldOfView::new(2);
    fov.update(GridPos { x: 10, y: 10 }, &grid);
    assert_eq!(fov.visible_positions().len(), 25);
    let mut walled = Chunk::open();
    walled.set_tile(11, 10, Tile::Wall);
    grid.insert_chunk(ChunkPos { x: 0, y: 0 }, walled);
    fov.update(GridPos { x: 10, y: 10 }, &grid);
    assert_eq!(fov.visible_positions().len(), 25);
    fov.invalidate();
    fov.update(GridPos { x: 10, y: 10 }, &grid);
    assert!(!fov.is_visible(&GridPos { x: 12, y: 10 }));
    assert!(fov.is_visible(&GridPos { x: 11, y: 10 }));
}

#[test]
fn unloaded_terrain_blocks_sight() {
    let grid = grid_with_walls(&[]);
    let mut fov = FieldOfView::new(3);
    fov.update(GridPos { x: 0, y: 15 }, &grid);
    assert!(fov.is_visible(&GridPos { x: -1, y: 15 }));
    assert!(!fov.is_visible(&GridPos { x: -3, y: 15 }));
    assert!(fov.is_visible(&GridPos { x: 3, y: 15 }));
}

#[test]
fn radius_zero_sees_only_its_own_cell() {
    let grid = grid_with_walls(&[]);
    let mut fov = FieldOfView::new(0);
    fov.update(GridPos { x: 4, y: 4 }, &grid);
    assert_eq!(fov.visible_positions(), &vec![GridPos { x: 4, y: 4 }]);
    assert_eq!(fov.view_range(), 0);
}

#[test]
fn fog_remembers_what_was_seen() {
    let grid = grid_with_walls(&[]);
    let mut fov = FieldOfView::new(1);
    let mut fog = FogOfWar::new();
    fov.update(GridPos { x: 5, y: 5 }, &grid);
    fog.update_viewed_positions(&fov);
    fov.update(GridPos { x: 8, y: 5 }, &grid);
    fog.update_viewed_positions(&fov);
    assert_eq!(fog.shade(&fov, &GridPos { x: 8, y: 5 }), TileShade::Visible);
    assert_eq!(fog.shade(&fov, &GridPos { x: 5, y: 5 }), TileShade::Remembered);
    assert_eq!(fog.shade(&fov, &GridPos { x: 20, y: 20 }), TileShade::Hidden);
    assert!(fog.has_viewed(&GridPos { x: 4, y: 6 }));
    assert!(!fog.has_viewed(&GridPos { x: 3, y: 5 }));
}

#[test]
fn wide_view_range_computes_without_fault() {
    let grid = grid_with_walls(&[(16, 15)]);
    let mut fov = FieldOfView::new(1000);
    fov.update(GridPos { x: 15, y: 15 }, &grid);
    assert!(fov.is_visible(&GridPos { x: 15, y: 15 }));
    assert!(fov.is_visible(&GridPos { x: 16, y: 15 }));
    assert!(!fov.is_visible(&GridPos { x: 40, y: 15 }));
    // The loaded chunk and the ring of opaque unloaded cells around it at most.
    assert!(fov.visible_positions().len() <= 32 * 32);
}

#[test]
fn largest_view_range_is_accepted() {
    // The window side 2 * 23169 + 1 squared stays below 2^31, as doryen-fov needs.
    let side = 2 * grid_core::fov::MAX_VIEW_RANGE as u64 + 1;
    assert!(side * side < 1u64 << 31);
    assert!((side + 2) * (side + 2) >= 1u64 << 31);
}

#[test]
fn view_shifts_with_the_observer_over_shifted_terrain() {
    let a = grid_with_walls(&[(12, 10), (9, 8)]);
    let b = grid_with_walls(&[(15, 13), (12, 11)]);
    let mut fa = FieldOfView::new(4);
    let mut fb = FieldOfView::new(4);
    fa.update(GridPos { x: 10, y: 10 }, &a);
    fb.update(GridPos { x: 13, y: 13 }, &b);
    let shifted: Vec<GridPos> =
        fa.visible_positions().iter().map(|p| GridPos { x: p.x + 3, y: p.y + 3 }).collect();
    assert_eq!(fb.visible_positions(), &shifted);
}
