use grid_pathfinding::grid::{is_valid_size, Grid, GridError, MIN_GRID_SIZE};
use grid_pathfinding::tile::{
    Color, Sprite, Tile, TileType, BG_COLOR, END_COLOR, START_COLOR, WALL_COLOR,
};

fn new_grid(size: usize) -> (Grid, Vec<Sprite>) {
    let mut sprites = Vec::new();
    let grid = Grid::spawn_grid(size, &mut sprites).expect("a grid of this side can be made");
    (grid, sprites)
}

fn count_kind(grid: &Grid, kind: TileType) -> usize {
    let mut count = 0;
    for row in grid.grid.iter() {
        for tile in row.iter() {
            if tile.tile_type == kind {
                count += 1;
            }
        }
    }
    count
}

fn kind_at(grid: &Grid, x: usize, y: usize) -> TileType {
    grid.grid[y][x].tile_type
}

fn color_at(grid: &Grid, sprites: &[Sprite], x: usize, y: usize) -> Color {
    sprites[grid.grid[y][x].entity as usize].color
}

#[test]
fn spawn_places_the_markers_on_the_diagonal() {
    let (grid, sprites) = new_grid(10);
    assert_eq!(grid.grid_size, 10);
    assert_eq!(grid.grid.len(), 10);
    assert!(grid.grid.iter().all(|row| row.len() == 10));
    assert_eq!(grid.start, (1, 1));
    assert_eq!(grid.end, (8, 8));
    assert_eq!(kind_at(&grid, 1, 1), TileType::Start);
    assert_eq!(kind_at(&grid, 8, 8), TileType::End);
    assert_eq!(count_kind(&grid, TileType::Start), 1);
    assert_eq!(count_kind(&grid, TileType::End), 1);
    assert_eq!(count_kind(&grid, TileType::Empty), 98);
    assert_eq!(sprites.len(), 100);
    assert_eq!(color_at(&grid, &sprites, 1, 1), START_COLOR);
    assert_eq!(color_at(&grid, &sprites, 8, 8), END_COLOR);
    assert_eq!(color_at(&grid, &sprites, 0, 0), BG_COLOR);
}

#[test]
fn spawn_gives_each_tile_its_position_and_entity() {
    let (grid, _) = new_grid(7);
    for y in 0..7 {
        for x in 0..7 {
            let tile = grid.grid[y][x];
            assert_eq!(tile.position, (x, y));
            assert_eq!(tile.entity, (y * 7 + x) as u64);
            assert_eq!(tile.parent, None);
        }
    }
    assert_eq!(grid.get_start().position, (1, 1));
    assert_eq!(grid.get_end().position, (5, 5));
}

#[test]
fn spawn_refuses_a_side_below_the_minimum() {
    assert_eq!(MIN_GRID_SIZE, 5);
    let mut sprites = vec![Sprite { color: WALL_COLOR }];
    for size in 0..5 {
        match Grid::spawn_grid(size, &mut sprites) {
            Err(error) => assert_eq!(error, GridError::InvalidConfiguration),
            Ok(_) => panic!("a grid of side {} was made", size),
        }
    }
    assert_eq!(sprites, vec![Sprite { color: WALL_COLOR }]);
    assert!(Grid::spawn_grid(5, &mut sprites).is_ok());
    assert_eq!(sprites.len(), 25);
}

#[test]
fn valid_sizes_start_at_the_minimum_and_fit_the_machine() {
    assert!(!is_valid_size(0));
    assert!(!is_valid_size(4));
    assert!(is_valid_size(5));
    assert!(is_valid_size(100));
    assert!(!is_valid_size(usize::MAX));
}

#[test]
fn tile_at_fails_outside_the_grid() {
    let (grid, _) = new_grid(6);
    let tile = grid.tile_at(4, 4).expect("the tile is inside");
    assert_eq!(tile.tile_type, TileType::End);
    assert_eq!(tile.position, (4, 4));
    assert!(matches!(grid.tile_at(6, 0), Err(GridError::OutOfBounds)));
    assert!(matches!(grid.tile_at(0, 6), Err(GridError::OutOfBounds)));
    assert!(matches!(grid.tile_at(5, 5), Ok(_)));
}

#[test]
fn set_start_moves_the_marker_and_recolors_both_tiles() {
    let (mut grid, mut sprites) = new_grid(10);
    assert_eq!(grid.set_start((3, 4), &mut sprites), Ok(()));
    assert_eq!(grid.start, (3, 4));
    assert_eq!(kind_at(&grid, 1, 1), TileType::Empty);
    assert_eq!(kind_at(&grid, 3, 4), TileType::Start);
    assert_eq!(color_at(&grid, &sprites, 1, 1), BG_COLOR);
    assert_eq!(color_at(&grid, &sprites, 3, 4), START_COLOR);
    assert_eq!(count_kind(&grid, TileType::Start), 1);
    assert_eq!(count_kind(&grid, TileType::End), 1);
}

#[test]
fn set_end_moves_the_marker_and_recolors_both_tiles() {
    let (mut grid, mut sprites) = new_grid(10);
    assert_eq!(grid.set_end((0, 9), &mut sprites), Ok(()));
    assert_eq!(grid.end, (0, 9));
    assert_eq!(kind_at(&grid, 8, 8), TileType::Empty);
    assert_eq!(kind_at(&grid, 0, 9), TileType::End);
    assert_eq!(color_at(&grid, &sprites, 8, 8), BG_COLOR);
    assert_eq!(color_at(&grid, &sprites, 0, 9), END_COLOR);
}

#[test]
fn set_start_and_set_end_refuse_a_place_outside() {
    let (mut grid, mut sprites) = new_grid(10);
    let before = sprites.clone();
    assert_eq!(grid.set_start((10, 0), &mut sprites), Err(GridError::OutOfBounds));
    assert_eq!(grid.set_start((0, 10), &mut sprites), Err(GridError::OutOfBounds));
    // a coordinate equal to the side is outside for the end marker too
    assert_eq!(grid.set_end((10, 3), &mut sprites), Err(GridError::OutOfBounds));
    assert_eq!(grid.set_end((3, 10), &mut sprites), Err(GridError::OutOfBounds));
    assert_eq!(grid.start, (1, 1));
    assert_eq!(grid.end, (8, 8));
    assert_eq!(kind_at(&grid, 1, 1), TileType::Start);
    assert_eq!(kind_at(&grid, 8, 8), TileType::End);
    assert_eq!(sprites, before);
}

#[test]
fn set_start_overwrites_a_wall() {
    let (mut grid, mut sprites) = new_grid(8);
    assert_eq!(grid.set_tile_on_click(4, 2, &mut sprites), Ok(TileType::Wall));
    assert_eq!(grid.set_start((4, 2), &mut sprites), Ok(()));
    assert_eq!(kind_at(&grid, 4, 2), TileType::Start);
    assert_eq!(count_kind(&grid, TileType::Wall), 0);
}

#[test]
fn markers_stay_exclusive_over_moves_and_resizes() {
    let (mut grid, mut sprites) = new_grid(10);
    let moves: [(bool, (usize, usize)); 6] = [
        (true, (5, 5)),
        (false, (9, 0)),
        (true, (0, 0)),
        (false, (1, 1)),
        (true, (20, 20)),
        (false, (9, 9)),
    ];
    for (is_start, to) in moves {
        if is_start {
            let _ = grid.set_start(to, &mut sprites);
        } else {
            let _ = grid.set_end(to, &mut sprites);
        }
        assert_eq!(count_kind(&grid, TileType::Start), 1);
        assert_eq!(count_kind(&grid, TileType::End), 1);
        assert_eq!(kind_at(&grid, grid.start.0, grid.start.1), TileType::Start);
        assert_eq!(kind_at(&grid, grid.end.0, grid.end.1), TileType::End);
    }
    for size in [15usize, 5, 3, 12, 6, 5, 100, 7] {
        let _ = grid.resize(size, &mut sprites);
        assert_eq!(count_kind(&grid, TileType::Start), 1);
        assert_eq!(count_kind(&grid, TileType::End), 1);
        assert_eq!(kind_at(&grid, grid.start.0, grid.start.1), TileType::Start);
        assert_eq!(kind_at(&grid, grid.end.0, grid.end.1), TileType::End);
        assert_eq!(sprites.len(), grid.grid_size * grid.grid_size);
    }
}

#[test]
fn resize_keeps_a_wall_that_is_inside_both_grids() {
    let (mut grid, mut sprites) = new_grid(10);
    assert_eq!(grid.set_tile_on_click(2, 3, &mut sprites), Ok(TileType::Wall));
    assert_eq!(grid.resize(15, &mut sprites), Ok(()));
    assert_eq!(grid.grid_size, 15);
    assert_eq!(kind_at(&grid, 2, 3), TileType::Wall);
    assert_eq!(color_at(&grid, &sprites, 2, 3), WALL_COLOR);
    assert_eq!(grid.grid[3][2].entity, 3 * 15 + 2);
    assert_eq!(grid.start, (1, 1));
    assert_eq!(grid.end, (8, 8));
    assert_eq!(kind_at(&grid, 14, 14), TileType::Empty);

    let (mut grid, mut sprites) = new_grid(10);
    assert_eq!(grid.set_tile_on_click(2, 3, &mut sprites), Ok(TileType::Wall));
    assert_eq!(grid.resize(5, &mut sprites), Ok(()));
    assert_eq!(grid.grid_size, 5);
    assert_eq!(kind_at(&grid, 2, 3), TileType::Wall);
    assert_eq!(grid.grid[3][2].entity, 3 * 5 + 2);
    assert_eq!(sprites.len(), 25);
}

#[test]
fn resize_drops_a_wall_that_is_outside_the_new_grid() {
    let (mut grid, mut sprites) = new_grid(10);
    assert_eq!(grid.set_tile_on_click(7, 2, &mut sprites), Ok(TileType::Wall));
    assert_eq!(grid.set_tile_on_click(2, 6, &mut sprites), Ok(TileType::Wall));
    assert_eq!(grid.resize(5, &mut sprites), Ok(()));
    assert_eq!(grid.grid.len(), 5);
    assert!(grid.grid.iter().all(|row| row.len() == 5));
    assert!(matches!(grid.tile_at(7, 2), Err(GridError::OutOfBounds)));
    assert!(matches!(grid.tile_at(2, 6), Err(GridError::OutOfBounds)));
    assert_eq!(count_kind(&grid, TileType::Wall), 0);
    // growing again brings back tiles, not what stood on them
    assert_eq!(grid.resize(10, &mut sprites), Ok(()));
    assert_eq!(kind_at(&grid, 7, 2), TileType::Empty);
    assert_eq!(kind_at(&grid, 2, 6), TileType::Empty);
    assert_eq!(count_kind(&grid, TileType::Wall), 0);
}

#[test]
fn resize_brings_the_end_back_when_it_falls_outside() {
    let (mut grid, mut sprites) = new_grid(10);
    assert_eq!(grid.resize(6, &mut sprites), Ok(()));
    assert_eq!(grid.start, (1, 1));
    assert_eq!(grid.end, (4, 4));
    assert_eq!(kind_at(&grid, 4, 4), TileType::End);
    assert_eq!(color_at(&grid, &sprites, 4, 4), END_COLOR);
}

#[test]
fn resize_brings_both_markers_back_when_both_fall_outside() {
    let (mut grid, mut sprites) = new_grid(12);
    assert_eq!(grid.set_start((10, 10), &mut sprites), Ok(()));
    assert_eq!(grid.set_end((11, 9), &mut sprites), Ok(()));
    assert_eq!(grid.resize(6, &mut sprites), Ok(()));
    assert_eq!(grid.start, (1, 1));
    assert_eq!(grid.end, (4, 4));
    assert_eq!(kind_at(&grid, 1, 1), TileType::Start);
    assert_eq!(kind_at(&grid, 4, 4), TileType::End);
    assert_eq!(count_kind(&grid, TileType::Start), 1);
    assert_eq!(count_kind(&grid, TileType::End), 1);
}

#[test]
fn resize_moves_a_marker_out_of_the_way_of_the_other() {
    // the end sits where the start has to come back to
    let (mut grid, mut sprites) = new_grid(10);
    assert_eq!(grid.set_start((9, 9), &mut sprites), Ok(()));
    assert_eq!(grid.set_end((1, 1), &mut sprites), Ok(()));
    assert_eq!(grid.resize(7, &mut sprites), Ok(()));
    assert_eq!(grid.start, (1, 1));
    assert_eq!(grid.end, (5, 5));
    assert_eq!(kind_at(&grid, 1, 1), TileType::Start);
    assert_eq!(kind_at(&grid, 5, 5), TileType::End);

    // the start sits where the end has to come back to
    let (mut grid, mut sprites) = new_grid(10);
    assert_eq!(grid.set_start((4, 4), &mut sprites), Ok(()));
    assert_eq!(grid.resize(6, &mut sprites), Ok(()));
    assert_eq!(grid.start, (1, 1));
    assert_eq!(grid.end, (4, 4));
    assert_eq!(kind_at(&grid, 1, 1), TileType::Start);
    assert_eq!(kind_at(&grid, 4, 4), TileType::End);
    assert_eq!(count_kind(&grid, TileType::Start), 1);
    assert_eq!(count_kind(&grid, TileType::End), 1);
}

#[test]
fn resize_refuses_a_side_below_the_minimum() {
    let (mut grid, mut sprites) = new_grid(10);
    assert_eq!(grid.set_tile_on_click(2, 3, &mut sprites), Ok(TileType::Wall));
    let before = sprites.clone();
    for size in [0usize, 1, 4] {
        assert_eq!(grid.resize(size, &mut sprites), Err(GridError::InvalidConfiguration));
        assert_eq!(grid.grid_size, 10);
        assert_eq!(grid.grid.len(), 10);
        assert_eq!(kind_at(&grid, 2, 3), TileType::Wall);
        assert_eq!(grid.end, (8, 8));
        assert_eq!(sprites, before);
    }
}

#[test]
fn resize_keeps_parents_of_tiles_that_stay() {
    let (mut grid, mut sprites) = new_grid(10);
    grid.grid[3][2].parent = Some((2, 2));
    assert_eq!(grid.resize(12, &mut sprites), Ok(()));
    assert_eq!(grid.grid[3][2].parent, Some((2, 2)));
    assert_eq!(grid.grid[11][11].parent, None);
}

#[test]
fn reset_clears_walls_and_puts_the_markers_back() {
    let (mut grid, mut sprites) = new_grid(9);
    assert_eq!(grid.set_tile_on_click(3, 3, &mut sprites), Ok(TileType::Wall));
    assert_eq!(grid.set_tile_on_click(4, 6, &mut sprites), Ok(TileType::Wall));
    assert_eq!(grid.set_start((5, 2), &mut sprites), Ok(()));
    assert_eq!(grid.set_end((0, 0), &mut sprites), Ok(()));
    grid.reset(&mut sprites);
    assert_eq!(grid.start, (1, 1));
    assert_eq!(grid.end, (7, 7));
    assert_eq!(count_kind(&grid, TileType::Wall), 0);
    assert_eq!(count_kind(&grid, TileType::Start), 1);
    assert_eq!(count_kind(&grid, TileType::End), 1);
    assert_eq!(kind_at(&grid, 1, 1), TileType::Start);
    assert_eq!(kind_at(&grid, 7, 7), TileType::End);
    for y in 0..9 {
        for x in 0..9 {
            let expected = if (x, y) == (1, 1) {
                START_COLOR
            } else if (x, y) == (7, 7) {
                END_COLOR
            } else {
                BG_COLOR
            };
            assert_eq!(color_at(&grid, &sprites, x, y), expected);
        }
    }
}

fn same_tiles(a: &Grid, b: &Grid) -> bool {
    let same_tile = |s: &Tile, t: &Tile| {
        s.entity == t.entity
            && s.position == t.position
            && s.parent == t.parent
            && s.tile_type == t.tile_type
    };
    a.grid_size == b.grid_size
        && a.start == b.start
        && a.end == b.end
        && a.grid.len() == b.grid.len()
        && a.grid.iter().zip(b.grid.iter()).all(|(r, s)| {
            r.len() == s.len() && r.iter().zip(s.iter()).all(|(t, u)| same_tile(t, u))
        })
}

#[test]
fn reset_twice_is_reset_once() {
    let (mut once, mut sprites_once) = new_grid(10);
    let (mut twice, mut sprites_twice) = new_grid(10);
    for grid_and_sprites in [(&mut once, &mut sprites_once), (&mut twice, &mut sprites_twice)] {
        let (grid, sprites) = grid_and_sprites;
        assert_eq!(grid.set_tile_on_click(2, 3, sprites), Ok(TileType::Wall));
        assert_eq!(grid.set_tile_on_click(6, 6, sprites), Ok(TileType::Wall));
        assert_eq!(grid.set_start((4, 4), sprites), Ok(()));
        assert_eq!(grid.set_end((9, 0), sprites), Ok(()));
        sprites[55] = Sprite { color: Color::Closed };
    }
    once.reset(&mut sprites_once);
    twice.reset(&mut sprites_twice);
    twice.reset(&mut sprites_twice);
    assert!(same_tiles(&once, &twice));
    assert_eq!(sprites_once, sprites_twice);
    assert_eq!(count_kind(&twice, TileType::Wall), 0);
    assert_eq!(twice.start, (1, 1));
    assert_eq!(twice.end, (8, 8));
}

#[test]
fn clear_repaints_empty_tiles_only() {
    let (mut grid, mut sprites) = new_grid(6);
    assert_eq!(grid.set_tile_on_click(2, 2, &mut sprites), Ok(TileType::Wall));
    for sprite in sprites.iter_mut() {
        sprite.color = Color::Path;
    }
    grid.clear(&mut sprites);
    for y in 0..6 {
        for x in 0..6 {
            let expected = if kind_at(&grid, x, y) == TileType::Empty {
                BG_COLOR
            } else {
                Color::Path
            };
            assert_eq!(color_at(&grid, &sprites, x, y), expected);
        }
    }
    assert_eq!(kind_at(&grid, 2, 2), TileType::Wall);
    assert_eq!(kind_at(&grid, 1, 1), TileType::Start);
    assert_eq!(kind_at(&grid, 4, 4), TileType::End);
}

#[test]
fn operations_pass_over_sprites_that_the_table_lacks() {
    let (mut grid, mut sprites) = new_grid(5);
    sprites.truncate(3);
    assert_eq!(grid.set_start((2, 2), &mut sprites), Ok(()));
    assert_eq!(kind_at(&grid, 2, 2), TileType::Start);
    assert_eq!(sprites.len(), 3);
    grid.clear(&mut sprites);
    assert_eq!(sprites, vec![Sprite { color: BG_COLOR }; 3]);
}
