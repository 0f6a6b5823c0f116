use grid_pathfinding::grid::Grid;
use grid_pathfinding::picking::{process_tile_click_events, TilePick};
use grid_pathfinding::tile::{
    paint, Color, Sprite, Tile, TileType, VisualTile, BG_COLOR, CLOSED_COLOR, END_COLOR,
    OPEN_COLOR, PATH_COLOR, START_COLOR, WALL_COLOR,
};

fn new_grid(size: usize) -> (Grid, Vec<Sprite>) {
    let mut sprites = Vec::new();
    let grid = Grid::spawn_grid(size, &mut sprites).expect("a grid of this side can be made");
    (grid, sprites)
}

fn helper_count_kind(grid: &Grid, kind: TileType) -> usize {
    grid.grid.iter().map(|row| row.iter().filter(|tile| tile.tile_type == kind).count()).sum()
}

#[test]
fn each_kind_has_its_colour() {
    assert_eq!(TileType::Empty.color(), BG_COLOR);
    assert_eq!(TileType::Wall.color(), WALL_COLOR);
    assert_eq!(TileType::Start.color(), START_COLOR);
    assert_eq!(TileType::End.color(), END_COLOR);
    assert_eq!(TileType::default(), TileType::Empty);
    let all = [BG_COLOR, WALL_COLOR, START_COLOR, END_COLOR, CLOSED_COLOR, OPEN_COLOR, PATH_COLOR];
    for (i, a) in all.iter().enumerate() {
        for (j, b) in all.iter().enumerate() {
            assert_eq!(a == b, i == j);
        }
    }
}

#[test]
fn default_tile_is_empty_at_the_origin() {
    let tile = Tile::default();
    assert_eq!(tile.entity, 0);
    assert_eq!(tile.position, (0, 0));
    assert_eq!(tile.parent, None);
    assert_eq!(tile.tile_type, TileType::Empty);
    let tile = Tile::new(12, (2, 1), Some((1, 1)), TileType::Wall);
    assert_eq!(tile.entity, 12);
    assert_eq!(tile.position, (2, 1));
    assert_eq!(tile.parent, Some((1, 1)));
    assert_eq!(tile.tile_type, TileType::Wall);
}

#[test]
fn set_type_changes_kind_and_colour() {
    let mut tile = Tile::new(3, (3, 0), Some((2, 0)), TileType::Empty);
    let mut sprite = Sprite { color: PATH_COLOR };
    tile.set_type(TileType::Wall, &mut sprite);
    assert_eq!(tile.tile_type, TileType::Wall);
    assert_eq!(sprite.color, WALL_COLOR);
    assert_eq!(tile.entity, 3);
    assert_eq!(tile.position, (3, 0));
    assert_eq!(tile.parent, Some((2, 0)));
}

#[test]
fn click_without_a_kind_swaps_empty_and_wall() {
    let mut sprite = Sprite { color: BG_COLOR };
    let mut tile = Tile::default();
    assert_eq!(tile.click(&mut sprite, None), TileType::Wall);
    assert_eq!(tile.tile_type, TileType::Wall);
    assert_eq!(sprite.color, WALL_COLOR);
    assert_eq!(tile.click(&mut sprite, None), TileType::Empty);
    assert_eq!(tile.tile_type, TileType::Empty);
    assert_eq!(sprite.color, BG_COLOR);
    for kind in [TileType::Start, TileType::End] {
        let mut tile = Tile::new(0, (0, 0), None, kind);
        assert_eq!(tile.click(&mut sprite, None), kind);
        assert_eq!(tile.tile_type, kind);
        assert_eq!(sprite.color, kind.color());
    }
}

#[test]
fn click_with_a_kind_paints_over_empty_and_wall_only() {
    let mut sprite = Sprite { color: BG_COLOR };
    for from in [TileType::Empty, TileType::Wall] {
        for to in [TileType::Empty, TileType::Wall] {
            let mut tile = Tile::new(0, (0, 0), None, from);
            assert_eq!(tile.click(&mut sprite, Some(to)), to);
            assert_eq!(tile.tile_type, to);
            assert_eq!(sprite.color, to.color());
        }
    }
    for kind in [TileType::Start, TileType::End] {
        let mut tile = Tile::new(0, (0, 0), None, kind);
        assert_eq!(tile.click(&mut sprite, Some(TileType::Wall)), kind);
        assert_eq!(tile.tile_type, kind);
        assert_eq!(sprite.color, kind.color());
    }
}

#[test]
fn paint_reports_whether_the_sprite_exists() {
    let mut sprites = vec![Sprite { color: BG_COLOR }; 2];
    assert!(paint(&mut sprites, 1, Color::Open));
    assert_eq!(sprites[1].color, OPEN_COLOR);
    assert!(!paint(&mut sprites, 2, Color::Open));
    assert_eq!(sprites.len(), 2);
    assert_eq!(sprites[0].color, BG_COLOR);
}

#[test]
fn visual_tile_holds_the_position() {
    let tile = VisualTile::new((4, 7));
    assert_eq!(tile.x, 4);
    assert_eq!(tile.y, 7);
}

#[test]
fn clicks_toggle_walls_on_the_grid() {
    let (mut grid, mut sprites) = new_grid(8);
    assert_eq!(grid.set_tile_on_click(3, 2, &mut sprites), Ok(TileType::Wall));
    assert_eq!(grid.grid[2][3].tile_type, TileType::Wall);
    assert_eq!(sprites[2 * 8 + 3].color, WALL_COLOR);
    assert_eq!(grid.set_tile_on_click(3, 2, &mut sprites), Ok(TileType::Empty));
    assert_eq!(sprites[2 * 8 + 3].color, BG_COLOR);
    assert_eq!(grid.set_tile_on_click(1, 1, &mut sprites), Ok(TileType::Start));
    assert_eq!(grid.grid[1][1].tile_type, TileType::Start);
    assert!(grid.set_tile_on_click(8, 0, &mut sprites).is_err());
}

#[test]
fn drags_paint_and_move_markers() {
    let (mut grid, mut sprites) = new_grid(8);
    assert_eq!(grid.set_tile_on_drag(3, 3, TileType::Wall, &mut sprites), Ok(()));
    assert_eq!(grid.grid[3][3].tile_type, TileType::Wall);
    assert_eq!(grid.set_tile_on_drag(3, 3, TileType::Empty, &mut sprites), Ok(()));
    assert_eq!(grid.grid[3][3].tile_type, TileType::Empty);
    assert_eq!(grid.set_tile_on_drag(4, 4, TileType::Start, &mut sprites), Ok(()));
    assert_eq!(grid.start, (4, 4));
    assert_eq!(grid.grid[1][1].tile_type, TileType::Empty);
    assert_eq!(grid.set_tile_on_drag(0, 5, TileType::End, &mut sprites), Ok(()));
    assert_eq!(grid.end, (0, 5));
    // a tile that holds a marker is passed over
    assert_eq!(grid.set_tile_on_drag(0, 5, TileType::Start, &mut sprites), Ok(()));
    assert_eq!(grid.set_tile_on_drag(4, 4, TileType::End, &mut sprites), Ok(()));
    assert_eq!(grid.set_tile_on_drag(4, 4, TileType::Wall, &mut sprites), Ok(()));
    assert_eq!(grid.start, (4, 4));
    assert_eq!(grid.end, (0, 5));
    assert_eq!(grid.grid[4][4].tile_type, TileType::Start);
    assert_eq!(grid.grid[5][0].tile_type, TileType::End);
    assert!(grid.set_tile_on_drag(0, 8, TileType::Wall, &mut sprites).is_err());
}

#[test]
fn a_click_and_a_drag_draw_a_wall() {
    let (mut grid, mut sprites) = new_grid(8);
    let mut hover = TileType::Empty;
    let picks = vec![
        TilePick::Clicked(VisualTile::new((2, 4))),
        TilePick::JustEntered(VisualTile::new((3, 4))),
        TilePick::Other,
        TilePick::JustEntered(VisualTile::new((4, 4))),
        TilePick::JustEntered(VisualTile::new((1, 1))),
        TilePick::JustEntered(VisualTile::new((9, 9))),
    ];
    process_tile_click_events(&picks, &mut sprites, &mut grid, &mut hover, true);
    assert_eq!(hover, TileType::Wall);
    for x in 2..5 {
        assert_eq!(grid.grid[4][x].tile_type, TileType::Wall);
        assert_eq!(sprites[4 * 8 + x].color, WALL_COLOR);
    }
    assert_eq!(grid.grid[1][1].tile_type, TileType::Start);
    assert_eq!(helper_count_kind(&grid, TileType::Wall), 3);
}

#[test]
fn dragging_the_start_moves_it() {
    let (mut grid, mut sprites) = new_grid(8);
    let mut hover = TileType::Empty;
    let picks = vec![
        TilePick::Clicked(VisualTile::new((1, 1))),
        TilePick::JustEntered(VisualTile::new((2, 1))),
        TilePick::JustEntered(VisualTile::new((6, 6))),
        TilePick::JustEntered(VisualTile::new((3, 1))),
    ];
    process_tile_click_events(&picks, &mut sprites, &mut grid, &mut hover, true);
    assert_eq!(hover, TileType::Start);
    assert_eq!(grid.start, (3, 1));
    assert_eq!(grid.end, (6, 6));
    assert_eq!(helper_count_kind(&grid, TileType::Start), 1);
    assert_eq!(helper_count_kind(&grid, TileType::End), 1);
    assert_eq!(grid.grid[1][3].tile_type, TileType::Start);
    assert_eq!(sprites[1 * 8 + 3].color, START_COLOR);
    assert_eq!(sprites[1 * 8 + 1].color, BG_COLOR);
}

#[test]
fn without_the_button_nothing_is_in_hand() {
    let (mut grid, mut sprites) = new_grid(8);
    let mut hover = TileType::Wall;
    let picks = vec![TilePick::JustEntered(VisualTile::new((3, 3)))];
    process_tile_click_events(&picks, &mut sprites, &mut grid, &mut hover, false);
    assert_eq!(hover, TileType::Empty);
    assert_eq!(grid.grid[3][3].tile_type, TileType::Empty);
    let none: Vec<TilePick> = Vec::new();
    let mut hover = TileType::End;
    process_tile_click_events(&none, &mut sprites, &mut grid, &mut hover, true);
    assert_eq!(hover, TileType::End);
}
