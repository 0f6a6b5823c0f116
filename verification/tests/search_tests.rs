use grid_pathfinding::cost::Cost;
use grid_pathfinding::grid::{process_grid_events, Grid, GridError, GridEvent};
use grid_pathfinding::solve_buffer::{SolveBuffer, TileColorEvent};
use grid_pathfinding::solver::{a_star, Algorithm, Heuristic, ListItem, SolverState};
use grid_pathfinding::tile::{
    Sprite, Tile, TileType, BG_COLOR, CLOSED_COLOR, OPEN_COLOR, PATH_COLOR,
};

fn new_grid(size: usize) -> (Grid, Vec<Sprite>) {
    let mut sprites = Vec::new();
    let grid = Grid::spawn_grid(size, &mut sprites).expect("a grid of this side can be made");
    (grid, sprites)
}

fn wall(grid: &mut Grid, sprites: &mut Vec<Sprite>, x: usize, y: usize) {
    assert_eq!(grid.set_tile_on_click(x, y, sprites), Ok(TileType::Wall));
}

fn batches(buffer: &SolveBuffer) -> Vec<Vec<TileColorEvent>> {
    buffer.0.iter().cloned().collect()
}

fn is_path_batch(batch: &[TileColorEvent]) -> bool {
    batch.len() == 1 && batch[0].color == PATH_COLOR
}

fn path_entities(buffer: &SolveBuffer) -> Vec<u64> {
    buffer.0.iter().filter(|b| is_path_batch(b)).map(|b| b[0].sprite_entity).collect()
}

fn has_path_event(buffer: &SolveBuffer) -> bool {
    buffer.0.iter().any(|batch| batch.iter().any(|event| event.color == PATH_COLOR))
}

#[test]
fn empty_grid_of_side_ten_gives_the_diagonal() {
    let (mut grid, _) = new_grid(10);
    let mut buffer = SolveBuffer::default();
    let found = a_star(&mut grid, &mut buffer, &Heuristic::Diagonal);
    assert_eq!(found, Ok(true));
    // from the tile before the end back to the tile after the start
    let expected: Vec<u64> = vec![77, 66, 55, 44, 33, 22];
    assert_eq!(path_entities(&buffer), expected);
    // with the end tile the way has N - 3 tiles behind the start
    assert_eq!(path_entities(&buffer).len() + 1, 10 - 3);
    // the path batches come last, after one batch for each tile expanded
    let all = batches(&buffer);
    assert_eq!(all.len(), 7 + 6);
    assert!(all[..7].iter().all(|batch| !is_path_batch(batch)));
    assert!(all[7..].iter().all(|batch| is_path_batch(batch)));
    // the parents lead from the tile before the end to the start
    let mut at = (7usize, 7usize);
    let mut way = vec![at];
    while grid.grid[at.1][at.0].tile_type != TileType::Start {
        at = grid.grid[at.1][at.0].parent.expect("a tile on the way has a parent");
        way.push(at);
    }
    assert_eq!(way, vec![(7, 7), (6, 6), (5, 5), (4, 4), (3, 3), (2, 2), (1, 1)]);
}

#[test]
fn empty_grids_give_a_diagonal_of_the_right_length() {
    for size in [5usize, 6, 7, 12, 20, 31] {
        let (mut grid, _) = new_grid(size);
        let mut buffer = SolveBuffer::default();
        assert_eq!(a_star(&mut grid, &mut buffer, &Heuristic::Diagonal), Ok(true));
        let expected: Vec<u64> =
            (2..size - 2).rev().map(|i| (i * size + i) as u64).collect();
        assert_eq!(path_entities(&buffer), expected);
        assert_eq!(path_entities(&buffer).len(), size - 4);
    }
}

#[test]
fn first_step_opens_the_places_around_the_start_in_order() {
    let (mut grid, _) = new_grid(10);
    let mut buffer = SolveBuffer::default();
    assert_eq!(a_star(&mut grid, &mut buffer, &Heuristic::Diagonal), Ok(true));
    let first = &buffer.0[0];
    let expected: Vec<TileColorEvent> = [0u64, 10, 20, 1, 21, 2, 12, 22]
        .iter()
        .map(|entity| TileColorEvent::new(*entity, OPEN_COLOR))
        .collect();
    // the start tile itself is closed without a colour change
    assert_eq!(first, &expected);
    // the second step expands (2, 2): it opens five tiles and closes itself
    let second = &buffer.0[1];
    let expected: Vec<TileColorEvent> = vec![
        TileColorEvent::new(31, OPEN_COLOR),
        TileColorEvent::new(32, OPEN_COLOR),
        TileColorEvent::new(13, OPEN_COLOR),
        TileColorEvent::new(23, OPEN_COLOR),
        TileColorEvent::new(33, OPEN_COLOR),
        TileColorEvent::new(22, CLOSED_COLOR),
    ];
    assert_eq!(second, &expected);
}

#[test]
fn start_walled_in_gives_one_empty_batch() {
    let (mut grid, mut sprites) = new_grid(10);
    for (x, y) in [(0, 0), (0, 1), (0, 2), (1, 0), (1, 2), (2, 0), (2, 1), (2, 2)] {
        wall(&mut grid, &mut sprites, x, y);
    }
    for (x, y) in [(7, 7), (7, 8), (7, 9), (8, 7), (8, 9), (9, 7), (9, 8), (9, 9)] {
        wall(&mut grid, &mut sprites, x, y);
    }
    let mut buffer = SolveBuffer::default();
    assert_eq!(a_star(&mut grid, &mut buffer, &Heuristic::Diagonal), Ok(false));
    assert!(!has_path_event(&buffer));
    // only the start tile can be reached
    assert_eq!(buffer.0.len(), 1);
    assert!(buffer.0[0].is_empty());
}

#[test]
fn no_way_gives_one_batch_for_each_tile_in_reach_and_no_path() {
    let (mut grid, mut sprites) = new_grid(10);
    // a wall from top to bottom parts the start from the end
    for y in 0..10 {
        wall(&mut grid, &mut sprites, 4, y);
    }
    let mut buffer = SolveBuffer::default();
    assert_eq!(a_star(&mut grid, &mut buffer, &Heuristic::Diagonal), Ok(false));
    assert!(!has_path_event(&buffer));
    // the start and the 39 empty tiles left of the wall
    assert_eq!(buffer.0.len(), 40);
    let opened: usize = buffer
        .0
        .iter()
        .map(|batch| batch.iter().filter(|event| event.color == OPEN_COLOR).count())
        .sum();
    let closed: usize = buffer
        .0
        .iter()
        .map(|batch| batch.iter().filter(|event| event.color == CLOSED_COLOR).count())
        .sum();
    assert_eq!(opened, 39);
    assert_eq!(closed, 39);
    // nothing right of the wall was touched
    for batch in buffer.0.iter() {
        for event in batch.iter() {
            assert!(event.sprite_entity % 10 < 4);
        }
    }
}

#[test]
fn way_goes_around_a_wall() {
    let (mut grid, mut sprites) = new_grid(7);
    // a wall across the middle with a gap at the right edge
    for x in 0..6 {
        wall(&mut grid, &mut sprites, x, 3);
    }
    let mut buffer = SolveBuffer::default();
    assert_eq!(a_star(&mut grid, &mut buffer, &Heuristic::Diagonal), Ok(true));
    let path = path_entities(&buffer);
    assert!(!path.is_empty());
    // walking the parents from the tile next to the end reaches the start
    let first = path[0];
    let mut at = ((first % 7) as usize, (first / 7) as usize);
    let end = (5usize, 5usize);
    assert!(at.0.abs_diff(end.0) <= 1 && at.1.abs_diff(end.1) <= 1);
    let mut walked = Vec::new();
    while grid.grid[at.1][at.0].tile_type != TileType::Start {
        assert_eq!(grid.grid[at.1][at.0].tile_type, TileType::Empty);
        walked.push(grid.grid[at.1][at.0].entity);
        let next = grid.grid[at.1][at.0].parent.expect("a tile on the way has a parent");
        assert!(at.0.abs_diff(next.0) <= 1 && at.1.abs_diff(next.1) <= 1);
        at = next;
    }
    assert_eq!(at, (1, 1));
    assert_eq!(walked, path);
    // the way passes the gap
    assert!(path.contains(&(3 * 7 + 6)));
    // the shortest way has seven steps, so six tiles between start and end
    assert_eq!(path.len(), 6);
}

#[test]
fn end_next_to_the_start_gives_no_path_tiles() {
    let (mut grid, mut sprites) = new_grid(6);
    assert_eq!(grid.set_end((2, 2), &mut sprites), Ok(()));
    let mut buffer = SolveBuffer::default();
    assert_eq!(a_star(&mut grid, &mut buffer, &Heuristic::Diagonal), Ok(true));
    assert!(!has_path_event(&buffer));
    assert_eq!(buffer.0.len(), 1);
    // the seven places looked at before the end were opened
    assert_eq!(buffer.0[0].len(), 7);
}

#[test]
fn search_queues_behind_what_waits_and_leaves_the_tiles() {
    let (mut grid, _) = new_grid(8);
    let mut buffer = SolveBuffer::default();
    buffer.enqueue(vec![TileColorEvent::new(3, BG_COLOR)]);
    assert_eq!(a_star(&mut grid, &mut buffer, &Heuristic::Diagonal), Ok(true));
    assert_eq!(buffer.0[0], vec![TileColorEvent::new(3, BG_COLOR)]);
    assert!(buffer.0.len() > 1);
    assert_eq!(grid.start, (1, 1));
    assert_eq!(grid.end, (6, 6));
    assert_eq!(grid.grid[1][1].tile_type, TileType::Start);
    assert_eq!(grid.grid[6][6].tile_type, TileType::End);
    assert_eq!(grid.grid[1][1].parent, None);
}

#[test]
fn search_fails_when_the_way_back_breaks_off() {
    // the tile at the start marker is made an empty tile without a parent
    let (mut grid, _) = new_grid(6);
    grid.grid[1][1].tile_type = TileType::Empty;
    assert_eq!(grid.set_end((2, 2), &mut Vec::new()), Ok(()));
    let mut buffer = SolveBuffer::default();
    assert_eq!(
        a_star(&mut grid, &mut buffer, &Heuristic::Diagonal),
        Err(GridError::OutOfBounds)
    );
}

#[test]
fn dijkstra_is_reported_as_not_implemented() {
    let (mut grid, _) = new_grid(8);
    let mut buffer = SolveBuffer::default();
    buffer.enqueue(vec![TileColorEvent::new(1, BG_COLOR)]);
    let state = SolverState { algorithm: Algorithm::Dijkstra, heuristic: Heuristic::Diagonal };
    assert_eq!(grid.solve(&state, &mut buffer), Err(GridError::NotImplemented));
    assert_eq!(buffer.0.len(), 1);
    assert!(grid.grid.iter().all(|row| row.iter().all(|tile| tile.parent.is_none())));
    assert_eq!(
        Algorithm::Dijkstra.get_algorithm(&mut grid, &mut buffer, &Heuristic::Diagonal),
        Err(GridError::NotImplemented)
    );
}

#[test]
fn solve_runs_the_selected_search() {
    let (mut grid, _) = new_grid(10);
    let mut buffer = SolveBuffer::default();
    let state = SolverState::default();
    assert_eq!(state.algorithm, Algorithm::AStar);
    assert_eq!(state.heuristic, Heuristic::Diagonal);
    assert_eq!(grid.solve(&state, &mut buffer), Ok(true));
    assert_eq!(path_entities(&buffer), vec![77, 66, 55, 44, 33, 22]);
}

#[test]
fn solve_event_clears_the_queue_and_the_colours_first() {
    let (mut grid, mut sprites) = new_grid(10);
    let mut buffer = SolveBuffer::default();
    buffer.enqueue(vec![TileColorEvent::new(0, PATH_COLOR)]);
    sprites[0].color = PATH_COLOR;
    let state = SolverState::default();
    let events = vec![GridEvent::Solve];
    assert_eq!(
        process_grid_events(&events, &mut grid, &mut sprites, &state, &mut buffer),
        Ok(())
    );
    assert_eq!(sprites[0].color, BG_COLOR);
    assert_eq!(buffer.0.len(), 13);
    assert_eq!(path_entities(&buffer), vec![77, 66, 55, 44, 33, 22]);
}

#[test]
fn events_are_handled_in_order_and_each_clears_the_queue() {
    let (mut grid, mut sprites) = new_grid(10);
    let mut buffer = SolveBuffer::default();
    let state = SolverState::default();
    wall(&mut grid, &mut sprites, 2, 3);
    let events = vec![GridEvent::Solve, GridEvent::Resize(3), GridEvent::Resize(6)];
    assert_eq!(
        process_grid_events(&events, &mut grid, &mut sprites, &state, &mut buffer),
        Ok(())
    );
    assert_eq!(buffer.0.len(), 0);
    assert_eq!(grid.grid_size, 6);
    assert_eq!(sprites.len(), 36);
    assert_eq!(grid.grid[3][2].tile_type, TileType::Wall);
    assert_eq!(grid.end, (4, 4));

    let events = vec![GridEvent::Reset, GridEvent::Clear];
    assert_eq!(
        process_grid_events(&events, &mut grid, &mut sprites, &state, &mut buffer),
        Ok(())
    );
    assert_eq!(grid.grid[3][2].tile_type, TileType::Empty);
    assert_eq!(buffer.0.len(), 0);
}

#[test]
fn a_solve_event_reports_a_missing_algorithm() {
    let (mut grid, mut sprites) = new_grid(10);
    let mut buffer = SolveBuffer::default();
    buffer.enqueue(Vec::new());
    let state = SolverState { algorithm: Algorithm::Dijkstra, heuristic: Heuristic::Diagonal };
    let events = vec![GridEvent::Clear, GridEvent::Solve, GridEvent::Resize(7)];
    assert_eq!(
        process_grid_events(&events, &mut grid, &mut sprites, &state, &mut buffer),
        Err(GridError::NotImplemented)
    );
    // the events behind the solve were handled all the same
    assert_eq!(grid.grid_size, 7);
    assert_eq!(buffer.0.len(), 0);
    let none: Vec<GridEvent> = Vec::new();
    assert_eq!(
        process_grid_events(&none, &mut grid, &mut sprites, &state, &mut buffer),
        Ok(())
    );
}

#[test]
fn list_item_holds_what_it_is_given() {
    let tile = Tile::new(9, (4, 1), Some((3, 1)), TileType::Empty);
    let item = ListItem::new(tile, Cost { units: 2, diagonals: 1 }, Cost { units: 0, diagonals: 3 });
    assert_eq!(item.tile.entity, 9);
    assert_eq!(item.tile.position, (4, 1));
    assert_eq!(item.tile.parent, Some((3, 1)));
    assert_eq!(item.d, Cost { units: 2, diagonals: 1 });
    assert_eq!(item.h, Cost { units: 0, diagonals: 3 });
}

#[test]
fn ties_go_to_the_item_that_was_opened_first() {
    // the start under a wall, the end straight above: left and right tie
    let (mut grid, mut sprites) = new_grid(7);
    assert_eq!(grid.set_start((3, 1), &mut sprites), Ok(()));
    assert_eq!(grid.set_end((3, 5), &mut sprites), Ok(()));
    wall(&mut grid, &mut sprites, 3, 2);
    let mut buffer = SolveBuffer::default();
    assert_eq!(a_star(&mut grid, &mut buffer, &Heuristic::Diagonal), Ok(true));
    // (2, 2) and (4, 2) have the same total; (2, 2) was opened first
    let second = &buffer.0[1];
    assert_eq!(second.last(), Some(&TileColorEvent::new(2 * 7 + 2, CLOSED_COLOR)));
    let third = &buffer.0[2];
    assert_eq!(third.last(), Some(&TileColorEvent::new(2 * 7 + 4, CLOSED_COLOR)));
    // of the tiles next to the end with that total, (2, 4) was opened first
    assert_eq!(path_entities(&buffer), vec![4 * 7 + 2, 3 * 7 + 2, 2 * 7 + 2]);
}

/// The cost of the shortest way from the start to the end over empty tiles,
/// found by relaxing every step until nothing changes.
fn shortest_cost(grid: &Grid) -> Option<f64> {
    let size = grid.grid_size;
    let mut best = vec![vec![f64::INFINITY; size]; size];
    best[grid.start.1][grid.start.0] = 0.0;
    let mut changed = true;
    while changed {
        changed = false;
        for y in 0..size {
            for x in 0..size {
                if best[y][x].is_infinite() || grid.grid[y][x].tile_type == TileType::End {
                    continue;
                }
                for dx in -1i64..=1 {
                    for dy in -1i64..=1 {
                        let (nx, ny) = (x as i64 + dx, y as i64 + dy);
                        if (dx == 0 && dy == 0) || nx < 0 || ny < 0 {
                            continue;
                        }
                        let (nx, ny) = (nx as usize, ny as usize);
                        if nx >= size || ny >= size {
                            continue;
                        }
                        let kind = grid.grid[ny][nx].tile_type;
                        if kind != TileType::Empty && kind != TileType::End {
                            continue;
                        }
                        let step = if dx != 0 && dy != 0 { std::f64::consts::SQRT_2 } else { 1.0 };
                        if best[y][x] + step < best[ny][nx] - 1e-9 {
                            best[ny][nx] = best[y][x] + step;
                            changed = true;
                        }
                    }
                }
            }
        }
    }
    let cost = best[grid.end.1][grid.end.0];
    if cost.is_infinite() {
        None
    } else {
        Some(cost)
    }
}

/// The cost of the way that the parents tell from the tile at `from`, which
/// is next to the end, and the step to the end.
fn found_cost(grid: &Grid, from: (usize, usize)) -> f64 {
    let step = |a: (usize, usize), b: (usize, usize)| {
        if a.0 != b.0 && a.1 != b.1 {
            std::f64::consts::SQRT_2
        } else {
            1.0
        }
    };
    let mut cost = step(from, grid.end);
    let mut at = from;
    while grid.grid[at.1][at.0].tile_type != TileType::Start {
        let parent = grid.grid[at.1][at.0].parent.expect("a tile on the way has a parent");
        cost += step(parent, at);
        at = parent;
    }
    cost
}

#[test]
fn found_way_is_a_shortest_way_between_scattered_walls() {
    let mut seed: u64 = 0x2545_f491_4f6c_dd1d;
    let mut found_some = 0;
    let mut found_none = 0;
    for round in 0..60 {
        let size = 6 + round % 7;
        let (mut grid, mut sprites) = new_grid(size);
        for y in 0..size {
            for x in 0..size {
                seed ^= seed << 13;
                seed ^= seed >> 7;
                seed ^= seed << 17;
                let kind = grid.grid[y][x].tile_type;
                if kind == TileType::Empty && seed % 100 < 20 + (round as u64 % 4) * 10 {
                    wall(&mut grid, &mut sprites, x, y);
                }
            }
        }
        let expected = shortest_cost(&grid);
        let mut buffer = SolveBuffer::default();
        let found = a_star(&mut grid, &mut buffer, &Heuristic::Diagonal);
        assert_eq!(found, Ok(expected.is_some()), "round {}", round);
        match expected {
            Some(cost) => {
                found_some += 1;
                let path = path_entities(&buffer);
                let from = match path.first() {
                    Some(entity) => ((*entity as usize) % size, (*entity as usize) / size),
                    None => grid.start,
                };
                let got = found_cost(&grid, from);
                assert!((got - cost).abs() < 1e-6, "round {}: {} != {}", round, got, cost);
            },
            None => {
                found_none += 1;
                assert!(!has_path_event(&buffer));
            },
        }
    }
    assert!(found_some > 5);
    assert!(found_none > 5);
}
