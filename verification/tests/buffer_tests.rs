use grid_pathfinding::grid::GridError;
use grid_pathfinding::solve_buffer::{
    apply_batch, process_update_buffer_system, SolveBuffer, TileColorEvent, UpdateTimer,
    MAX_INTERVAL_NANOS, MIN_INTERVAL_NANOS,
};
use grid_pathfinding::tile::{Color, Sprite, BG_COLOR, CLOSED_COLOR, OPEN_COLOR, PATH_COLOR};

fn blank(count: usize) -> Vec<Sprite> {
    vec![Sprite { color: BG_COLOR }; count]
}

fn five_batches() -> SolveBuffer {
    let mut buffer = SolveBuffer::default();
    let colors = [OPEN_COLOR, CLOSED_COLOR, PATH_COLOR, Color::Wall, Color::Start];
    for (i, color) in colors.iter().enumerate() {
        buffer.enqueue(vec![TileColorEvent::new(i as u64, *color)]);
    }
    buffer
}

#[test]
fn three_intervals_show_three_of_five_batches_in_order() {
    let mut buffer = five_batches();
    let mut sprites = blank(5);
    let mut timer = UpdateTimer::default();
    let interval = timer.interval();
    assert_eq!(interval, 1_000_000);
    let after_one = [OPEN_COLOR, BG_COLOR, BG_COLOR, BG_COLOR, BG_COLOR];
    let after_two = [OPEN_COLOR, CLOSED_COLOR, BG_COLOR, BG_COLOR, BG_COLOR];
    let after_three = [OPEN_COLOR, CLOSED_COLOR, PATH_COLOR, BG_COLOR, BG_COLOR];
    for expected in [after_one, after_two, after_three] {
        let shown = process_update_buffer_system(&mut timer, interval, &mut buffer, &mut sprites);
        assert_eq!(shown, 1);
        let colors: Vec<Color> = sprites.iter().map(|sprite| sprite.color).collect();
        assert_eq!(colors, expected.to_vec());
    }
    assert_eq!(buffer.len(), 2);
    assert_eq!(buffer.0[0], vec![TileColorEvent::new(3, Color::Wall)]);
    assert_eq!(buffer.0[1], vec![TileColorEvent::new(4, Color::Start)]);
    assert_eq!(timer.elapsed(), 0);
}

#[test]
fn a_long_frame_shows_one_batch_for_each_crossing() {
    let mut buffer = five_batches();
    let mut sprites = blank(5);
    let mut timer = UpdateTimer::new(2_000_000).expect("the interval is in range");
    // 5.5 ms at an interval of 2 ms: two crossings, 1.5 ms left over
    let shown = process_update_buffer_system(&mut timer, 5_500_000, &mut buffer, &mut sprites);
    assert_eq!(shown, 2);
    assert_eq!(timer.elapsed(), 1_500_000);
    assert_eq!(buffer.len(), 3);
    // half a millisecond more crosses the interval again
    let shown = process_update_buffer_system(&mut timer, 500_000, &mut buffer, &mut sprites);
    assert_eq!(shown, 1);
    assert_eq!(timer.elapsed(), 0);
    assert_eq!(buffer.len(), 2);
    let colors: Vec<Color> = sprites.iter().map(|sprite| sprite.color).collect();
    assert_eq!(colors, vec![OPEN_COLOR, CLOSED_COLOR, PATH_COLOR, BG_COLOR, BG_COLOR]);
}

#[test]
fn a_short_frame_shows_nothing() {
    let mut buffer = five_batches();
    let mut sprites = blank(5);
    let mut timer = UpdateTimer::default();
    let shown = process_update_buffer_system(&mut timer, 999_999, &mut buffer, &mut sprites);
    assert_eq!(shown, 0);
    assert_eq!(timer.elapsed(), 999_999);
    assert_eq!(buffer.len(), 5);
    assert_eq!(sprites, blank(5));
    let shown = process_update_buffer_system(&mut timer, 1, &mut buffer, &mut sprites);
    assert_eq!(shown, 1);
    assert_eq!(timer.elapsed(), 0);
}

#[test]
fn more_crossings_than_batches_empty_the_queue() {
    let mut buffer = five_batches();
    let mut sprites = blank(5);
    let mut timer = UpdateTimer::default();
    let shown = process_update_buffer_system(&mut timer, u64::MAX, &mut buffer, &mut sprites);
    assert_eq!(shown, 5);
    assert_eq!(buffer.len(), 0);
    assert_eq!(timer.elapsed(), u64::MAX % 1_000_000);
    let shown = process_update_buffer_system(&mut timer, 10_000_000, &mut buffer, &mut sprites);
    assert_eq!(shown, 0);
}

#[test]
fn tick_counts_crossings_and_keeps_the_rest() {
    let mut timer = UpdateTimer::new(3_000_000).expect("the interval is in range");
    assert_eq!(timer.tick(2_000_000), 0);
    assert_eq!(timer.elapsed(), 2_000_000);
    assert_eq!(timer.tick(2_000_000), 1);
    assert_eq!(timer.elapsed(), 1_000_000);
    assert_eq!(timer.tick(8_000_000), 3);
    assert_eq!(timer.elapsed(), 0);
    assert_eq!(timer.tick(0), 0);
    assert_eq!(timer.interval(), 3_000_000);
}

#[test]
fn changing_the_interval_keeps_the_time_and_the_batches() {
    let mut buffer = five_batches();
    let mut sprites = blank(5);
    let mut timer = UpdateTimer::new(10_000_000).expect("the interval is in range");
    assert_eq!(process_update_buffer_system(&mut timer, 4_000_000, &mut buffer, &mut sprites), 0);
    assert_eq!(timer.set_interval(2_000_000), Ok(()));
    assert_eq!(timer.interval(), 2_000_000);
    assert_eq!(timer.elapsed(), 4_000_000);
    assert_eq!(buffer.len(), 5);
    // the next frame goes by the new interval
    assert_eq!(process_update_buffer_system(&mut timer, 1_000_000, &mut buffer, &mut sprites), 2);
    assert_eq!(timer.elapsed(), 1_000_000);
    assert_eq!(buffer.len(), 3);
}

#[test]
fn intervals_outside_the_range_are_refused() {
    assert_eq!(MIN_INTERVAL_NANOS, 1_000_000);
    assert_eq!(MAX_INTERVAL_NANOS, 1_000_000_000);
    assert!(matches!(UpdateTimer::new(0), Err(GridError::InvalidConfiguration)));
    assert!(matches!(UpdateTimer::new(999_999), Err(GridError::InvalidConfiguration)));
    assert!(matches!(UpdateTimer::new(1_000_000_001), Err(GridError::InvalidConfiguration)));
    assert!(UpdateTimer::new(1_000_000).is_ok());
    assert!(UpdateTimer::new(1_000_000_000).is_ok());
    let mut timer = UpdateTimer::default();
    assert_eq!(timer.tick(400_000), 0);
    assert_eq!(timer.set_interval(0), Err(GridError::InvalidConfiguration));
    assert_eq!(timer.set_interval(2_000_000_000), Err(GridError::InvalidConfiguration));
    assert_eq!(timer.interval(), 1_000_000);
    assert_eq!(timer.elapsed(), 400_000);
}

#[test]
fn process_frame_shows_the_oldest_batch() {
    let mut buffer = five_batches();
    let mut sprites = blank(5);
    assert!(buffer.process_frame(&mut sprites));
    assert_eq!(sprites[0].color, OPEN_COLOR);
    assert_eq!(buffer.len(), 4);
    assert_eq!(buffer.0[0], vec![TileColorEvent::new(1, CLOSED_COLOR)]);
    let mut empty = SolveBuffer::default();
    let before = sprites.clone();
    assert!(!empty.process_frame(&mut sprites));
    assert_eq!(sprites, before);
    assert_eq!(empty.len(), 0);
}

#[test]
fn clear_drops_every_batch() {
    let mut buffer = five_batches();
    buffer.clear();
    assert_eq!(buffer.len(), 0);
    assert!(!buffer.process_frame(&mut blank(5)));
}

#[test]
fn apply_sets_the_colour_of_the_sprite() {
    let mut sprites = blank(4);
    let event = TileColorEvent::new(2, PATH_COLOR);
    assert_eq!(event.sprite_entity, 2);
    assert_eq!(event.color, PATH_COLOR);
    assert_eq!(event.apply(&mut sprites), Ok(()));
    let colors: Vec<Color> = sprites.iter().map(|sprite| sprite.color).collect();
    assert_eq!(colors, vec![BG_COLOR, BG_COLOR, PATH_COLOR, BG_COLOR]);
}

#[test]
fn apply_drops_an_event_for_a_sprite_that_is_gone() {
    let mut sprites = blank(4);
    assert_eq!(TileColorEvent::new(4, PATH_COLOR).apply(&mut sprites), Err(GridError::StaleHandle));
    assert_eq!(
        TileColorEvent::new(u64::MAX, PATH_COLOR).apply(&mut sprites),
        Err(GridError::StaleHandle)
    );
    assert_eq!(sprites, blank(4));
}

#[test]
fn a_batch_is_applied_in_order_and_passes_over_stale_events() {
    let mut sprites = blank(3);
    let batch = vec![
        TileColorEvent::new(1, OPEN_COLOR),
        TileColorEvent::new(7, PATH_COLOR),
        TileColorEvent::new(1, CLOSED_COLOR),
        TileColorEvent::new(0, PATH_COLOR),
    ];
    apply_batch(&batch, &mut sprites);
    let colors: Vec<Color> = sprites.iter().map(|sprite| sprite.color).collect();
    assert_eq!(colors, vec![PATH_COLOR, CLOSED_COLOR, BG_COLOR]);
}
