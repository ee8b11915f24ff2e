use micromouse::floodfill::{FloodError, FloodfillRunner, WallReadings};
use micromouse::geometry::{Cell, MazeOrientation, RunnerSide};
use micromouse::protocol::MazeRunnerRequest;

fn cell(x: i16, y: i16) -> Cell {
    Cell::new(x, y).unwrap()
}

fn started() -> FloodfillRunner {
    let mut runner = FloodfillRunner::new();
    runner.start_attempt().unwrap();
    runner
}

fn is_goal(x: i16, y: i16) -> bool {
    (x == 7 || x == 8) && (y == 7 || y == 8)
}

/// Checks by brute force that every cell holds its relaxed value.
fn assert_settled(runner: &FloodfillRunner) {
    for x in 0..16 {
        for y in 0..16 {
            let c = cell(x, y);
            let v = runner.get_cell_value(c);
            if is_goal(x, y) {
                assert_eq!(v, 0);
                continue;
            }
            let mut m: u8 = 255;
            for o in [
                MazeOrientation::North,
                MazeOrientation::East,
                MazeOrientation::South,
                MazeOrientation::West,
            ] {
                if let Ok(n) = c.neighbour(o) {
                    if !runner.is_wall_at(c, o) {
                        m = m.min(runner.get_cell_value(n));
                    }
                }
            }
            let expected = if m == 255 { 255 } else { m + 1 };
            assert_eq!(v, expected, "cell ({}, {})", x, y);
        }
    }
}

#[test]
fn new_runner_knows_border_walls() {
    let runner = FloodfillRunner::new();
    assert!(runner.is_wall_at(cell(0, 0), MazeOrientation::South));
    assert!(runner.is_wall_at(cell(0, 0), MazeOrientation::West));
    assert!(!runner.is_wall_at(cell(0, 0), MazeOrientation::North));
    assert!(runner.is_wall_at(cell(15, 15), MazeOrientation::North));
    assert!(runner.is_wall_at(cell(15, 15), MazeOrientation::East));
    assert!(!runner.is_wall_at(cell(7, 7), MazeOrientation::East));
    assert_eq!(runner.get_cell_value(cell(3, 4)), 0);
}

#[test]
fn reseed_on_open_grid_gives_manhattan_distances() {
    let runner = started();
    assert_eq!(runner.get_cell_value(cell(7, 7)), 0);
    assert_eq!(runner.get_cell_value(cell(7, 8)), 0);
    assert_eq!(runner.get_cell_value(cell(8, 7)), 0);
    assert_eq!(runner.get_cell_value(cell(8, 8)), 0);
    assert_eq!(runner.get_cell_value(cell(0, 0)), 14);
    assert_eq!(runner.get_cell_value(cell(15, 15)), 14);
    assert_eq!(runner.get_cell_value(cell(7, 9)), 1);
    assert_settled(&runner);
}

#[test]
fn wall_on_shortest_approach_raises_values() {
    let mut runner = started();
    assert_eq!(runner.get_cell_value(cell(7, 9)), 1);
    assert_eq!(runner.get_cell_value(cell(7, 10)), 2);
    runner.discover_wall(cell(7, 9), MazeOrientation::South).unwrap();
    runner.recalculate_values().unwrap();
    assert_eq!(runner.get_cell_value(cell(7, 9)), 2);
    assert_eq!(runner.get_cell_value(cell(7, 10)), 3);
    assert_eq!(runner.get_cell_value(cell(8, 9)), 1);
    assert_settled(&runner);
}

#[test]
fn discovered_wall_is_mirrored() {
    let mut runner = started();
    runner.discover_wall(cell(3, 3), MazeOrientation::East).unwrap();
    assert!(runner.is_wall_at(cell(3, 3), MazeOrientation::East));
    assert!(runner.is_wall_at(cell(4, 3), MazeOrientation::West));
    assert!(!runner.is_wall_at(cell(4, 3), MazeOrientation::East));
    runner.recalculate_values().unwrap();
    assert_settled(&runner);
}

#[test]
fn relaxation_settles_around_a_walled_pocket() {
    let mut runner = started();
    for y in 0..15 {
        runner.discover_wall(cell(2, y), MazeOrientation::East).unwrap();
        runner.recalculate_values().unwrap();
    }
    assert_settled(&runner);
    assert_eq!(runner.get_cell_value(cell(0, 0)), 29);
    runner.discover_wall(cell(2, 15), MazeOrientation::East).unwrap();
    runner.recalculate_values().unwrap();
    assert_settled(&runner);
    assert_eq!(runner.get_cell_value(cell(0, 0)), 255);
    assert_eq!(runner.get_cell_value(cell(2, 15)), 255);
    assert_eq!(runner.get_cell_value(cell(3, 0)), 11);
}

#[test]
fn reseed_twice_gives_same_values() {
    let mut runner = started();
    runner.discover_wall(cell(6, 7), MazeOrientation::East).unwrap();
    runner.discover_wall(cell(5, 5), MazeOrientation::North).unwrap();
    runner.recalculate_values().unwrap();
    runner.first_flood().unwrap();
    let first = runner.values;
    runner.first_flood().unwrap();
    assert_eq!(first, runner.values);
}

#[test]
fn left_is_chosen_when_front_and_right_are_walled() {
    let mut runner = started();
    runner.rotate_right();
    assert_eq!(runner.position.orientation, MazeOrientation::East);
    runner.discover_wall(cell(0, 0), MazeOrientation::East).unwrap();
    runner.recalculate_values().unwrap();
    assert_eq!(runner.get_next_move(), RunnerSide::Left);
    assert_eq!(runner.get_next_move(), RunnerSide::Left);
}

#[test]
fn front_wins_a_tie_with_right() {
    let runner = started();
    assert_eq!(runner.get_cell_value(cell(0, 1)), runner.get_cell_value(cell(1, 0)));
    assert_eq!(runner.get_next_move(), RunnerSide::Front);
}

#[test]
fn back_when_all_three_sides_are_walled() {
    let mut runner = started();
    runner.discover_wall(cell(0, 0), MazeOrientation::North).unwrap();
    runner.discover_wall(cell(0, 0), MazeOrientation::East).unwrap();
    runner.recalculate_values().unwrap();
    assert_eq!(runner.get_next_move(), RunnerSide::Back);
}

#[test]
fn moving_off_the_grid_fails() {
    let mut runner = started();
    runner.rotate_left();
    assert_eq!(runner.move_forward(), Err(FloodError::OutOfBounds));
    assert_eq!(runner.position.cell, cell(0, 0));
    assert_eq!(runner.make_move(RunnerSide::Left), Err(FloodError::OutOfBounds));
}

#[test]
fn make_move_turns_then_moves() {
    let mut runner = started();
    runner.take_outbox();
    runner.make_move(RunnerSide::Right).unwrap();
    assert_eq!(runner.position.cell, cell(1, 0));
    assert_eq!(runner.position.orientation, MazeOrientation::East);
    assert_eq!(
        runner.take_outbox(),
        vec![MazeRunnerRequest::RotateRight90, MazeRunnerRequest::MoveForward]
    );
    runner.make_move(RunnerSide::Back).unwrap();
    assert_eq!(runner.position.cell, cell(0, 0));
    assert_eq!(runner.position.orientation, MazeOrientation::West);
    assert_eq!(
        runner.take_outbox(),
        vec![
            MazeRunnerRequest::RotateLeft90,
            MazeRunnerRequest::RotateLeft90,
            MazeRunnerRequest::MoveForward
        ]
    );
}

#[test]
fn worklist_overflows_at_capacity() {
    let mut runner = started();
    for _ in 0..1024 {
        runner.queue_for_recalculation(cell(1, 1)).unwrap();
    }
    assert_eq!(runner.queue_for_recalculation(cell(1, 1)), Err(FloodError::WorklistFull));
    runner.recalculate_values().unwrap();
    runner.queue_for_recalculation(cell(1, 1)).unwrap();
}

#[test]
fn queued_cell_is_relaxed() {
    let mut runner = started();
    runner.set_cell_value(cell(4, 4), 200);
    runner.queue_for_recalculation(cell(4, 4)).unwrap();
    runner.recalculate_values().unwrap();
    assert_eq!(runner.get_cell_value(cell(4, 4)), 6);
}

#[test]
fn value_updates_are_reported() {
    let mut runner = FloodfillRunner::new();
    runner.take_outbox();
    runner.set_cell_value(cell(2, 3), 9);
    runner.set_cell_state(cell(2, 3), MazeOrientation::North.wall());
    let sent = runner.take_outbox();
    assert_eq!(sent.len(), 2);
    assert_eq!(sent[0], MazeRunnerRequest::UpdateCellValue { x: 2, y: 3, value: 9 });
    match sent[1] {
        MazeRunnerRequest::UpdateCellState { x, y, state } => {
            assert_eq!((x, y), (2, 3));
            assert!(state.north && !state.south);
        }
        other => panic!("unexpected request {:?}", other),
    }
    assert!(runner.take_outbox().is_empty());
}

#[test]
fn step_senses_marks_and_moves() {
    let mut runner = started();
    assert!(!runner.is_current_visited());
    let side = runner
        .step(Some(WallReadings { front: false, right: true, left: false }))
        .unwrap();
    assert!(runner.is_wall_at(cell(0, 0), MazeOrientation::East));
    assert!(runner.is_wall_at(cell(1, 0), MazeOrientation::West));
    assert!(runner.get_cell_state(cell(0, 0)).visited);
    assert_eq!(side, RunnerSide::Front);
    assert_eq!(runner.position.cell, cell(0, 1));
    assert_settled(&runner);
}

#[test]
fn attempt_reaches_the_goal_on_an_open_grid() {
    let mut runner = started();
    let mut steps = 0;
    while !runner.finished() {
        let readings = if runner.is_current_visited() {
            None
        } else {
            Some(WallReadings { front: false, right: false, left: false })
        };
        runner.step(readings).unwrap();
        steps += 1;
        assert!(steps <= 14);
    }
    assert_eq!(steps, 14);
    runner.start_attempt().unwrap();
    assert_eq!(runner.position.cell, cell(0, 0));
    assert!(runner.get_cell_state(cell(0, 0)).visited);
}

#[test]
fn step_without_readings_leaves_the_map_alone() {
    let mut runner = started();
    let before = runner.maze;
    let side = runner.step(None).unwrap();
    assert_eq!(side, RunnerSide::Front);
    assert_eq!(before, runner.maze);
    assert!(!runner.get_cell_state(cell(0, 0)).visited);
    assert_eq!(runner.position.cell, cell(0, 1));
}

#[test]
fn open_side_is_taken_even_without_a_known_path() {
    let mut runner = started();
    runner.set_cell_value(cell(0, 1), 255);
    runner.set_cell_value(cell(1, 0), 255);
    assert_eq!(runner.get_next_move(), RunnerSide::Front);
}

#[test]
fn left_is_taken_when_it_is_the_only_open_side() {
    let mut runner = started();
    runner.make_move(RunnerSide::Right).unwrap();
    runner.rotate_left();
    assert_eq!(runner.position.cell, cell(1, 0));
    assert_eq!(runner.position.orientation, MazeOrientation::North);
    runner.discover_wall(cell(1, 0), MazeOrientation::North).unwrap();
    runner.discover_wall(cell(1, 0), MazeOrientation::East).unwrap();
    runner.recalculate_values().unwrap();
    runner.set_cell_value(cell(0, 0), 255);
    assert_eq!(runner.get_next_move(), RunnerSide::Left);
}

#[test]
fn relaxation_reports_changed_values() {
    let mut runner = started();
    runner.take_outbox();
    runner.discover_wall(cell(7, 9), MazeOrientation::South).unwrap();
    let walls = runner.take_outbox();
    assert_eq!(walls.len(), 2);
    runner.recalculate_values().unwrap();
    let sent = runner.take_outbox();
    assert!(sent.contains(&MazeRunnerRequest::UpdateCellValue { x: 7, y: 9, value: 2 }));
    assert!(sent.contains(&MazeRunnerRequest::UpdateCellValue { x: 7, y: 10, value: 3 }));
    for r in sent {
        assert!(matches!(r, MazeRunnerRequest::UpdateCellValue { .. }));
    }
}

#[test]
fn add_wall_records_only() {
    let mut runner = started();
    runner.take_outbox();
    runner.add_wall(RunnerSide::Front);
    assert!(runner.is_wall_at(cell(0, 0), MazeOrientation::North));
    assert!(runner.is_wall_at(cell(0, 1), MazeOrientation::South));
    assert_eq!(runner.take_outbox().len(), 2);
    for _ in 0..1024 {
        runner.queue_for_recalculation(cell(1, 1)).unwrap();
    }
    runner.add_wall(RunnerSide::Right);
    assert!(runner.is_wall_at(cell(1, 0), MazeOrientation::West));
}

#[test]
fn process_walls_queues_the_neighbours() {
    let mut runner = started();
    runner.queue_for_recalculation(cell(0, 0)).unwrap();
    runner
        .process_walls(WallReadings { front: true, right: true, left: true })
        .unwrap();
    assert!(runner.is_wall_at(cell(0, 0), MazeOrientation::North));
    assert!(runner.is_wall_at(cell(0, 0), MazeOrientation::East));
    assert!(runner.is_wall_at(cell(0, 1), MazeOrientation::South));
    assert!(runner.is_wall_at(cell(1, 0), MazeOrientation::West));
    runner.recalculate_values().unwrap();
    assert_eq!(runner.get_cell_value(cell(0, 1)), 13);
    assert_eq!(runner.get_cell_value(cell(0, 0)), 255);
}

#[test]
fn move_off_the_grid_still_sends_the_commands() {
    let mut runner = started();
    runner.take_outbox();
    assert_eq!(runner.make_move(RunnerSide::Left), Err(FloodError::OutOfBounds));
    assert_eq!(runner.position.orientation, MazeOrientation::West);
    assert_eq!(
        runner.take_outbox(),
        vec![MazeRunnerRequest::RotateLeft90, MazeRunnerRequest::MoveForward]
    );
}
