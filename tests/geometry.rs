use micromouse::cell_state::CellState;
use micromouse::geometry::{Cell, GeometryError, MazeOrientation, RunnerPosition, RunnerSide};

#[test]
fn shifted_covers_every_heading_and_side() {
    let (north, east, south, west) = (
        MazeOrientation::North,
        MazeOrientation::East,
        MazeOrientation::South,
        MazeOrientation::West,
    );
    let table = [
        (north, [north, west, east, south]),
        (east, [east, north, south, west]),
        (south, [south, east, west, north]),
        (west, [west, south, north, east]),
    ];
    for (heading, expected) in table {
        let sides = [RunnerSide::Front, RunnerSide::Left, RunnerSide::Right, RunnerSide::Back];
        for (side, want) in sides.iter().zip(expected.iter()) {
            assert_eq!(heading.shifted(*side), *want);
        }
    }
}

#[test]
fn wall_flag_matches_heading() {
    let w = MazeOrientation::East.wall();
    assert_eq!(
        w,
        CellState { north: false, east: true, south: false, west: false, visited: false }
    );
    assert_eq!(MazeOrientation::North.wall().bits(), 1);
    assert_eq!(MazeOrientation::South.wall().bits(), 4);
    assert_eq!(MazeOrientation::West.wall().bits(), 8);
}

#[test]
fn cell_new_checks_bounds() {
    assert_eq!(Cell::new(0, 0), Ok(Cell { x: 0, y: 0 }));
    assert_eq!(Cell::new(15, 15), Ok(Cell { x: 15, y: 15 }));
    assert_eq!(Cell::new(16, 0), Err(GeometryError::OutOfBounds));
    assert_eq!(Cell::new(0, -1), Err(GeometryError::OutOfBounds));
    assert_eq!(Cell::new(-1, 3), Err(GeometryError::OutOfBounds));
}

#[test]
fn neighbour_never_leaves_the_grid() {
    let corner = Cell::new(0, 0).unwrap();
    assert_eq!(corner.neighbour(MazeOrientation::South), Err(GeometryError::OutOfBounds));
    assert_eq!(corner.neighbour(MazeOrientation::West), Err(GeometryError::OutOfBounds));
    assert_eq!(corner.neighbour(MazeOrientation::North), Ok(Cell { x: 0, y: 1 }));
    assert_eq!(corner.neighbour(MazeOrientation::East), Ok(Cell { x: 1, y: 0 }));
    let far = Cell::new(15, 15).unwrap();
    assert_eq!(far.neighbour(MazeOrientation::North), Err(GeometryError::OutOfBounds));
    assert_eq!(far.neighbour(MazeOrientation::East), Err(GeometryError::OutOfBounds));
    for x in 0..16 {
        for y in 0..16 {
            let c = Cell::new(x, y).unwrap();
            for o in [
                MazeOrientation::North,
                MazeOrientation::East,
                MazeOrientation::South,
                MazeOrientation::West,
            ] {
                if let Ok(n) = c.neighbour(o) {
                    assert!(n.x < 16 && n.y < 16);
                }
            }
        }
    }
}

#[test]
fn starting_position_is_origin_facing_north() {
    let p = RunnerPosition::starting_position();
    assert_eq!(p.cell, Cell { x: 0, y: 0 });
    assert_eq!(p.orientation, MazeOrientation::North);
}

#[test]
fn cell_state_insert_and_contains() {
    let mut s = CellState::empty();
    assert_eq!(s.bits(), 0);
    s.insert(&MazeOrientation::North.wall());
    s.insert(&CellState::visited_flag());
    assert!(s.contains(&MazeOrientation::North.wall()));
    assert!(s.contains(&CellState::visited_flag()));
    assert!(!s.contains(&MazeOrientation::West.wall()));
    assert_eq!(s.bits(), 17);
    s.insert(&MazeOrientation::North.wall());
    assert_eq!(s.bits(), 17);
}
