//! Headings, runner-relative sides, cells of the grid and the runner's position.
use vstd::prelude::*;

use crate::cell_state::CellState;

verus! {

/// The number of cells along each side of the maze.
pub const MAZE_SIZE: i16 = 16;

/// A side of the runner, relative to its heading.
#[derive(Clone, Copy, Debug, PartialEq, Eq, Structural)]
pub enum RunnerSide {
    Front,
    Left,
    Right,
    Back,
}

impl RunnerSide {
    /// How many quarter turns clockwise this side lies from the heading.
    pub open spec fn quarter_turns(self) -> int {
        match self {
            RunnerSide::Front => 0,
            RunnerSide::Right => 1,
            RunnerSide::Back => 2,
            RunnerSide::Left => 3,
        }
    }
}

/// An absolute heading in the maze. North is toward larger `y`, east toward larger `x`.
#[derive(Clone, Copy, Debug, PartialEq, Eq, Structural)]
pub enum MazeOrientation {
    North,
    East,
    South,
    West,
}

/// A coordinate that lies inside the grid.
pub open spec fn in_grid(x: int, y: int) -> bool {
    0 <= x < 16 && 0 <= y < 16
}

impl MazeOrientation {
    /// Position of the heading on the compass, clockwise from north.
    pub open spec fn compass(self) -> int {
        match self {
            MazeOrientation::North => 0,
            MazeOrientation::East => 1,
            MazeOrientation::South => 2,
            MazeOrientation::West => 3,
        }
    }

    /// The heading at a given compass position.
    pub open spec fn from_compass(i: int) -> MazeOrientation {
        if i % 4 == 0 {
            MazeOrientation::North
        } else if i % 4 == 1 {
            MazeOrientation::East
        } else if i % 4 == 2 {
            MazeOrientation::South
        } else {
            MazeOrientation::West
        }
    }

    /// The heading that `side` of a runner facing `self` points to.
    pub open spec fn spec_shifted(self, side: RunnerSide) -> MazeOrientation {
        MazeOrientation::from_compass(self.compass() + side.quarter_turns())
    }

    /// The reverse heading.
    pub open spec fn opposite(self) -> MazeOrientation {
        match self {
            MazeOrientation::North => MazeOrientation::South,
            MazeOrientation::East => MazeOrientation::West,
            MazeOrientation::South => MazeOrientation::North,
            MazeOrientation::West => MazeOrientation::East,
        }
    }

    /// The back side of a runner points opposite to its heading.
    pub proof fn lemma_back_is_opposite(self)
        ensures
            self.spec_shifted(RunnerSide::Back) == self.opposite(),
    {
    }

    /// Step along `x` of one move in this heading.
    pub open spec fn dx(self) -> int {
        match self {
            MazeOrientation::East => 1,
            MazeOrientation::West => -1,
            _ => 0,
        }
    }

    /// Step along `y` of one move in this heading.
    pub open spec fn dy(self) -> int {
        match self {
            MazeOrientation::North => 1,
            MazeOrientation::South => -1,
            _ => 0,
        }
    }

    /// The absolute heading of `runner_side` for a runner that faces `self`.
    pub fn shifted(&self, runner_side: RunnerSide) -> (r: MazeOrientation)
        ensures
            r == self.spec_shifted(runner_side),
    {
        match self {
            MazeOrientation::North => match runner_side {
                RunnerSide::Front => MazeOrientation::North,
                RunnerSide::Left => MazeOrientation::West,
                RunnerSide::Right => MazeOrientation::East,
                RunnerSide::Back => MazeOrientation::South,
            },
            MazeOrientation::East => match runner_side {
                RunnerSide::Front => MazeOrientation::East,
                RunnerSide::Left => MazeOrientation::North,
                RunnerSide::Right => MazeOrientation::South,
                RunnerSide::Back => MazeOrientation::West,
            },
            MazeOrientation::South => match runner_side {
                RunnerSide::Front => MazeOrientation::South,
                RunnerSide::Left => MazeOrientation::East,
                RunnerSide::Right => MazeOrientation::West,
                RunnerSide::Back => MazeOrientation::North,
            },
            MazeOrientation::West => match runner_side {
                RunnerSide::Front => MazeOrientation::West,
                RunnerSide::Left => MazeOrientation::South,
                RunnerSide::Right => MazeOrientation::North,
                RunnerSide::Back => MazeOrientation::East,
            },
        }
    }

    /// The cell flags that hold just the wall on this side of a cell.
    pub open spec fn spec_wall(self) -> CellState {
        CellState {
            north: self == MazeOrientation::North,
            east: self == MazeOrientation::East,
            south: self == MazeOrientation::South,
            west: self == MazeOrientation::West,
            visited: false,
        }
    }

    /// The wall flag on this side of a cell.
    pub fn wall(&self) -> (r: CellState)
        ensures
            r == self.spec_wall(),
    {
        match self {
            MazeOrientation::North => CellState {
                north: true,
                east: false,
                south: false,
                west: false,
                visited: false,
            },
            MazeOrientation::East => CellState {
                north: false,
                east: true,
                south: false,
                west: false,
                visited: false,
            },
            MazeOrientation::South => CellState {
                north: false,
                east: false,
                south: true,
                west: false,
                visited: false,
            },
            MazeOrientation::West => CellState {
                north: false,
                east: false,
                south: false,
                west: true,
                visited: false,
            },
        }
    }
}

impl CellState {
    /// Whether the flags hold a wall on side `o`.
    pub open spec fn has_wall(self, o: MazeOrientation) -> bool {
        match o {
            MazeOrientation::North => self.north,
            MazeOrientation::East => self.east,
            MazeOrientation::South => self.south,
            MazeOrientation::West => self.west,
        }
    }
}

/// A computed coordinate fell outside the grid.
#[derive(Clone, Copy, Debug, PartialEq, Eq, Structural)]
pub enum GeometryError {
    OutOfBounds,
}

/// A cell of the grid.
#[derive(Clone, Copy, Debug, PartialEq, Eq, Structural)]
pub struct Cell {
    pub x: u8,
    pub y: u8,
}

impl Cell {
    /// Both coordinates lie inside the grid.
    pub open spec fn wf(self) -> bool {
        in_grid(self.x as int, self.y as int)
    }

    /// The cell at `(x, y)`, or `OutOfBounds` when that lies outside the grid.
    pub fn new(x: i16, y: i16) -> (r: Result<Cell, GeometryError>)
        ensures
            r is Ok <==> in_grid(x as int, y as int),
            r matches Ok(c) ==> c.wf() && c.x as int == x && c.y as int == y,
            r matches Err(e) ==> e == GeometryError::OutOfBounds,
    {
        if x < 0 || x >= MAZE_SIZE || y < 0 || y >= MAZE_SIZE {
            return Err(GeometryError::OutOfBounds);
        }
        Ok(Cell { x: x as u8, y: y as u8 })
    }

    /// The coordinate one step from this cell toward `o`, which may lie off the grid.
    pub open spec fn step_x(self, o: MazeOrientation) -> int {
        self.x as int + o.dx()
    }

    /// See `step_x`.
    pub open spec fn step_y(self, o: MazeOrientation) -> int {
        self.y as int + o.dy()
    }

    /// The adjacent cell toward `orientation`; `OutOfBounds` when it would lie
    /// outside the grid.
    pub fn neighbour(&self, orientation: MazeOrientation) -> (r: Result<Cell, GeometryError>)
        requires
            self.wf(),
        ensures
            r is Ok <==> in_grid(self.step_x(orientation), self.step_y(orientation)),
            r matches Ok(c) ==> c.wf() && c.x as int == self.step_x(orientation) && c.y as int
                == self.step_y(orientation),
            r matches Err(e) ==> e == GeometryError::OutOfBounds,
    {
        match orientation {
            MazeOrientation::North => Self::new(self.x as i16, self.y as i16 + 1),
            MazeOrientation::East => Self::new(self.x as i16 + 1, self.y as i16),
            MazeOrientation::South => Self::new(self.x as i16, self.y as i16 - 1),
            MazeOrientation::West => Self::new(self.x as i16 - 1, self.y as i16),
        }
    }
}

/// Where the runner stands and which way it faces.
#[derive(Clone, Copy, Debug, PartialEq, Eq, Structural)]
pub struct RunnerPosition {
    pub cell: Cell,
    pub orientation: MazeOrientation,
}

impl RunnerPosition {
    /// Cell (0, 0), facing north.
    pub open spec fn start() -> RunnerPosition {
        RunnerPosition { cell: Cell { x: 0, y: 0 }, orientation: MazeOrientation::North }
    }

    /// The start of every attempt: cell (0, 0), facing north.
    pub fn starting_position() -> (r: RunnerPosition)
        ensures
            r == RunnerPosition::start(),
    {
        RunnerPosition { cell: Cell { x: 0, y: 0 }, orientation: MazeOrientation::North }
    }
}

} // verus!
