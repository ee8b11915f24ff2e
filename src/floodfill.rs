//! The map of the maze, the wavefront relaxation that keeps every cell's
//! distance to the goal consistent with the known walls, the choice of the next
//! move, and one step of an attempt.
use vstd::prelude::*;

use crate::cell_state::CellState;
use crate::geometry::{in_grid, Cell, MazeOrientation, RunnerPosition, RunnerSide};
use crate::model::{
    at_or_above, at_or_below, open_item, open_neighbour_items, border_walls, cell_index, consistent_at, goals_pinned, is_goal,
    items_in_grid, lemma_add_inner_wall, lemma_add_outer_wall, lemma_drop_last_keeps,
    lemma_push_in_grid, lemma_push_keeps, lemma_relaxation_write_keeps_direction,
    lemma_relaxed_after_write, lemma_relaxed_more_walls, lemma_same_walls, lemma_seeded_source,
    lemma_value_sum_bounds, outbox_extends, seed_reported, seed_value, value_report,
    lemma_seed_report_push, lemma_values_reported_none, lemma_values_reported_trans,
    lemma_values_reported_write, maze_grows, values_reported, min_open_value, move_requests, next_move, open_toward, pending_queued,
    relaxed_value, settled, side_open, settling_down, settling_up, side_value, value_sum, value_toward,
    neighbour_items, wall_added, wall_items, wall_mirrored, wall_reports, walls_symmetric,
};
use crate::protocol::MazeRunnerRequest;
use crate::worklist::{
    worklist_clear, worklist_items, worklist_new, worklist_pop_back, worklist_push_back,
};

verus! {

/// The value of a cell with no known open path to the goal.
pub const UNREACHABLE: u8 = 255;

/// A failure that ends the current attempt.
#[derive(Clone, Copy, Debug, PartialEq, Eq, Structural)]
pub enum FloodError {
    /// The recalculation worklist is at capacity.
    WorklistFull,
    /// A move would leave the grid.
    OutOfBounds,
}

/// What the runner sensed in front of it, to its right and to its left.
#[derive(Clone, Copy, Debug, PartialEq, Eq, Structural)]
pub struct WallReadings {
    pub front: bool,
    pub right: bool,
    pub left: bool,
}

/// The runner's map of the maze, its distance grid and its position.
pub struct FloodfillRunner {
    /// Where the runner stands and which way it faces.
    pub position: RunnerPosition,
    /// The value of cell `(x, y)` at index `16 * x + y`.
    pub values: [u8; 256],
    /// The flags of cell `(x, y)` at index `16 * x + y`.
    pub maze: [CellState; 256],
    /// The recalculation worklist, popped from the back.
    pub stack: heapless::Deque<(u8, u8), 1024>,
    /// Map updates and moves to pass on to the device, oldest first.
    pub outbox: Vec<MazeRunnerRequest>,
}

impl FloodfillRunner {
    /// The structural invariant kept by every operation.
    pub open spec fn wf(&self) -> bool {
        &&& self.position.cell.wf()
        &&& walls_symmetric(self.maze@)
        &&& goals_pinned(self.values@)
        &&& items_in_grid(worklist_items(self.stack))
        &&& worklist_items(self.stack).len() <= 1024
    }

    /// The cells that the worklist holds.
    pub open spec fn items(&self) -> Seq<(u8, u8)> {
        worklist_items(self.stack)
    }

    /// Every cell that relaxation would change is on the worklist.
    pub open spec fn pending_queued(&self) -> bool {
        pending_queued(self.maze@, self.values@, self.items())
    }

    /// The flags of `cell`.
    pub open spec fn state_at(&self, cell: Cell) -> CellState {
        self.maze@[cell_index(cell.x as int, cell.y as int)]
    }

    /// The value of `cell`.
    pub open spec fn value_at(&self, cell: Cell) -> u8 {
        self.values@[cell_index(cell.x as int, cell.y as int)]
    }

    fn index_of(cell: Cell) -> (r: usize)
        requires
            cell.wf(),
        ensures
            r as int == cell_index(cell.x as int, cell.y as int),
            r < 256,
    {
        cell.x as usize * 16 + cell.y as usize
    }

    /// The flags of `cell`.
    pub fn get_cell_state(&self, cell: Cell) -> (r: CellState)
        requires
            cell.wf(),
        ensures
            r == self.state_at(cell),
    {
        self.maze[Self::index_of(cell)]
    }

    /// Adds the flags of `state` to `cell` and reports the cell's new flags to the device.
    pub fn set_cell_state(&mut self, cell: Cell, state: CellState)
        requires
            cell.wf(),
        ensures
            final(self).maze@ == old(self).maze@.update(
                cell_index(cell.x as int, cell.y as int),
                old(self).state_at(cell).union(state),
            ),
            final(self).outbox@ == old(self).outbox@.push(
                MazeRunnerRequest::UpdateCellState {
                    x: cell.x as usize,
                    y: cell.y as usize,
                    state: old(self).state_at(cell).union(state),
                },
            ),
            final(self).values == old(self).values,
            final(self).position == old(self).position,
            final(self).stack == old(self).stack,
    {
        let i = Self::index_of(cell);
        let mut s = self.maze[i];
        s.insert(&state);
        self.maze[i] = s;
        self.outbox.push(
            MazeRunnerRequest::UpdateCellState { x: cell.x as usize, y: cell.y as usize, state: s },
        );
    }

    /// The value of `cell`.
    pub fn get_cell_value(&self, cell: Cell) -> (r: u8)
        requires
            cell.wf(),
        ensures
            r == self.value_at(cell),
    {
        self.values[Self::index_of(cell)]
    }

    /// Stores `value` for `cell` and reports it to the device.
    pub fn set_cell_value(&mut self, cell: Cell, value: u8)
        requires
            cell.wf(),
        ensures
            final(self).values@ == old(self).values@.update(
                cell_index(cell.x as int, cell.y as int),
                value,
            ),
            final(self).outbox@ == old(self).outbox@.push(
                MazeRunnerRequest::UpdateCellValue {
                    x: cell.x as usize,
                    y: cell.y as usize,
                    value: value as i32,
                },
            ),
            final(self).maze == old(self).maze,
            final(self).position == old(self).position,
            final(self).stack == old(self).stack,
    {
        let i = Self::index_of(cell);
        self.values[i] = value;
        self.outbox.push(
            MazeRunnerRequest::UpdateCellValue {
                x: cell.x as usize,
                y: cell.y as usize,
                value: value as i32,
            },
        );
    }

    /// Whether the flags of `cell` hold a wall on side `orientation`.
    pub fn is_wall_at(&self, cell: Cell, orientation: MazeOrientation) -> (r: bool)
        requires
            cell.wf(),
        ensures
            r == self.state_at(cell).has_wall(orientation),
    {
        let state = self.get_cell_state(cell);
        state.contains(&orientation.wall())
    }

    /// Whether `cell` belongs to the goal region.
    pub fn is_target_cell(&self, cell: Cell) -> (r: bool)
        ensures
            r == is_goal(cell.x as int, cell.y as int),
    {
        (cell.x == 7 || cell.x == 8) && (cell.y == 7 || cell.y == 8)
    }

    /// Puts `cell` on the back of the worklist; fails when the worklist is full.
    pub fn queue_for_recalculation(&mut self, cell: Cell) -> (r: Result<(), FloodError>)
        ensures
            r is Ok <==> old(self).items().len() < 1024,
            r matches Ok(_) ==> final(self).items() == old(self).items().push((cell.x, cell.y)),
            r matches Err(e) ==> e == FloodError::WorklistFull && final(self).items() == old(
                self,
            ).items(),
            final(self).maze == old(self).maze,
            final(self).values == old(self).values,
            final(self).position == old(self).position,
            final(self).outbox == old(self).outbox,
    {
        match worklist_push_back(&mut self.stack, (cell.x, cell.y)) {
            Ok(()) => Ok(()),
            Err(_) => Err(FloodError::WorklistFull),
        }
    }

    /// The value of the neighbour of `cell` toward `orientation` when the way there
    /// is open, else the sentinel.
    fn open_neighbour_value(&self, cell: Cell, orientation: MazeOrientation) -> (r: u8)
        requires
            cell.wf(),
        ensures
            r as int == value_toward(
                self.maze@,
                self.values@,
                cell.x as int,
                cell.y as int,
                orientation,
            ),
    {
        match cell.neighbour(orientation) {
            Ok(neighbour) => {
                if !self.is_wall_at(cell, orientation) {
                    self.get_cell_value(neighbour)
                } else {
                    UNREACHABLE
                }
            },
            Err(_) => UNREACHABLE,
        }
    }

    /// The smallest value among the open neighbours of `cell`, or the sentinel.
    pub fn get_open_neighbours_min_value(&self, cell: Cell) -> (r: u8)
        requires
            cell.wf(),
        ensures
            r as int == min_open_value(self.maze@, self.values@, cell.x as int, cell.y as int),
    {
        let mut minimal: u8 = UNREACHABLE;
        let v = self.open_neighbour_value(cell, MazeOrientation::North);
        if v < minimal {
            minimal = v;
        }
        let v = self.open_neighbour_value(cell, MazeOrientation::East);
        if v < minimal {
            minimal = v;
        }
        let v = self.open_neighbour_value(cell, MazeOrientation::South);
        if v < minimal {
            minimal = v;
        }
        let v = self.open_neighbour_value(cell, MazeOrientation::West);
        if v < minimal {
            minimal = v;
        }
        minimal
    }

    /// Puts the neighbour of `cell` toward `orientation` on the worklist when the
    /// way there is open.
    fn queue_if_open(&mut self, cell: Cell, orientation: MazeOrientation) -> (r: Result<
        (),
        FloodError,
    >)
        requires
            cell.wf(),
            items_in_grid(old(self).items()),
            old(self).items().len() <= 1024,
        ensures
            items_in_grid(final(self).items()),
            final(self).items().len() <= 1024,
            r is Ok <==> old(self).items().len() + open_item(
                old(self).maze@,
                cell.x as int,
                cell.y as int,
                orientation,
            ).len() <= 1024,
            r is Ok ==> final(self).items() == old(self).items() + open_item(
                old(self).maze@,
                cell.x as int,
                cell.y as int,
                orientation,
            ),
            r is Err ==> final(self).items() == old(self).items() && old(self).items().len()
                >= 1024,
            r matches Err(e) ==> e == FloodError::WorklistFull,
            final(self).maze == old(self).maze,
            final(self).values == old(self).values,
            final(self).position == old(self).position,
            final(self).outbox == old(self).outbox,
    {
        if let Ok(neighbour) = cell.neighbour(orientation) {
            if !self.is_wall_at(cell, orientation) {
                let r = self.queue_for_recalculation(neighbour);
                proof {
                    lemma_push_in_grid(old(self).items(), (neighbour.x, neighbour.y));
                    assert(old(self).items().push((neighbour.x, neighbour.y)) =~= old(
                        self,
                    ).items() + open_item(
                        old(self).maze@,
                        cell.x as int,
                        cell.y as int,
                        orientation,
                    ));
                }
                return r;
            }
        }
        assert(old(self).items() =~= old(self).items() + open_item(
            old(self).maze@,
            cell.x as int,
            cell.y as int,
            orientation,
        ));
        Ok(())
    }

    /// Puts every open neighbour of `cell` on the worklist.
    pub fn process_open_neighbours(&mut self, cell: Cell) -> (r: Result<(), FloodError>)
        requires
            cell.wf(),
            items_in_grid(old(self).items()),
            old(self).items().len() <= 1024,
        ensures
            items_in_grid(final(self).items()),
            final(self).items().len() <= 1024,
            r is Ok <==> old(self).items().len() + open_neighbour_items(
                old(self).maze@,
                cell.x as int,
                cell.y as int,
            ).len() <= 1024,
            r matches Ok(_) ==> forall|p: (u8, u8)|
                old(self).items().contains(p) ==> #[trigger] final(self).items().contains(p),
            r matches Ok(_) ==> forall|o: MazeOrientation|
                open_toward(old(self).maze@, cell.x as int, cell.y as int, o)
                    ==> #[trigger] final(self).items().contains(
                    ((cell.x as int + o.dx()) as u8, (cell.y as int + o.dy()) as u8),
                ),
            r is Ok ==> final(self).items() == old(self).items() + open_neighbour_items(
                old(self).maze@,
                cell.x as int,
                cell.y as int,
            ),
            r is Err ==> final(self).items().len() >= 1024,
            r matches Err(e) ==> e == FloodError::WorklistFull,
            final(self).maze == old(self).maze,
            final(self).values == old(self).values,
            final(self).position == old(self).position,
            final(self).outbox == old(self).outbox,
    {
        let ghost s0 = self.items();
        self.queue_if_open(cell, MazeOrientation::North)?;
        let ghost s1 = self.items();
        self.queue_if_open(cell, MazeOrientation::East)?;
        let ghost s2 = self.items();
        self.queue_if_open(cell, MazeOrientation::South)?;
        let ghost s3 = self.items();
        self.queue_if_open(cell, MazeOrientation::West)?;
        let ghost s4 = self.items();
        proof {
            let n = (
                (cell.x as int + MazeOrientation::North.dx()) as u8,
                (cell.y as int + MazeOrientation::North.dy()) as u8,
            );
            let e = (
                (cell.x as int + MazeOrientation::East.dx()) as u8,
                (cell.y as int + MazeOrientation::East.dy()) as u8,
            );
            let so = (
                (cell.x as int + MazeOrientation::South.dx()) as u8,
                (cell.y as int + MazeOrientation::South.dy()) as u8,
            );
            let w = (
                (cell.x as int + MazeOrientation::West.dx()) as u8,
                (cell.y as int + MazeOrientation::West.dy()) as u8,
            );
            let m = self.maze@;
            let (cx, cy) = (cell.x as int, cell.y as int);
            let o_n = open_item(m, cx, cy, MazeOrientation::North);
            let o_e = open_item(m, cx, cy, MazeOrientation::East);
            let o_s = open_item(m, cx, cy, MazeOrientation::South);
            let o_w = open_item(m, cx, cy, MazeOrientation::West);
            assert(s2 =~= s0 + (o_n + o_e));
            assert(s3 =~= s0 + (o_n + o_e + o_s));
            assert(s4 =~= s0 + (o_n + o_e + o_s + o_w));
            assert forall|p: (u8, u8)| s0.contains(p) implies #[trigger] s4.contains(p) by {
                let i = choose|i: int| 0 <= i < s0.len() && s0[i] == p;
                assert(s4[i] == p);
            }
            assert forall|o: MazeOrientation| open_toward(m, cx, cy, o) implies #[trigger] s4.contains(
                ((cx + o.dx()) as u8, (cy + o.dy()) as u8),
            ) by {
                match o {
                    MazeOrientation::North => {
                        assert(s4[s0.len() as int] == n);
                    },
                    MazeOrientation::East => {
                        assert(s4[s1.len() as int] == e);
                    },
                    MazeOrientation::South => {
                        assert(s4[s2.len() as int] == so);
                    },
                    MazeOrientation::West => {
                        assert(s4[s3.len() as int] == w);
                    },
                }
            }
        }
        Ok(())
    }

    /// The relaxation pass: takes cells off the back of the worklist until it is
    /// empty; each non-goal cell taken gets its relaxed value, and when that value
    /// changed its open neighbours go on the worklist. On success the value grid is
    /// a fixpoint of relaxation and the worklist is empty. It fails when the
    /// worklist overflows. The pass starts either with every value at or above its
    /// relaxed value (after a full re-seed), so that values only fall, or with
    /// every value at or below it (after walls were added to a settled grid), so
    /// that values only rise; either way it ends.
    pub fn recalculate_values(&mut self) -> (r: Result<(), FloodError>)
        requires
            old(self).wf(),
            old(self).pending_queued(),
            settling_down(old(self).maze@, old(self).values@) || settling_up(
                old(self).maze@,
                old(self).values@,
            ),
        ensures
            final(self).wf(),
            final(self).maze == old(self).maze,
            final(self).position == old(self).position,
            values_reported(
                old(self).outbox@,
                final(self).outbox@,
                old(self).values@,
                final(self).values@,
            ),
            settling_up(old(self).maze@, old(self).values@) ==> forall|i: int|
                0 <= i < 256 ==> #[trigger] final(self).values@[i] >= old(self).values@[i],
            settling_down(old(self).maze@, old(self).values@) ==> forall|i: int|
                0 <= i < 256 ==> #[trigger] final(self).values@[i] <= old(self).values@[i],
            r is Ok ==> settled(final(self).maze@, final(self).values@),
            r is Ok ==> final(self).items().len() == 0,
            r matches Err(e) ==> e == FloodError::WorklistFull,
            r is Err ==> final(self).items().len() >= 1024,
    {
        let ghost down = settling_down(self.maze@, self.values@);
        proof {
            lemma_value_sum_bounds(self.values@, 256);
            lemma_values_reported_none(self.outbox@, self.values@);
        }
        loop
            invariant
                self.wf(),
                self.pending_queued(),
                self.maze == old(self).maze,
                self.position == old(self).position,
                down == settling_down(old(self).maze@, old(self).values@),
                down ==> settling_down(self.maze@, self.values@),
                values_reported(old(self).outbox@, self.outbox@, old(self).values@, self.values@),
                !down ==> settling_up(self.maze@, self.values@),
                !down ==> forall|i: int|
                    0 <= i < 256 ==> #[trigger] self.values@[i] >= old(self).values@[i],
                down ==> forall|i: int|
                    0 <= i < 256 ==> #[trigger] self.values@[i] <= old(self).values@[i],
                down && settling_up(old(self).maze@, old(self).values@) ==> self.values@ == old(
                    self,
                ).values@,
                0 <= value_sum(self.values@, 256) <= 255 * 256,
            decreases (if down {
                value_sum(self.values@, 256)
            } else {
                255 * 256 - value_sum(self.values@, 256)
            }), self.items().len(),
        {
            let ghost items0 = self.items();
            let ghost values0 = self.values@;
            let popped = worklist_pop_back(&mut self.stack);
            match popped {
                None => {
                    assert forall|x: int, y: int| in_grid(x, y) implies #[trigger] consistent_at(
                        self.maze@,
                        self.values@,
                        x,
                        y,
                    ) by {
                        if !is_goal(x, y) && !consistent_at(self.maze@, self.values@, x, y) {
                            assert(items0.contains((x as u8, y as u8)));
                        }
                    }
                    return Ok(());
                },
                Some(p) => {
                    proof {
                        lemma_drop_last_keeps(items0);
                    }
                    let cell = Cell { x: p.0, y: p.1 };
                    assert(in_grid(items0[items0.len() - 1].0 as int, items0[items0.len() - 1].1 as int));
                    if !self.is_target_cell(cell) {
                        let minimal = self.get_open_neighbours_min_value(cell);
                        let new_value: u8 = if minimal == UNREACHABLE {
                            UNREACHABLE
                        } else {
                            minimal + 1
                        };
                        if self.get_cell_value(cell) != new_value {
                            let ghost items1 = self.items();
                            let ghost outbox1 = self.outbox@;
                            proof {
                                if down && settling_up(old(self).maze@, old(self).values@) {
                                    assert(at_or_above(self.maze@, values0, cell.x as int, cell.y as int));
                                    assert(at_or_below(self.maze@, values0, cell.x as int, cell.y as int));
                                }
                            }
                            self.set_cell_value(cell, new_value);
                            proof {
                                lemma_values_reported_write(
                                    old(self).outbox@,
                                    outbox1,
                                    old(self).values@,
                                    values0,
                                    cell.x as int,
                                    cell.y as int,
                                    new_value,
                                );
                                lemma_relaxation_write_keeps_direction(
                                    self.maze@,
                                    values0,
                                    cell.x as int,
                                    cell.y as int,
                                    new_value,
                                    down,
                                );
                                lemma_value_sum_bounds(self.values@, 256);
                            }
                            self.process_open_neighbours(cell)?;
                            proof {
                                let maze = self.maze@;
                                assert forall|x: int, y: int|
                                    in_grid(x, y) && !is_goal(x, y) && !#[trigger] consistent_at(
                                        maze,
                                        self.values@,
                                        x,
                                        y,
                                    ) implies self.items().contains((x as u8, y as u8)) by {
                                    if x == cell.x as int && y == cell.y as int {
                                        lemma_relaxed_after_write(
                                            maze,
                                            values0,
                                            x,
                                            y,
                                            new_value,
                                            x,
                                            y,
                                        );
                                        assert(consistent_at(maze, self.values@, x, y));
                                    } else if exists|o: MazeOrientation|
                                        open_toward(maze, cell.x as int, cell.y as int, o)
                                            && cell.x as int + o.dx() == x && cell.y as int
                                            + o.dy() == y {
                                        let o = choose|o: MazeOrientation|
                                            open_toward(maze, cell.x as int, cell.y as int, o)
                                                && cell.x as int + o.dx() == x && cell.y as int
                                                + o.dy() == y;
                                        assert(self.items().contains(
                                            ((cell.x as int + o.dx()) as u8, (cell.y as int + o.dy()) as u8),
                                        ));
                                    } else {
                                        lemma_relaxed_after_write(
                                            maze,
                                            values0,
                                            cell.x as int,
                                            cell.y as int,
                                            new_value,
                                            x,
                                            y,
                                        );
                                        assert(self.values@[cell_index(x, y)] == values0[cell_index(x, y)]);
                                        assert(!consistent_at(maze, values0, x, y));
                                        assert(items0.contains((x as u8, y as u8)));
                                        assert(items1.contains((x as u8, y as u8)));
                                    }
                                }
                            }
                        }
                    }
                },
            }
        }
    }

    /// Sets every value of the grid to 0.
    pub fn clear_square_values(&mut self)
        ensures
            forall|i: int| 0 <= i < 256 ==> #[trigger] final(self).values@[i] == 0,
            final(self).maze == old(self).maze,
            final(self).position == old(self).position,
            final(self).stack == old(self).stack,
    {
        let mut x: u8 = 0;
        while x < 16
            invariant
                x <= 16,
                forall|a: int, b: int|
                    in_grid(a, b) && a < x ==> #[trigger] self.values@[cell_index(a, b)] == 0,
                self.maze == old(self).maze,
                self.position == old(self).position,
                self.stack == old(self).stack,
            decreases 16 - x,
        {
            let mut y: u8 = 0;
            while y < 16
                invariant
                    x < 16,
                    y <= 16,
                    forall|a: int, b: int|
                        in_grid(a, b) && (a < x || (a == x && b < y)) ==> #[trigger] self.values@[cell_index(a, b)] == 0,
                    self.maze == old(self).maze,
                    self.position == old(self).position,
                    self.stack == old(self).stack,
                decreases 16 - y,
            {
                self.set_cell_value(Cell { x, y }, 0);
                y = y + 1;
            }
            x = x + 1;
        }
        assert forall|i: int| 0 <= i < 256 implies #[trigger] self.values@[i] == 0 by {
            assert(self.values@[cell_index(i / 16, i % 16)] == 0);
        }
    }

    /// Resets every value to 0 and records the walls along the outer border.
    pub fn init_maze(&mut self)
        requires
            walls_symmetric(old(self).maze@),
        ensures
            forall|i: int| 0 <= i < 256 ==> #[trigger] final(self).values@[i] == 0,
            forall|a: int, b: int|
                in_grid(a, b) ==> #[trigger] final(self).maze@[cell_index(a, b)] == old(
                    self,
                ).maze@[cell_index(a, b)].union(border_walls(a, b, 16, 16)),
            walls_symmetric(final(self).maze@),
            final(self).position == old(self).position,
            final(self).stack == old(self).stack,
    {
        self.clear_square_values();
        let ghost maze0 = self.maze@;
        let mut x: u8 = 0;
        while x < 16
            invariant
                x <= 16,
                forall|i: int| 0 <= i < 256 ==> #[trigger] self.values@[i] == 0,
                forall|a: int, b: int|
                    in_grid(a, b) ==> #[trigger] self.maze@[cell_index(a, b)] == maze0[cell_index(
                        a,
                        b,
                    )].union(border_walls(a, b, x as int, 0)),
                walls_symmetric(self.maze@),
                self.position == old(self).position,
                self.stack == old(self).stack,
            decreases 16 - x,
        {
            proof {
                lemma_add_outer_wall(self.maze@, x as int, 0, MazeOrientation::South);
            }
            self.set_cell_state(Cell { x, y: 0 }, MazeOrientation::South.wall());
            proof {
                lemma_add_outer_wall(self.maze@, x as int, 15, MazeOrientation::North);
            }
            self.set_cell_state(Cell { x, y: 15 }, MazeOrientation::North.wall());
            x = x + 1;
        }
        let mut y: u8 = 0;
        while y < 16
            invariant
                y <= 16,
                forall|i: int| 0 <= i < 256 ==> #[trigger] self.values@[i] == 0,
                forall|a: int, b: int|
                    in_grid(a, b) ==> #[trigger] self.maze@[cell_index(a, b)] == maze0[cell_index(
                        a,
                        b,
                    )].union(border_walls(a, b, 16, y as int)),
                walls_symmetric(self.maze@),
                self.position == old(self).position,
                self.stack == old(self).stack,
            decreases 16 - y,
        {
            proof {
                lemma_add_outer_wall(self.maze@, 0, y as int, MazeOrientation::West);
            }
            self.set_cell_state(Cell { x: 0, y }, MazeOrientation::West.wall());
            proof {
                lemma_add_outer_wall(self.maze@, 15, y as int, MazeOrientation::East);
            }
            self.set_cell_state(Cell { x: 15, y }, MazeOrientation::East.wall());
            y = y + 1;
        }
    }

    /// A runner at the start position whose map knows the outer border walls
    /// only, with every value at 0 and an empty worklist.
    pub fn new() -> (r: FloodfillRunner)
        ensures
            r.wf(),
            r.position == RunnerPosition::start(),
            forall|i: int| 0 <= i < 256 ==> #[trigger] r.values@[i] == 0,
            forall|a: int, b: int|
                in_grid(a, b) ==> #[trigger] r.maze@[cell_index(a, b)] == border_walls(a, b, 16, 16),
            r.items().len() == 0,
    {
        let mut runner = FloodfillRunner {
            position: RunnerPosition::starting_position(),
            values: [UNREACHABLE; 256],
            maze: [CellState::empty(); 256],
            stack: worklist_new(),
            outbox: Vec::new(),
        };
        proof {
            assert forall|x: int, y: int, o: MazeOrientation| #[trigger] wall_mirrored(
                runner.maze@,
                x,
                y,
                o,
            ) by {
                if in_grid(x, y) && in_grid(x + o.dx(), y + o.dy()) {
                    assert(runner.maze@[cell_index(x, y)] == CellState::empty_spec());
                    assert(runner.maze@[cell_index(x + o.dx(), y + o.dy())]
                        == CellState::empty_spec());
                }
            }
        }
        runner.init_maze();
        proof {
            assert forall|a: int, b: int| in_grid(a, b) implies #[trigger] runner.maze@[cell_index(a, b)]
                == border_walls(a, b, 16, 16) by {
                assert(runner.maze@[cell_index(a, b)] == CellState::empty_spec().union(
                    border_walls(a, b, 16, 16),
                ));
            }
            assert forall|x: int, y: int| is_goal(x, y) implies #[trigger] runner.values@[cell_index(x, y)]
                == 0 by {
                assert(0 <= cell_index(x, y) < 256);
            }
        }
        runner
    }

    /// The full re-seed: goal cells get 0 and every other cell the sentinel, the
    /// open neighbours of the goal cells go on an emptied worklist, and a
    /// relaxation pass runs. On success the value grid is a fixpoint of relaxation.
    pub fn first_flood(&mut self) -> (r: Result<(), FloodError>)
        requires
            old(self).wf(),
        ensures
            final(self).wf(),
            final(self).maze == old(self).maze,
            final(self).position == old(self).position,
            values_reported(
                old(self).outbox@,
                final(self).outbox@,
                old(self).values@,
                final(self).values@,
            ),
            r is Ok ==> settled(final(self).maze@, final(self).values@),
            r is Ok ==> forall|x: int, y: int|
                in_grid(x, y) ==> #[trigger] seed_reported(
                    old(self).outbox@,
                    final(self).outbox@,
                    x,
                    y,
                ),
            r is Ok ==> final(self).items().len() == 0,
            r matches Err(e) ==> e == FloodError::WorklistFull,
            r is Err ==> final(self).items().len() >= 1024,
    {
        worklist_clear(&mut self.stack);
        proof {
            lemma_values_reported_none(self.outbox@, self.values@);
        }
        let mut x: u8 = 0;
        while x < 16
            invariant
                x <= 16,
                self.wf(),
                self.maze == old(self).maze,
                self.position == old(self).position,
                values_reported(old(self).outbox@, self.outbox@, old(self).values@, self.values@),
                forall|a: int, b: int|
                    in_grid(a, b) && a < x ==> #[trigger] seed_reported(
                        old(self).outbox@,
                        self.outbox@,
                        a,
                        b,
                    ),
                forall|a: int, b: int|
                    in_grid(a, b) && a < x ==> #[trigger] self.values@[cell_index(a, b)] == if is_goal(
                        a,
                        b,
                    ) {
                        0u8
                    } else {
                        255u8
                    },
                forall|a: int, b: int, o: MazeOrientation|
                    in_grid(a, b) && a < x && is_goal(a, b) && #[trigger] open_toward(
                        self.maze@,
                        a,
                        b,
                        o,
                    ) ==> self.items().contains(((a + o.dx()) as u8, (b + o.dy()) as u8)),
            decreases 16 - x,
        {
            let mut y: u8 = 0;
            while y < 16
                invariant
                    x < 16,
                    y <= 16,
                    self.wf(),
                    self.maze == old(self).maze,
                    self.position == old(self).position,
                    values_reported(old(self).outbox@, self.outbox@, old(self).values@, self.values@),
                    forall|a: int, b: int|
                        in_grid(a, b) && (a < x || (a == x && b < y)) ==> #[trigger] seed_reported(
                            old(self).outbox@,
                            self.outbox@,
                            a,
                            b,
                        ),
                    forall|a: int, b: int|
                        in_grid(a, b) && (a < x || (a == x && b < y)) ==> #[trigger] self.values@[cell_index(
                            a,
                            b,
                        )] == if is_goal(a, b) {
                            0u8
                        } else {
                            255u8
                        },
                    forall|a: int, b: int, o: MazeOrientation|
                        in_grid(a, b) && (a < x || (a == x && b < y)) && is_goal(a, b)
                            && #[trigger] open_toward(self.maze@, a, b, o) ==> self.items().contains(
                            ((a + o.dx()) as u8, (b + o.dy()) as u8),
                        ),
                decreases 16 - y,
            {
                let cell = Cell { x, y };
                let ghost outbox1 = self.outbox@;
                let ghost values1 = self.values@;
                if self.is_target_cell(cell) {
                    self.set_cell_value(cell, 0);
                    proof {
                        lemma_values_reported_write(
                            old(self).outbox@,
                            outbox1,
                            old(self).values@,
                            values1,
                            x as int,
                            y as int,
                            0,
                        );
                        lemma_seed_report_push(old(self).outbox@, outbox1, x as int, y as int);
                    }
                    self.process_open_neighbours(cell)?;
                } else {
                    self.set_cell_value(cell, UNREACHABLE);
                    proof {
                        lemma_values_reported_write(
                            old(self).outbox@,
                            outbox1,
                            old(self).values@,
                            values1,
                            x as int,
                            y as int,
                            UNREACHABLE,
                        );
                        lemma_seed_report_push(old(self).outbox@, outbox1, x as int, y as int);
                    }
                }
                y = y + 1;
            }
            x = x + 1;
        }
        proof {
            let maze = self.maze@;
            let values = self.values@;
            assert forall|x: int, y: int|
                in_grid(x, y) && !is_goal(x, y) && !#[trigger] consistent_at(maze, values, x, y)
                    implies self.items().contains((x as u8, y as u8)) by {
                assert(values[cell_index(x, y)] == 255u8);
                lemma_seeded_source(maze, values, x, y);
                let o = choose|o: MazeOrientation|
                    open_toward(maze, x, y, o) && is_goal(x + o.dx(), y + o.dy());
                assert(wall_mirrored(maze, x, y, o));
                assert(open_toward(maze, x + o.dx(), y + o.dy(), o.opposite()));
            }
            assert forall|x: int, y: int| #[trigger] at_or_above(maze, values, x, y) by {
                if in_grid(x, y) && !is_goal(x, y) {
                    assert(values[cell_index(x, y)] == 255u8);
                }
            }
        }
        let ghost outbox1 = self.outbox@;
        let ghost values1 = self.values@;
        let r = self.recalculate_values();
        proof {
            lemma_values_reported_trans(
                old(self).outbox@,
                outbox1,
                self.outbox@,
                old(self).values@,
                values1,
                self.values@,
            );
            assert forall|x: int, y: int| in_grid(x, y) implies #[trigger] seed_reported(
                old(self).outbox@,
                self.outbox@,
                x,
                y,
            ) by {
                assert(seed_reported(old(self).outbox@, outbox1, x, y));
                let j = choose|j: int|
                    old(self).outbox@.len() <= j < outbox1.len() && outbox1[j] == value_report(
                        x,
                        y,
                        seed_value(x, y),
                    );
                assert(self.outbox@[j] == outbox1[j]);
            }
        }
        r
    }

    /// Records a wall on side `orientation` of `cell`, and the mirrored wall on the
    /// neighbour's side when that neighbour lies in the grid, and reports both to
    /// the device. Only those two cells can change consistency.
    #[verifier::rlimit(40)]
    fn record_wall(&mut self, cell: Cell, orientation: MazeOrientation)
        requires
            old(self).wf(),
            cell.wf(),
        ensures
            final(self).wf(),
            forall|a: int, b: int|
                in_grid(a, b) ==> #[trigger] final(self).maze@[cell_index(a, b)] == old(
                    self,
                ).maze@[cell_index(a, b)].union(
                    wall_added(a, b, cell.x as int, cell.y as int, orientation),
                ),
            final(self).outbox@ == old(self).outbox@ + wall_reports(
                old(self).maze@,
                cell.x as int,
                cell.y as int,
                orientation,
            ),
            maze_grows(old(self).maze@, final(self).maze@),
            final(self).values == old(self).values,
            final(self).position == old(self).position,
            final(self).stack == old(self).stack,
            settling_up(old(self).maze@, old(self).values@) ==> settling_up(
                final(self).maze@,
                final(self).values@,
            ),
            forall|x: int, y: int|
                in_grid(x, y) && !(x == cell.x && y == cell.y) && !(x == cell.x as int
                    + orientation.dx() && y == cell.y as int + orientation.dy())
                    ==> #[trigger] consistent_at(final(self).maze@, final(self).values@, x, y)
                    == consistent_at(old(self).maze@, old(self).values@, x, y),
    {
        let ghost maze0 = self.maze@;
        let ghost outbox0 = self.outbox@;
        let ghost cx = cell.x as int;
        let ghost cy = cell.y as int;
        let neighbour = cell.neighbour(orientation);
        proof {
            if neighbour is Err {
                lemma_add_outer_wall(self.maze@, cx, cy, orientation);
            }
        }
        self.set_cell_state(cell, orientation.wall());
        if let Ok(n) = neighbour {
            proof {
                orientation.lemma_back_is_opposite();
                lemma_add_inner_wall(maze0, cx, cy, orientation);
            }
            self.set_cell_state(n, orientation.shifted(RunnerSide::Back).wall());
        }
        proof {
            assert forall|a: int, b: int| in_grid(a, b) implies #[trigger] self.maze@[cell_index(a, b)]
                == maze0[cell_index(a, b)].union(wall_added(a, b, cx, cy, orientation)) by {
                if !(a == cx && b == cy) && !(a == cx + orientation.dx() && b == cy
                    + orientation.dy()) {
                    assert(maze0[cell_index(a, b)].union(CellState::empty_spec())
                        == maze0[cell_index(a, b)]);
                }
            }
            let maze = self.maze@;
            let values = self.values@;
            if settling_up(maze0, values) {
                assert forall|x: int, y: int| #[trigger] at_or_below(maze, values, x, y) by {
                    if in_grid(x, y) && !is_goal(x, y) {
                        assert(at_or_below(maze0, values, x, y));
                        lemma_relaxed_more_walls(maze0, maze, values, x, y);
                    }
                }
            }
            assert forall|x: int, y: int|
                in_grid(x, y) && !(x == cx && y == cy) && !(x == cx + orientation.dx() && y
                    == cy + orientation.dy()) implies #[trigger] consistent_at(maze, values, x, y)
                == consistent_at(maze0, values, x, y) by {
                assert(maze[cell_index(x, y)] == maze0[cell_index(x, y)]);
                assert(relaxed_value(maze, values, x, y) == relaxed_value(maze0, values, x, y));
            }
            assert(self.outbox@ =~= outbox0 + wall_reports(maze0, cx, cy, orientation));
        }
    }

    /// Records a discovered wall on side `orientation` of `cell`, and the mirrored
    /// wall on the neighbour's side when that neighbour lies in the grid; then puts
    /// the cell and that neighbour on the worklist for the incremental update. It
    /// fails exactly when the worklist has no room for them. When every pending
    /// cell was queued before, it is after; when no value was above its relaxed
    /// value before, none is after, so the pass that follows only raises values.
    pub fn discover_wall(&mut self, cell: Cell, orientation: MazeOrientation) -> (r: Result<
        (),
        FloodError,
    >)
        requires
            old(self).wf(),
            cell.wf(),
        ensures
            final(self).wf(),
            settling_up(old(self).maze@, old(self).values@) ==> settling_up(
                final(self).maze@,
                final(self).values@,
            ),
            maze_grows(old(self).maze@, final(self).maze@),
            final(self).values == old(self).values,
            final(self).position == old(self).position,
            forall|a: int, b: int|
                in_grid(a, b) ==> #[trigger] final(self).maze@[cell_index(a, b)] == old(
                    self,
                ).maze@[cell_index(a, b)].union(
                    wall_added(a, b, cell.x as int, cell.y as int, orientation),
                ),
            final(self).outbox@ == old(self).outbox@ + wall_reports(
                old(self).maze@,
                cell.x as int,
                cell.y as int,
                orientation,
            ),
            r is Ok <==> old(self).items().len() + wall_items(
                cell.x as int,
                cell.y as int,
                orientation,
            ).len() <= 1024,
            r is Ok ==> final(self).items() == old(self).items() + wall_items(
                cell.x as int,
                cell.y as int,
                orientation,
            ),
            r is Ok && old(self).pending_queued() ==> final(self).pending_queued(),
            r matches Err(e) ==> e == FloodError::WorklistFull,
    {
        let ghost items0 = self.items();
        let ghost maze0 = self.maze@;
        let ghost cx = cell.x as int;
        let ghost cy = cell.y as int;
        let neighbour = cell.neighbour(orientation);
        self.record_wall(cell, orientation);
        self.queue_for_recalculation(cell)?;
        proof {
            lemma_push_keeps(items0, (cell.x, cell.y));
            lemma_push_in_grid(items0, (cell.x, cell.y));
        }
        let ghost items1 = self.items();
        if let Ok(n) = neighbour {
            self.queue_for_recalculation(n)?;
            proof {
                lemma_push_keeps(items1, (n.x, n.y));
                lemma_push_in_grid(items1, (n.x, n.y));
            }
        }
        proof {
            assert(self.items() =~= items0 + wall_items(cx, cy, orientation));
            if old(self).pending_queued() {
                let maze = self.maze@;
                let values = self.values@;
                assert forall|x: int, y: int|
                    in_grid(x, y) && !is_goal(x, y) && !#[trigger] consistent_at(
                        maze,
                        values,
                        x,
                        y,
                    ) implies self.items().contains((x as u8, y as u8)) by {
                    if !(x == cx && y == cy) && !(x == cx + orientation.dx() && y == cy
                        + orientation.dy()) {
                        assert(!consistent_at(maze0, values, x, y));
                        assert(items0.contains((x as u8, y as u8)));
                        assert(items1.contains((x as u8, y as u8)));
                    }
                }
            }
        }
        Ok(())
    }

    /// Records a wall on `side` of the runner's cell, and the mirrored wall on the
    /// neighbour's side when that neighbour lies in the grid, and reports both to
    /// the device. The worklist is left alone.
    pub fn add_wall(&mut self, side: RunnerSide)
        requires
            old(self).wf(),
        ensures
            final(self).wf(),
            forall|a: int, b: int|
                in_grid(a, b) ==> #[trigger] final(self).maze@[cell_index(a, b)] == old(
                    self,
                ).maze@[cell_index(a, b)].union(
                    wall_added(
                        a,
                        b,
                        old(self).position.cell.x as int,
                        old(self).position.cell.y as int,
                        old(self).position.orientation.spec_shifted(side),
                    ),
                ),
            final(self).outbox@ == old(self).outbox@ + wall_reports(
                old(self).maze@,
                old(self).position.cell.x as int,
                old(self).position.cell.y as int,
                old(self).position.orientation.spec_shifted(side),
            ),
            maze_grows(old(self).maze@, final(self).maze@),
            final(self).values == old(self).values,
            final(self).position == old(self).position,
            final(self).stack == old(self).stack,
            settling_up(old(self).maze@, old(self).values@) ==> settling_up(
                final(self).maze@,
                final(self).values@,
            ),
            forall|x: int, y: int|
                in_grid(x, y) && !(x == old(self).position.cell.x && y == old(
                    self,
                ).position.cell.y) && !(x == old(self).position.cell.step_x(
                    old(self).position.orientation.spec_shifted(side),
                ) && y == old(self).position.cell.step_y(
                    old(self).position.orientation.spec_shifted(side),
                )) ==> #[trigger] consistent_at(final(self).maze@, final(self).values@, x, y)
                    == consistent_at(old(self).maze@, old(self).values@, x, y),
    {
        let orientation = self.position.orientation.shifted(side);
        self.record_wall(self.position.cell, orientation);
    }

    /// Marks the runner's cell as visited.
    pub fn mark_current_visited(&mut self)
        requires
            old(self).wf(),
        ensures
            final(self).wf(),
            final(self).maze@ == old(self).maze@.update(
                cell_index(old(self).position.cell.x as int, old(self).position.cell.y as int),
                old(self).state_at(old(self).position.cell).union(CellState::visited_spec()),
            ),
            final(self).values == old(self).values,
            final(self).position == old(self).position,
            final(self).stack == old(self).stack,
            old(self).pending_queued() ==> final(self).pending_queued(),
            settling_up(old(self).maze@, old(self).values@) ==> settling_up(
                final(self).maze@,
                final(self).values@,
            ),
            outbox_extends(old(self).outbox@, final(self).outbox@),
            maze_grows(old(self).maze@, final(self).maze@),
    {
        let ghost maze0 = self.maze@;
        self.set_cell_state(self.position.cell, CellState::visited_flag());
        proof {
            lemma_same_walls(maze0, self.maze@, self.values@);
            if old(self).pending_queued() {
                let maze = self.maze@;
                let values = self.values@;
                assert forall|x: int, y: int|
                    in_grid(x, y) && !is_goal(x, y) && !#[trigger] consistent_at(
                        maze,
                        values,
                        x,
                        y,
                    ) implies self.items().contains((x as u8, y as u8)) by {
                    assert(!consistent_at(maze0, values, x, y));
                }
            }
            if settling_up(maze0, self.values@) {
                let maze = self.maze@;
                let values = self.values@;
                assert forall|x: int, y: int| #[trigger] at_or_below(maze, values, x, y) by {
                    assert(at_or_below(maze0, values, x, y));
                }
            }
        }
    }

    /// Whether the runner's cell has been visited.
    pub fn is_current_visited(&self) -> (r: bool)
        requires
            self.wf(),
        ensures
            r == self.state_at(self.position.cell).visited,
    {
        self.get_cell_state(self.position.cell).contains(&CellState::visited_flag())
    }

    /// Whether the runner stands in the goal region.
    pub fn finished(&self) -> (r: bool)
        ensures
            r == is_goal(self.position.cell.x as int, self.position.cell.y as int),
    {
        self.is_target_cell(self.position.cell)
    }

    /// Whether the flags of the runner's cell hold a wall on `side` of the runner.
    pub fn is_wall_next_to_runner(&self, side: RunnerSide) -> (r: bool)
        requires
            self.wf(),
        ensures
            r == self.state_at(self.position.cell).has_wall(
                self.position.orientation.spec_shifted(side),
            ),
    {
        let cell = self.position.cell;
        self.is_wall_at(cell, self.position.orientation.shifted(side))
    }

    /// The value of the neighbour on `side` of the runner, when it lies in the grid
    /// and no wall is known there.
    fn side_value(&self, side: RunnerSide) -> (r: Option<u8>)
        requires
            self.wf(),
        ensures
            r is Some <==> side_open(self.maze@, self.position, side),
            r matches Some(v) ==> v as int == side_value(
                self.maze@,
                self.values@,
                self.position,
                side,
            ),
    {
        if !self.is_wall_next_to_runner(side) {
            if let Ok(neighbour) = self.position.cell.neighbour(
                self.position.orientation.shifted(side),
            ) {
                return Some(self.get_cell_value(neighbour));
            }
        }
        None
    }

    /// The decision procedure: among the open sides, looking front, right and left
    /// in that order, the first whose neighbour has the smallest value; back when
    /// none of the three is open.
    pub fn get_next_move(&self) -> (r: RunnerSide)
        requires
            self.wf(),
        ensures
            r == next_move(self.maze@, self.values@, self.position),
    {
        let mut minimal: u16 = 256;
        let mut next = RunnerSide::Back;
        if let Some(value) = self.side_value(RunnerSide::Front) {
            if (value as u16) < minimal {
                minimal = value as u16;
                next = RunnerSide::Front;
            }
        }
        if let Some(value) = self.side_value(RunnerSide::Right) {
            if (value as u16) < minimal {
                minimal = value as u16;
                next = RunnerSide::Right;
            }
        }
        if let Some(value) = self.side_value(RunnerSide::Left) {
            if (value as u16) < minimal {
                next = RunnerSide::Left;
            }
        }
        next
    }

    /// Turns the runner a quarter to the left.
    pub fn rotate_left(&mut self)
        ensures
            final(self).position.orientation == old(self).position.orientation.spec_shifted(
                RunnerSide::Left,
            ),
            final(self).position.cell == old(self).position.cell,
            final(self).outbox@ == old(self).outbox@.push(MazeRunnerRequest::RotateLeft90),
            final(self).maze == old(self).maze,
            final(self).values == old(self).values,
            final(self).stack == old(self).stack,
    {
        self.outbox.push(MazeRunnerRequest::RotateLeft90);
        self.position.orientation = self.position.orientation.shifted(RunnerSide::Left);
    }

    /// Turns the runner a quarter to the right.
    pub fn rotate_right(&mut self)
        ensures
            final(self).position.orientation == old(self).position.orientation.spec_shifted(
                RunnerSide::Right,
            ),
            final(self).position.cell == old(self).position.cell,
            final(self).outbox@ == old(self).outbox@.push(MazeRunnerRequest::RotateRight90),
            final(self).maze == old(self).maze,
            final(self).values == old(self).values,
            final(self).stack == old(self).stack,
    {
        self.outbox.push(MazeRunnerRequest::RotateRight90);
        self.position.orientation = self.position.orientation.shifted(RunnerSide::Right);
    }

    /// Sends the command to move one cell ahead and moves the runner there; fails,
    /// without moving, when that cell lies outside the grid.
    pub fn move_forward(&mut self) -> (r: Result<(), FloodError>)
        requires
            old(self).position.cell.wf(),
        ensures
            r is Ok <==> in_grid(
                old(self).position.cell.step_x(old(self).position.orientation),
                old(self).position.cell.step_y(old(self).position.orientation),
            ),
            r is Ok ==> final(self).position.cell.x as int == old(self).position.cell.step_x(
                old(self).position.orientation,
            ) && final(self).position.cell.y as int == old(self).position.cell.step_y(
                old(self).position.orientation,
            ),
            final(self).outbox@ == old(self).outbox@.push(MazeRunnerRequest::MoveForward),
            r matches Err(e) ==> e == FloodError::OutOfBounds && final(self).position == old(
                self,
            ).position,
            final(self).position.cell.wf(),
            final(self).position.orientation == old(self).position.orientation,
            final(self).maze == old(self).maze,
            final(self).values == old(self).values,
            final(self).stack == old(self).stack,
    {
        self.outbox.push(MazeRunnerRequest::MoveForward);
        match self.position.cell.neighbour(self.position.orientation) {
            Ok(next) => {
                self.position.cell = next;
                Ok(())
            },
            Err(_) => Err(FloodError::OutOfBounds),
        }
    }

    /// Turns the runner toward `move_direction` and moves it one cell that way.
    pub fn make_move(&mut self, move_direction: RunnerSide) -> (r: Result<(), FloodError>)
        requires
            old(self).position.cell.wf(),
        ensures
            final(self).position.orientation == old(self).position.orientation.spec_shifted(
                move_direction,
            ),
            r is Ok <==> in_grid(
                old(self).position.cell.step_x(final(self).position.orientation),
                old(self).position.cell.step_y(final(self).position.orientation),
            ),
            r is Ok ==> final(self).position.cell.x as int == old(self).position.cell.step_x(
                final(self).position.orientation,
            ) && final(self).position.cell.y as int == old(self).position.cell.step_y(
                final(self).position.orientation,
            ),
            r matches Err(e) ==> e == FloodError::OutOfBounds && final(self).position.cell == old(
                self,
            ).position.cell,
            final(self).position.cell.wf(),
            final(self).outbox@ == old(self).outbox@ + move_requests(move_direction),
            final(self).maze == old(self).maze,
            final(self).values == old(self).values,
            final(self).stack == old(self).stack,
    {
        let ghost outbox0 = self.outbox@;
        let ghost moves = move_requests(move_direction);
        proof {
            assert(moves.drop_last() + seq![MazeRunnerRequest::MoveForward] =~= moves);
        }
        match move_direction {
            RunnerSide::Front => {
                self.move_forward()?;
            },
            RunnerSide::Left => {
                self.rotate_left();
                self.move_forward()?;
            },
            RunnerSide::Right => {
                self.rotate_right();
                self.move_forward()?;
            },
            RunnerSide::Back => {
                self.rotate_left();
                self.rotate_left();
                self.move_forward()?;
            },
        }
        Ok(())
    }

    /// Puts the runner back on the start cell, facing north.
    pub fn reset_position(&mut self)
        ensures
            final(self).position == RunnerPosition::start(),
            final(self).maze == old(self).maze,
            final(self).values == old(self).values,
            final(self).stack == old(self).stack,
            final(self).outbox == old(self).outbox,
    {
        self.position = RunnerPosition::starting_position();
    }

    /// Records a wall sensed on `side` of the runner, on both sides of it, and puts
    /// the neighbour there on the worklist when it lies in the grid.
    fn record_sensed_wall(&mut self, side: RunnerSide) -> (r: Result<(), FloodError>)
        requires
            old(self).wf(),
        ensures
            final(self).wf(),
            forall|a: int, b: int|
                in_grid(a, b) ==> #[trigger] final(self).maze@[cell_index(a, b)] == old(
                    self,
                ).maze@[cell_index(a, b)].union(
                    wall_added(
                        a,
                        b,
                        old(self).position.cell.x as int,
                        old(self).position.cell.y as int,
                        old(self).position.orientation.spec_shifted(side),
                    ),
                ),
            outbox_extends(old(self).outbox@, final(self).outbox@),
            maze_grows(old(self).maze@, final(self).maze@),
            final(self).values == old(self).values,
            final(self).position == old(self).position,
            settling_up(old(self).maze@, old(self).values@) ==> settling_up(
                final(self).maze@,
                final(self).values@,
            ),
            r is Ok <==> old(self).items().len() + neighbour_items(
                old(self).position.cell.x as int,
                old(self).position.cell.y as int,
                old(self).position.orientation.spec_shifted(side),
            ).len() <= 1024,
            r is Ok ==> final(self).items() == old(self).items() + neighbour_items(
                old(self).position.cell.x as int,
                old(self).position.cell.y as int,
                old(self).position.orientation.spec_shifted(side),
            ),
            r is Ok && old(self).pending_queued() && old(self).items().contains(
                (old(self).position.cell.x, old(self).position.cell.y),
            ) ==> final(self).pending_queued() && final(self).items().contains(
                (old(self).position.cell.x, old(self).position.cell.y),
            ),
            r matches Err(e) ==> e == FloodError::WorklistFull,
            r is Err ==> final(self).items().len() >= 1024,
    {
        let ghost items0 = self.items();
        let ghost maze0 = self.maze@;
        let orientation = self.position.orientation.shifted(side);
        let cell = self.position.cell;
        let ghost cx = cell.x as int;
        let ghost cy = cell.y as int;
        self.add_wall(side);
        if let Ok(neighbour) = cell.neighbour(orientation) {
            self.queue_for_recalculation(neighbour)?;
            proof {
                lemma_push_keeps(items0, (neighbour.x, neighbour.y));
                lemma_push_in_grid(items0, (neighbour.x, neighbour.y));
            }
        }
        proof {
            assert(self.items() =~= items0 + neighbour_items(cx, cy, orientation));
            if old(self).pending_queued() && items0.contains((cell.x, cell.y)) {
                let maze = self.maze@;
                let values = self.values@;
                assert forall|x: int, y: int|
                    in_grid(x, y) && !is_goal(x, y) && !#[trigger] consistent_at(
                        maze,
                        values,
                        x,
                        y,
                    ) implies self.items().contains((x as u8, y as u8)) by {
                    if !(x == cx && y == cy) && !(x == cx + orientation.dx() && y == cy
                        + orientation.dy()) {
                        assert(!consistent_at(maze0, values, x, y));
                        assert(items0.contains((x as u8, y as u8)));
                    }
                }
            }
        }
        Ok(())
    }

    /// Records each wall sensed around the runner (front, right, left), on both
    /// sides of it, and puts the neighbour behind each such wall on the worklist.
    /// It fails exactly when the worklist has no room for those neighbours.
    #[verifier::rlimit(80)]
    pub fn process_walls(&mut self, walls: WallReadings) -> (r: Result<(), FloodError>)
        requires
            old(self).wf(),
        ensures
            final(self).wf(),
            settling_up(old(self).maze@, old(self).values@) ==> settling_up(
                final(self).maze@,
                final(self).values@,
            ),
            outbox_extends(old(self).outbox@, final(self).outbox@),
            maze_grows(old(self).maze@, final(self).maze@),
            final(self).values == old(self).values,
            final(self).position == old(self).position,
            r is Ok <==> old(self).items().len() + sensed_items(
                old(self).position,
                walls,
            ).len() <= 1024,
            r is Ok ==> final(self).items() == old(self).items() + sensed_items(
                old(self).position,
                walls,
            ),
            r is Ok ==> forall|a: int, b: int|
                in_grid(a, b) ==> #[trigger] final(self).maze@[cell_index(a, b)] == old(
                    self,
                ).maze@[cell_index(a, b)].union(sensed_flags(a, b, old(self).position, walls)),
            r is Ok && old(self).pending_queued() && old(self).items().contains(
                (old(self).position.cell.x, old(self).position.cell.y),
            ) ==> final(self).pending_queued(),
            r is Ok ==> sensed_walls_recorded(
                final(self).state_at(old(self).position.cell),
                old(self).position.orientation,
                walls,
            ),
            r matches Err(e) ==> e == FloodError::WorklistFull,
            r is Err ==> final(self).items().len() >= 1024,
    {
        let ghost pos = self.position;
        let ghost items0 = self.items();
        let ghost maze0 = self.maze@;
        let ghost k = cell_index(self.position.cell.x as int, self.position.cell.y as int);
        if walls.front {
            self.record_sensed_wall(RunnerSide::Front)?;
        }
        let ghost items1 = self.items();
        let ghost m1 = self.maze@;
        if walls.right {
            self.record_sensed_wall(RunnerSide::Right)?;
        }
        let ghost items2 = self.items();
        let ghost m2 = self.maze@;
        if walls.left {
            self.record_sensed_wall(RunnerSide::Left)?;
        }
        proof {
            let f = if walls.front {
                neighbour_items(pos.cell.x as int, pos.cell.y as int, pos.orientation.spec_shifted(RunnerSide::Front))
            } else {
                Seq::<(u8, u8)>::empty()
            };
            let rt = if walls.right {
                neighbour_items(pos.cell.x as int, pos.cell.y as int, pos.orientation.spec_shifted(RunnerSide::Right))
            } else {
                Seq::<(u8, u8)>::empty()
            };
            let l = if walls.left {
                neighbour_items(pos.cell.x as int, pos.cell.y as int, pos.orientation.spec_shifted(RunnerSide::Left))
            } else {
                Seq::<(u8, u8)>::empty()
            };
            assert(items1 =~= items0 + f);
            assert(items2 =~= items0 + (f + rt));
            assert(self.items() =~= items0 + (f + rt + l));
            assert(sensed_items(pos, walls) == f + rt + l);
            assert(self.maze@[k].spec_contains(m2[k]));
            assert(m2[k].spec_contains(m1[k]));
        }
        Ok(())
    }

    /// One step of an attempt, for a runner outside the goal region (at the goal
    /// the attempt is over and no step is taken): the runner's
    /// cell goes on the worklist; if it was not visited yet and `readings` holds
    /// what was sensed there, each wall seen is recorded on both sides and the cell
    /// is marked visited; a relaxation pass runs; the next move is chosen and made.
    /// Returns the side moved to.
    pub fn step(&mut self, readings: Option<WallReadings>) -> (r: Result<RunnerSide, FloodError>)
        requires
            old(self).wf(),
            settled(old(self).maze@, old(self).values@),
            !is_goal(old(self).position.cell.x as int, old(self).position.cell.y as int),
        ensures
            final(self).wf(),
            outbox_extends(old(self).outbox@, final(self).outbox@),
            r matches Ok(side) ==> final(self).outbox@ == final(self).outbox@.subrange(
                0,
                final(self).outbox@.len() - move_requests(side).len(),
            ) + move_requests(side),
            r is Ok && (old(self).state_at(old(self).position.cell).visited || readings is None)
                ==> values_reported(
                old(self).outbox@,
                final(self).outbox@.subrange(
                    0,
                    final(self).outbox@.len() - move_requests(
                        next_move(final(self).maze@, final(self).values@, old(self).position),
                    ).len(),
                ),
                old(self).values@,
                final(self).values@,
            ),
            maze_grows(old(self).maze@, final(self).maze@),
            r matches Err(FloodError::WorklistFull) ==> final(self).items().len() >= 1024,
            r matches Err(FloodError::OutOfBounds) ==> !in_grid(
                old(self).position.cell.step_x(
                    old(self).position.orientation.spec_shifted(
                        next_move(final(self).maze@, final(self).values@, old(self).position),
                    ),
                ),
                old(self).position.cell.step_y(
                    old(self).position.orientation.spec_shifted(
                        next_move(final(self).maze@, final(self).values@, old(self).position),
                    ),
                ),
            ),
            r matches Ok(side) ==> side == next_move(
                final(self).maze@,
                final(self).values@,
                old(self).position,
            ),
            r matches Ok(side) ==> final(self).position.orientation == old(
                self,
            ).position.orientation.spec_shifted(side),
            r matches Ok(side) ==> final(self).position.cell.x as int == old(
                self,
            ).position.cell.step_x(final(self).position.orientation),
            r matches Ok(side) ==> final(self).position.cell.y as int == old(
                self,
            ).position.cell.step_y(final(self).position.orientation),
            r is Ok ==> settled(final(self).maze@, final(self).values@),
            r is Ok ==> final(self).items().len() == 0,
            old(self).state_at(old(self).position.cell).visited || readings is None
                ==> final(self).maze == old(self).maze,
            r is Ok && !old(self).state_at(old(self).position.cell).visited && readings is Some
                ==> final(self).state_at(old(self).position.cell).visited,
            r is Ok && !old(self).state_at(old(self).position.cell).visited ==> (
            readings matches Some(w) ==> sensed_walls_recorded(
                final(self).state_at(old(self).position.cell),
                old(self).position.orientation,
                w,
            )),
            r matches Err(e) ==> e == FloodError::WorklistFull || e == FloodError::OutOfBounds,
    {
        let ghost items0 = self.items();
        proof {
            let maze = self.maze@;
            let values = self.values@;
            assert forall|x: int, y: int| #[trigger] at_or_below(maze, values, x, y) by {
                assert(in_grid(x, y) ==> consistent_at(maze, values, x, y));
            }
            assert forall|x: int, y: int|
                in_grid(x, y) && !is_goal(x, y) && !#[trigger] consistent_at(maze, values, x, y)
                    implies items0.contains((x as u8, y as u8)) by {}
        }
        self.queue_for_recalculation(self.position.cell)?;
        proof {
            lemma_push_keeps(items0, (self.position.cell.x, self.position.cell.y));
            lemma_push_in_grid(items0, (self.position.cell.x, self.position.cell.y));
        }
        if !self.is_current_visited() {
            if let Some(walls) = readings {
                self.process_walls(walls)?;
                self.mark_current_visited();
            }
        }
        let ghost outbox1 = self.outbox@;
        self.recalculate_values()?;
        let direction = self.get_next_move();
        let ghost outbox2 = self.outbox@;
        self.make_move(direction)?;
        proof {
            assert(self.outbox@.subrange(0, self.outbox@.len() - move_requests(direction).len())
                =~= outbox2);
            assert(self.outbox@ =~= outbox2 + move_requests(direction));
        }
        Ok(direction)
    }

    /// Starts an attempt: the runner goes back to the start and the value grid is
    /// re-seeded. The walls and visited marks found so far are kept.
    pub fn start_attempt(&mut self) -> (r: Result<(), FloodError>)
        requires
            old(self).wf(),
        ensures
            final(self).wf(),
            final(self).maze == old(self).maze,
            final(self).position == RunnerPosition::start(),
            values_reported(
                old(self).outbox@,
                final(self).outbox@,
                old(self).values@,
                final(self).values@,
            ),
            r is Ok ==> settled(final(self).maze@, final(self).values@),
            r is Ok ==> final(self).items().len() == 0,
            r matches Err(e) ==> e == FloodError::WorklistFull,
            r is Err ==> final(self).items().len() >= 1024,
    {
        self.reset_position();
        self.first_flood()
    }

    /// Hands over the requests gathered for the device since the last call, oldest
    /// first, and empties the outbox.
    pub fn take_outbox(&mut self) -> (r: Vec<MazeRunnerRequest>)
        ensures
            r@ == old(self).outbox@,
            final(self).outbox@.len() == 0,
            final(self).maze == old(self).maze,
            final(self).values == old(self).values,
            final(self).position == old(self).position,
            final(self).stack == old(self).stack,
    {
        let mut taken: Vec<MazeRunnerRequest> = Vec::new();
        std::mem::swap(&mut taken, &mut self.outbox);
        taken
    }
}

/// The worklist items queued for the walls in `w` sensed by a runner at `pos`:
/// the neighbour behind each, in the order front, right, left, when it lies in
/// the grid.
pub open spec fn sensed_items(pos: RunnerPosition, w: WallReadings) -> Seq<(u8, u8)> {
    let (cx, cy) = (pos.cell.x as int, pos.cell.y as int);
    (if w.front {
        neighbour_items(cx, cy, pos.orientation.spec_shifted(RunnerSide::Front))
    } else {
        Seq::empty()
    }) + (if w.right {
        neighbour_items(cx, cy, pos.orientation.spec_shifted(RunnerSide::Right))
    } else {
        Seq::empty()
    }) + (if w.left {
        neighbour_items(cx, cy, pos.orientation.spec_shifted(RunnerSide::Left))
    } else {
        Seq::empty()
    })
}

/// The flag that wall `side`, when sensed in `w` by a runner at `pos`, adds to `(a, b)`.
pub open spec fn sensed_side_flags(
    a: int,
    b: int,
    pos: RunnerPosition,
    w: WallReadings,
    side: RunnerSide,
) -> CellState {
    let sensed = match side {
        RunnerSide::Front => w.front,
        RunnerSide::Right => w.right,
        RunnerSide::Left => w.left,
        RunnerSide::Back => false,
    };
    if sensed {
        wall_added(a, b, pos.cell.x as int, pos.cell.y as int, pos.orientation.spec_shifted(side))
    } else {
        CellState::empty_spec()
    }
}

/// The flags that the walls in `w`, sensed by a runner at `pos`, add to `(a, b)`:
/// each sensed wall on both of its sides, and nothing else.
pub open spec fn sensed_flags(a: int, b: int, pos: RunnerPosition, w: WallReadings) -> CellState {
    sensed_side_flags(a, b, pos, w, RunnerSide::Front).union(
        sensed_side_flags(a, b, pos, w, RunnerSide::Right),
    ).union(sensed_side_flags(a, b, pos, w, RunnerSide::Left))
}

/// Each wall in `w`, sensed by a runner facing `heading`, is recorded in `state`.
pub open spec fn sensed_walls_recorded(state: CellState, heading: MazeOrientation, w: WallReadings) -> bool {
    &&& w.front ==> state.has_wall(heading.spec_shifted(RunnerSide::Front))
    &&& w.right ==> state.has_wall(heading.spec_shifted(RunnerSide::Right))
    &&& w.left ==> state.has_wall(heading.spec_shifted(RunnerSide::Left))
}

} // verus!
