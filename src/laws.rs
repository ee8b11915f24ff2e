//! Properties that relate several operations of the engine.
use vstd::prelude::*;

use crate::cell_state::CellState;
use crate::model::{
    cell_index, consistent_at, is_goal, side_open, wall_mirrored, min_open_value, next_move, open_toward, relaxed_value, settled,
    side_value, value_toward,
};
use crate::floodfill::FloodfillRunner;
use crate::geometry::{in_grid, Cell, MazeOrientation, RunnerPosition, RunnerSide};

verus! {

/// In a well-formed runner, a wall that a cell records toward a neighbour in the
/// grid is recorded by that neighbour toward the cell.
pub proof fn lemma_wall_symmetry(runner: FloodfillRunner, cell: Cell, o: MazeOrientation)
    requires
        runner.wf(),
        cell.wf(),
        in_grid(cell.step_x(o), cell.step_y(o)),
        runner.state_at(cell).has_wall(o),
    ensures
        runner.maze@[cell_index(cell.step_x(o), cell.step_y(o))].has_wall(o.opposite()),
{
    assert(wall_mirrored(runner.maze@, cell.x as int, cell.y as int, o));
}

/// In a settled value grid every goal cell holds 0; a non-goal cell with no open
/// neighbour that has a known path holds the sentinel 255; any other cell holds
/// one more than the smallest value among its open neighbours.
pub proof fn lemma_settled_values(maze: Seq<CellState>, values: Seq<u8>, x: int, y: int)
    requires
        settled(maze, values),
        in_grid(x, y),
    ensures
        is_goal(x, y) ==> values[cell_index(x, y)] == 0,
        !is_goal(x, y) && min_open_value(maze, values, x, y) >= 255 ==> values[cell_index(x, y)]
            == 255,
        !is_goal(x, y) && min_open_value(maze, values, x, y) < 255 ==> values[cell_index(x, y)]
            == min_open_value(maze, values, x, y) + 1,
{
    assert(consistent_at(maze, values, x, y));
}

/// A relaxed value below the sentinel is one more than the value of some open
/// neighbour, and no open neighbour below the sentinel is more than one below it.
proof fn lemma_relaxed_neighbours(maze: Seq<CellState>, values: Seq<u8>, x: int, y: int)
    ensures
        relaxed_value(maze, values, x, y) >= 1,
        relaxed_value(maze, values, x, y) <= 255,
        relaxed_value(maze, values, x, y) < 255 ==> exists|o: MazeOrientation|
            open_toward(maze, x, y, o) && #[trigger] value_toward(maze, values, x, y, o) + 1
                == relaxed_value(maze, values, x, y),
        forall|o: MazeOrientation|
            open_toward(maze, x, y, o) && #[trigger] value_toward(maze, values, x, y, o) < 255
                ==> relaxed_value(maze, values, x, y) <= value_toward(maze, values, x, y, o) + 1,
{
    let n = MazeOrientation::North;
    let e = MazeOrientation::East;
    let s = MazeOrientation::South;
    let w = MazeOrientation::West;
    let m = min_open_value(maze, values, x, y);
    assert(value_toward(maze, values, x, y, n) <= 255);
    assert(value_toward(maze, values, x, y, e) <= 255);
    assert(value_toward(maze, values, x, y, s) <= 255);
    assert(value_toward(maze, values, x, y, w) <= 255);
    if m < 255 {
        if m == value_toward(maze, values, x, y, n) {
            assert(open_toward(maze, x, y, n));
        } else if m == value_toward(maze, values, x, y, e) {
            assert(open_toward(maze, x, y, e));
        } else if m == value_toward(maze, values, x, y, s) {
            assert(open_toward(maze, x, y, s));
        } else {
            assert(open_toward(maze, x, y, w));
        }
    }
}

/// Two settled grids agree on every cell whose value in either is at most `k`.
proof fn lemma_settled_agree_up_to(maze: Seq<CellState>, v1: Seq<u8>, v2: Seq<u8>, k: int)
    requires
        0 <= k,
        maze.len() == 256,
        v1.len() == 256,
        v2.len() == 256,
        settled(maze, v1),
        settled(maze, v2),
    ensures
        forall|x: int, y: int|
            in_grid(x, y) && (v1[cell_index(x, y)] <= k || v2[cell_index(x, y)] <= k)
                ==> #[trigger] v1[cell_index(x, y)] == v2[cell_index(x, y)],
    decreases k,
{
    if k > 0 {
        lemma_settled_agree_up_to(maze, v1, v2, k - 1);
    }
    assert forall|x: int, y: int|
        in_grid(x, y) && (v1[cell_index(x, y)] <= k || v2[cell_index(x, y)] <= k) implies #[trigger] v1[cell_index(
            x,
            y,
        )] == v2[cell_index(x, y)] by {
        let c = cell_index(x, y);
        assert(consistent_at(maze, v1, x, y));
        assert(consistent_at(maze, v2, x, y));
        if !is_goal(x, y) && v1[c] != v2[c] {
            lemma_relaxed_neighbours(maze, v1, x, y);
            lemma_relaxed_neighbours(maze, v2, x, y);
            if v1[c] < v2[c] {
                lemma_settled_step(maze, v1, v2, x, y, k);
            } else {
                lemma_settled_step(maze, v2, v1, x, y, k);
            }
        }
    }
}

/// The inductive step: when two settled grids agree on every value below `k`, a
/// non-goal cell whose value in `a` is at most `k` has no larger value in `b`.
proof fn lemma_settled_step(maze: Seq<CellState>, a: Seq<u8>, b: Seq<u8>, x: int, y: int, k: int)
    requires
        maze.len() == 256,
        a.len() == 256,
        b.len() == 256,
        in_grid(x, y),
        !is_goal(x, y),
        a[cell_index(x, y)] as int == relaxed_value(maze, a, x, y),
        b[cell_index(x, y)] as int == relaxed_value(maze, b, x, y),
        a[cell_index(x, y)] <= k,
        k > 0 ==> forall|p: int, q: int|
            in_grid(p, q) && (a[cell_index(p, q)] <= k - 1 || b[cell_index(p, q)] <= k - 1)
                ==> #[trigger] a[cell_index(p, q)] == b[cell_index(p, q)],
    ensures
        b[cell_index(x, y)] <= a[cell_index(x, y)],
{
    lemma_relaxed_neighbours(maze, a, x, y);
    lemma_relaxed_neighbours(maze, b, x, y);
    if a[cell_index(x, y)] < 255 {
        let o = choose|o: MazeOrientation|
            open_toward(maze, x, y, o) && #[trigger] value_toward(maze, a, x, y, o) + 1
                == relaxed_value(maze, a, x, y);
        let nx = x + o.dx();
        let ny = y + o.dy();
        assert(a[cell_index(nx, ny)] as int == a[cell_index(x, y)] as int - 1);
        assert(a[cell_index(nx, ny)] == b[cell_index(nx, ny)]);
        assert(value_toward(maze, b, x, y, o) < 255);
    }
}

/// Relaxation has a single fixpoint for given walls: two value grids that are
/// both settled under the same walls are equal. So a full re-seed that completes
/// gives the same value grid each time it runs with no change of walls between.
pub proof fn lemma_reseed_idempotent(maze: Seq<CellState>, v1: Seq<u8>, v2: Seq<u8>)
    requires
        maze.len() == 256,
        v1.len() == 256,
        v2.len() == 256,
        settled(maze, v1),
        settled(maze, v2),
    ensures
        v1 == v2,
{
    lemma_settled_agree_up_to(maze, v1, v2, 255);
    assert forall|i: int| 0 <= i < 256 implies v1[i] == v2[i] by {
        assert(v1[cell_index(i / 16, i % 16)] == v2[cell_index(i / 16, i % 16)]);
    }
    assert(v1 =~= v2);
}

/// The decision depends on the walls, the values and the position alone. It
/// takes the open side whose neighbour has the smallest value, breaking ties
/// front first, then right, then left; back only when none of the three sides
/// is open. So a runner walled in front and to the right, and open to the left,
/// turns left.
pub proof fn lemma_decision_order(maze: Seq<CellState>, values: Seq<u8>, pos: RunnerPosition)
    ensures
        ({
            let fo = side_open(maze, pos, RunnerSide::Front);
            let ro = side_open(maze, pos, RunnerSide::Right);
            let lo = side_open(maze, pos, RunnerSide::Left);
            let f = side_value(maze, values, pos, RunnerSide::Front);
            let r = side_value(maze, values, pos, RunnerSide::Right);
            let l = side_value(maze, values, pos, RunnerSide::Left);
            &&& fo && (ro ==> f <= r) && (lo ==> f <= l) ==> next_move(maze, values, pos)
                == RunnerSide::Front
            &&& ro && (fo ==> r < f) && (lo ==> r <= l) ==> next_move(maze, values, pos)
                == RunnerSide::Right
            &&& lo && (fo ==> l < f) && (ro ==> l < r) ==> next_move(maze, values, pos)
                == RunnerSide::Left
            &&& !fo && !ro && !lo <==> next_move(maze, values, pos) == RunnerSide::Back
        }),
{
}

} // verus!
