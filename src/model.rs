//! The mathematical model of the engine: per-cell arrays as sequences, the
//! relaxation rule, the invariants of the map and of the worklist, and the
//! lemmas about them.
use vstd::prelude::*;

use crate::cell_state::CellState;
use crate::geometry::{in_grid, MazeOrientation, RunnerPosition, RunnerSide};
use crate::protocol::MazeRunnerRequest;

verus! {

/// Position of cell `(x, y)` in the per-cell arrays.
pub open spec fn cell_index(x: int, y: int) -> int {
    x * 16 + y
}

/// The goal region: the four cells at the centre of the maze.
pub open spec fn is_goal(x: int, y: int) -> bool {
    (x == 7 || x == 8) && (y == 7 || y == 8)
}

/// The cell `(x, y)` has a neighbour toward `o` and no known wall separates them.
pub open spec fn open_toward(maze: Seq<CellState>, x: int, y: int, o: MazeOrientation) -> bool {
    in_grid(x + o.dx(), y + o.dy()) && !maze[cell_index(x, y)].has_wall(o)
}

/// The value of the neighbour of `(x, y)` toward `o` when the way there is open,
/// else the sentinel.
pub open spec fn value_toward(
    maze: Seq<CellState>,
    values: Seq<u8>,
    x: int,
    y: int,
    o: MazeOrientation,
) -> int {
    if open_toward(maze, x, y, o) {
        values[cell_index(x + o.dx(), y + o.dy())] as int
    } else {
        255
    }
}

/// The smaller of two integers.
pub open spec fn min_int(a: int, b: int) -> int {
    if a <= b {
        a
    } else {
        b
    }
}

/// The smallest value among the open neighbours of `(x, y)`, or the sentinel when
/// there is none.
pub open spec fn min_open_value(maze: Seq<CellState>, values: Seq<u8>, x: int, y: int) -> int {
    min_int(
        min_int(
            value_toward(maze, values, x, y, MazeOrientation::North),
            value_toward(maze, values, x, y, MazeOrientation::East),
        ),
        min_int(
            value_toward(maze, values, x, y, MazeOrientation::South),
            value_toward(maze, values, x, y, MazeOrientation::West),
        ),
    )
}

/// What relaxation makes of a non-goal cell: one more than its smallest open
/// neighbour, or the sentinel when no open neighbour has a known path.
pub open spec fn relaxed_value(maze: Seq<CellState>, values: Seq<u8>, x: int, y: int) -> int {
    let m = min_open_value(maze, values, x, y);
    if m >= 255 {
        255
    } else {
        m + 1
    }
}

/// When `(x, y)` and its neighbour toward `o` both lie in the grid, the wall
/// between them is recorded on both sides or on neither.
pub open spec fn wall_mirrored(maze: Seq<CellState>, x: int, y: int, o: MazeOrientation) -> bool {
    in_grid(x, y) && in_grid(x + o.dx(), y + o.dy()) ==> maze[cell_index(x, y)].has_wall(o)
        == maze[cell_index(x + o.dx(), y + o.dy())].has_wall(o.opposite())
}

/// A wall recorded on one side of a boundary is recorded on the other side too.
pub open spec fn walls_symmetric(maze: Seq<CellState>) -> bool {
    forall|x: int, y: int, o: MazeOrientation| #[trigger] wall_mirrored(maze, x, y, o)
}

/// Every goal cell holds value 0.
pub open spec fn goals_pinned(values: Seq<u8>) -> bool {
    forall|x: int, y: int| is_goal(x, y) ==> #[trigger] values[cell_index(x, y)] == 0
}

/// Cell `(x, y)` holds the value that relaxation would give it.
pub open spec fn consistent_at(maze: Seq<CellState>, values: Seq<u8>, x: int, y: int) -> bool {
    if is_goal(x, y) {
        values[cell_index(x, y)] == 0
    } else {
        values[cell_index(x, y)] as int == relaxed_value(maze, values, x, y)
    }
}

/// The value grid is a fixpoint of relaxation under the known walls.
pub open spec fn settled(maze: Seq<CellState>, values: Seq<u8>) -> bool {
    forall|x: int, y: int| in_grid(x, y) ==> #[trigger] consistent_at(maze, values, x, y)
}

/// Cell `(x, y)`, when in the grid and not a goal, holds at least its relaxed value.
pub open spec fn at_or_above(maze: Seq<CellState>, values: Seq<u8>, x: int, y: int) -> bool {
    in_grid(x, y) && !is_goal(x, y) ==> values[cell_index(x, y)] as int >= relaxed_value(
        maze,
        values,
        x,
        y,
    )
}

/// Cell `(x, y)`, when in the grid and not a goal, holds at most its relaxed value.
pub open spec fn at_or_below(maze: Seq<CellState>, values: Seq<u8>, x: int, y: int) -> bool {
    in_grid(x, y) && !is_goal(x, y) ==> values[cell_index(x, y)] as int <= relaxed_value(
        maze,
        values,
        x,
        y,
    )
}

/// No value lies below its relaxed value: relaxation can only lower values.
pub open spec fn settling_down(maze: Seq<CellState>, values: Seq<u8>) -> bool {
    forall|x: int, y: int| #[trigger] at_or_above(maze, values, x, y)
}

/// No value lies above its relaxed value: relaxation can only raise values.
pub open spec fn settling_up(maze: Seq<CellState>, values: Seq<u8>) -> bool {
    forall|x: int, y: int| #[trigger] at_or_below(maze, values, x, y)
}

/// The sum of the first `n` values.
pub open spec fn value_sum(values: Seq<u8>, n: int) -> int
    decreases n,
{
    if n <= 0 {
        0
    } else {
        value_sum(values, n - 1) + values[n - 1] as int
    }
}

/// Every non-goal cell that relaxation would change waits on the worklist.
pub open spec fn pending_queued(maze: Seq<CellState>, values: Seq<u8>, items: Seq<(u8, u8)>) -> bool {
    forall|x: int, y: int|
        in_grid(x, y) && !is_goal(x, y) && !#[trigger] consistent_at(maze, values, x, y)
            ==> items.contains((x as u8, y as u8))
}

/// Every cell on the worklist lies in the grid.
pub open spec fn items_in_grid(items: Seq<(u8, u8)>) -> bool {
    forall|i: int| 0 <= i < items.len() ==> in_grid(#[trigger] items[i].0 as int, items[i].1 as int)
}

/// The flag that discovering a wall on side `o` of `(cx, cy)` adds to `(a, b)`.
pub open spec fn wall_added(a: int, b: int, cx: int, cy: int, o: MazeOrientation) -> CellState {
    if a == cx && b == cy {
        o.spec_wall()
    } else if a == cx + o.dx() && b == cy + o.dy() {
        o.opposite().spec_wall()
    } else {
        CellState::empty_spec()
    }
}

/// The value seen on `side` of a runner at `pos`: that of the neighbour there
/// when the way is open, else the sentinel.
pub open spec fn side_value(
    maze: Seq<CellState>,
    values: Seq<u8>,
    pos: RunnerPosition,
    side: RunnerSide,
) -> int {
    value_toward(
        maze,
        values,
        pos.cell.x as int,
        pos.cell.y as int,
        pos.orientation.spec_shifted(side),
    )
}

/// The neighbour of `(x, y)` toward `o`, as a worklist item, when the way there
/// is open; nothing otherwise.
pub open spec fn open_item(maze: Seq<CellState>, x: int, y: int, o: MazeOrientation) -> Seq<
    (u8, u8),
> {
    if open_toward(maze, x, y, o) {
        seq![((x + o.dx()) as u8, (y + o.dy()) as u8)]
    } else {
        Seq::empty()
    }
}

/// The open neighbours of `(x, y)`, in the order north, east, south, west.
pub open spec fn open_neighbour_items(maze: Seq<CellState>, x: int, y: int) -> Seq<(u8, u8)> {
    open_item(maze, x, y, MazeOrientation::North) + open_item(maze, x, y, MazeOrientation::East)
        + open_item(maze, x, y, MazeOrientation::South) + open_item(
        maze,
        x,
        y,
        MazeOrientation::West,
    )
}

/// The worklist items queued when a wall is discovered on side `o` of
/// `(cx, cy)`: the cell, then its neighbour there when that lies in the grid.
pub open spec fn wall_items(cx: int, cy: int, o: MazeOrientation) -> Seq<(u8, u8)> {
    seq![(cx as u8, cy as u8)] + neighbour_items(cx, cy, o)
}

/// The neighbour of `(cx, cy)` toward `o` as a worklist item, when it lies in
/// the grid; nothing otherwise.
pub open spec fn neighbour_items(cx: int, cy: int, o: MazeOrientation) -> Seq<(u8, u8)> {
    if in_grid(cx + o.dx(), cy + o.dy()) {
        seq![((cx + o.dx()) as u8, (cy + o.dy()) as u8)]
    } else {
        Seq::empty()
    }
}

/// The device reports sent when a wall is discovered on side `o` of `(cx, cy)`
/// in `maze`: the cell's new flags, then its neighbour's new flags when that
/// neighbour lies in the grid.
pub open spec fn wall_reports(maze: Seq<CellState>, cx: int, cy: int, o: MazeOrientation) -> Seq<
    MazeRunnerRequest,
> {
    let nx = cx + o.dx();
    let ny = cy + o.dy();
    seq![
        MazeRunnerRequest::UpdateCellState {
            x: cx as usize,
            y: cy as usize,
            state: maze[cell_index(cx, cy)].union(o.spec_wall()),
        },
    ] + if in_grid(nx, ny) {
        seq![
            MazeRunnerRequest::UpdateCellState {
                x: nx as usize,
                y: ny as usize,
                state: maze[cell_index(nx, ny)].union(o.opposite().spec_wall()),
            },
        ]
    } else {
        Seq::empty()
    }
}

/// The device commands that make a move toward `side`: the quarter turns, then
/// one step forward.
pub open spec fn move_requests(side: RunnerSide) -> Seq<MazeRunnerRequest> {
    match side {
        RunnerSide::Front => seq![MazeRunnerRequest::MoveForward],
        RunnerSide::Left => seq![MazeRunnerRequest::RotateLeft90, MazeRunnerRequest::MoveForward],
        RunnerSide::Right => seq![MazeRunnerRequest::RotateRight90, MazeRunnerRequest::MoveForward],
        RunnerSide::Back => seq![
            MazeRunnerRequest::RotateLeft90,
            MazeRunnerRequest::RotateLeft90,
            MazeRunnerRequest::MoveForward,
        ],
    }
}

/// Every flag set in `before` is set in `after`: the map only gains knowledge.
pub open spec fn maze_grows(before: Seq<CellState>, after: Seq<CellState>) -> bool {
    forall|i: int| #![trigger after[i]] 0 <= i < 256 ==> after[i].spec_contains(before[i])
}

/// `after` starts with `before`: requests already gathered stay as they were.
pub open spec fn outbox_extends(before: Seq<MazeRunnerRequest>, after: Seq<MazeRunnerRequest>) -> bool {
    &&& before.len() <= after.len()
    &&& forall|i: int| 0 <= i < before.len() ==> #[trigger] after[i] == before[i]
}

/// The value a full re-seed first gives cell `(x, y)`: 0 in the goal region,
/// the sentinel elsewhere.
pub open spec fn seed_value(x: int, y: int) -> u8 {
    if is_goal(x, y) {
        0
    } else {
        255
    }
}

/// Among the requests that `after` adds to `before`, one reports that cell
/// `(x, y)` holds its seed value.
pub open spec fn seed_reported(
    before: Seq<MazeRunnerRequest>,
    after: Seq<MazeRunnerRequest>,
    x: int,
    y: int,
) -> bool {
    exists|j: int| before.len() <= j < after.len() && after[j] == value_report(x, y, seed_value(x, y))
}

/// Request `r` reports a value of cell `(x, y)`.
pub open spec fn reports_cell(r: MazeRunnerRequest, x: usize, y: usize) -> bool {
    match r {
        MazeRunnerRequest::UpdateCellValue { x: rx, y: ry, value: _ } => rx == x && ry == y,
        _ => false,
    }
}

/// Request `j` of `reqs` is a value report of a cell of the grid that either
/// carries that cell's value in `v` or is followed by a later report of the
/// same cell.
pub open spec fn report_current(reqs: Seq<MazeRunnerRequest>, j: int, v: Seq<u8>) -> bool {
    match reqs[j] {
        MazeRunnerRequest::UpdateCellValue { x, y, value } => in_grid(x as int, y as int) && (value
            == v[cell_index(x as int, y as int)] as i32 || exists|k: int|
            j < k < reqs.len() && #[trigger] reports_cell(reqs[k], x, y)),
        _ => false,
    }
}

/// The device report that cell `(x, y)` now holds `v`.
pub open spec fn value_report(x: int, y: int, v: u8) -> MazeRunnerRequest {
    MazeRunnerRequest::UpdateCellValue { x: x as usize, y: y as usize, value: v as i32 }
}

/// `after` is `before` followed by value reports only, each of a cell of the
/// grid; the last report of each cell carries its value in `v1`; and every cell
/// whose value changed from `v0` to `v1` has been reported with its value in `v1`.
pub open spec fn values_reported(
    before: Seq<MazeRunnerRequest>,
    after: Seq<MazeRunnerRequest>,
    v0: Seq<u8>,
    v1: Seq<u8>,
) -> bool {
    &&& before.len() <= after.len()
    &&& forall|i: int| 0 <= i < before.len() ==> #[trigger] after[i] == before[i]
    &&& forall|j: int| before.len() <= j < after.len() ==> #[trigger] report_current(after, j, v1)
    &&& forall|x: int, y: int|
        in_grid(x, y) && #[trigger] v1[cell_index(x, y)] != v0[cell_index(x, y)] ==> exists|j: int|
            before.len() <= j < after.len() && after[j] == value_report(x, y, v1[cell_index(x, y)])
}

/// Nothing reported and nothing changed.
pub(crate) proof fn lemma_values_reported_none(out: Seq<MazeRunnerRequest>, v: Seq<u8>)
    ensures
        values_reported(out, out, v, v),
{
}

/// Writing value `nv` to cell `(x, y)` and reporting it keeps every change reported.
pub(crate) proof fn lemma_values_reported_write(
    before: Seq<MazeRunnerRequest>,
    after: Seq<MazeRunnerRequest>,
    v0: Seq<u8>,
    v1: Seq<u8>,
    x: int,
    y: int,
    nv: u8,
)
    requires
        values_reported(before, after, v0, v1),
        in_grid(x, y),
        v1.len() == 256,
    ensures
        values_reported(
            before,
            after.push(value_report(x, y, nv)),
            v0,
            v1.update(cell_index(x, y), nv),
        ),
{
    let a2 = after.push(value_report(x, y, nv));
    let w = v1.update(cell_index(x, y), nv);
    assert forall|i: int| 0 <= i < before.len() implies #[trigger] a2[i] == before[i] by {
        assert(after[i] == before[i]);
    }
    assert forall|j: int| before.len() <= j < a2.len() implies #[trigger] report_current(a2, j, w) by {
        if j < after.len() {
            assert(report_current(after, j, v1));
            assert(a2[j] == after[j]);
            assert(reports_cell(a2[after.len() as int], x as usize, y as usize));
            if let MazeRunnerRequest::UpdateCellValue { x: rx, y: ry, value } = after[j] {
                if rx as int == x && ry as int == y {
                    assert(reports_cell(a2[after.len() as int], rx, ry));
                } else {
                    assert(w[cell_index(rx as int, ry as int)] == v1[cell_index(rx as int, ry as int)]);
                    if value != v1[cell_index(rx as int, ry as int)] as i32 {
                        let k = choose|k: int| j < k < after.len() && #[trigger] reports_cell(after[k], rx, ry);
                        assert(a2[k] == after[k]);
                        assert(reports_cell(a2[k], rx, ry));
                    }
                }
            }
        }
    }
    assert forall|p: int, q: int|
        in_grid(p, q) && #[trigger] w[cell_index(p, q)] != v0[cell_index(p, q)] implies exists|j: int|
            before.len() <= j < a2.len() && a2[j] == value_report(p, q, w[cell_index(p, q)]) by {
        if p == x && q == y {
            assert(a2[after.len() as int] == value_report(p, q, w[cell_index(p, q)]));
        } else {
            assert(w[cell_index(p, q)] == v1[cell_index(p, q)]);
            let j = choose|j: int|
                before.len() <= j < after.len() && after[j] == value_report(
                    p,
                    q,
                    v1[cell_index(p, q)],
                );
            assert(a2[j] == after[j]);
        }
    }
}

/// Pushing the report of cell `(x, y)`'s seed value keeps every seed report
/// already made and adds that one.
pub(crate) proof fn lemma_seed_report_push(
    before: Seq<MazeRunnerRequest>,
    after: Seq<MazeRunnerRequest>,
    x: int,
    y: int,
)
    requires
        before.len() <= after.len(),
    ensures
        seed_reported(before, after.push(value_report(x, y, seed_value(x, y))), x, y),
        forall|a: int, b: int|
            seed_reported(before, after, a, b) ==> #[trigger] seed_reported(
                before,
                after.push(value_report(x, y, seed_value(x, y))),
                a,
                b,
            ),
{
    let a2 = after.push(value_report(x, y, seed_value(x, y)));
    assert(a2[after.len() as int] == value_report(x, y, seed_value(x, y)));
    assert forall|a: int, b: int| seed_reported(before, after, a, b) implies #[trigger] seed_reported(
        before,
        a2,
        a,
        b,
    ) by {
        let j = choose|j: int|
            before.len() <= j < after.len() && after[j] == value_report(a, b, seed_value(a, b));
        assert(a2[j] == after[j]);
    }
}

/// Two runs of reports compose: what either changed is reported in the whole.
pub(crate) proof fn lemma_values_reported_trans(
    o0: Seq<MazeRunnerRequest>,
    o1: Seq<MazeRunnerRequest>,
    o2: Seq<MazeRunnerRequest>,
    v0: Seq<u8>,
    v1: Seq<u8>,
    v2: Seq<u8>,
)
    requires
        values_reported(o0, o1, v0, v1),
        values_reported(o1, o2, v1, v2),
    ensures
        values_reported(o0, o2, v0, v2),
{
    assert forall|i: int| 0 <= i < o0.len() implies #[trigger] o2[i] == o0[i] by {
        assert(o1[i] == o0[i]);
        assert(o2[i] == o1[i]);
    }
    assert forall|j: int| o0.len() <= j < o2.len() implies #[trigger] report_current(o2, j, v2) by {
        if j < o1.len() {
            assert(report_current(o1, j, v1));
            assert(o2[j] == o1[j]);
            if let MazeRunnerRequest::UpdateCellValue { x: rx, y: ry, value } = o1[j] {
                let (p, q) = (rx as int, ry as int);
                if value == v1[cell_index(p, q)] as i32 {
                    if v2[cell_index(p, q)] != v1[cell_index(p, q)] {
                        assert(v2[cell_index(p, q)] != v1[cell_index(p, q)]);
                        let k = choose|k: int|
                            o1.len() <= k < o2.len() && o2[k] == value_report(p, q, v2[cell_index(p, q)]);
                        assert(reports_cell(o2[k], rx, ry));
                    }
                } else {
                    let k = choose|k: int| j < k < o1.len() && #[trigger] reports_cell(o1[k], rx, ry);
                    assert(o2[k] == o1[k]);
                    assert(reports_cell(o2[k], rx, ry));
                }
            }
        } else {
            assert(report_current(o2, j, v2));
        }
    }
    assert forall|p: int, q: int|
        in_grid(p, q) && #[trigger] v2[cell_index(p, q)] != v0[cell_index(p, q)] implies exists|j: int|
            o0.len() <= j < o2.len() && o2[j] == value_report(p, q, v2[cell_index(p, q)]) by {
        if v2[cell_index(p, q)] != v1[cell_index(p, q)] {
            let j = choose|j: int|
                o1.len() <= j < o2.len() && o2[j] == value_report(p, q, v2[cell_index(p, q)]);
            assert(o0.len() <= j);
        } else {
            assert(v1[cell_index(p, q)] != v0[cell_index(p, q)]);
            let j = choose|j: int|
                o0.len() <= j < o1.len() && o1[j] == value_report(p, q, v1[cell_index(p, q)]);
            assert(o2[j] == o1[j]);
        }
    }
}

/// Side `side` of a runner at `pos` leads to a neighbour in the grid with no
/// known wall between.
pub open spec fn side_open(maze: Seq<CellState>, pos: RunnerPosition, side: RunnerSide) -> bool {
    open_toward(maze, pos.cell.x as int, pos.cell.y as int, pos.orientation.spec_shifted(side))
}

/// The decision procedure: front, right and left are looked at in that order,
/// and an open side is taken when its neighbour's value is strictly below the
/// smallest seen so far (the first open side is always taken, whatever its
/// value); back only when none of the three sides is open.
pub open spec fn next_move(maze: Seq<CellState>, values: Seq<u8>, pos: RunnerPosition) -> RunnerSide {
    let f = side_value(maze, values, pos, RunnerSide::Front);
    let r = side_value(maze, values, pos, RunnerSide::Right);
    let l = side_value(maze, values, pos, RunnerSide::Left);
    let (m1, s1) = if side_open(maze, pos, RunnerSide::Front) {
        (f, RunnerSide::Front)
    } else {
        (256, RunnerSide::Back)
    };
    let (m2, s2) = if side_open(maze, pos, RunnerSide::Right) && r < m1 {
        (r, RunnerSide::Right)
    } else {
        (m1, s1)
    };
    if side_open(maze, pos, RunnerSide::Left) && l < m2 {
        RunnerSide::Left
    } else {
        s2
    }
}

/// Recording a wall between two cells of the grid on both sides keeps the walls
/// symmetric.
pub(crate) proof fn lemma_add_inner_wall(maze: Seq<CellState>, x: int, y: int, o: MazeOrientation)
    requires
        walls_symmetric(maze),
        maze.len() == 256,
        in_grid(x, y),
        in_grid(x + o.dx(), y + o.dy()),
    ensures
        ({
            let k = cell_index(x, y);
            let m1 = maze.update(k, maze[k].union(o.spec_wall()));
            let k2 = cell_index(x + o.dx(), y + o.dy());
            walls_symmetric(m1.update(k2, m1[k2].union(o.opposite().spec_wall())))
        }),
{
    let k = cell_index(x, y);
    let m1 = maze.update(k, maze[k].union(o.spec_wall()));
    let k2 = cell_index(x + o.dx(), y + o.dy());
    let m = m1.update(k2, m1[k2].union(o.opposite().spec_wall()));
    assert forall|a: int, b: int, d: MazeOrientation| #[trigger] wall_mirrored(m, a, b, d) by {
        let i = cell_index(a, b);
        let j = cell_index(a + d.dx(), b + d.dy());
        assert(wall_mirrored(maze, a, b, d));
        lemma_union_wall(maze[k], o, d);
        lemma_union_wall(maze[k], o, d.opposite());
        lemma_union_wall(m1[k2], o.opposite(), d);
        lemma_union_wall(m1[k2], o.opposite(), d.opposite());
        lemma_union_wall(maze[k2], o.opposite(), d);
        lemma_union_wall(maze[k2], o.opposite(), d.opposite());
    }
}

/// Two maps with the same walls everywhere agree on symmetry and on every
/// relaxed value.
pub(crate) proof fn lemma_same_walls(maze: Seq<CellState>, m: Seq<CellState>, values: Seq<u8>)
    requires
        maze.len() == 256,
        m.len() == 256,
        forall|i: int, d: MazeOrientation|
            0 <= i < 256 ==> #[trigger] m[i].has_wall(d) == maze[i].has_wall(d),
    ensures
        walls_symmetric(maze) ==> walls_symmetric(m),
        forall|x: int, y: int|
            in_grid(x, y) ==> #[trigger] relaxed_value(m, values, x, y) == relaxed_value(
                maze,
                values,
                x,
                y,
            ),
{
    if walls_symmetric(maze) {
        assert forall|a: int, b: int, d: MazeOrientation| #[trigger] wall_mirrored(m, a, b, d) by {
            assert(wall_mirrored(maze, a, b, d));
        }
    }
}

/// The border walls recorded once the bottom and top rows are walled for the
/// columns below `xs`, and the left and right columns for the rows below `ys`.
pub open spec fn border_walls(a: int, b: int, xs: int, ys: int) -> CellState {
    CellState {
        north: b == 15 && a < xs,
        east: a == 15 && b < ys,
        south: b == 0 && a < xs,
        west: a == 0 && b < ys,
        visited: false,
    }
}

/// Recording a wall on a side of a cell that faces off the grid keeps the walls
/// symmetric.
pub(crate) proof fn lemma_add_outer_wall(maze: Seq<CellState>, x: int, y: int, o: MazeOrientation)
    requires
        walls_symmetric(maze),
        maze.len() == 256,
        in_grid(x, y),
        !in_grid(x + o.dx(), y + o.dy()),
    ensures
        walls_symmetric(maze.update(cell_index(x, y), maze[cell_index(x, y)].union(o.spec_wall()))),
{
    let k = cell_index(x, y);
    let m = maze.update(k, maze[k].union(o.spec_wall()));
    assert forall|a: int, b: int, d: MazeOrientation| #[trigger] wall_mirrored(m, a, b, d) by {
        let i = cell_index(a, b);
        let j = cell_index(a + d.dx(), b + d.dy());
        assert(wall_mirrored(maze, a, b, d));
        lemma_union_wall(maze[k], o, d);
        lemma_union_wall(maze[k], o, d.opposite());
        if in_grid(a, b) && in_grid(a + d.dx(), b + d.dy()) {
            if i == k {
                assert(d != o);
            }
            if j == k {
                assert(d.opposite() != o);
            }
        }
    }
}

/// Adding the wall flag of side `o` sets the wall on that side and on no other.
pub(crate) proof fn lemma_union_wall(s: CellState, o: MazeOrientation, d: MazeOrientation)
    ensures
        s.union(o.spec_wall()).has_wall(d) == (s.has_wall(d) || d == o),
{
}

/// After the seeding of a full re-seed, a non-goal cell at the sentinel whose
/// relaxed value differs has an open neighbour in the goal region.
pub(crate) proof fn lemma_seeded_source(maze: Seq<CellState>, values: Seq<u8>, x: int, y: int)
    requires
        maze.len() == 256,
        values.len() == 256,
        in_grid(x, y),
        forall|a: int, b: int|
            in_grid(a, b) ==> #[trigger] values[cell_index(a, b)] == if is_goal(a, b) {
                0u8
            } else {
                255u8
            },
        relaxed_value(maze, values, x, y) != 255,
    ensures
        exists|o: MazeOrientation| open_toward(maze, x, y, o) && is_goal(x + o.dx(), y + o.dy()),
{
    let n = MazeOrientation::North;
    let e = MazeOrientation::East;
    let s = MazeOrientation::South;
    let w = MazeOrientation::West;
    if open_toward(maze, x, y, n) && is_goal(x + n.dx(), y + n.dy()) {
    } else if open_toward(maze, x, y, e) && is_goal(x + e.dx(), y + e.dy()) {
    } else if open_toward(maze, x, y, s) && is_goal(x + s.dx(), y + s.dy()) {
    } else if open_toward(maze, x, y, w) && is_goal(x + w.dx(), y + w.dy()) {
    } else {
        assert(values[cell_index(x + n.dx(), y + n.dy())] == 255u8 || !open_toward(maze, x, y, n));
        assert(values[cell_index(x + e.dx(), y + e.dy())] == 255u8 || !open_toward(maze, x, y, e));
        assert(values[cell_index(x + s.dx(), y + s.dy())] == 255u8 || !open_toward(maze, x, y, s));
        assert(values[cell_index(x + w.dx(), y + w.dy())] == 255u8 || !open_toward(maze, x, y, w));
    }
}

/// Writing the value of cell `(px, py)` leaves the value that cell `(qx, qy)`
/// sees toward `o` unchanged, unless `(qx, qy)` is the open neighbour of `(px, py)`
/// on the side opposite to `o`.
pub(crate) proof fn lemma_value_toward_after_write(
    maze: Seq<CellState>,
    values: Seq<u8>,
    px: int,
    py: int,
    v: u8,
    qx: int,
    qy: int,
    o: MazeOrientation,
)
    requires
        walls_symmetric(maze),
        maze.len() == 256,
        values.len() == 256,
        in_grid(px, py),
        in_grid(qx, qy),
        !(open_toward(maze, px, py, o.opposite()) && px + o.opposite().dx() == qx && py
            + o.opposite().dy() == qy),
    ensures
        value_toward(maze, values.update(cell_index(px, py), v), qx, qy, o) == value_toward(
            maze,
            values,
            qx,
            qy,
            o,
        ),
{
    if open_toward(maze, qx, qy, o) && qx + o.dx() == px && qy + o.dy() == py {
        assert(wall_mirrored(maze, qx, qy, o));
    }
}

/// Writing the value of cell `(px, py)` changes the relaxed value of no cell but
/// its open neighbours.
pub(crate) proof fn lemma_relaxed_after_write(
    maze: Seq<CellState>,
    values: Seq<u8>,
    px: int,
    py: int,
    v: u8,
    qx: int,
    qy: int,
)
    requires
        walls_symmetric(maze),
        maze.len() == 256,
        values.len() == 256,
        in_grid(px, py),
        in_grid(qx, qy),
        forall|o: MazeOrientation|
            open_toward(maze, px, py, o) ==> px + o.dx() != qx || py + o.dy() != qy,
    ensures
        relaxed_value(maze, values.update(cell_index(px, py), v), qx, qy) == relaxed_value(
            maze,
            values,
            qx,
            qy,
        ),
{
    assert(MazeOrientation::North.opposite() == MazeOrientation::South);
    assert(MazeOrientation::South.opposite() == MazeOrientation::North);
    assert(MazeOrientation::East.opposite() == MazeOrientation::West);
    assert(MazeOrientation::West.opposite() == MazeOrientation::East);
    lemma_value_toward_after_write(maze, values, px, py, v, qx, qy, MazeOrientation::North);
    lemma_value_toward_after_write(maze, values, px, py, v, qx, qy, MazeOrientation::East);
    lemma_value_toward_after_write(maze, values, px, py, v, qx, qy, MazeOrientation::South);
    lemma_value_toward_after_write(maze, values, px, py, v, qx, qy, MazeOrientation::West);
}

/// The sum of the first `n` values lies between 0 and 255 for each value.
pub(crate) proof fn lemma_value_sum_bounds(values: Seq<u8>, n: int)
    ensures
        0 <= value_sum(values, n) <= 255 * (if n < 0 {
            0
        } else {
            n
        }),
    decreases n,
{
    if n > 0 {
        lemma_value_sum_bounds(values, n - 1);
    }
}

/// Changing one value changes the sum by the difference.
pub(crate) proof fn lemma_value_sum_update(values: Seq<u8>, k: int, v: u8, n: int)
    requires
        0 <= k < n <= values.len(),
    ensures
        value_sum(values.update(k, v), n) == value_sum(values, n) - values[k] + v,
    decreases n,
{
    if k < n - 1 {
        lemma_value_sum_update(values, k, v, n - 1);
    } else {
        assert forall|i: int| 0 <= i < k implies values.update(k, v)[i] == values[i] by {}
        lemma_value_sum_prefix(values, values.update(k, v), k);
    }
}

/// Two sequences that agree below `n` have the same sum there.
pub(crate) proof fn lemma_value_sum_prefix(a: Seq<u8>, b: Seq<u8>, n: int)
    requires
        0 <= n <= a.len(),
        n <= b.len(),
        forall|i: int| 0 <= i < n ==> a[i] == b[i],
    ensures
        value_sum(a, n) == value_sum(b, n),
    decreases n,
{
    if n > 0 {
        lemma_value_sum_prefix(a, b, n - 1);
    }
}

/// Lowering one value lowers no relaxed value of another cell; raising it
/// raises none.
pub(crate) proof fn lemma_relaxed_after_change(
    maze: Seq<CellState>,
    values: Seq<u8>,
    k: int,
    v: u8,
    qx: int,
    qy: int,
)
    requires
        maze.len() == 256,
        values.len() == 256,
        0 <= k < 256,
        in_grid(qx, qy),
    ensures
        v <= values[k] ==> relaxed_value(maze, values.update(k, v), qx, qy) <= relaxed_value(
            maze,
            values,
            qx,
            qy,
        ),
        v >= values[k] ==> relaxed_value(maze, values.update(k, v), qx, qy) >= relaxed_value(
            maze,
            values,
            qx,
            qy,
        ),
{
    let w = values.update(k, v);
    assert forall|o: MazeOrientation| v <= values[k] implies #[trigger] value_toward(
        maze,
        w,
        qx,
        qy,
        o,
    ) <= value_toward(maze, values, qx, qy, o) by {}
    assert forall|o: MazeOrientation| v >= values[k] implies #[trigger] value_toward(
        maze,
        w,
        qx,
        qy,
        o,
    ) >= value_toward(maze, values, qx, qy, o) by {}
}

/// In a relaxation step, the popped cell `(px, py)` takes its relaxed value; this
/// keeps every value on the side of its relaxed value where the pass started, and
/// moves the value sum toward the fixpoint.
pub(crate) proof fn lemma_relaxation_write_keeps_direction(
    maze: Seq<CellState>,
    values: Seq<u8>,
    px: int,
    py: int,
    v: u8,
    down: bool,
)
    requires
        walls_symmetric(maze),
        maze.len() == 256,
        values.len() == 256,
        in_grid(px, py),
        !is_goal(px, py),
        v as int == relaxed_value(maze, values, px, py),
        v != values[cell_index(px, py)],
        down ==> settling_down(maze, values),
        !down ==> settling_up(maze, values),
    ensures
        ({
            let w = values.update(cell_index(px, py), v);
            &&& down ==> settling_down(maze, w)
            &&& !down ==> settling_up(maze, w)
            &&& down ==> value_sum(w, 256) < value_sum(values, 256)
            &&& !down ==> value_sum(w, 256) > value_sum(values, 256)
        }),
        down ==> v < values[cell_index(px, py)],
        !down ==> v > values[cell_index(px, py)],
{
    let k = cell_index(px, py);
    let w = values.update(k, v);
    lemma_value_sum_update(values, k, v, 256);
    lemma_relaxed_after_write(maze, values, px, py, v, px, py);
    if down {
        assert(at_or_above(maze, values, px, py));
        assert forall|x: int, y: int| #[trigger] at_or_above(maze, w, x, y) by {
            if in_grid(x, y) && !is_goal(x, y) {
                assert(at_or_above(maze, values, x, y));
                lemma_relaxed_after_change(maze, values, k, v, x, y);
            }
        }
    } else {
        assert(at_or_below(maze, values, px, py));
        assert forall|x: int, y: int| #[trigger] at_or_below(maze, w, x, y) by {
            if in_grid(x, y) && !is_goal(x, y) {
                assert(at_or_below(maze, values, x, y));
                lemma_relaxed_after_change(maze, values, k, v, x, y);
            }
        }
    }
}

/// More walls around a cell never lower its relaxed value.
pub(crate) proof fn lemma_relaxed_more_walls(
    maze: Seq<CellState>,
    more: Seq<CellState>,
    values: Seq<u8>,
    x: int,
    y: int,
)
    requires
        maze.len() == 256,
        more.len() == 256,
        in_grid(x, y),
        forall|o: MazeOrientation|
            maze[cell_index(x, y)].has_wall(o) ==> #[trigger] more[cell_index(x, y)].has_wall(o),
    ensures
        relaxed_value(more, values, x, y) >= relaxed_value(maze, values, x, y),
{
    assert forall|o: MazeOrientation| #[trigger] value_toward(more, values, x, y, o) >= value_toward(
        maze,
        values,
        x,
        y,
        o,
    ) by {
        if open_toward(more, x, y, o) {
            assert(open_toward(maze, x, y, o));
            assert(values[cell_index(x + o.dx(), y + o.dy())] <= 255);
        }
    }
}

/// Pushing keeps what a sequence holds, and adds the pushed item.
pub(crate) proof fn lemma_push_keeps(s: Seq<(u8, u8)>, item: (u8, u8))
    ensures
        s.push(item).contains(item),
        forall|p: (u8, u8)| s.contains(p) ==> #[trigger] s.push(item).contains(p),
{
    assert(s.push(item)[s.len() as int] == item);
    assert forall|p: (u8, u8)| s.contains(p) implies #[trigger] s.push(item).contains(p) by {
        let i = choose|i: int| 0 <= i < s.len() && s[i] == p;
        assert(s.push(item)[i] == p);
    }
}

/// Pushing a cell of the grid keeps every item in the grid.
pub(crate) proof fn lemma_push_in_grid(s: Seq<(u8, u8)>, item: (u8, u8))
    requires
        items_in_grid(s),
        in_grid(item.0 as int, item.1 as int),
    ensures
        items_in_grid(s.push(item)),
{
    assert forall|i: int| 0 <= i < s.push(item).len() implies in_grid(
        #[trigger] s.push(item)[i].0 as int,
        s.push(item)[i].1 as int,
    ) by {
        if i < s.len() {
            assert(s.push(item)[i] == s[i]);
        }
    }
}

/// Dropping the last item keeps every other item that a sequence holds.
pub(crate) proof fn lemma_drop_last_keeps(s: Seq<(u8, u8)>)
    requires
        s.len() > 0,
    ensures
        forall|p: (u8, u8)| s.contains(p) && p != s.last() ==> #[trigger] s.drop_last().contains(p),
        items_in_grid(s) ==> items_in_grid(s.drop_last()),
{
    assert forall|p: (u8, u8)| s.contains(p) && p != s.last() implies #[trigger] s.drop_last().contains(
        p,
    ) by {
        let i = choose|i: int| 0 <= i < s.len() && s[i] == p;
        assert(i != s.len() - 1);
        assert(s.drop_last()[i] == p);
    }
    if items_in_grid(s) {
        assert forall|i: int| 0 <= i < s.drop_last().len() implies in_grid(
            #[trigger] s.drop_last()[i].0 as int,
            s.drop_last()[i].1 as int,
        ) by {
            assert(s.drop_last()[i] == s[i]);
        }
    }
}

} // verus!
