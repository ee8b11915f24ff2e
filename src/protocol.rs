//! The requests the runner issues to the device and the responses it gets back,
//! and the decisions taken on a single response.
use vstd::prelude::*;

use crate::cell_state::{ButtonsState, CellState};

verus! {

/// One command to the maze-runner device.
#[derive(Clone, Copy, Debug, PartialEq, Eq, Structural)]
pub enum MazeRunnerRequest {
    Initialize,
    MoveForward,
    RotateRight90,
    RotateLeft90,
    GetWallFront,
    GetWallRight,
    GetWallLeft,
    GetButtonsState,
    UpdateCellState { x: usize, y: usize, state: CellState },
    ClearCell { x: usize, y: usize },
    UpdateCellValue { x: usize, y: usize, value: i32 },
}

/// The device's answer to one request.
#[derive(Clone, Copy, Debug, PartialEq, Eq, Structural)]
pub enum MazeRunnerResponse {
    Ack,
    Error,
    WallDetected(bool),
    Buttons(ButtonsState),
}

/// A response of another kind than the request calls for.
#[derive(Clone, Copy, Debug, PartialEq, Eq, Structural)]
pub enum ProtocolError {
    UnexpectedResponse(MazeRunnerResponse),
}

/// What the controller does next while it waits for the operator.
#[derive(Clone, Copy, Debug, PartialEq, Eq, Structural)]
pub enum StartDecision {
    /// Begin a new attempt.
    Start,
    /// End the whole run.
    Quit,
    /// Poll the buttons again later.
    Wait,
}

/// The decision taken on the answer to a button poll: the stop button wins over
/// the start button, and any answer that is not a button state means no input yet.
pub open spec fn spec_start_decision(response: MazeRunnerResponse) -> StartDecision {
    match response {
        MazeRunnerResponse::Buttons(b) => if b.button4 {
            StartDecision::Quit
        } else if b.button1 {
            StartDecision::Start
        } else {
            StartDecision::Wait
        },
        _ => StartDecision::Wait,
    }
}

/// Decides, from the answer to a button poll, whether to start, quit or wait.
pub fn start_decision(response: &MazeRunnerResponse) -> (r: StartDecision)
    ensures
        r == spec_start_decision(*response),
{
    match response {
        MazeRunnerResponse::Buttons(b) => {
            if b.button4 {
                StartDecision::Quit
            } else if b.button1 {
                StartDecision::Start
            } else {
                StartDecision::Wait
            }
        },
        _ => StartDecision::Wait,
    }
}

/// Reads the answer to a wall query: whether a wall was seen, or an error when
/// the answer is not a wall reading.
pub fn wall_reading(response: &MazeRunnerResponse) -> (r: Result<bool, ProtocolError>)
    ensures
        r is Ok <==> response is WallDetected,
        r matches Ok(b) ==> *response == MazeRunnerResponse::WallDetected(b),
        r matches Err(e) ==> e == ProtocolError::UnexpectedResponse(*response),
{
    match response {
        MazeRunnerResponse::WallDetected(b) => Ok(*b),
        _ => Err(ProtocolError::UnexpectedResponse(*response)),
    }
}

/// Checks that a command was acknowledged.
pub fn acknowledged(response: &MazeRunnerResponse) -> (r: Result<(), ProtocolError>)
    ensures
        r is Ok <==> *response == MazeRunnerResponse::Ack,
        r matches Err(e) ==> e == ProtocolError::UnexpectedResponse(*response),
{
    match response {
        MazeRunnerResponse::Ack => Ok(()),
        _ => Err(ProtocolError::UnexpectedResponse(*response)),
    }
}

/// The request that clears the cell at position `i` of a column-by-column walk.
pub open spec fn clear_request(i: int) -> MazeRunnerRequest {
    MazeRunnerRequest::ClearCell { x: (i / 16) as usize, y: (i % 16) as usize }
}

/// The requests that clear the device's view of every cell, column by column.
pub fn clear_maze() -> (r: Vec<MazeRunnerRequest>)
    ensures
        r@.len() == 256,
        forall|i: int|
            0 <= i < 256 ==> #[trigger] r@[i] == clear_request(i),
{
    let mut r: Vec<MazeRunnerRequest> = Vec::new();
    let mut x: usize = 0;
    while x < 16
        invariant
            x <= 16,
            r@.len() == x * 16,
            forall|i: int|
                0 <= i < x * 16 ==> #[trigger] r@[i] == clear_request(i),
        decreases 16 - x,
    {
        let mut y: usize = 0;
        while y < 16
            invariant
                x < 16,
                y <= 16,
                r@.len() == x * 16 + y,
                forall|i: int|
                    0 <= i < x * 16 + y ==> #[trigger] r@[i] == clear_request(i),
            decreases 16 - y,
        {
            proof {
                assert((x * 16 + y) / 16 == x && (x * 16 + y) % 16 == y) by (nonlinear_arith)
                    requires
                        y < 16,
                ;
            }
            r.push(MazeRunnerRequest::ClearCell { x, y });
            y = y + 1;
        }
        x = x + 1;
    }
    r
}

} // verus!
