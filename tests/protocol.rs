use micromouse::cell_state::ButtonsState;
use micromouse::protocol::{
    acknowledged, clear_maze, start_decision, wall_reading, MazeRunnerRequest,
    MazeRunnerResponse, ProtocolError, StartDecision,
};

fn buttons(button1: bool, button4: bool) -> MazeRunnerResponse {
    MazeRunnerResponse::Buttons(ButtonsState {
        reset: false,
        button1,
        button2: false,
        button3: false,
        button4,
    })
}

#[test]
fn start_decision_prefers_stop() {
    assert_eq!(start_decision(&buttons(true, false)), StartDecision::Start);
    assert_eq!(start_decision(&buttons(false, true)), StartDecision::Quit);
    assert_eq!(start_decision(&buttons(true, true)), StartDecision::Quit);
    assert_eq!(start_decision(&buttons(false, false)), StartDecision::Wait);
    assert_eq!(start_decision(&MazeRunnerResponse::Ack), StartDecision::Wait);
}

#[test]
fn wall_reading_rejects_other_shapes() {
    assert_eq!(wall_reading(&MazeRunnerResponse::WallDetected(true)), Ok(true));
    assert_eq!(wall_reading(&MazeRunnerResponse::WallDetected(false)), Ok(false));
    assert_eq!(
        wall_reading(&MazeRunnerResponse::Ack),
        Err(ProtocolError::UnexpectedResponse(MazeRunnerResponse::Ack))
    );
}

#[test]
fn acknowledged_accepts_ack_only() {
    assert_eq!(acknowledged(&MazeRunnerResponse::Ack), Ok(()));
    assert_eq!(
        acknowledged(&MazeRunnerResponse::Error),
        Err(ProtocolError::UnexpectedResponse(MazeRunnerResponse::Error))
    );
}

#[test]
fn clear_maze_lists_every_cell() {
    let r = clear_maze();
    assert_eq!(r.len(), 256);
    assert_eq!(r[0], MazeRunnerRequest::ClearCell { x: 0, y: 0 });
    assert_eq!(r[17], MazeRunnerRequest::ClearCell { x: 1, y: 1 });
    assert_eq!(r[255], MazeRunnerRequest::ClearCell { x: 15, y: 15 });
}
