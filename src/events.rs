//! The commands and notices exchanged between the board and the session
//! that owns it.
use vstd::prelude::*;
use crate::color::StoneColor;
use crate::config::GoBoardConfig;

verus! {

/// Ask for the board to be drawn again.
pub struct RedrawBoardEvent;

/// Replace the board's settings.
pub struct UpdateBoardConfigEvent {
    pub config: GoBoardConfig,
}

/// Propose a stone of `color` at `position`.
pub struct PlaceStoneEvent {
    pub position: (i32, i32),
    pub color: StoneColor,
}

/// What a player does on a turn.
#[derive(Debug, Clone, Copy, PartialEq, Eq, Structural)]
pub enum StoneActionType {
    Place,
    Capture,
    Pass,
    Resign,
}

/// A player's action, with the point it concerns when there is one.
pub struct StoneActionEvent {
    pub action_type: StoneActionType,
    pub position: Option<(i32, i32)>,
    pub color: StoneColor,
}

/// The end of a game, with the scores in half points.
pub struct GameEndEvent {
    pub winner: Option<StoneColor>,
    pub black_score: usize,
    pub white_score: usize,
}

/// Take back the last move.
pub struct UndoMoveEvent;

/// Play again a move that was taken back.
pub struct RedoMoveEvent;

/// Empty the board and start again.
pub struct ClearBoardEvent;

/// Load a game record.
pub struct LoadGameEvent {
    pub sgf_content: String,
}

/// Save the game record to a file.
pub struct SaveGameEvent {
    pub file_path: String,
}

} // verus!
