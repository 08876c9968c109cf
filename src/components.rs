//! Tags that the presentation layer puts on what it draws, and the records
//! it keeps with them.
use vstd::prelude::*;
use crate::color::StoneColor;

verus! {

/// The board itself.
pub struct GoBoard;

/// The root of everything drawn for the board.
pub struct GoBoardRoot;

/// One grid line.
pub struct BoardLine;

/// A star point (hoshi).
pub struct StarPoint;

/// A coordinate label at the edge of the board.
pub struct CoordinateLabel;

/// A stone on the board: its colour, point and move number.
pub struct Stone {
    pub color: StoneColor,
    pub position: (i32, i32),
    pub move_number: usize,
}

/// The shadow under a stone.
pub struct StoneShadow;

/// The highlight on a stone.
pub struct StoneHighlight;

/// The move number written on a stone.
pub struct MoveNumberLabel;

/// The preview of a stone under the pointer.
pub struct HoverIndicator;

/// The mark on the last stone played.
pub struct LastMoveMarker;

/// The mark on a stone judged dead.
pub struct DeadStoneMarker;

/// The mark on a point of `owner`'s territory.
pub struct TerritoryMarker {
    pub owner: StoneColor,
}

} // verus!
