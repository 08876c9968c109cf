//! A Go rules engine: board state, stone groups and liberties, captures,
//! the ko rule, suicide detection and a stone-count score.
pub mod board;
pub mod color;
pub mod components;
pub mod config;
pub mod coords;
pub mod events;
pub mod grid;
pub mod laws;
pub mod plugin;
pub mod rules;

pub use board::{BoardState, CurrentGoBoardConfig, CurrentTurn, GameHistory, Move};
pub use color::StoneColor;
pub use components::{
    BoardLine, CoordinateLabel, DeadStoneMarker, GoBoard, GoBoardRoot, HoverIndicator,
    LastMoveMarker, MoveNumberLabel, StarPoint, Stone, StoneHighlight, StoneShadow,
    TerritoryMarker,
};
pub use config::{BoardSize, GoBoardConfig, GoBoardConfigBuilder};
pub use coords::CoordinateUtils;
pub use events::{
    ClearBoardEvent, GameEndEvent, LoadGameEvent, PlaceStoneEvent, RedoMoveEvent,
    RedrawBoardEvent, SaveGameEvent, StoneActionEvent, StoneActionType, UndoMoveEvent,
    UpdateBoardConfigEvent,
};
pub use plugin::{GoBoardPlugin, GoBoardPluginBuilder};
pub use rules::GoBoardRules;
