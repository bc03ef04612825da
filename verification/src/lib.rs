//! A verified engine for a tile-matching puzzle ("same game").
//!
//! A rectangular grid holds colored tiles. The player selects a tile; if it
//! belongs to a connected group of two or more same-kind tiles, the group is
//! removed, the remaining tiles settle toward the bottom-left, and the score
//! grows with the size of the removed group. The engine here is the grid data
//! model, the connected-group search, the settling (collapse) pass, scoring,
//! and the session state machine; rendering and input live outside.

pub mod collapse;
pub mod count;
pub mod grid;
pub mod group;
pub mod rng;
pub mod session;

pub use grid::Grid;
pub use grid::Tile;
pub use session::Action;
pub use session::ConfigError;
pub use session::Session;
pub use session::Snapshot;
pub use session::new_session;
pub use session::score_for_group;
