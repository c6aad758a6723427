//! A verified core for a grid-based mine-clearing puzzle game.
//!
//! The `matrix` module owns the board: mine placement, adjacency counts,
//! reveal with flood fill, flag toggling and the win condition. The `game`
//! module owns the session layered over one board and maps discrete input
//! events (quit, restart, pointer presses with pixel coordinates) to board
//! operations. Rendering and event polling are presentation concerns that
//! live outside this crate.

pub mod counting;
pub mod game;
pub mod matrix;
