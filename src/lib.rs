//! Deterministic simulation core of a tile-grid bombing game: the grid and
//! its contents, world generation, corner-probe collision, the per-player
//! step, the bomb and explosion sweep, and round termination.

pub mod content;
pub mod world;
pub mod rng;
pub mod blast;
pub mod layout;
pub mod player;
pub mod game;
