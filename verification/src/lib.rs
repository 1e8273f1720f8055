//! Gravity-drop grid games: a four-in-a-row game and a letter-sequence game,
//! with win/draw detection, a depth-limited alpha-beta move search, and a
//! match controller that orchestrates turns and produces a finished-game
//! record.

pub mod board;
pub mod connect4;
pub mod engine4;
pub mod toot;
pub mod engine_toot;
pub mod record;
pub mod controller;
