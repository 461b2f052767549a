//! Rule engine for a Go-style board game on a fixed square grid.
//!
//! The crate is split into the passive board container (`board`), the
//! mathematical model of groups, liberties, captures and move legality
//! (`model`), the rule engine that enforces that model (`rule`), a
//! self-contained engine bundling a board with the rules (`go_logic`),
//! and proved game laws (`laws`).

pub mod board;
pub mod game_const;
pub mod go_logic;
pub mod laws;
pub mod model;
pub mod rule;
pub mod stone;
