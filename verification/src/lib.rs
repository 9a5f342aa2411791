//! A falling-block puzzle game engine: a 20 x 10 playfield of colored
//! cells, a falling piece moved and rotated under collision rules, piece
//! locking under gravity, and full-row clearing.
//!
//! `block` holds the piece and its geometric transforms; `game` holds the
//! field, the command/gravity state machine and the row-clearing pass.
//! The engine is a pure, synchronous state machine: a caller that drives
//! it from both a timer and an input source serializes access around each
//! transition.

pub mod block;
pub mod game;
