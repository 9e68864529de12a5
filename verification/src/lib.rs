//! Rules core of a chess engine: a compact position representation plus a
//! generator that, given a position, produces every legal move.
//!
//! - [`board`]: squares, the packed piece codec, and the 64-slot board.
//! - [`castling`]: the two castling sides and the 4-bit rights set.
//! - [`mv`]: the packed move codec and its derived facts.
//! - [`state`]: the position and the pure move-application transition.
//! - [`mobility`]: the attack oracle, the pseudo-legal move rules, and the
//!   two-phase legal-move generator.
//! - [`display`]: plain-text rendering of squares, pieces and boards.

pub mod board;
pub mod castling;
pub mod mv;
pub mod state;
pub mod mobility;
pub mod display;
