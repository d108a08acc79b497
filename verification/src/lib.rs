//! A chess board with the moves of the pieces, and a search that looks a
//! fixed number of half-moves ahead and counts material.
//!
//! The rules are the plain ones: a piece moves by the pattern of its kind,
//! is stopped by the pieces in its way and takes what it lands on. Check,
//! castling, taking in passing and promotion are not known, and a king can
//! be taken like any other piece.
//!
//! * [`board`]: the board, its invariant, and the moves as they are made
//!   and generated.
//! * [`rules`]: what the destinations of each kind of piece are, and what
//!   holds of them.
//! * [`minimax`]: the value of a piece, and the search.
//! * [`game`]: a game of a player against the search, message by message.
//! * [`text`]: boards and pieces as text.

pub mod board;
pub mod game;
pub mod minimax;
pub mod rules;
pub mod text;
