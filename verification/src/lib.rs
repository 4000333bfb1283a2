//! Othello on a square board, with the book-keeping of a neural-guided tree search and of the
//! self-play that trains the network.
//!
//! A board is a flat, row-major sequence of cells: `1` and `-1` for the two players, `0` for an
//! empty cell. The rules are stated once, as specification functions over such sequences
//! ([`rules`]), and every executable function is proved against them; [`lemmas`] holds what
//! follows from the rules, and the laws of the game among it.
//!
//! - [`board`] casts rays, finds the legal destinations and makes moves;
//! - [`board_math`] holds the eight symmetries of the square as index tables;
//! - [`game`] says what a search needs to know of a game, and [`othello`] is Othello as such a
//!   game;
//! - [`arena`] lets two players play against each other;
//! - [`mcts`] is the tree of a search: what it keeps of each position, and the steps of a
//!   simulation;
//! - [`coach`] notes the turns of the episodes of self-play and keeps the history of examples.
//!
//! Numbers with a fraction do not occur here. The estimates of a network and what is computed
//! from them are values of a type that the caller chooses; the library moves them and keeps
//! them, and leaves the arithmetic to the caller.
pub mod rules;
pub mod lemmas;
mod vecs;
pub mod board;
pub mod board_math;
pub mod game;
pub mod othello;
pub mod arena;
mod chance;
pub mod mcts;
pub mod coach;
