//! A Go rules engine with a Monte Carlo Tree Search player.
//!
//! The board is a persistent value: placing a stone yields a new state and
//! leaves the old one intact, which lets the search tree hold a snapshot per
//! node. Every executable function carries a contract over the mathematical
//! views defined beside it.
//!
//! * `colour`, `coordinate`, `turn`, `fails`: the vocabulary of the game.
//! * `geometry`, `region`: which cells touch, liberties, and the empty areas
//!   that a flood fill finds.
//! * `group_state`, `zobrist`, `board_view`, `board_state`: the persistent
//!   board, with the rules of a move stated in `board_view` and proved of the
//!   code in `board_state`; `laws` holds what follows from the rules.
//! * `territory`, `game_state`, `tree`: scoring, legal moves, and a game with
//!   its history.
//! * `playout`, `search`: the rules of a random game, and the Monte Carlo
//!   tree.
//! * `board` with `group`, and `new_board` with `new_group`: two simpler
//!   boards of the full tournament size that are changed in place;
//!   `new_game` is a game on the second of them.
//! * `random`, `hashing`: what rests on code outside the library.

pub mod colour;
pub mod coordinate;
pub mod turn;
pub mod fails;

pub mod geometry;
pub mod region;

pub mod group_state;
pub mod zobrist;
pub mod board_view;
pub mod board_state;
pub mod laws;

pub mod territory;
pub mod game_state;
pub mod tree;

pub mod playout;
pub mod search;

pub mod board;
pub mod group;
pub mod new_board;
pub mod new_group;
pub mod new_game;

pub mod random;
pub mod hashing;
