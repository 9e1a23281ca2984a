//! A move chooser for a two-player tree-growing game on a small hex board.
//!
//! The crate holds the board and its light model, the rules that turn one
//! snapshot of the game into the next, and a Monte-Carlo tree search that
//! picks one of the legal actions of a turn.
//!
//! - `board`, `state`, `action`: the data of a match and its invariants.
//! - `shadow`: which trees stand in the shadow of another on a given day.
//! - `rules`: what each action costs and changes, which actions are legal,
//!   and the transition from one snapshot to the next.
//! - `eval`: the value of a snapshot for the searching player.
//! - `uct`, `log`: the selection score of a search node, in whole numbers,
//!   and the fixed-point logarithm it takes.
//! - `search`, `playout`: the search tree, its four steps, and the move
//!   selector.
//! - `random`: the source of chance.
//! - `protocol`: the text in which the host states a turn and takes a move.

pub mod action;
pub mod board;
pub mod eval;
pub mod log;
pub mod playout;
pub mod protocol;
pub mod random;
pub mod rules;
pub mod search;
pub mod shadow;
pub mod state;
pub mod uct;
