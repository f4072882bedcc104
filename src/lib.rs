//! Generalised N×N tic-tac-toe: a board model, a win detector, an evaluator and a
//! game-tree search (plain minimax, or minimax with alpha-beta pruning).
pub mod board;
pub mod rules;
pub mod search;
