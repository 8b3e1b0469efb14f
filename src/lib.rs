//! Sliding-tile boards whose tiles carry connector bits, the score of the
//! largest tree that the connectors draw, and the searches that look for a
//! short sequence of moves reaching a high-scoring board.
//!
//! - `board`: the board, its moves and their replay.
//! - `score`: components of the connector graph, the largest tree, the score.
//! - `path`: breadth-first search around fixed cells.
//! - `greedy`: the constructive solver that places tiles row by row.
//! - `anneal`: the steps of annealing over tile patterns and over move sequences.
//! - `beam`: beam search over reachable boards, each recorded once.
//! - `random`: the random draws and the sort that the searches rely on.

pub mod board;
pub mod score;
pub mod path;
pub mod greedy;
pub mod random;
pub mod anneal;
pub mod beam;
