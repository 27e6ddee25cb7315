//! A search engine for ultimate tic-tac-toe: a packed three-word board,
//! precomputed sub-grid evaluation tables, a legal-move generator, a
//! fixed-depth alpha-beta search with principal variation, and the text
//! codecs for boards, moves and scores.

pub mod bits;
pub mod board;
pub mod codec;
pub mod eval;
pub mod movegen;
pub mod search;
pub mod tables;
pub mod text;
