//! A search engine for a 3x4 shogi variant: move generation (board moves and
//! hand drops), move application with capture and promotion, a static
//! evaluator, a position encoder, and a depth-limited alpha-beta search with a
//! transposition table, topped by a root selector that avoids repeating
//! positions whenever a novel move exists.
//!
//! Every executable function carries a contract pinning its result down to a
//! mathematical model of the game. On top of those, the crate proves the
//! engine's key laws: generated moves keep positions well formed, capture
//! always demotes a promoted pawn, mate scores rank nearer wins above deeper
//! ones, the try rule ends the search at once, the encoder is collision-free
//! over game positions, the pruned memoized search equals unpruned minimax,
//! and the root selector never repeats a position while a novel move exists.

pub mod model;
pub mod offsets;
pub mod board;
pub mod movegen;
pub mod apply;
pub mod eval;
pub mod encode;
pub mod search;
pub mod root;
pub mod equivalence;
