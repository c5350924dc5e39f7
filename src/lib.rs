//! A bitboard chess engine core: attack computation, pseudo-legal move
//! generation with a check-based legality filter, move execution with exact
//! undo, static evaluation, Zobrist hashing, a transposition table, move
//! ordering heuristics and an alpha-beta search.

pub mod types;
pub mod utils;
pub mod attacks;
pub mod attack_bitboards;
pub mod board_state;
pub mod move_execution;
pub mod movegen;
pub mod evaluation;
pub mod zobrist;
pub mod transposition_table;
pub mod move_ordering;
pub mod search;
pub mod notation;
pub mod timing;
pub mod fen;
pub mod uci;
