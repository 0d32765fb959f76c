//! A bitboard-based chess move generator core: per-piece lazy move iterators
//! built on occupancy-dependent attack computation, plus the board value type
//! and FEN decoding that produces well-formed boards.

pub mod bits;
pub mod attacks;
pub mod moves;
pub mod board;
pub mod movegen;
pub mod fen;
