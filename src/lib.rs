//! Attack tables and a transposition table for a chess engine.
pub mod attacks;
pub mod bitboard;
pub mod engine;
pub mod trans_table;

pub use attacks::{AttackTable, Color};
pub use bitboard::Bitboard;
pub use engine::Engine;
pub use trans_table::{clear, insert, query, Entry, Move, NodeType, TransTable};
