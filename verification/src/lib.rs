pub mod bitboard;
pub mod eval;
pub mod fen;
pub mod movegen;
pub mod perft;
pub mod position;
pub mod search;
pub mod tables;
pub mod text;
pub mod types;
pub mod uci;
pub mod zobrist;
