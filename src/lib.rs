//! Rules engine of a chess-like board game: bitboard positions, magic-number
//! sliding attacks, legal move generation, apply/undo with an incrementally
//! maintained position hash, and a move-tree counter.

pub mod bitboard;
pub mod position;
pub mod piece;
pub mod castle_rights;
pub mod chess_move;
pub mod magic_tables;
pub mod computed_boards;
pub mod zobrist;
pub mod game_state;
pub mod board;
pub mod make_move;
pub mod move_generation;
pub mod legality;
pub mod perf;
pub mod fen_parser;
