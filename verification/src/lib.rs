//! Rules core of a chess move generator: squares and bitboards, attack tables,
//! move encoding, move generation and a position with reversible moves.

pub mod bitboard;
pub mod bits;
pub mod board;
pub mod color;
pub mod magic;
pub mod movegen;
pub mod ops;
pub mod perft;
pub mod piece;
pub mod position;
pub mod precompute;
pub mod square;
pub mod text;

pub use bitboard::Bitboard;
pub use color::Color;
pub use movegen::{Move, MoveKind, MoveList};
pub use piece::{Piece, PieceType};
pub use position::{CastleFlag, Position, State};
pub use precompute::{initialize, Tables};
pub use square::{Direction, File, Rank, Square};
