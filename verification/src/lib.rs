//! Shogi board representation: pieces, squares, bitboards, board states,
//! move making with full rule checking, SFEN serialization and a compact
//! packed encoding of board states.
pub mod color;
pub mod piece_type;
pub mod piece;
pub mod square;
pub mod bitboard;
pub mod bits;
pub mod attack;
pub mod hand;
pub mod error;
pub mod text;
pub mod moves;
pub mod rules;
pub mod state_info;
pub mod sfen;
pub mod sfen_roundtrip;
pub mod zobrist;
pub mod packed_state_info;
pub mod packed_roundtrip;
pub mod position;
pub mod display;

pub use bitboard::Bitboard;
pub use color::Color;
pub use error::{MoveError, SfenError};
pub use hand::Hand;
pub use moves::{Move, MoveRecord};
pub use piece::Piece;
pub use piece_type::PieceType;
pub use position::Position;
pub use square::Square;
pub use state_info::{PieceGrid, StateInfo};
