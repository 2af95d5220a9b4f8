//! LazyChess: chess rules, notation and game bookkeeping with machine-checked contracts.
//!
//! Boards are held as twelve bitboards; every operation on them is specified
//! over the squares (a1 = 0 .. h8 = 63) that the bitboards encode.

pub mod analyzer;
pub mod attacks;
pub mod bits;
pub mod board;
pub mod classifications;
pub mod fen;
pub mod game;
pub mod movegen;
pub mod opening;
pub mod pgn;
pub mod pgn_reading;
pub mod san_unique;
pub mod session;
pub mod text;
pub mod types;
pub mod uci;

pub use types::{
    file_of, make_square, parse_square, rank_of, square_name, CastlingRights, ChessError,
    ChessResult, Color, DrawReason, GameStatus, Move, MoveFlag, Piece, PieceType, Square,
};
pub use board::Board;
pub use fen::{board_to_fen, parse_fen};
pub use game::Game;
pub use movegen::{apply_move, generate_legal_moves};
pub use attacks::{is_in_check, is_square_attacked};
pub use opening::OpeningBook;
pub use pgn::{move_to_san, moves_to_pgn, parse_pgn};
