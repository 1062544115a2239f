pub mod board;
pub mod chess_move;
pub mod definitions;
pub mod fen;
pub mod generate_moves;
pub mod perft;
pub mod text;
pub mod legality;
