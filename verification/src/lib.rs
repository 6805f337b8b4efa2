//! Four-player chess engine core: board representation, move generation,
//! game rules, evaluation, Max^n search, FEN4 and protocol text handling.

pub mod text;
pub mod types;
pub mod zobrist;
pub mod board;
pub mod attacks;
pub mod moves;
pub mod movegen;
pub mod makemove;
pub mod legal;
pub mod fen4;
pub mod eval;
pub mod move_order;
pub mod command;
pub mod output;
pub mod notation;
pub mod game_state;
pub mod nnue;
pub mod clock;
pub mod search;
pub mod mcts;
pub mod options;
