//! Rules, board state and move generation for the board game Tac.
pub mod bitboard;
pub mod board;
pub mod bits;
pub mod card;
pub mod color;
pub mod deck;
pub mod eval;
pub mod hand;
pub mod history;
pub mod movegen;
pub mod seven;
pub mod home;
pub mod knowledge;
pub mod mcts;
pub mod square;
pub mod tacmove;
pub mod transposition;

pub use bitboard::{BitBoard, BitBoardIter};
pub use card::{Card, CARDS, NUM_CARDS};
pub use color::{Color, ALL_COLORS};
pub use home::Home;
pub use square::Square;
pub use tacmove::{PackedTacMove, SevenAction, TacAction, TacMove};
pub use deck::Deck;
pub use hand::Hand;
pub use board::Board;
