//! Protocol logic of a bridge between a WACCA cabinet's game board and its
//! touch unit boards: the framing, checksums and parsing of the serial
//! packets, and the decisions taken on each message of the game.
pub mod bridge;
pub mod frame;
pub mod game;
pub mod unit;
pub mod utils;
pub mod wacca;
