//! Decoders and encoders for the plain-text notations in which bridge deals
//! circulate: the fixed-column "newspaper" layout, the pipe-tokenized hand
//! record, the tag-based board file, and the single-line dot notation, plus a
//! streaming reader that auto-detects the notation line by line.

mod cards;
mod error;
pub mod lin;
pub mod oneline;
pub mod pbn;
pub mod printall;
mod reader;
mod text;

pub use cards::{Card, Deal, DealModel, Direction, Hand, Rank, Suit, Vulnerability};
pub use pbn::{Board, TagPair};
pub use error::ParseError;
pub use reader::{is_board_number_line, DealReader};
