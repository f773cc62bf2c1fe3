//! Orders, trades and the order book.

pub mod laws;
pub mod matching;
pub mod order_book;
pub mod types;
