//! Sources of orders.

pub mod simple_bot;
