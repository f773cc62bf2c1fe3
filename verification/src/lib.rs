//! A continuous double-auction matching engine for one instrument.
//!
//! Prices are whole numbers of ticks and quantities whole numbers of lots.
//! The book keeps resting orders in price-time priority and matches each
//! incoming order against the opposite side as far as it crosses.

pub mod engine;
pub mod gateway;
pub mod strategy;
