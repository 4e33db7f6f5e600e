//! Candle-series acquisition and streaming technical-indicator engine.
//!
//! The crate assembles a chronologically ordered OHLCV series from paged
//! fetches, computes a fixed catalogue of technical indicators over it in a
//! single forward pass, and renders the series, the indicator results and a
//! small sentiment series into one structured text report.
//!
//! Prices and volumes are carried as fixed-point integers with eight decimal
//! places (see [`num::SCALE`]), so every computation is exact integer
//! arithmetic with proved bounds.

pub mod anthropic;
pub mod candle;
pub mod dates;
pub mod engine;
pub mod errors;
pub mod extract;
pub mod indicators;
pub mod num;
pub mod parse;
pub mod prompt;
pub mod report;
pub mod sentiment;
pub mod paging;
pub mod text;
