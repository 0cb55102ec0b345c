//! Market making on binary event contracts: the order book, the quote and
//! exit decisions, the fill accounting and the spot-feed defence, all in
//! integer fixed point.
//!
//! Units used throughout the crate:
//!
//! * a *price in millidollars* (`md`) is a `u32`, 1 = $0.001;
//! * a *nano* value is an `i64` or `i128` that counts billionths: of a dollar
//!   for prices and money, of one for ratios and rates, of a contract for
//!   resting quantities;
//! * a *time* is an `i64` that counts microseconds.
//!
//! Where a sum or a product leaves its machine range the result is the end of
//! the range, so no function panics on large numbers.

pub mod account_laws;
pub mod api;
pub mod book;
pub mod config;
pub mod engine;
pub mod event_laws;
pub mod executor;
pub mod exposure_laws;
pub mod features;
pub mod json;
pub mod ladder;
pub mod market_laws;
pub mod model;
pub mod quote_laws;
pub mod num;
pub mod number_laws;
pub mod paper;
pub mod replies;
pub mod reply_laws;
pub mod setup_laws;
pub mod spot;
pub mod spotwatch;
pub mod startup;
pub mod state;
pub mod sweeps;
pub mod table;
pub mod text;
pub mod toml_tree;
pub mod trader;
pub mod transport;
pub mod universe;
pub mod upkeep;
