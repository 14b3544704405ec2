//! A limit order book with price-time priority.
//!
//! `engine` takes orders and cancellations; `model` says what each of them does, over the
//! queues of `queue` and the walks of `matching`; `laws` and `feed` say what follows. `promises`
//! and `book_laws` tell by the calls alone what a caller can count on.
pub mod api;
pub mod book;
pub mod book_laws;
pub mod clock;
pub mod config;
pub mod engine;
pub mod errors;
pub mod feed;
pub mod laws;
pub mod limits;
pub mod load;
pub mod matching;
pub mod model;
pub mod promises;
pub mod queue;
pub mod service;
pub mod session;
pub mod sums;
pub mod text;
pub mod types;
pub mod upkeep;
