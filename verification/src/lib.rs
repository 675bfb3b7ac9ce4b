//! Order matching engine with price-time priority.
//!
//! A sequencer assigns every incoming event a sequence number and a timestamp,
//! the matching engine applies it to the order book, and the journal keeps an
//! append-only record from which the book can be rebuilt.

pub mod book;
mod clock;
pub mod engine;
pub mod ids;
pub mod journal;
pub mod laws;
pub mod level;
pub mod matching;
pub mod metrics;
pub mod order;
pub mod sequencer;

pub use book::OrderBook;
pub use engine::MatchingEngine;
pub use journal::EventJournal;
pub use metrics::Metrics;
pub use order::{Order, OrderEvent, OrderId, Price, Quantity, Side};
pub use sequencer::Sequencer;
