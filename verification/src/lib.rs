//! Core of a deterministic, in-memory matching engine: limit order books with
//! price-time priority, a two-phase risk engine, and the pipeline that drives
//! them, with every function proved against a mathematical model of the book.

pub mod api;
pub mod exchange;
pub mod journal;
pub mod laws;
pub mod orderbook;
pub mod pipeline;
pub mod processors;
pub mod recovery;
pub mod snapshot;
pub mod users;
