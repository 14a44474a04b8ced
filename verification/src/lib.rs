//! A tick-to-trade pipeline: market data bytes in, order bytes out.
//!
//! ```text
//! datagrams -> [arbitrate + parse + book] -> [strategy] -> [order session] -> bytes
//! ```
//!
//! - [`feed`]: three wire formats decoded into one event type, the sequenced
//!   datagram framing they arrive in, and generators for test traffic.
//! - [`book`]: per-symbol order books on a windowed price ladder and an open
//!   addressing order table, and the same books on standard collections.
//! - [`pipeline`]: what each stage decides, from datagram to order, and the
//!   counterparty that measures it.
//! - [`spsc`]: the ring between two stages.
//! - [`wire`] and [`powers`]: integers as bytes, and powers of two.
//! - [`promises`]: what callers may rely on, operation by operation.
//!
//! Prices and quantities are fixed-point integers throughout. Sockets, threads
//! and clocks belong to whoever runs the stages.

pub mod book;
pub mod feed;
pub mod pipeline;
pub mod powers;
pub mod promises;
pub mod spsc;
pub mod wire;
