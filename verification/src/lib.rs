//! Aggregates limit-order-book updates from several exchanges into one
//! unified top-of-book view.
//!
//! The library holds the verified core: the domain model (assets, symbols,
//! levels, summaries), the decoding of exchange websocket frames, the merger
//! that keeps one sorted book per side with a per-exchange replacement rule,
//! and the fan-out policy that broadcasts each emitted summary to bounded
//! per-subscriber queues.  The surrounding process (websocket transport, RPC
//! transport, signal handling) lives outside the library and hands it plain
//! values.

pub mod types;

pub mod cli;

pub mod decimal;

pub mod json;

pub mod frames;

pub mod binance;

pub mod bitstamp;

pub mod merger;

pub mod server;
