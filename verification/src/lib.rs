//! A verified market-data core: per-symbol limit order books fed by an
//! exchange's depth and trade streams, and the fan-out of their
//! snapshots to a pub/sub bus, a TTL-bounded quote cache, and a
//! lock-free shared-memory ring.
//!
//! Prices and quantities are fixed-scale decimals: integer mantissas at
//! eight fractional digits (`decimal`). Books live in a store keyed by
//! symbol (`book`, `store`); depth deltas pass a sequence rule — stale
//! deltas dropped, gaps refused, crossed books reset — and the first
//! delta for an absent symbol bootstraps it. Inbound frames are decoded
//! from their bytes (`frames`), outbound payloads are rendered to
//! canonical JSON (`wire`, `publish`), and every decision of the feed
//! client is a pure function (`feed`). The binary around the library
//! performs the network and clock I/O and nothing else.

pub mod book;
pub mod breaker;
pub mod config;
pub mod dashboard;
pub mod decimal;
pub mod errors;
pub mod feed;
pub mod frames;
pub mod health;
pub mod ids;
pub mod publish;
pub mod ring;
pub mod store;
pub mod sys;
pub mod text;
pub mod timestamp;
pub mod wire;
