//! A limit-order matching engine: per-symbol price-ordered books of resting
//! limit orders, matched under strict price-time priority, with a sequenced
//! batch command processor and the pure parts of the ingestion layer.

pub mod batch;
pub mod book;
pub mod ingest;
pub mod laws;
pub mod lemmas;
pub mod model;
pub mod types;

pub use book::OrderBook;
pub use types::Command;
pub use types::EngineError;
pub use types::MultiRawCommand;
pub use types::Options;
pub use types::Order;
pub use types::OrderId;
pub use types::OrderType;
pub use types::RawCommand;
pub use types::Side;
pub use types::Trade;
