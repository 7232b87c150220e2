//! Plain data types of the engine: sides, identifiers, orders, trades,
//! sequenced commands, errors, and the raw (unsequenced) command forms
//! accepted by the ingestion layer.

use vstd::prelude::*;

verus! {

/// Which side of the book an order belongs to.
#[derive(Debug, Clone, Copy, PartialEq, Eq, Hash, Structural)]
pub enum Side {
    Buy,
    Sell,
}

/// Whether an order is a limit order (may rest) or a market order (never rests).
#[derive(Debug, Clone, Copy, PartialEq, Eq, Hash, Structural)]
pub enum OrderType {
    Limit,
    Market,
}

/// An opaque order identifier, unique within one book for the life of that
/// book. Allocated by a monotonically increasing counter starting at 1.
#[derive(Debug, Clone, Copy, PartialEq, Eq, Hash, Structural)]
pub struct OrderId(pub u64);

/// A resting order. `qty` is always the *remaining* quantity.
#[derive(Debug, Clone)]
pub struct Order {
    pub id: OrderId,
    pub side: Side,
    pub price: u64,
    pub qty: u64,
    pub order_type: OrderType,
    pub ts: u64,
}

/// A fill between an incoming taker and a resting maker, always priced at the
/// maker's resting price.
#[derive(Debug, Clone)]
pub struct Trade {
    pub taker_id: OrderId,
    pub maker_id: OrderId,
    pub price: u64,
    pub qty: u64,
}

/// A sequenced command, as executed by the batch processor. `seq` is a
/// per-symbol strictly increasing number.
#[derive(Debug, Clone, Copy, PartialEq, Eq, Structural)]
pub enum Command {
    Limit { seq: u64, side: Side, price: u64, qty: u64 },
    Market { seq: u64, side: Side, qty: u64 },
    Cancel { seq: u64, id: OrderId },
}

/// The sequence number of a command.
pub open spec fn spec_seq_of(c: Command) -> u64 {
    match c {
        Command::Limit { seq, .. } => seq,
        Command::Market { seq, .. } => seq,
        Command::Cancel { seq, .. } => seq,
    }
}

/// Extracts the sequence number of a command.
pub fn seq_of(c: &Command) -> (s: u64)
    ensures
        s == spec_seq_of(*c),
{
    match *c {
        Command::Limit { seq, .. } => seq,
        Command::Market { seq, .. } => seq,
        Command::Cancel { seq, .. } => seq,
    }
}

/// Errors the engine can return.
#[derive(Debug, Clone, Copy, PartialEq, Eq, Structural)]
pub enum EngineError {
    /// A cancel targeted an id absent from the book.
    UnknownOrder,
    /// Reserved for side-specific validations; currently never returned.
    InvalidSide,
    /// A batch contained duplicate or non-increasing sequence numbers.
    InvalidSequence,
}

impl EngineError {
    /// A one-line human-readable description of the error.
    pub fn message(&self) -> (m: &'static str)
        ensures
            *self == EngineError::UnknownOrder ==> m@ == "unknown order id"@,
            *self == EngineError::InvalidSide ==> m@ == "invalid side for operation"@,
            *self == EngineError::InvalidSequence ==> m@ == "invalid sequence in batch"@,
    {
        match *self {
            EngineError::UnknownOrder => "unknown order id",
            EngineError::InvalidSide => "invalid side for operation",
            EngineError::InvalidSequence => "invalid sequence in batch",
        }
    }
}

/// An unsequenced command as submitted by producers; the worker assigns the
/// sequence number on admission.
#[derive(Debug, Clone, Copy)]
pub enum RawCommand {
    Limit { side: Side, price: u64, qty: u64 },
    Market { side: Side, qty: u64 },
    Cancel { id: OrderId },
}

/// An unsequenced command addressed to one symbol's book.
#[derive(Debug, Clone)]
pub struct MultiRawCommand {
    pub symbol: String,
    pub cmd: RawCommand,
}

/// Configuration of the ingestion workers.
#[derive(Clone, Copy)]
pub struct Options {
    /// Upper bound on commands per processed batch per worker.
    pub batch_size: usize,
    /// If false, trades are discarded after matching.
    pub emit_trades: bool,
    /// If positive, a worker waits up to this many microseconds to fill a batch.
    pub coalesce_micros: u32,
}

} // verus!
