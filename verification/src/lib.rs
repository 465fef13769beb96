use vstd::prelude::*;

pub mod book;
pub mod checkpoint;
pub mod clob;
pub mod codec;
pub mod engine;
pub mod error;
pub mod fees;
pub mod gateway;
pub mod journal;
pub mod l3feed;
pub mod marketdata;
pub mod mirror;
pub mod admission;
pub mod order;
pub mod output;
pub mod risk;
pub mod sequencer;
pub mod snapshot;
pub mod stops;
pub mod tape;
pub mod types;
pub mod wal;

pub use book::model::RestingOrder;
pub use book::{MatchOutcome, OrderBook};
pub use clob::Clob;
pub use codec::{CodecError, Reader, Writer};
pub use engine::MatchingEngine;
pub use error::RejectReason;
pub use fees::FeeConfig;
pub use gateway::Gateway;
pub use journal::JournalError;
pub use l3feed::{L3Delta, L3Feed, L3Update};
pub use marketdata::{L2Feed, L2Level, L2Snapshot, L2Update, L3Order, L3Snapshot};
pub use order::{CancelOrder, Command, ModifyOrder, NewOrder};
pub use output::Event;
pub use risk::RiskConfig;
pub use sequencer::Sequencer;
pub use snapshot::SnapshotState;
pub use tape::{TapeTrade, TradeTape};
pub use types::{
    AccountId, OrderId, OrderType, Price, Qty, SeqNum, Side, StpMode, TimeInForce, Timestamp,
};
pub use wal::read_commands;

verus! {

} // verus!
