//! Storage core of an embedded graph database: an in-memory graph store with
//! label and adjacency indexes, a write-ahead-log record model, and the
//! rebuilding of a store from flushed segments and replayed log records.

pub mod entities;
pub mod store;
pub mod wal;
pub mod json;
pub mod laws;
pub mod segments;

pub use entities::{Edge, EdgeId, EngineError, GraphReadStore, GraphWriteStore, Node, NodeId, Properties};
pub use store::InMemoryGraphStore;
pub use wal::WalRecord;
