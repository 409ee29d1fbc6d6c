//! An incremental computation engine: named input and compute nodes joined by
//! dependency edges, dirty flags pushed downstream when an input changes, and
//! recomputation of the dirty nodes in dependency order.
pub mod engine;
pub mod graph;
pub mod history;
pub mod laws;
pub mod log;
pub mod node;
pub mod scheduler;
pub mod timing;

pub use engine::{DeltaForge, EngineError};
pub use log::{Log, LogEntry};
pub use node::NodeKind;
