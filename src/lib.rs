//! A durable, append-only timeline of review decisions on suggested code
//! changes, with tag and decision queries and per-tag acceptance counts.

pub mod event;
pub mod store;

pub use event::{DecisionType, TimelineEvent, Timestamp};
pub use store::{Orchestrator, TagRate};
