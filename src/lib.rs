//! A topic-based publish/subscribe broker: the topic registry with its
//! per-subscriber queues, the tracker of deferred GET requests, the wire
//! protocol, the request dispatcher, and snapshot export and import.
pub mod broker;
pub mod client;
pub mod keyed;
pub mod laws;
pub mod pending;
pub mod protocol;
pub mod registry;
