//! A small object store: an append-only log with an in-memory index, the
//! HTTP/1.1 messages that carry it over a socket, and the statistics that its
//! benchmark reports.

pub mod bench;
pub mod client;
pub mod client_laws;
pub mod connection_laws;
pub mod http;
pub mod http_laws;
pub mod message_laws;
pub mod metrics;
pub mod metrics_laws;
pub mod server;
pub mod server_laws;
pub mod store;
pub mod store_laws;
pub mod text;
pub mod text_laws;
pub mod view_laws;

pub use store::ObjectStore;
