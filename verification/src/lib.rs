//! Client node for an overlay packet-switched network of clients, drones and
//! servers. The client discovers the topology by flooding, source-routes every
//! outbound packet, fragments and reassembles application messages, tracks
//! per-link reliability and reroutes around failing links.
//!
//! Rates, smoothing factors and edge weights are held in thousandths
//! throughout: the value 1000 stands for 1.0.

pub mod channels;
pub mod client;
pub mod codec;
pub mod edge_stats;
pub mod mime;
pub mod path;
pub mod topology;
pub mod types;

pub use client::RustbustersClient;
