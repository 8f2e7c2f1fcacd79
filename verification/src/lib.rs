//! Active Defense Gateway: behavioural trust scoring, flow tracking and
//! security-graph analysis for per-host network telemetry.
//!
//! The library holds the gateway's logic: the packet classifier that the
//! kernel program runs on every frame, the windowed host profiler, the trust
//! engine, the bounded flow table, and the communication graph with its
//! traversal algorithms.
pub mod common;
pub mod ordering;
pub mod sorted;
pub mod packet;
pub mod profiler;
pub mod trust;
pub mod window;
pub mod events;
pub mod network_intelligence;
