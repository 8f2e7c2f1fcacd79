//! Flow-level and graph-level network intelligence.
pub mod flow_table;
pub mod host_context;
pub mod security_graph;
pub mod graph_algorithms;
