pub mod node;
pub mod text;
pub mod node_map;
pub mod ingest;
pub mod laws;
pub mod query;
pub mod consistency;
pub mod batch;
