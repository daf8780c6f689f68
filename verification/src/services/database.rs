//! The hierarchical content store.

pub mod connection;
pub mod export;
pub mod laws;
pub mod model;
pub mod nodes;
pub mod schema;
pub mod search;
pub mod stats;
