//! Persistence core of a hierarchical, block-based note application.
//!
//! The crate keeps a tree of content nodes together with the directed link
//! graph derived from the `[[wiki-link]]` references in their text. Every
//! operation is stated over a mathematical view of the store and proved
//! against it.

pub mod errors;
pub mod json;
pub mod models;
pub mod ordering;
pub mod services;
pub mod text;
pub mod text_map;
pub mod utils;

pub use errors::{AppError, AppResult};
pub use models::{CreateNodeRequest, Node, NodeWithChildren, UpdateNodeRequest};
pub use services::{DatabaseService, LinkService, NodeLink};
