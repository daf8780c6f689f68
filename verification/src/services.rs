//! The store of content nodes and the link index built over it.

pub mod database;
pub mod link_service;

pub use database::connection::{DatabaseService, NodeLink};
pub use link_service::LinkService;
