//! Short, sortable, routable identifiers and the Base62 codec they are built on.

pub mod base62;
pub mod keys;
pub mod config;
pub mod models;
