//! Verified core of a multi-tenant file-storage backend: logical path
//! handling, per-file access control, a reference-counted deduplicating
//! content store, namespace-tree operations, and permission-scoped batch
//! export into archives.

pub mod archive;
pub mod batch;
pub mod config;
pub mod content;
pub mod decimal;
pub mod digest;
pub mod encoding;
pub mod entry;
pub mod errors;
pub mod laws;
pub mod listing;
pub mod mime;
pub mod models;
pub mod namespace;
pub mod paths;
pub mod sizefmt;
pub mod store;
pub mod strutil;
pub mod textnorm;
