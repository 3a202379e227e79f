//! Verified core of a mirror for a Nix binary cache.
//!
//! The crate holds the rules of the mirror as plain functions on plain values:
//! store paths and the narinfo text format, the catalog of artifacts, the
//! recursive metadata crawl with its dependency graph, and the decisions of the
//! HTTP serving layer. Transport, files and the async runtime stay with the caller.

pub mod database;
pub mod hash_index;
pub mod server;
pub mod text;
pub mod update;
