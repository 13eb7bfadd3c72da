//! Server-side core of a real-time collaborative document editor.
//!
//! Clients connect to a named room and exchange document updates encoded as
//! operations of a conflict-free replicated data type (CRDT).  The core keeps,
//! per room, a monotonically numbered append-only update log together with a
//! set of snapshots, materializes an in-memory document replica on the first
//! connection, and persists every applied update through a bounded pipeline.

pub mod auth;
pub mod converter;
pub mod config;
pub mod rooms;
pub(crate) mod text;
