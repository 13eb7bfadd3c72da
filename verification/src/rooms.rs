//! Room lifecycle and persistence subsystem.

pub mod doc;
pub mod error;
pub mod in_memory;
pub mod manager;
pub mod storage;
pub mod worker;
