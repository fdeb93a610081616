//! A host-facing facade over an embedded publish/subscribe runtime:
//! configuration parsing, validation and serialization, plus the
//! deterministic core of time-bounded peer discovery.

pub mod chars;
pub mod error;
pub mod schema;
pub mod text;
pub mod config;
pub mod props;
pub mod roundtrip;
pub mod scout;
