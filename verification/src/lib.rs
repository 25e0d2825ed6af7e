//! A metadata transaction engine for a sharded file-system namespace.

pub mod checker;
pub mod collections;
pub mod convert;
pub mod engine;
pub mod error;
pub mod executor;
pub mod indices;
pub mod laws;
pub mod lock;
pub mod model;
pub mod path;
pub mod proto;
pub mod router;
pub mod scc;
pub mod serial;
pub mod state;
pub mod storage;
pub mod workload;

pub use error::{Error, Result};
