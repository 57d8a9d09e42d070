//! A verified core for searching a directory tree by name, kind and
//! extension, with results ordered by modification time.

pub mod clock;
pub mod engine;
pub mod entry;
pub mod error;
pub mod orchestrator;
pub mod order;
pub mod request;
pub mod result;
pub mod sorting;
pub mod text;
pub mod token;
