//! Resolve-then-download pipeline for sample files: extension handling, the
//! site catalog, link resolution, filename derivation and the fail-fast join
//! of concurrent stage results.

pub mod catalog;
pub mod download;
pub mod error;
pub mod extension;
pub mod map;
pub mod resolve;
pub mod stage;
pub mod text;
