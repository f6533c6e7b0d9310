//! Reconciles a declared set of schema migrations with the set that a
//! database records as already executed.
//!
//! Versions are dot-separated sequences of non-negative integers with a total
//! order; a registry collects the declared migrations by version; the engine
//! joins the declared and the recorded migrations by version and reports
//! every recorded migration that was never declared.

pub mod migration;
pub mod order;
pub mod sync;
pub mod text;
pub mod types;
pub mod version;
pub mod version_map;

pub use migration::{ExecutedMigrationInfo, MigrationInfo};
pub use version::{ParseVersionError, Version};
