//! Verified core of a Linux disk-space reclamation tool.
//!
//! The crate models the safe-deletion pipeline: a backup engine with
//! capacity-bounded retention, a safety policy engine that vets every
//! candidate item, and the orchestration contract that drives the
//! per-backend cleaners with dry-run semantics. All decision logic is
//! verified; filesystem and process side effects are supplied by callers
//! as plain values.

pub mod backup;
pub mod checksum;
pub mod cleaner;
pub mod config;
pub mod detection;
pub mod error;
pub mod glob;
pub mod models;
pub mod old_kernels;
pub mod safety;
pub mod size_format;
pub mod strutil;
pub mod system;
