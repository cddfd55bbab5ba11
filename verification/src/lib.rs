//! Definition-partitioning and name-resolution core of a scripting-language
//! module system.
//!
//! Source files declare named *type* and *impl* items plus import/export
//! directives. This library builds a hierarchical namespace graph of
//! "partitions" (boundaries), enforces uniqueness and visibility rules, and
//! resolves cross-boundary glob imports into concrete item references.

pub mod error;
pub mod fuzzy;
pub mod globs;
pub mod hir;
pub mod input;
pub mod name;
pub mod node;
pub mod partitions;
pub mod strutil;
