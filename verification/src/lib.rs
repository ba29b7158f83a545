//! A user-configurable ignore-pattern engine for a disk-usage scanner.
//!
//! The library decides, per filesystem path, whether the path is excluded
//! from traversal and size accounting, based on an ordered, persisted list
//! of enable/disable-able glob-style patterns.
//!
//! - [`glob`] holds the anchored `*`/`?` glob matcher.
//! - [`matcher`] normalizes a path and applies three independent match
//!   strategies (suffix, per-segment, full-path) against one pattern.
//! - [`store`] holds the ordered collection of `(pattern, enabled)` entries
//!   and its list/add/remove/toggle operations.
//! - [`codec`] turns a store into its persisted JSON text and back, and
//!   proves that the round trip is the identity.
//!
//! File and directory I/O (reading and writing the persisted file, resolving
//! the per-user configuration directory) is left to the embedding program.

pub mod glob;
pub mod matcher;
pub mod store;
pub mod codec;
