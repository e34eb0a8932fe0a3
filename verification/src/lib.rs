//! Working-tree status engine: an ignore-pattern matcher, a change
//! classifier that merges backend-reported status with a filesystem
//! fallback scan, and a hierarchical reporter that groups classified
//! paths by directory.
//!
//! The engine itself performs no I/O: callers hand it the bytes of the
//! pattern files, the backend's reported status flags, and the paths a
//! fallback scan discovered, and it decides what is ignored, how each
//! path is classified, and how the result is grouped for display.

pub mod bytes;
pub mod classify;
pub mod report;
pub mod rules;
