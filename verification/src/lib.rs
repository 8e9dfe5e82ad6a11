//! Subordinate UID/GID mapping tables for unprivileged containers.
//!
//! Mapping tokens such as `1000-1005:1100` are parsed into [`mappings::Mapping`]
//! values, merged into a sorted [`mappings::Mappings`] table, and completed
//! with synthesized mappings until the whole container ID space is covered.

pub mod mapping;
pub mod mappings;
pub mod parsers;
pub mod render;
pub mod text;
