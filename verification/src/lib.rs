//! Decoder for the WAD level-container format and a binary-space-partition
//! traversal engine.
//!
//! A container file holds named binary records ("lumps"). A fixed run of
//! consecutive lumps makes up one level: object placements, wall edges,
//! surfaces, vertices, wall segments, convex regions, partition nodes and
//! areas. This crate parses the container directory, groups lumps into
//! levels, decodes every fixed-layout record kind, validates all
//! cross-references once at construction, and answers front-to-back
//! ordering queries over the partition tree for a given viewpoint.

pub mod bsp;
pub mod bytes;
pub mod encode;
pub mod error;
pub mod name;
pub mod records;
pub mod wad;
