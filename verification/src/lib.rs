//! Writer for compact vector map tiles.
//!
//! Callers describe geometric features in tile-local integer coordinates,
//! attach typed attributes, and group features into named layers. The crate
//! validates the input against the tile format's conformance rules, encodes
//! geometries into a drawing-command stream, deduplicates attribute keys and
//! values into per-layer tables, and hands the validated tree to a wire
//! serializer.

pub mod common;
pub mod error;
pub mod geometry;
pub mod write;
