//! Rendering of H3 cell sets as Mapbox Vector Tile layers.
//!
//! The crate models the integer core of the pipeline: tile identifiers in the
//! XYZ web-mercator grid, the padded tile bounding box (kept in exact
//! fixed-point grid units), ring nesting for multi-polygon assembly, and the
//! tile-local pixel-space steps of the renderer (visibility culling and the
//! scratch carve-out).  Floating-point projection and the MVT encoding proper
//! live outside the verified core.

pub mod bbox;
pub mod cells;
pub mod coverage;
pub mod error;
pub mod geom;
pub mod render;
pub mod ring_hierarchy;
pub mod tile;
