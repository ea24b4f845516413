//! Reverse-geocoding index: decodes a block-structured binary map extract,
//! assembles closed area boundaries, and answers point-in-polygon queries
//! with a smallest-area tie-break. The built index can be persisted to and
//! restored from a versioned binary cache artifact.

pub mod assemble;
pub mod cache;
pub mod geom;
pub mod index;
pub mod pbf;

pub use geom::GeoPoint;
pub use index::{Boundary, GeoIndex};
