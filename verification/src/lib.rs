//! Verified core of a LiDAR point-cloud to contour-map pipeline.
//!
//! The library holds the logic of the pipeline: the binary record store,
//! the heightmap grid and its byte format, the geometry containers, the
//! computation cache decisions, polyline cropping and assembly, and the
//! in-memory file tree. Floating-point samples are carried as their
//! IEEE-754 bit patterns (`u64` for wide, `u32` for narrow samples), and
//! every decision the logic takes on them (ordering, NaN handling) is
//! implemented and verified here on the bit level.

pub mod bytes;
pub mod cache;
pub mod contours;
pub mod crop;
pub mod fbits;
pub mod geometry;
pub mod heightmap;
pub mod memfs;
pub mod merge;
pub mod xyz;

pub use geometry::Classification;
