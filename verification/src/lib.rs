//! Geometric deduplication of recorded movement tracks.
//!
//! Given one or more ordered polylines ("tracks"), the library finds portions
//! that pass close to each other — within a single track (a loop closing on
//! itself) or across different tracks (shared path segments) — and cuts every
//! track into maximal sub-ranges ("chunks") such that no two chunks belonging
//! to different tracks remain closer than a density-derived threshold.
//!
//! Coordinates are plain integers (a projected, scaled grid), so every
//! distance, threshold and length computation is exact and verified.

pub mod chunk;
pub mod geom_utils;
pub mod segment_splitter;
