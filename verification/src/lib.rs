//! A retiling engine for tiled raster datasets.
//!
//! The library re-tiles a raster dataset addressed by integer tile
//! coordinates into a second dataset with a different tile size and a
//! pyramid of zoom levels, using area-average downsampling.  It holds the
//! coordinate algebra mapping between two independent tiling grids, the job
//! generator performing the spatial join between them, a fixed-capacity
//! least-recently-used cache of raw tile buffers, and the streaming sample
//! accumulator doing box-filter downsampling over packed pixel buffers.
//!
//! Network and filesystem transfer of tile bytes, container formats such as
//! PNG, and the preview endpoint are external collaborators and live outside
//! this crate.

pub mod math;
pub mod tilespace;
pub mod uri_format;
pub mod dataset_cache;
pub mod image;
pub mod sample_accumulator;
pub mod config;
pub mod dataset_writer;
pub mod retiling;

pub use math::Coordinate;
pub use math::Dabb2;
pub use math::TileCoordinate3;
pub use tilespace::Tilespace;
