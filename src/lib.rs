//! Windowed multi-band reads over multi-resolution raster products.
//!
//! The library holds the decisions: which bands a product offers, which
//! occurrence of a band is kept, the reference grid, where each band's pixels
//! lie under that grid, and how the output cube is filled. Opening datasets
//! and reading pixels is left to the caller, who hands plain values in.
pub mod transform;
pub mod text;
pub mod error;
pub mod band;
pub mod raster;

pub use band::{BandGroup, BandInfo, BandLocation, Bands, Metadata, MetadataEntry};
pub use error::RasterError;
pub use raster::{
    collect_metadata, keeps_subdataset, parse_dataset, parse_subdataset, BandRead, Cube, Raster,
    Subdataset,
};
pub use transform::{pixel_map, sample_index, transform_window, GeoTransform, PixelMap};
