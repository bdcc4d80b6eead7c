//! The ways a product can fail to open or a read can fail.
use vstd::prelude::*;

verus! {

/// A failure of discovery or of a read. Failures of the raster library, the
/// projection library, the pixel reader and the array allocation arrive as
/// their messages.
#[derive(Debug, PartialEq, Eq)]
pub enum RasterError {
    GdalError(String),
    ProjError(String),
    RastersError(String),
    ShapeError(String),
    BandNotFound(String),
    BandTransformNotInvertible(String),
    MetadataKeyNotFound { dataset_path: String, key: String },
    MultipleProjectionsInDataset(String),
}

} // verus!
