//! Tools for datasets in the COCO format: the annotation types, the lookups by
//! id, and the conversions between the encodings of a segmentation mask.
pub mod binary64;
pub mod coco;
pub mod errors;
pub mod mask;
pub mod python;
pub mod visualize;

pub use crate::coco::COCO;
