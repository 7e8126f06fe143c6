//! The annotation formats.
pub mod object_detection;

pub use crate::coco::object_detection::HashmapDataset as COCO;
