//! What is drawn to show the annotations of an image.
pub mod draw;
