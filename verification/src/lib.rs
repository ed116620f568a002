//! Feature extraction from segmentation rasters: connected components of a
//! class, their traced pixel-edge outlines, and the decisions around running
//! a segmentation model.
pub mod grid;
pub mod connectivity;
pub mod counting;
pub mod polygonize;
pub mod outline;
pub mod walk;
pub mod area;
pub mod translate;
pub mod model;
pub mod onnx;
pub mod commands;
