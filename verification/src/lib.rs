//! A software rasterizer over exact fixed-point coordinates.
//!
//! Triangle meshes are scan-converted into an RGB pixel buffer with a
//! per-pixel depth buffer resolving visibility. All coordinates are
//! fixed-point numbers ([`fixed::Fx`]): every arithmetic step is exact
//! integer arithmetic, so each routine carries a contract that pins its
//! result down and Verus proves the pipeline against those contracts.

pub mod fixed;
pub mod geometry;
pub mod image;
pub mod matrix;
pub mod render;

pub use fixed::Fx;
pub use fixed::SCALE;
pub use geometry::{Point, Point3D, Triangle};
pub use image::{ImageMeta, RGBPixel, Texture};
pub use matrix::{Matrix3x3, Matrix4x4};
