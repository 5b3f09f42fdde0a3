//! Verified core of a modular raytracer.
pub mod camera;
pub mod errors;
pub mod outside;
pub mod plugins;
pub mod primitives;
pub mod rendering;
pub mod scene;
