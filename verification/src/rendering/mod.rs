pub mod bvh;
pub mod color;
pub mod image;
pub mod tiles;
