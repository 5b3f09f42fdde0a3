pub mod defs;
pub mod error;
pub mod expand;
pub mod resolve;
pub mod scene;
pub mod transform;
pub mod value;
pub mod text;
