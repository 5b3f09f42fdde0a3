pub mod builder;
pub mod node;
pub mod tree;
