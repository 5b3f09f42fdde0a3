pub mod obj;
