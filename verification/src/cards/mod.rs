//! Card data types and question hashing.

pub mod types;
pub mod hash;
