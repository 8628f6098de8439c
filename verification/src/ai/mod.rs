//! The pure parts of the AI helpers: reading model replies, chunking text,
//! and the knowledge-base health checks.

pub mod generate;
pub mod tag;
pub mod health;
